//! The page cache.

use obj_core::pager::cache::Cache;
use obj_core::pager::page::{Page, PageId};

fn id(n: u64) -> PageId {
    PageId::new(n).expect("non-zero")
}

fn page_with(byte: u8) -> Page {
    let mut p = Page::zeroed();
    p.as_bytes_mut()[0] = byte;
    p
}

#[test]
fn empty_cache_misses() {
    let mut c = Cache::new(4);
    assert!(c.get(id(1)).is_none());
}

#[test]
fn insert_then_get() {
    let mut c = Cache::new(2);
    assert!(c.insert(id(1), page_with(0xAA), false).is_none());
    assert_eq!(c.get(id(1)).map(|p| p.as_bytes()[0]), Some(0xAA));
}

#[test]
fn lru_eviction_is_deterministic() {
    let mut c = Cache::new(3);
    for n in 1u8..=3 {
        assert!(c.insert(id(u64::from(n)), page_with(n), false).is_none());
    }
    let _ = c.get(id(1));
    let ev = c.insert(id(4), page_with(4), false).expect("eviction");
    assert_eq!(ev.page_id, id(2));
    assert!(!ev.dirty);
    assert_eq!(c.lru_order(), vec![id(4), id(1), id(3)]);
}

#[test]
fn dirty_eviction_returns_buffer() {
    let mut c = Cache::new(1);
    let _ = c.insert(id(1), page_with(0xAB), true);
    let ev = c.insert(id(2), page_with(0xCD), false).expect("evict");
    assert_eq!(ev.page_id, id(1));
    assert!(ev.dirty);
    assert_eq!(ev.buffer.as_bytes()[0], 0xAB);
}

#[test]
fn evict_releases_frame() {
    let mut c = Cache::new(2);
    let _ = c.insert(id(1), page_with(1), true);
    let _ = c.insert(id(2), page_with(2), false);
    let ev = c.evict(id(1)).expect("evict");
    assert!(ev.dirty);
    assert!(c.insert(id(3), page_with(3), false).is_none());
    assert!(c.get(id(2)).is_some());
}

#[test]
fn drain_dirty_yields_each_dirty_page_once() {
    let mut c = Cache::new(4);
    let _ = c.insert(id(1), page_with(1), true);
    let _ = c.insert(id(2), page_with(2), false);
    let _ = c.insert(id(3), page_with(3), true);
    let mut drained: Vec<u64> = c.drain_dirty().into_iter().map(|(id, _)| id.get()).collect();
    drained.sort_unstable();
    assert_eq!(drained, vec![1, 3]);
    let again: Vec<_> = c.drain_dirty().into_iter().collect();
    assert!(again.is_empty());
}
