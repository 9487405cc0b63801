//! Freelist pages.

use obj_core::pager::freelist::{decode, encode, FreeListPage};
use obj_core::pager::page::Page;

#[test]
fn round_trip() {
    for &next in &[0u64, 1, 42, u64::MAX] {
        let mut p = Page::zeroed();
        encode(FreeListPage::new(next), &mut p);
        assert_eq!(decode(&p), Some(FreeListPage { next }));
    }
}

#[test]
fn decode_rejects_bad_tag() {
    let mut p = Page::zeroed();
    p.as_bytes_mut()[0] = 0x03;
    assert!(decode(&p).is_none());
}
