//! The pager, over files that live in memory and outlive it.

use obj_core::error::Error;
use obj_core::pager::page::{Page, PageId, PAGE_SIZE};
use obj_core::pager::{wal_path_for, CompressionMode, Config, PageHandle, Pager};
use obj_core::platform::fault::torn_len;
use obj_core::platform::{Entropy, FileBackend, MemoryFile, OsEntropy, SeededEntropy, SyncMode};
use obj_core::wal::Lsn;
use rand_chacha::rand_core::{RngCore, SeedableRng};
use rand_chacha::ChaCha8Rng;
use std::cell::RefCell;
use std::rc::Rc;

/// What goes wrong with a file.
enum Fault {
    Nothing,
    /// Every write leaves only a part behind.
    Torn(ChaCha8Rng),
    /// Every operation that changes something fails once the count is used up.
    After(Rc<RefCell<u64>>),
}

/// A file that outlives its handle.
struct SharedFile {
    bytes: Rc<RefCell<Vec<u8>>>,
    syncs: Rc<RefCell<u64>>,
    modes: Rc<RefCell<Vec<SyncMode>>>,
    fault: Fault,
}

impl SharedFile {
    fn spend(&self) -> Result<(), Error> {
        if let Fault::After(left) = &self.fault {
            let mut left = left.borrow_mut();
            if *left == 0 {
                return Err(Error::Io(std::io::Error::other("out of luck")));
            }
            *left -= 1;
        }
        Ok(())
    }

    fn put(&self, buf: &[u8], offset: u64) {
        let start = offset as usize;
        let mut bytes = self.bytes.borrow_mut();
        if bytes.len() < start + buf.len() {
            bytes.resize(start + buf.len(), 0);
        }
        bytes[start..start + buf.len()].copy_from_slice(buf);
    }
}

impl FileBackend for SharedFile {
    fn len(&self) -> Result<u64, Error> {
        Ok(self.bytes.borrow().len() as u64)
    }

    fn read_exact_at(&self, buf: &mut [u8], offset: u64) -> Result<(), Error> {
        let bytes = self.bytes.borrow();
        let start = offset as usize;
        if start + buf.len() > bytes.len() {
            return Err(Error::Io(std::io::Error::from(
                std::io::ErrorKind::UnexpectedEof,
            )));
        }
        buf.copy_from_slice(&bytes[start..start + buf.len()]);
        Ok(())
    }

    fn write_all_at(&mut self, buf: &[u8], offset: u64) -> Result<(), Error> {
        self.spend()?;
        if let Fault::Torn(rng) = &mut self.fault {
            let kept = torn_len(rng.next_u64(), buf.len());
            self.put(&buf[..kept], offset);
            return Ok(());
        }
        self.put(buf, offset);
        Ok(())
    }

    fn set_len(&mut self, new_len: u64) -> Result<(), Error> {
        self.spend()?;
        self.bytes.borrow_mut().resize(new_len as usize, 0);
        Ok(())
    }

    fn sync_data(&mut self, mode: SyncMode) -> Result<(), Error> {
        self.spend()?;
        *self.syncs.borrow_mut() += 1;
        self.modes.borrow_mut().push(mode);
        Ok(())
    }

    fn sync_all(&mut self) -> Result<(), Error> {
        self.spend()
    }
}

/// The files of a database.
struct Disk {
    main: Rc<RefCell<Vec<u8>>>,
    log: Rc<RefCell<Vec<u8>>>,
    main_syncs: Rc<RefCell<u64>>,
    log_syncs: Rc<RefCell<u64>>,
    main_modes: Rc<RefCell<Vec<SyncMode>>>,
}

impl Disk {
    fn new() -> Self {
        Disk {
            main: Rc::new(RefCell::new(Vec::new())),
            log: Rc::new(RefCell::new(Vec::new())),
            main_syncs: Rc::new(RefCell::new(0)),
            log_syncs: Rc::new(RefCell::new(0)),
            main_modes: Rc::new(RefCell::new(Vec::new())),
        }
    }

    fn try_open(
        &self,
        config: Config,
        main_fault: Fault,
        log_fault: Fault,
    ) -> Result<Pager<SharedFile>, Error> {
        let main = SharedFile {
            bytes: Rc::clone(&self.main),
            syncs: Rc::clone(&self.main_syncs),
            modes: Rc::clone(&self.main_modes),
            fault: main_fault,
        };
        let log = SharedFile {
            bytes: Rc::clone(&self.log),
            syncs: Rc::clone(&self.log_syncs),
            modes: Rc::new(RefCell::new(Vec::new())),
            fault: log_fault,
        };
        let path = wal_path_for("test.obj");
        let mut p = Pager::open_with_backends(main, log, path, config, Box::new(OsEntropy))?;
        p.begin_txn();
        Ok(p)
    }

    fn open(&self, config: Config) -> Pager<SharedFile> {
        match self.try_open(config, Fault::Nothing, Fault::Nothing) {
            Ok(p) => p,
            Err(e) => panic!("open: {e:?}"),
        }
    }

    fn flip(&self, offset: u64, mask: u8) {
        self.main.borrow_mut()[offset as usize] ^= mask;
    }

    fn remove_log(&self) {
        self.log.borrow_mut().clear();
    }
}

fn id(n: u64) -> PageId {
    PageId::new(n).expect("non-zero")
}

fn stamp(byte: u8) -> Page {
    let mut p = Page::zeroed();
    p.as_bytes_mut()[0] = byte;
    p
}

fn first_byte(p: &mut Pager<SharedFile>, page: PageId) -> u8 {
    p.read_page(page).expect("read").as_bytes()[0]
}

#[test]
fn memory_pager_alloc_round_trip() {
    let mut p = Pager::memory(Config::default()).expect("construct");
    let a = p.alloc_page().expect("alloc");
    p.write_page(a, &stamp(0xAB)).expect("write");
    let read = p.read_page(a).expect("read");
    assert_eq!(read.as_bytes()[0], 0xAB);
}

#[test]
fn alloc_and_free_recycles_id() {
    let mut p = Pager::memory(Config::default()).expect("construct");
    let a = p.alloc_page().expect("alloc");
    let b = p.alloc_page().expect("alloc");
    assert_ne!(a, b);
    p.free_page(a).expect("free");
    let c = p.alloc_page().expect("realloc");
    assert_eq!(c, a, "freelist must recycle the most recently freed id");
}

#[test]
fn free_then_alloc_lifo_order() {
    let mut p = Pager::memory(Config::default()).expect("construct");
    let ids: Vec<PageId> = (0..4).map(|_| p.alloc_page().expect("alloc")).collect();
    for &i in &ids {
        p.free_page(i).expect("free");
    }
    let recycled: Vec<PageId> = (0..4).map(|_| p.alloc_page().expect("realloc")).collect();
    let expected: Vec<PageId> = ids.iter().rev().copied().collect();
    assert_eq!(recycled, expected);
}

#[test]
fn file_backend_round_trip() {
    let disk = Disk::new();
    {
        let mut p = disk.open(Config::default());
        let a = p.alloc_page().expect("alloc");
        let mut page = Page::zeroed();
        page.as_bytes_mut()[0..4].copy_from_slice(b"WXYZ");
        p.write_page(a, &page).expect("write");
        p.flush().expect("flush");
    }
    let mut p = disk.open(Config::default());
    let read = p.read_page(id(1)).expect("read");
    assert_eq!(&read.as_bytes()[0..4], b"WXYZ");
}

#[test]
fn close_reopen_preserves_freelist_head() {
    let disk = Disk::new();
    let (a, b) = {
        let mut p = disk.open(Config::default());
        let a = p.alloc_page().expect("alloc");
        let b = p.alloc_page().expect("alloc");
        p.free_page(a).expect("free a");
        p.flush().expect("flush");
        assert_eq!(p.freelist_head(), a.get());
        (a, b)
    };
    let mut p = disk.open(Config::default());
    assert_eq!(p.freelist_head(), a.get());
    let recycled = p.alloc_page().expect("realloc");
    assert_eq!(recycled, a);
    assert_ne!(recycled, b);
}

#[test]
fn cache_evicts_under_pressure() {
    let cfg = Config::default().with_cache_frames(2).expect("cap");
    let mut p = Pager::memory(cfg).expect("construct");
    let a = p.alloc_page().expect("alloc");
    let b = p.alloc_page().expect("alloc");
    let c = p.alloc_page().expect("alloc");
    for &x in &[a, b, c] {
        let _ = p.read_page(x).expect("read");
    }
    assert!(p.read_page(a).is_ok());
    assert!(p.read_page(b).is_ok());
    assert!(p.read_page(c).is_ok());
}

#[test]
fn dirty_eviction_writes_back() {
    let cfg = Config::default().with_cache_frames(1).expect("cap");
    let mut p = Pager::memory(cfg).expect("construct");
    let a = p.alloc_page().expect("alloc");
    let b = p.alloc_page().expect("alloc");
    let mut data = Page::zeroed();
    data.as_bytes_mut()[100] = 0x77;
    p.write_page(a, &data).expect("write");
    let _ = p.read_page(b).expect("read");
    let back = p.read_page(a).expect("read");
    assert_eq!(back.as_bytes()[100], 0x77);
}

#[test]
fn page_count_grows_only_when_freelist_empty() {
    let mut p = Pager::memory(Config::default()).expect("construct");
    let before = p.page_count();
    let a = p.alloc_page().expect("alloc");
    assert_eq!(p.page_count(), before + 1);
    p.free_page(a).expect("free");
    let _ = p.alloc_page().expect("realloc");
    assert_eq!(p.page_count(), before + 1);
}

/// A database of `n` pages with known bytes, flushed.
fn filled(n: u64) -> (Disk, Vec<PageId>) {
    let disk = Disk::new();
    let mut p = disk.open(Config::default());
    let mut ids = Vec::new();
    for i in 0..n {
        let a = p.alloc_page().expect("alloc");
        let mut page = Page::zeroed();
        for (j, b) in page.as_bytes_mut().iter_mut().enumerate().take(64) {
            *b = (i.wrapping_mul(13).wrapping_add(j as u64) & 0xFF) as u8;
        }
        p.write_page(a, &page).expect("write");
        ids.push(a);
    }
    p.flush().expect("flush");
    drop(p);
    (disk, ids)
}

#[test]
fn flipping_a_data_byte_is_detected_as_corruption() {
    let (disk, ids) = filled(1);
    let victim = ids[0];
    disk.flip(victim.byte_offset(0) + 100, 0x55);
    let mut p = disk.open(Config::default());
    match p.read_page(victim) {
        Err(Error::Corruption { page_id }) => assert_eq!(page_id, victim.get()),
        _ => panic!("expected Corruption"),
    }
}

#[test]
fn flipping_the_header_is_detected_at_open() {
    let (disk, _) = filled(1);
    disk.flip(80, 0xFF);
    match disk.try_open(Config::default(), Fault::Nothing, Fault::Nothing) {
        Err(Error::Corruption { page_id }) => assert_eq!(page_id, 0),
        _ => panic!("expected Corruption on header CRC mismatch"),
    }
}

#[test]
fn write_then_read_within_same_session_sees_uncommitted_data() {
    let disk = Disk::new();
    let mut p = disk.open(Config::default());
    let a = p.alloc_page().expect("alloc");
    p.write_page(a, &stamp(0x77)).expect("write");
    assert_eq!(first_byte(&mut p, a), 0x77);
}

#[test]
fn commit_drains_pending_into_view() {
    let disk = Disk::new();
    let mut p = disk.open(Config::default());
    let a = p.alloc_page().expect("alloc");
    let mut page = Page::zeroed();
    page.as_bytes_mut()[100] = 0xAB;
    p.write_page(a, &page).expect("write");
    let lsn = p.commit().expect("commit");
    assert!(lsn >= Lsn::new(1), "commit must assign a positive LSN");
    let read = p.read_page(a).expect("read");
    assert_eq!(read.as_bytes()[100], 0xAB);
}

#[test]
fn empty_commit_returns_zero_lsn() {
    let disk = Disk::new();
    let mut p = disk.open(Config::default());
    let lsn = p.commit().expect("commit");
    assert_eq!(lsn, Lsn::new(0));
}

#[test]
fn memory_pager_commit_is_noop() {
    let mut p = Pager::memory(Config::default()).expect("memory");
    let a = p.alloc_page().expect("alloc");
    p.write_page(a, &stamp(0x42)).expect("write");
    let lsn = p.commit().expect("memory commit");
    assert_eq!(lsn, Lsn::new(0));
    let read = p.read_page(a).expect("read");
    assert_eq!(read.as_bytes()[0], 0x42);
}

#[test]
fn group_commit_assigns_consecutive_lsns() {
    let disk = Disk::new();
    let mut p = disk.open(Config::default());
    let ids: Vec<PageId> = (0..4).map(|_| p.alloc_page().expect("alloc")).collect();
    for (i, &pid) in ids.iter().enumerate() {
        p.write_page(pid, &stamp(i as u8)).expect("write");
    }
    let lsn = p.commit().expect("commit");
    assert_eq!(
        lsn,
        Lsn::new(5),
        "four user frames + one header frame must produce LSNs 1..=5"
    );
    for (i, &pid) in ids.iter().enumerate() {
        assert_eq!(first_byte(&mut p, pid), i as u8);
    }
}

#[test]
fn commit_then_reopen_recovers_data_without_flush() {
    let disk = Disk::new();
    let a = {
        let mut p = disk.open(Config::default());
        let a = p.alloc_page().expect("alloc");
        let mut page = Page::zeroed();
        page.as_bytes_mut()[0..4].copy_from_slice(b"PQRS");
        p.write_page(a, &page).expect("write");
        let _ = p.commit().expect("commit");
        a
    };
    let mut p = disk.open(Config::default());
    let read = p.read_page(a).expect("read");
    assert_eq!(
        &read.as_bytes()[0..4],
        b"PQRS",
        "recovery must replay the committed write"
    );
}

#[test]
fn open_recovers_multiple_commits() {
    let disk = Disk::new();
    let (a, b) = {
        let mut p = disk.open(Config::default());
        let a = p.alloc_page().expect("alloc");
        let b = p.alloc_page().expect("alloc");
        let mut pa = Page::zeroed();
        pa.as_bytes_mut()[10] = 0xAA;
        p.write_page(a, &pa).expect("write a");
        let _ = p.commit().expect("commit 1");
        let mut pa2 = Page::zeroed();
        pa2.as_bytes_mut()[10] = 0xCC;
        let mut pb = Page::zeroed();
        pb.as_bytes_mut()[20] = 0xBB;
        p.write_page(a, &pa2).expect("write a2");
        p.write_page(b, &pb).expect("write b");
        let _ = p.commit().expect("commit 2");
        (a, b)
    };
    let mut p = disk.open(Config::default());
    let ra = p.read_page(a).expect("read a");
    assert_eq!(ra.as_bytes()[10], 0xCC, "later commit wins");
    let rb = p.read_page(b).expect("read b");
    assert_eq!(rb.as_bytes()[20], 0xBB);
}

#[test]
fn batch_extension_covers_all_committed_pages_after_crash() {
    let disk = Disk::new();
    let n_alloc = 37usize;
    let last = {
        let mut p = disk.open(Config::default());
        let mut ids = Vec::new();
        for k in 0..n_alloc {
            let a = p.alloc_page().expect("alloc");
            p.write_page(a, &stamp((k & 0xFF) as u8)).expect("write");
            ids.push(a);
        }
        let _ = p.commit().expect("commit");
        *ids.last().expect("at least one alloc")
    };
    let mut p = disk.open(Config::default());
    let pc = p.page_count();
    for raw in 1..pc {
        assert_eq!(
            first_byte(&mut p, id(raw)),
            ((raw - 1) & 0xFF) as u8,
            "page {raw} content lost across batched extension + crash"
        );
    }
    assert_eq!(
        pc,
        n_alloc as u64 + 1,
        "page_count must equal allocated pages plus page 0"
    );
    assert!(p.read_page(last).is_ok());
}

#[test]
fn partial_batch_commit_crash_reopen_reads_clean() {
    let disk = Disk::new();
    let m_alloc = 5u64;
    {
        let mut p = disk.open(Config::default());
        for k in 0..m_alloc {
            let a = p.alloc_page().expect("alloc");
            p.write_page(a, &stamp(0xA0 + k as u8)).expect("write");
        }
        let _ = p.commit().expect("commit");
    }
    let mut p = disk.open(Config::default());
    let pc = p.page_count();
    assert_eq!(pc, m_alloc + 1);
    for raw in 1..pc {
        assert_eq!(
            first_byte(&mut p, id(raw)),
            0xA0 + (raw - 1) as u8,
            "page {raw} content lost"
        );
    }
}

#[test]
fn uncommitted_writes_are_not_recovered() {
    let disk = Disk::new();
    let a = {
        let mut p = disk.open(Config::default());
        let a = p.alloc_page().expect("alloc");
        p.write_page(a, &stamp(0x00)).expect("write zeros");
        let _ = p.commit().expect("commit");
        p.write_page(a, &stamp(0x55)).expect("write");
        a
    };
    let mut p = disk.open(Config::default());
    assert_ne!(
        first_byte(&mut p, a),
        0x55,
        "uncommitted writes MUST NOT survive a drop / reopen"
    );
}

#[test]
fn wal_sidecar_is_created_on_open() {
    let disk = Disk::new();
    {
        let _p = disk.open(Config::default());
    }
    assert!(
        !disk.log.borrow().is_empty(),
        "WAL sidecar must be created at open"
    );
}

#[test]
fn close_removes_wal_sidecar() {
    let disk = Disk::new();
    let a = {
        let mut p = disk.open(Config::default());
        let a = p.alloc_page().expect("alloc");
        p.write_page(a, &stamp(0x33)).expect("write");
        let _ = p.commit().expect("commit");
        let to_remove = p.close().expect("close");
        assert_eq!(
            to_remove,
            Some(wal_path_for("test.obj")),
            "close names the WAL sidecar for removal"
        );
        a
    };
    disk.remove_log();
    let mut p = disk.open(Config::default());
    assert_eq!(first_byte(&mut p, a), 0x33);
}

#[test]
fn checkpoint_is_idempotent() {
    let disk = Disk::new();
    let mut p = disk.open(Config::default());
    let a = p.alloc_page().expect("alloc");
    p.write_page(a, &stamp(0x44)).expect("write");
    let _ = p.commit().expect("commit");
    p.checkpoint().expect("checkpoint 1");
    p.checkpoint().expect("checkpoint 2");
    assert_eq!(first_byte(&mut p, a), 0x44);
}

#[test]
fn auto_checkpoint_fires_at_threshold() {
    let disk = Disk::new();
    let cfg = Config::default()
        .with_checkpoint_threshold(3)
        .with_cache_frames(8)
        .expect("cache");
    let mut p = disk.open(cfg);
    let ids: Vec<PageId> = (0..5).map(|_| p.alloc_page().expect("alloc")).collect();
    for (i, &pid) in ids.iter().enumerate() {
        p.write_page(pid, &stamp(i as u8)).expect("write");
        let _ = p.commit().expect("commit");
    }
    for (i, &pid) in ids.iter().enumerate() {
        assert_eq!(first_byte(&mut p, pid), i as u8);
    }
    assert!(
        disk.main.borrow().len() > PAGE_SIZE,
        "pages were rolled forward into the main file"
    );
}

#[test]
fn open_after_clean_close_has_no_wal_file() {
    let disk = Disk::new();
    for _ in 0..2 {
        let p = disk.open(Config::default());
        assert!(p.close().expect("close").is_some());
        disk.remove_log();
    }
    assert!(disk.log.borrow().is_empty());
}

#[test]
fn salt_rotates_on_checkpoint() {
    let disk = Disk::new();
    let mut p = disk.open(Config::default());
    let a = p.alloc_page().expect("alloc");
    p.write_page(a, &stamp(0x77)).expect("write");
    let _ = p.commit().expect("commit");
    let salt_before = disk.main.borrow()[40..44].to_vec();
    p.checkpoint().expect("checkpoint");
    let salt_after = disk.main.borrow()[40..44].to_vec();
    assert_ne!(salt_before, salt_after);
    drop(p);
    let mut p2 = disk.open(Config::default());
    assert_eq!(first_byte(&mut p2, a), 0x77);
}

fn unhurried() -> Config {
    Config::default().with_checkpoint_threshold(u64::MAX)
}

#[test]
fn snapshot_sees_committed_view_at_pin_time() {
    let disk = Disk::new();
    let mut p = disk.open(Config::default());
    let a = p.alloc_page().expect("alloc");
    p.write_page(a, &stamp(0x11)).expect("write");
    let _ = p.commit().expect("commit 1");
    let snap = p.reader_snapshot();
    p.write_page(a, &stamp(0x22)).expect("write 2");
    let _ = p.commit().expect("commit 2");
    let page = snap.read_page(&p, a).expect("snap read");
    assert_eq!(page.as_bytes()[0], 0x11, "snapshot must see frozen view");
}

#[test]
fn fresh_snapshot_sees_latest_writer_commit() {
    let disk = Disk::new();
    let mut p = disk.open(Config::default());
    let a = p.alloc_page().expect("alloc");
    p.write_page(a, &stamp(0x11)).expect("write");
    let _ = p.commit().expect("commit 1");
    p.write_page(a, &stamp(0x22)).expect("write 2");
    let _ = p.commit().expect("commit 2");
    let snap = p.reader_snapshot();
    let page = snap.read_page(&p, a).expect("snap read");
    assert_eq!(page.as_bytes()[0], 0x22, "fresh snapshot must see latest");
}

#[test]
fn pending_writes_invisible_to_snapshot() {
    let disk = Disk::new();
    let mut p = disk.open(Config::default());
    let a = p.alloc_page().expect("alloc");
    p.write_page(a, &stamp(0x11)).expect("write");
    let _ = p.commit().expect("commit");
    p.write_page(a, &stamp(0xFF)).expect("pending");
    let snap = p.reader_snapshot();
    let page = snap.read_page(&p, a).expect("snap read");
    assert_eq!(
        page.as_bytes()[0],
        0x11,
        "pending writes must NOT be visible to a snapshot",
    );
}

#[test]
fn checkpoint_skipped_while_snapshot_pins_old_lsn() {
    let disk = Disk::new();
    let mut p = disk.open(unhurried());
    let a = p.alloc_page().expect("alloc");
    p.write_page(a, &stamp(0x11)).expect("write");
    let _ = p.commit().expect("commit 1");
    let _snap = p.reader_snapshot();
    p.write_page(a, &stamp(0x22)).expect("write 2");
    let _ = p.commit().expect("commit 2");
    let log_before = disk.log.borrow().clone();
    p.checkpoint().expect("checkpoint");
    let log_after = disk.log.borrow().clone();
    assert_eq!(
        log_before, log_after,
        "checkpoint must defer while snapshot pins old LSN"
    );
}

#[test]
fn dropping_snapshot_allows_checkpoint() {
    let disk = Disk::new();
    let mut p = disk.open(unhurried());
    let a = p.alloc_page().expect("alloc");
    p.write_page(a, &stamp(0x11)).expect("write");
    let _ = p.commit().expect("commit");
    let snap = p.reader_snapshot();
    assert_eq!(p.live_snapshot_count(), 1);
    p.release_snapshot(snap);
    assert_eq!(p.live_snapshot_count(), 0);
    let log_before = disk.log.borrow().clone();
    p.checkpoint()
        .expect("checkpoint must run cleanly after snapshot drop");
    assert_ne!(log_before, disk.log.borrow().clone());
}

#[test]
fn snapshot_id_is_monotonic() {
    let disk = Disk::new();
    let mut p = disk.open(Config::default());
    let s1 = p.reader_snapshot();
    let s2 = p.reader_snapshot();
    assert!(s2.id().get() > s1.id().get());
}

#[test]
fn min_pinned_lsn_tracks_lowest_live_reader() {
    let disk = Disk::new();
    let mut p = disk.open(unhurried());
    let a = p.alloc_page().expect("alloc");
    p.write_page(a, &stamp(0x11)).expect("write");
    let _ = p.commit().expect("commit 1");
    let s1 = p.reader_snapshot();
    let s1_lsn = s1.pinned_lsn();
    p.write_page(a, &stamp(0x22)).expect("write 2");
    let _ = p.commit().expect("commit 2");
    let s2 = p.reader_snapshot();
    let s2_lsn = s2.pinned_lsn();
    assert!(s2_lsn > s1_lsn);
    assert_eq!(p.min_pinned_lsn(), Some(s1_lsn));
    p.release_snapshot(s1);
    assert_eq!(p.min_pinned_lsn(), Some(s2_lsn));
    p.release_snapshot(s2);
    assert_eq!(p.min_pinned_lsn(), None);
}

#[test]
fn memory_pager_snapshot_works_with_empty_view() {
    let mut p = Pager::memory(Config::default()).expect("mem pager");
    let snap = p.reader_snapshot();
    assert_eq!(snap.pinned_lsn(), Lsn::new(0), "memory pager has no WAL");
    assert_eq!(p.live_snapshot_count(), 1);
}

#[test]
fn snapshot_does_not_observe_page_committed_after_pin() {
    let disk = Disk::new();
    let mut p = disk.open(unhurried());
    let a = p.alloc_page().expect("alloc a");
    p.write_page(a, &stamp(0x11)).expect("write a");
    let _ = p.commit().expect("commit a");
    let snap = p.reader_snapshot();
    let b = p.alloc_page().expect("alloc b");
    p.write_page(b, &stamp(0x22)).expect("write b");
    let _ = p.commit().expect("commit b");
    assert_ne!(a, b, "b must be a distinct page id");
    let seen_a = snap.read_page(&p, a).expect("snap read a");
    assert_eq!(
        seen_a.as_bytes()[0],
        0x11,
        "snapshot must still observe the page committed before its pin",
    );
    let frozen_has_b = snap.frozen_pages().iter().any(|(n, _)| *n == b.get());
    assert!(
        !frozen_has_b,
        "post-pin commit must NOT appear in the snapshot's frozen view",
    );
    let seen_b = snap.read_page(&p, b).expect("snap read b");
    assert_ne!(
        seen_b.as_bytes()[0],
        0x22,
        "snapshot must NOT observe the body committed after its pin",
    );
}

#[test]
fn frozen_view_hit_is_shared_and_into_page_round_trips() {
    let disk = Disk::new();
    let mut p = disk.open(Config::default());
    let a = p.alloc_page().expect("alloc");
    p.write_page(a, &stamp(0x11)).expect("write");
    let _ = p.commit().expect("commit 1");
    let snap = p.reader_snapshot();
    p.write_page(a, &stamp(0x22)).expect("write 2");
    let _ = p.commit().expect("commit 2");
    let handle = snap.read_page(&p, a).expect("snap read");
    assert!(
        matches!(handle, PageHandle::Shared(_)),
        "frozen-view hit must return PageHandle::Shared",
    );
    assert_eq!(handle.as_bytes()[0], 0x11, "shared arm must see frozen body");
    let owned = handle.into_page();
    assert_eq!(
        owned.as_bytes()[0],
        0x11,
        "into_page on the Shared arm must round-trip the frozen body",
    );
}

#[test]
fn frozen_view_miss_owned_arm_still_checksum_verifies() {
    let disk = Disk::new();
    let a = {
        let mut p = disk.open(Config::default());
        let a = p.alloc_page().expect("alloc");
        p.write_page(a, &stamp(0x11)).expect("write a");
        let _ = p.commit().expect("commit a");
        p.checkpoint().expect("checkpoint");
        a
    };
    {
        let mut p = disk.open(Config::default());
        let snap = p.reader_snapshot();
        assert!(
            !snap.frozen_pages().iter().any(|(n, _)| *n == a.get()),
            "fresh-open snapshot must not hold `a` in its frozen view",
        );
        let handle = snap.read_page(&p, a).expect("clean owned read");
        assert!(
            matches!(handle, PageHandle::Owned(_)),
            "frozen-view miss must return PageHandle::Owned via the disk path",
        );
        assert_eq!(
            handle.as_bytes()[0],
            0x11,
            "owned arm must see the main-file body",
        );
    }
    disk.flip(a.byte_offset(0) + 16, 0x01);
    let mut p = disk.open(Config::default());
    let snap = p.reader_snapshot();
    match snap.read_page(&p, a) {
        Err(Error::Corruption { page_id }) => assert_eq!(page_id, a.get()),
        _ => panic!("Owned-arm disk miss must checksum-verify"),
    }
}

#[test]
fn snapshot_before_growing_commit_does_not_observe_fresh_pages() {
    let disk = Disk::new();
    let mut p = disk.open(unhurried());
    let a = p.alloc_page().expect("alloc a");
    p.write_page(a, &stamp(0x11)).expect("write a");
    let _ = p.commit().expect("commit a");
    p.checkpoint().expect("checkpoint a");
    let snap = p.reader_snapshot();
    let b = p.alloc_page().expect("alloc b");
    p.write_page(b, &stamp(0x22)).expect("write b");
    let _ = p.commit().expect("commit b");
    assert_ne!(a, b);
    assert!(!snap.frozen_pages().iter().any(|(n, _)| *n == b.get()));
    let seen_b = snap.read_page(&p, b).expect("snap read b must not EOF");
    assert_ne!(
        seen_b.as_bytes()[0],
        0x22,
        "snapshot-before must NOT observe the post-pin fresh page",
    );
    assert_eq!(
        seen_b.as_bytes()[0],
        0x00,
        "post-pin fresh page resolves to its pre-existence (zeroed) state",
    );
    let seen_a = snap.read_page(&p, a).expect("snap read a");
    assert_eq!(seen_a.as_bytes()[0], 0x11);
}

#[test]
fn snapshot_after_growing_commit_reads_fresh_from_frozen_view() {
    let disk = Disk::new();
    let mut p = disk.open(unhurried());
    let b = p.alloc_page().expect("alloc b");
    p.write_page(b, &stamp(0x77)).expect("write b");
    let _ = p.commit().expect("commit b");
    let physical = p.main_physical_page_count().expect("physical");
    assert!(
        b.get() >= physical,
        "fresh page must be beyond the physical high-water before checkpoint \
         (b={}, physical={physical})",
        b.get(),
    );
    let snap = p.reader_snapshot();
    assert!(
        snap.frozen_pages().iter().any(|(n, _)| *n == b.get()),
        "snapshot-after must capture the fresh page in its frozen view",
    );
    let handle = snap.read_page(&p, b).expect("snap read b");
    assert!(
        matches!(handle, PageHandle::Shared(_)),
        "fresh page must be served from the frozen view (Shared), not the main file (Owned)",
    );
    assert_eq!(handle.as_bytes()[0], 0x77, "frozen view returns the body");
}

fn write_committed(p: &mut Pager<SharedFile>, page: PageId, marker: u8) -> Result<(), Error> {
    let mut body = Page::zeroed();
    body.as_bytes_mut()[0] = marker;
    body.as_bytes_mut()[1024] = marker.wrapping_mul(3);
    p.write_page(page, &body)?;
    let _ = p.commit()?;
    Ok(())
}

#[test]
fn crash_between_salt_write_and_main_fsync_recovers() {
    let disk = Disk::new();
    let a = {
        let mut p = disk.open(Config::default());
        let a = p.alloc_page().expect("alloc");
        write_committed(&mut p, a, 0xAA).expect("write+commit");
        p.checkpoint().expect("checkpoint");
        a
    };
    disk.log.borrow_mut()[12..16].copy_from_slice(&0xDEAD_BEEFu32.to_le_bytes());
    let mut p = disk.open(Config::default());
    let read = p.read_page(a).expect("read");
    assert_eq!(read.as_bytes()[0], 0xAA);
    assert_eq!(read.as_bytes()[1024], 0xAAu8.wrapping_mul(3));
}

#[test]
fn torn_write_on_wal_frame_mid_commit_recovers() {
    let disk = Disk::new();
    let (a, b) = {
        let mut p = disk.open(Config::default());
        let a = p.alloc_page().expect("alloc a");
        let b = p.alloc_page().expect("alloc b");
        write_committed(&mut p, a, 0xAA).expect("commit a");
        write_committed(&mut p, b, 0xBB).expect("commit b");
        (a, b)
    };
    {
        let torn = Fault::Torn(ChaCha8Rng::seed_from_u64(44));
        let mut p = match disk.try_open(Config::default(), Fault::Nothing, torn) {
            Ok(p) => p,
            Err(e) => panic!("open faulty: {e:?}"),
        };
        let _ = p.write_page(a, &stamp(0xCC));
        let _ = p.commit();
    }
    let mut p = disk.open(Config::default());
    assert_eq!(
        first_byte(&mut p, a),
        0xAA,
        "torn frame must not overwrite committed bytes",
    );
    assert_eq!(first_byte(&mut p, b), 0xBB);
}

#[test]
fn dropped_fsync_on_checkpointed_main_file_recovers_via_wal_salt_match() {
    let disk = Disk::new();
    let (a, b) = {
        let mut p = disk.open(Config::default());
        let a = p.alloc_page().expect("alloc a");
        let b = p.alloc_page().expect("alloc b");
        write_committed(&mut p, a, 0xAA).expect("commit a");
        write_committed(&mut p, b, 0xBB).expect("commit b");
        p.checkpoint().expect("checkpoint");
        (a, b)
    };
    let mut p = disk.open(Config::default());
    assert_eq!(first_byte(&mut p, a), 0xAA);
    assert_eq!(first_byte(&mut p, b), 0xBB);
}

#[test]
fn committed_alloc_page_recovers_via_wal_before_checkpoint() {
    let disk = Disk::new();
    let a = {
        let mut p = disk.open(Config::default());
        let a = p.alloc_page().expect("alloc a");
        write_committed(&mut p, a, 0xCD).expect("write+commit");
        a
    };
    assert!(
        !disk.log.borrow().is_empty(),
        "the committed alloc's durability lives in the WAL before checkpoint",
    );
    let mut p = disk.open(Config::default());
    let read = p.read_page(a).expect("read recovered alloc");
    assert_eq!(read.as_bytes()[0], 0xCD, "committed alloc body recovered");
    assert_eq!(read.as_bytes()[1024], 0xCDu8.wrapping_mul(3));
    for raw in 1..p.page_count() {
        p.read_page(id(raw)).expect("header-claimed page readable");
    }
}

#[test]
fn growing_commit_with_dropped_wal_fsync_rolls_back_clean() {
    let disk = Disk::new();
    let base = {
        let mut p = disk.open(Config::default());
        let a = p.alloc_page().expect("alloc baseline");
        write_committed(&mut p, a, 0xAB).expect("commit baseline");
        p.checkpoint().expect("checkpoint baseline");
        a
    };
    let baseline_len = disk.main.borrow().len();
    {
        let mut p = disk.open(Config::default());
        let _a = p.alloc_page().expect("alloc fresh");
        let _ = p.commit().expect("commit");
    }
    assert_eq!(
        disk.main.borrow().len(),
        baseline_len,
        "a growing commit must NOT extend the main file before checkpoint",
    );
    disk.remove_log();
    let mut p = disk.open(Config::default());
    assert_eq!(first_byte(&mut p, base), 0xAB, "baseline page content survived");
    for raw in 1..p.page_count() {
        p.read_page(id(raw))
            .expect("header-claimed page must be readable");
    }
}

#[test]
fn growing_txn_crash_matrix_recovers_at_every_op() {
    for crash_at in 1u64..=40 {
        let disk = Disk::new();
        {
            let mut p = disk.open(Config::default());
            let a = p.alloc_page().expect("alloc baseline");
            write_committed(&mut p, a, 0x10).expect("commit baseline");
            p.checkpoint().expect("checkpoint baseline");
        }
        let left = Rc::new(RefCell::new(crash_at));
        let run = |p: &mut Pager<SharedFile>| -> Result<(), Error> {
            for k in 0..6u8 {
                let pid = p.alloc_page()?;
                p.write_page(pid, &stamp(0x40 + k))?;
            }
            let _ = p.commit()?;
            p.checkpoint()
        };
        let opened = disk.try_open(
            Config::default(),
            Fault::After(Rc::clone(&left)),
            Fault::After(Rc::clone(&left)),
        );
        if let Ok(mut p) = opened {
            let _ = run(&mut p);
        }
        let mut p = match disk.try_open(Config::default(), Fault::Nothing, Fault::Nothing) {
            Ok(p) => p,
            Err(Error::WalCorruption { .. }) => continue,
            Err(e) => panic!("crash_at={crash_at}: recovery open failed: {e:?}"),
        };
        for raw in 1..p.page_count() {
            assert!(
                p.read_page(id(raw)).is_ok(),
                "crash_at={crash_at}: header-claimed page {raw} unreadable"
            );
        }
        assert_eq!(first_byte(&mut p, id(1)), 0x10);
    }
}

fn churn(p: &mut Pager<SharedFile>, n: u8, base: u8) {
    for k in 0..n {
        let pid = p.alloc_page().expect("alloc");
        p.write_page(pid, &stamp(base + k)).expect("write");
        let _ = p.read_page(pid).expect("read back");
    }
}

#[test]
fn forced_dirty_eviction_during_growing_txn_never_writes_past_eof() {
    let cfg = || {
        Config::default()
            .with_cache_frames(1)
            .expect("cache_frames=1")
            .with_checkpoint_threshold(u64::MAX)
    };
    let disk_a = Disk::new();
    {
        let mut p = disk_a.open(cfg());
        churn(&mut p, 16, 0x50);
    }
    {
        let mut p = disk_a.open(Config::default());
        for raw in 1..p.page_count() {
            p.read_page(id(raw))
                .expect("page readable after pre-commit crash");
        }
    }
    let disk_b = Disk::new();
    let committed_pc = {
        let mut p = disk_b.open(cfg());
        churn(&mut p, 16, 0x60);
        let _ = p.commit().expect("commit");
        p.page_count()
    };
    let mut p = disk_b.open(Config::default());
    assert_eq!(
        p.page_count(),
        committed_pc,
        "committed page_count recovered"
    );
    for raw in 1..committed_pc {
        assert_eq!(
            first_byte(&mut p, id(raw)),
            0x60 + (raw - 1) as u8,
            "page {raw} body recovered"
        );
    }
}

#[test]
fn growing_commit_issues_exactly_one_fsync() {
    let disk = Disk::new();
    let mut p = disk.open(unhurried());
    *disk.main_syncs.borrow_mut() = 0;
    *disk.log_syncs.borrow_mut() = 0;
    for k in 0..8u8 {
        let pid = p.alloc_page().expect("alloc");
        p.write_page(pid, &stamp(0x70 + k)).expect("write");
    }
    let _ = p.commit().expect("commit");
    let wal_count = *disk.log_syncs.borrow();
    let main_count = *disk.main_syncs.borrow();
    assert_eq!(
        wal_count, 1,
        "a growing commit issues exactly ONE WAL group-commit fsync (got {wal_count})",
    );
    assert_eq!(
        main_count, 0,
        "a growing commit issues ZERO main-file fsyncs before checkpoint (got {main_count})",
    );
    assert_eq!(wal_count + main_count, 1);
}

#[test]
fn alloc_free_sequences_are_consistent() {
    let mut rng = ChaCha8Rng::seed_from_u64(5);
    for _ in 0..200 {
        let mut p = Pager::memory(Config::default()).expect("construct");
        let mut live: Vec<u64> = Vec::new();
        let mut freed: Vec<u64> = Vec::new();
        for _ in 0..32 {
            if rng.next_u32() & 1 == 0 || live.is_empty() {
                let n = p.alloc_page().expect("alloc").get();
                assert!(!live.contains(&n), "double-issued id {n}");
                live.push(n);
                if let Some(expected) = freed.pop() {
                    assert_eq!(n, expected, "freelist must be LIFO");
                }
            } else {
                let victim = live.swap_remove(rng.next_u32() as usize % live.len());
                freed.push(victim);
                p.free_page(id(victim)).expect("free");
            }
        }
    }
}

#[test]
fn freelist_heads_round_trip_through_a_reopening() {
    for n_alloc in 1usize..16 {
        let disk = Disk::new();
        let head = {
            let mut p = disk.open(Config::default());
            let ids: Vec<PageId> = (0..n_alloc)
                .map(|_| p.alloc_page().expect("alloc"))
                .collect();
            let mut last = 0;
            for x in ids.iter().step_by(2) {
                p.free_page(*x).expect("free");
                last = x.get();
            }
            p.flush().expect("flush");
            assert_eq!(p.freelist_head(), last);
            last
        };
        assert_eq!(disk.open(Config::default()).freelist_head(), head);
    }
}

#[test]
fn a_byte_flip_anywhere_in_a_page_is_detected() {
    let (disk, ids) = filled(3);
    for (k, &victim) in ids.iter().enumerate() {
        for at in (k as u64..PAGE_SIZE as u64).step_by(61) {
            let offset = victim.byte_offset(0) + at;
            disk.flip(offset, 0x01);
            let mut p = disk.open(Config::default());
            assert!(
                matches!(p.read_page(victim), Err(Error::Corruption { page_id }) if page_id == victim.get())
            );
            disk.flip(offset, 0x01);
        }
    }
}

#[test]
fn a_rolled_back_transaction_leaves_nothing_behind() {
    let disk = Disk::new();
    let mut p = disk.open(Config::default());
    let a = p.alloc_page().expect("alloc");
    p.write_page(a, &stamp(0x11)).expect("write");
    let _ = p.commit().expect("commit");
    let noted = p.header_snapshot();
    p.write_page(a, &stamp(0x22)).expect("write");
    let b = p.alloc_page().expect("alloc b");
    p.free_page(a).expect("free a");
    p.set_root_catalog(b.get()).expect("root");
    p.rollback_pending_writes();
    p.restore_header_snapshot(noted).expect("restore");
    assert_eq!(first_byte(&mut p, a), 0x11);
    assert_eq!(p.page_count(), 2);
    assert_eq!(p.freelist_head(), 0);
    assert_eq!(p.root_catalog(), 0);
}

#[test]
fn the_root_of_the_catalog_survives_a_reopening() {
    let disk = Disk::new();
    {
        let mut p = disk.open(Config::default());
        let a = p.alloc_page().expect("alloc");
        p.set_root_catalog(a.get()).expect("root");
        let _ = p.commit().expect("commit");
    }
    let p = disk.open(Config::default());
    assert_eq!(p.root_catalog(), 1);
    assert_eq!(p.page_size(), 4096);
    assert_eq!(p.format_version(), (1, 2));
    assert!(p.in_txn());
    assert!(!p.is_memory_backed());
}

#[test]
fn pages_out_of_range_are_refused() {
    let disk = Disk::new();
    let mut p = disk.open(Config::default());
    assert!(matches!(
        p.read_page(id(9)),
        Err(Error::InvalidArgument("page id out of range"))
    ));
    assert!(matches!(
        p.write_page(id(9), &Page::zeroed()),
        Err(Error::InvalidArgument(_))
    ));
    assert!(matches!(
        p.free_page(id(9)),
        Err(Error::InvalidArgument(_))
    ));
}

#[test]
fn a_compressed_file_reads_back_and_stays_compressed() {
    let disk = Disk::new();
    let cfg = || Config::default().with_compression_mode(CompressionMode::Lz4);
    let mut noise = Page::zeroed();
    ChaCha8Rng::seed_from_u64(1).fill_bytes(&mut noise.as_bytes_mut()[..4092]);
    let (a, b) = {
        let mut p = disk.open(cfg());
        assert!(p.is_compression_capable());
        let a = p.alloc_page().expect("alloc");
        let b = p.alloc_page().expect("alloc");
        p.write_page(a, &stamp(0x5A)).expect("write");
        p.write_page(b, &noise).expect("write");
        p.flush().expect("flush");
        (a, b)
    };
    let slot = disk.main.borrow()[4096..8192].to_vec();
    assert!(
        slot[200..4000].iter().all(|&x| x == 0),
        "a page of zeros takes few bytes"
    );
    assert_ne!(slot[0], 0x5A, "the page is not stored as it is");
    let mut p = disk.open(cfg());
    assert_eq!(first_byte(&mut p, a), 0x5A);
    let back = p.read_page(b).expect("read").to_owned_page();
    assert_eq!(back.as_bytes()[..4092], noise.as_bytes()[..4092]);
}

#[test]
fn a_key_for_a_plain_file_is_refused() {
    let disk = Disk::new();
    let with_key = Config::default().with_encryption_key(Some([7; 32]));
    assert!(matches!(
        disk.try_open(with_key, Fault::Nothing, Fault::Nothing),
        Err(Error::FormatFeatureUnsupported { .. }) | Err(Error::EncryptionKeyMismatch)
    ));
}

#[test]
fn a_commit_that_does_not_fit_the_log_changes_nothing() {
    let disk = Disk::new();
    let mut p = disk.open(Config::default().with_wal_size_limit(6000));
    let a = p.alloc_page().expect("alloc");
    p.write_page(a, &stamp(0x11)).expect("write");
    let log_before = disk.log.borrow().clone();
    assert!(matches!(
        p.commit(),
        Err(Error::InvalidArgument("wal size limit exceeded"))
    ));
    assert_eq!(log_before, disk.log.borrow().clone());
    assert_eq!(first_byte(&mut p, a), 0x11, "the transaction is still open");
}

#[test]
fn a_failed_checkpoint_loses_nothing() {
    let disk = Disk::new();
    let left = Rc::new(RefCell::new(u64::MAX));
    let mut p = match disk.try_open(
        unhurried(),
        Fault::After(Rc::clone(&left)),
        Fault::Nothing,
    ) {
        Ok(p) => p,
        Err(e) => panic!("open: {e:?}"),
    };
    let a = p.alloc_page().expect("alloc");
    p.write_page(a, &stamp(0x21)).expect("write");
    let _ = p.commit().expect("commit");
    *left.borrow_mut() = 0;
    assert!(matches!(p.checkpoint(), Err(Error::Io(_))));
    assert_eq!(first_byte(&mut p, a), 0x21);
    drop(p);
    let mut p = disk.open(Config::default());
    assert_eq!(first_byte(&mut p, a), 0x21);
}

#[test]
fn salts_come_from_the_source_that_was_handed_over() {
    let salt_of = |seed: u64| {
        let disk = Disk::new();
        let main = SharedFile {
            bytes: Rc::clone(&disk.main),
            syncs: Rc::clone(&disk.main_syncs),
            modes: Rc::clone(&disk.main_modes),
            fault: Fault::Nothing,
        };
        let log = SharedFile {
            bytes: Rc::clone(&disk.log),
            syncs: Rc::clone(&disk.log_syncs),
            modes: Rc::clone(&disk.main_modes),
            fault: Fault::Nothing,
        };
        let entropy = Box::new(SeededEntropy::new(seed));
        let opened =
            Pager::open_with_backends(main, log, "x".to_owned(), Config::default(), entropy);
        assert!(opened.is_ok());
        let salt = disk.main.borrow()[40..44].to_vec();
        salt
    };
    assert_eq!(salt_of(3), salt_of(3));
    assert_ne!(salt_of(3), salt_of(4));
}

#[test]
fn a_memory_pager_has_no_main_file_to_back_up() {
    let p = Pager::memory(Config::default()).expect("memory");
    assert!(p.is_memory_backed());
    let mut buf = [0u8; PAGE_SIZE];
    assert!(matches!(
        p.read_main_file_page_zero(&mut buf),
        Err(Error::BackupNotSupportedForMemoryPager)
    ));
}

#[test]
fn a_checkpoint_that_fails_at_any_point_loses_no_commit() {
    for n in 0..8u64 {
        let disk = Disk::new();
        let left = Rc::new(RefCell::new(u64::MAX));
        let mut p = match disk.try_open(
            unhurried(),
            Fault::After(Rc::clone(&left)),
            Fault::Nothing,
        ) {
            Ok(p) => p,
            Err(e) => panic!("open: {e:?}"),
        };
        let a = p.alloc_page().expect("alloc a");
        p.write_page(a, &stamp(0xA1)).expect("write a");
        let _ = p.commit().expect("commit a");
        *left.borrow_mut() = n;
        let failed = p.checkpoint().is_err();
        assert_eq!(failed, n < 6, "six changes to the main file in all");
        assert_eq!(first_byte(&mut p, a), 0xA1);
        *left.borrow_mut() = u64::MAX;
        let b = p.alloc_page().expect("alloc b");
        p.write_page(b, &stamp(0xB1)).expect("write b");
        let _ = p.commit().expect("commit b");
        assert_eq!(first_byte(&mut p, a), 0xA1);
        assert_eq!(first_byte(&mut p, b), 0xB1);
        drop(p);
        let mut p = disk.open(Config::default());
        assert_eq!(first_byte(&mut p, a), 0xA1, "after {n} changes");
        assert_eq!(first_byte(&mut p, b), 0xB1, "after {n} changes");
        assert_eq!(p.page_count(), 3);
    }
}

#[test]
fn a_commit_waits_for_page_zero_to_carry_the_salt() {
    let disk = Disk::new();
    let left = Rc::new(RefCell::new(u64::MAX));
    let mut p = match disk.try_open(
        unhurried(),
        Fault::After(Rc::clone(&left)),
        Fault::Nothing,
    ) {
        Ok(p) => p,
        Err(e) => panic!("open: {e:?}"),
    };
    let a = p.alloc_page().expect("alloc a");
    p.write_page(a, &stamp(0xA1)).expect("write a");
    let _ = p.commit().expect("commit a");
    *left.borrow_mut() = 4;
    assert!(matches!(p.checkpoint(), Err(Error::Io(_))));
    p.write_page(a, &stamp(0xA2)).expect("write a again");
    assert!(matches!(p.commit(), Err(Error::Io(_))));
    assert_eq!(first_byte(&mut p, a), 0xA2);
    *left.borrow_mut() = u64::MAX;
    let _ = p.commit().expect("commit a again");
    drop(p);
    let mut p = disk.open(Config::default());
    assert_eq!(first_byte(&mut p, a), 0xA2);
}

#[test]
fn a_checkpoint_can_be_finished_by_another() {
    let disk = Disk::new();
    let left = Rc::new(RefCell::new(u64::MAX));
    let mut p = match disk.try_open(
        unhurried(),
        Fault::After(Rc::clone(&left)),
        Fault::Nothing,
    ) {
        Ok(p) => p,
        Err(e) => panic!("open: {e:?}"),
    };
    let a = p.alloc_page().expect("alloc a");
    p.write_page(a, &stamp(0xA1)).expect("write a");
    let _ = p.commit().expect("commit a");
    *left.borrow_mut() = 4;
    assert!(matches!(p.checkpoint(), Err(Error::Io(_))));
    *left.borrow_mut() = 2;
    p.checkpoint().expect("page 0 and a sync are left to do");
    assert_eq!(*left.borrow(), 0);
    assert_eq!(first_byte(&mut p, a), 0xA1);
    drop(p);
    disk.remove_log();
    let mut p = disk.open(Config::default());
    assert_eq!(first_byte(&mut p, a), 0xA1);
}

#[test]
fn closing_rolls_forward_past_a_live_reader() {
    let disk = Disk::new();
    let mut p = disk.open(unhurried());
    let a = p.alloc_page().expect("alloc");
    p.write_page(a, &stamp(0x11)).expect("write");
    let _ = p.commit().expect("commit 1");
    let snap = p.reader_snapshot();
    p.write_page(a, &stamp(0x22)).expect("write 2");
    let _ = p.commit().expect("commit 2");
    p.write_page(a, &stamp(0x33)).expect("write 3");
    assert_eq!(snap.read_page(&p, a).expect("read").as_bytes()[0], 0x11);
    let to_remove = p.close().expect("close");
    assert_eq!(to_remove, Some(wal_path_for("test.obj")));
    disk.remove_log();
    let mut p = disk.open(Config::default());
    assert_eq!(first_byte(&mut p, a), 0x22);
}

#[test]
fn a_commit_syncs_the_log_once_and_the_main_file_never() {
    let disk = Disk::new();
    let mut p = disk.open(unhurried());
    for n in 0..4u8 {
        let a = p.alloc_page().expect("alloc");
        p.write_page(a, &stamp(n)).expect("write");
    }
    let main_before = *disk.main_syncs.borrow();
    let log_before = *disk.log_syncs.borrow();
    assert_eq!(p.commit().expect("commit"), Lsn::new(5));
    assert_eq!(*disk.main_syncs.borrow(), main_before);
    assert_eq!(*disk.log_syncs.borrow(), log_before + 1);
    assert_eq!(p.commit().expect("second commit"), Lsn::new(0));
    assert_eq!(*disk.log_syncs.borrow(), log_before + 1);
}

#[test]
fn a_checkpoint_syncs_in_full_before_it_empties_the_log() {
    for mode in [SyncMode::Full, SyncMode::Normal, SyncMode::Off] {
        let disk = Disk::new();
        let mut p = disk.open(unhurried().with_sync_mode(mode));
        let a = p.alloc_page().expect("alloc");
        p.write_page(a, &stamp(0x11)).expect("write");
        let _ = p.commit().expect("commit");
        disk.main_modes.borrow_mut().clear();
        p.checkpoint().expect("checkpoint");
        assert_eq!(*disk.main_modes.borrow(), vec![SyncMode::Full, mode]);
    }
}

#[test]
fn a_snapshot_refuses_pages_out_of_range() {
    let disk = Disk::new();
    let mut p = disk.open(unhurried());
    let a = p.alloc_page().expect("alloc");
    let _ = p.commit().expect("commit");
    let snap = p.reader_snapshot();
    assert!(snap.read_page(&p, a).is_ok());
    assert!(matches!(
        snap.read_page(&p, id(2)),
        Err(Error::InvalidArgument("page id out of range"))
    ));
    let b = p.alloc_page().expect("alloc b");
    assert_eq!(b, id(2));
    let unseen = snap.read_page(&p, b).expect("a page that came later");
    assert!(matches!(unseen, PageHandle::Owned(_)));
    assert!(unseen.as_bytes().iter().all(|x| *x == 0));
}

#[test]
fn there_is_room_for_another_page_and_another_snapshot() {
    let disk = Disk::new();
    let p = disk.open(Config::default());
    assert!(p.can_grow());
    assert!(p.can_take_snapshot());
    let m = Pager::memory(Config::default()).expect("memory");
    assert!(m.can_grow());
}

#[test]
fn closing_drops_what_was_allocated_and_freed_but_not_committed() {
    let disk = Disk::new();
    let mut p = disk.open(unhurried());
    let a = p.alloc_page().expect("alloc a");
    p.write_page(a, &stamp(0x11)).expect("write a");
    let _ = p.commit().expect("commit");
    p.free_page(a).expect("free a");
    p.set_root_catalog(7).expect("root");
    let _ = p.close().expect("close");
    disk.remove_log();
    let mut p = disk.open(Config::default());
    assert_eq!(p.page_count(), 2);
    assert_eq!(p.freelist_head(), 0);
    assert_eq!(p.root_catalog(), 0);
    assert_eq!(first_byte(&mut p, a), 0x11);
    assert_eq!(p.alloc_page().expect("alloc b"), id(2));
}

#[test]
fn a_checkpoint_within_a_transaction_writes_the_committed_header() {
    let disk = Disk::new();
    let mut p = disk.open(unhurried());
    let a = p.alloc_page().expect("alloc a");
    p.write_page(a, &stamp(0x11)).expect("write a");
    let _ = p.commit().expect("commit");
    let _ = p.alloc_page().expect("alloc b");
    p.checkpoint().expect("checkpoint");
    assert_eq!(p.page_count(), 3);
    drop(p);
    let mut p = disk.open(Config::default());
    assert_eq!(p.page_count(), 2);
    assert_eq!(first_byte(&mut p, a), 0x11);
}

#[test]
fn page_zero_is_synced_when_a_new_salt_is_noted_on_it() {
    for mode in [SyncMode::Full, SyncMode::Normal, SyncMode::Off] {
        let disk = Disk::new();
        let mut p = disk.open(unhurried().with_sync_mode(mode));
        assert_eq!(*disk.main_modes.borrow(), vec![mode]);
        let a = p.alloc_page().expect("alloc");
        p.write_page(a, &stamp(0x11)).expect("write");
        let _ = p.commit().expect("commit");
        drop(p);
        let _ = disk.open(unhurried().with_sync_mode(mode));
        assert_eq!(
            *disk.main_modes.borrow(),
            vec![mode],
            "a log that is taken over keeps its salt"
        );
    }
}

#[test]
fn salts_are_the_next_numbers_of_the_source() {
    let disk = Disk::new();
    let file = |bytes: &Rc<RefCell<Vec<u8>>>| SharedFile {
        bytes: Rc::clone(bytes),
        syncs: Rc::clone(&disk.main_syncs),
        modes: Rc::clone(&disk.main_modes),
        fault: Fault::Nothing,
    };
    let opened = Pager::open_with_backends(
        file(&disk.main),
        file(&disk.log),
        "x".to_owned(),
        unhurried(),
        Box::new(SeededEntropy::new(5)),
    );
    let mut p = match opened {
        Ok(p) => p,
        Err(e) => panic!("open: {e:?}"),
    };
    let mut expected = SeededEntropy::new(5);
    let first = expected.next_u32().to_le_bytes();
    let second = expected.next_u32().to_le_bytes();
    assert_eq!(disk.main.borrow()[40..44], first);
    p.begin_txn();
    let a = p.alloc_page().expect("alloc");
    p.write_page(a, &stamp(0x11)).expect("write");
    let _ = p.commit().expect("commit");
    assert_eq!(disk.main.borrow()[40..44], first);
    p.checkpoint().expect("checkpoint");
    assert_eq!(disk.main.borrow()[40..44], second);
    assert_eq!(disk.log.borrow().len(), 32);
    assert_eq!(disk.log.borrow()[12..16], second);
}

#[test]
fn nothing_fails_on_files_in_memory() {
    let opened = Pager::open_with_backends(
        MemoryFile::new(Vec::new()),
        MemoryFile::new(Vec::new()),
        "x".to_owned(),
        unhurried(),
        Box::new(SeededEntropy::new(1)),
    );
    let mut p = match opened {
        Ok(p) => p,
        Err(e) => panic!("open: {e:?}"),
    };
    p.begin_txn();
    let mut ids = Vec::new();
    for n in 0..4u8 {
        let a = p.alloc_page().expect("alloc");
        p.write_page(a, &stamp(n)).expect("write");
        ids.push(a);
    }
    assert_eq!(p.commit().expect("commit"), Lsn::new(5));
    p.checkpoint().expect("checkpoint");
    for (n, &a) in ids.iter().enumerate() {
        assert_eq!(p.read_page(a).expect("read").as_bytes()[0], n as u8);
    }
    p.flush().expect("flush");
    assert_eq!(p.close().expect("close"), Some("x".to_owned()));
}

#[test]
fn a_second_checkpoint_changes_nothing() {
    let disk = Disk::new();
    let mut p = disk.open(unhurried());
    let a = p.alloc_page().expect("alloc");
    p.write_page(a, &stamp(0x11)).expect("write");
    let _ = p.commit().expect("commit");
    p.checkpoint().expect("first checkpoint");
    let main = disk.main.borrow().clone();
    let log = disk.log.borrow().clone();
    p.checkpoint().expect("second checkpoint");
    assert_eq!(*disk.main.borrow(), main);
    assert_eq!(*disk.log.borrow(), log);
    assert_eq!(first_byte(&mut p, a), 0x11);
    assert_eq!(p.page_count(), 2);
}
