//! Transactions.

use obj_core::error::{Error, LockKind};
use obj_core::pager::page::{Page, PageId};
use obj_core::pager::{wal_path_for, Config, Pager};
use obj_core::platform::{FileBackend, OsEntropy, SyncMode};
use obj_core::txn::{gate_retry, ReadTxn, WriteTxn, DEFAULT_BUSY_TIMEOUT};
use std::cell::RefCell;
use std::rc::Rc;

/// What goes wrong with a file.
enum Fault {
    Nothing,
    /// Every operation that changes something fails once the count is used up.
    After(Rc<RefCell<u64>>),
}

/// A file that outlives its handle.
struct SharedFile {
    bytes: Rc<RefCell<Vec<u8>>>,
    syncs: Rc<RefCell<u64>>,
    fault: Fault,
}

impl SharedFile {
    fn spend(&self) -> Result<(), Error> {
        if let Fault::After(left) = &self.fault {
            let mut left = left.borrow_mut();
            if *left == 0 {
                return Err(Error::Io(std::io::Error::other("out of luck")));
            }
            *left -= 1;
        }
        Ok(())
    }

    fn put(&self, buf: &[u8], offset: u64) {
        let start = offset as usize;
        let mut bytes = self.bytes.borrow_mut();
        if bytes.len() < start + buf.len() {
            bytes.resize(start + buf.len(), 0);
        }
        bytes[start..start + buf.len()].copy_from_slice(buf);
    }
}

impl FileBackend for SharedFile {
    fn len(&self) -> Result<u64, Error> {
        Ok(self.bytes.borrow().len() as u64)
    }

    fn read_exact_at(&self, buf: &mut [u8], offset: u64) -> Result<(), Error> {
        let bytes = self.bytes.borrow();
        let start = offset as usize;
        if start + buf.len() > bytes.len() {
            return Err(Error::Io(std::io::Error::from(
                std::io::ErrorKind::UnexpectedEof,
            )));
        }
        buf.copy_from_slice(&bytes[start..start + buf.len()]);
        Ok(())
    }

    fn write_all_at(&mut self, buf: &[u8], offset: u64) -> Result<(), Error> {
        self.spend()?;
        self.put(buf, offset);
        Ok(())
    }

    fn set_len(&mut self, new_len: u64) -> Result<(), Error> {
        self.spend()?;
        self.bytes.borrow_mut().resize(new_len as usize, 0);
        Ok(())
    }

    fn sync_data(&mut self, _mode: SyncMode) -> Result<(), Error> {
        self.spend()?;
        *self.syncs.borrow_mut() += 1;
        Ok(())
    }

    fn sync_all(&mut self) -> Result<(), Error> {
        self.spend()
    }
}

/// The files of a database.
struct Disk {
    main: Rc<RefCell<Vec<u8>>>,
    log: Rc<RefCell<Vec<u8>>>,
    main_syncs: Rc<RefCell<u64>>,
    log_syncs: Rc<RefCell<u64>>,
}

impl Disk {
    fn new() -> Self {
        Disk {
            main: Rc::new(RefCell::new(Vec::new())),
            log: Rc::new(RefCell::new(Vec::new())),
            main_syncs: Rc::new(RefCell::new(0)),
            log_syncs: Rc::new(RefCell::new(0)),
        }
    }

    fn try_open(
        &self,
        config: Config,
        main_fault: Fault,
        log_fault: Fault,
    ) -> Result<Pager<SharedFile>, Error> {
        let main = SharedFile {
            bytes: Rc::clone(&self.main),
            syncs: Rc::clone(&self.main_syncs),
            fault: main_fault,
        };
        let log = SharedFile {
            bytes: Rc::clone(&self.log),
            syncs: Rc::clone(&self.log_syncs),
            fault: log_fault,
        };
        let path = wal_path_for("test.obj");
        Pager::open_with_backends(main, log, path, config, Box::new(OsEntropy))
    }

    fn open(&self, config: Config) -> Pager<SharedFile> {
        match self.try_open(config, Fault::Nothing, Fault::Nothing) {
            Ok(p) => p,
            Err(e) => panic!("open: {e:?}"),
        }
    }
}

fn stamp(byte: u8) -> Page {
    let mut p = Page::zeroed();
    p.as_bytes_mut()[0] = byte;
    p
}

/// A database with one committed page.
fn build(disk: &Disk, config: Config) -> (Pager<SharedFile>, PageId) {
    let mut pager = disk.open(config);
    let tx = WriteTxn::begin(&mut pager);
    let a = pager.alloc_page().expect("alloc");
    pager.write_page(a, &stamp(0)).expect("write");
    let _ = tx.commit(&mut pager).expect("commit");
    (pager, a)
}

fn observed(pager: &mut Pager<SharedFile>, page: PageId) -> u8 {
    let rx = ReadTxn::begin(pager);
    let byte = rx.read_page(pager, page).expect("read").as_bytes()[0];
    rx.end(pager);
    byte
}

#[test]
fn write_txn_commit_makes_writes_visible() {
    let disk = Disk::new();
    let (mut pager, a) = build(&disk, Config::default());
    let tx = WriteTxn::begin(&mut pager);
    pager.write_page(a, &stamp(0x77)).expect("write");
    let _ = tx.commit(&mut pager).expect("commit");
    assert_eq!(observed(&mut pager, a), 0x77);
    assert!(!pager.in_txn());
}

#[test]
fn write_txn_rollback_drops_writes() {
    let disk = Disk::new();
    let (mut pager, a) = build(&disk, Config::default());
    let tx = WriteTxn::begin(&mut pager);
    pager.write_page(a, &stamp(0x99)).expect("write");
    tx.rollback(&mut pager).expect("rollback");
    assert_eq!(observed(&mut pager, a), 0, "rollback must discard writes");
    assert!(!pager.in_txn());
}

#[test]
fn sim_clock_drives_write_gate_to_busy_without_real_sleep() {
    let mut held = false;
    let mut now: u64 = 0;
    let mut acquire = |held: &mut bool, timeout: u64| -> Result<(), Error> {
        let start = now;
        let mut wait = gate_retry(timeout);
        loop {
            wait.try_once()?;
            if !*held {
                *held = true;
                return Ok(());
            }
            now += wait.missed(now - start)?;
        }
    };
    acquire(&mut held, 50).expect("tx1");
    let err = acquire(&mut held, DEFAULT_BUSY_TIMEOUT).expect_err("tx2 must be busy");
    assert!(
        matches!(
            err,
            Error::Busy {
                kind: LockKind::WriterInProcess
            }
        ),
        "contended gate must surface WriterInProcess busy",
    );
    held = false;
    acquire(&mut held, 50).expect("tx3 after release");
    assert!(
        now >= 5000,
        "virtual time must have advanced past the 5 s timeout; got {now} ms",
    );
}

#[test]
fn write_txn_is_send() {
    fn assert_send<T: Send>() {}
    assert_send::<WriteTxn>();
    assert_send::<ReadTxn<obj_core::platform::MemoryFile>>();
}

#[test]
fn read_txn_sees_consistent_snapshot() {
    let disk = Disk::new();
    let (mut pager, a) = build(&disk, Config::default());
    let rx = ReadTxn::begin(&mut pager);
    let tx = WriteTxn::begin(&mut pager);
    pager.write_page(a, &stamp(0x55)).expect("write");
    let lsn = tx.commit(&mut pager).expect("commit");
    let seen = rx.read_page(&pager, a).expect("read");
    assert_eq!(
        seen.as_bytes()[0],
        0,
        "snapshot must isolate reader from concurrent commits",
    );
    assert!(rx.pinned_lsn() < lsn);
    assert_eq!(rx.snapshot().pinned_lsn(), rx.pinned_lsn());
    assert_eq!(pager.live_snapshot_count(), 1);
    rx.end(&mut pager);
    assert_eq!(pager.live_snapshot_count(), 0);
}

#[test]
fn write_txn_commit_atomic_against_inline_checkpoint_failure() {
    let disk = Disk::new();
    let left = Rc::new(RefCell::new(u64::MAX));
    let cfg = Config::default().with_checkpoint_threshold(1);
    let mut pager = match disk.try_open(cfg, Fault::After(Rc::clone(&left)), Fault::Nothing) {
        Ok(p) => p,
        Err(e) => panic!("open: {e:?}"),
    };
    let tx = WriteTxn::begin(&mut pager);
    let a = pager.alloc_page().expect("alloc a");
    pager.write_page(a, &stamp(0xAA)).expect("write a");
    let _ = tx.commit(&mut pager).expect("commit a");

    *left.borrow_mut() = 0;
    let tx = WriteTxn::begin(&mut pager);
    let b = pager.alloc_page().expect("alloc b");
    pager.write_page(b, &stamp(0xBB)).expect("write b");
    let _ = tx
        .commit(&mut pager)
        .expect("WriteTxn::commit must succeed despite a failed auto-checkpoint");
    *left.borrow_mut() = u64::MAX;

    let b_marker = observed(&mut pager, b);
    assert_eq!(b_marker, 0xBB, "committed B visible same-process");
    drop(pager);

    let mut p2 = disk.open(Config::default());
    let b_reopened = p2.read_page(b).expect("recovered b").as_bytes()[0];
    assert_eq!(
        b_reopened, b_marker,
        "B agrees same-process vs post-recovery"
    );
    assert_eq!(b_reopened, 0xBB, "committed txn survived reopen");
    let a_reopened = p2.read_page(a).expect("recovered a").as_bytes()[0];
    assert_eq!(a_reopened, 0xAA, "baseline A survived reopen");
}

#[test]
fn a_failed_commit_gives_the_transaction_up() {
    let disk = Disk::new();
    let left = Rc::new(RefCell::new(u64::MAX));
    let cfg = Config::default().with_checkpoint_threshold(u64::MAX);
    let mut pager = match disk.try_open(cfg, Fault::Nothing, Fault::After(Rc::clone(&left))) {
        Ok(p) => p,
        Err(e) => panic!("open: {e:?}"),
    };
    let tx = WriteTxn::begin(&mut pager);
    let a = pager.alloc_page().expect("alloc a");
    pager.write_page(a, &stamp(0x11)).expect("write a");
    let _ = tx.commit(&mut pager).expect("commit a");
    let tx = WriteTxn::begin(&mut pager);
    let b = pager.alloc_page().expect("alloc b");
    pager.write_page(a, &stamp(0x22)).expect("write a again");
    pager.write_page(b, &stamp(0x33)).expect("write b");
    *left.borrow_mut() = 0;
    assert!(matches!(tx.commit(&mut pager), Err(Error::Io(_))));
    *left.borrow_mut() = u64::MAX;
    assert_eq!(pager.page_count(), 2);
    assert_eq!(observed(&mut pager, a), 0x11);
    assert!(!pager.in_txn());
}
