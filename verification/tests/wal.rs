//! The write-ahead log.

use obj_core::error::Error;
use obj_core::pager::checksum::{crc32c, crc32c_append};
use obj_core::pager::page::Page;
use obj_core::platform::{Entropy, FileBackend, Kept, MemoryFile, SeededEntropy, SyncMode};
use obj_core::wal::{recover_bytes, Lsn, Wal, WalConfig, FRAME_LEN, WAL_HEADER_LEN};
use std::collections::HashMap;

fn stamp(byte: u8) -> Page {
    let mut p = Page::zeroed();
    p.as_bytes_mut()[0] = byte;
    p
}

fn config() -> WalConfig {
    WalConfig {
        size_limit: 1 << 20,
        checkpoint_threshold: 1000,
        sync_mode: SyncMode::Off,
    }
}

fn header(salt: u32) -> Vec<u8> {
    let mut h = vec![0u8; WAL_HEADER_LEN];
    h[..4].copy_from_slice(b"OBJW");
    h[4..6].copy_from_slice(&1u16.to_le_bytes());
    h[6..8].copy_from_slice(&2u16.to_le_bytes());
    h[12..16].copy_from_slice(&salt.to_le_bytes());
    h
}

fn frame(id: u64, lsn: u64, salt: u32, last: bool, page: &Page) -> Vec<u8> {
    let mut f = Vec::new();
    f.extend_from_slice(&lsn.to_le_bytes());
    f.extend_from_slice(&id.to_le_bytes());
    f.extend_from_slice(&salt.to_le_bytes());
    f.extend_from_slice(&u32::from(last).to_le_bytes());
    let crc = crc32c_append(crc32c(&f), page.as_bytes());
    f.extend_from_slice(&crc.to_le_bytes());
    f.extend_from_slice(&[0; 4]);
    f.extend_from_slice(page.as_bytes());
    assert_eq!(f.len(), FRAME_LEN);
    f
}

const SALT: u32 = 0x1234_5678;

#[test]
fn checksums_are_the_known_ones() {
    assert_eq!(crc32c(b"123456789"), 0xE306_9283);
    assert_eq!(crc32c(b""), 0);
    assert_eq!(crc32c_append(crc32c(b"1234"), b"56789"), 0xE306_9283);
}

#[test]
fn a_log_that_was_written_is_recovered() {
    let source: Box<dyn Entropy> = Box::new(SeededEntropy::new(1));
    let entropy = Kept { source };
    let file = MemoryFile::new(vec![]);
    let mut wal = match Wal::create_fresh_with(file, "x-wal".to_owned(), config(), entropy) {
        Ok(w) => w,
        Err(e) => panic!("{e:?}"),
    };
    assert_eq!(wal.next_lsn(), Lsn::new(1));
    assert_eq!(wal.path(), "x-wal");
    let mut pages = HashMap::new();
    pages.insert(3, stamp(0x33));
    pages.insert(5, stamp(0x55));
    let lsn = wal
        .commit_pages(&vec![3, 5], &pages, Some(&stamp(0xEE)))
        .expect("commit");
    assert_eq!(lsn, Lsn::new(3));
    assert_eq!(wal.committed_frames(), 3);
    assert_eq!(wal.next_lsn(), Lsn::new(4));
    let salt = wal.salt();
    wal.reset_after_checkpoint().expect("reset");
    assert_ne!(wal.salt(), salt);
    assert_eq!(wal.committed_frames(), 0);
}

#[test]
fn the_latest_of_every_committed_page_counts() {
    let mut log = header(SALT);
    log.extend(frame(3, 1, SALT, false, &stamp(1)));
    log.extend(frame(4, 2, SALT, true, &stamp(2)));
    log.extend(frame(3, 3, SALT, false, &stamp(3)));
    log.extend(frame(0, 4, SALT, true, &stamp(4)));
    let r = recover_bytes(&log, SALT).expect("recover");
    assert_eq!(r.committed_frames, 4);
    assert_eq!(r.next_lsn, 5);
    assert_eq!(r.end_offset, log.len() as u64);
    assert_eq!(r.pages.len(), 2);
    assert_eq!(r.pages[&3].as_bytes()[0], 3);
    assert_eq!(r.pages[&4].as_bytes()[0], 2);
    assert_eq!(r.header.expect("header").as_bytes()[0], 4);
}

#[test]
fn a_torn_transaction_does_not_count() {
    let mut log = header(SALT);
    log.extend(frame(3, 1, SALT, true, &stamp(1)));
    let whole = log.len();
    log.extend(frame(3, 2, SALT, false, &stamp(2)));
    log.extend(frame(4, 3, SALT, true, &stamp(3)));
    for cut in [whole, whole + 1, whole + FRAME_LEN, log.len() - 1] {
        let r = recover_bytes(&log[..cut], SALT).expect("recover");
        assert_eq!(r.committed_frames, 1, "cut at {cut}");
        assert_eq!(r.end_offset, whole as u64);
        assert_eq!(r.pages[&3].as_bytes()[0], 1);
    }
    let r = recover_bytes(&log, SALT).expect("recover");
    assert_eq!(r.committed_frames, 3);
}

#[test]
fn damage_ahead_of_a_commit_is_corruption() {
    let mut log = header(SALT);
    log.extend(frame(3, 1, SALT, true, &stamp(1)));
    log.extend(frame(3, 2, SALT, true, &stamp(2)));
    log.extend(frame(4, 3, SALT, true, &stamp(3)));
    let at = WAL_HEADER_LEN + FRAME_LEN;
    log[at + 100] ^= 1;
    match recover_bytes(&log, SALT) {
        Err(Error::WalCorruption { offset }) => assert_eq!(offset, at as u64),
        _ => panic!("expected WalCorruption"),
    }
}

#[test]
fn a_log_of_another_generation_is_empty() {
    let mut log = header(SALT);
    log.extend(frame(3, 1, SALT, true, &stamp(1)));
    let r = recover_bytes(&log, SALT + 1).expect("recover");
    assert_eq!(r.committed_frames, 0);
    assert!(r.pages.is_empty());
    assert!(r.header.is_none());
    let r = recover_bytes(&log[..10], SALT).expect("short");
    assert_eq!(r.committed_frames, 0);
}

#[test]
fn what_is_no_log_is_refused() {
    let mut log = header(SALT);
    log[0] = b'X';
    assert!(matches!(
        recover_bytes(&log, SALT),
        Err(Error::InvalidFormat { .. })
    ));
    let mut log = header(SALT);
    log[4] = 9;
    assert!(matches!(
        recover_bytes(&log, SALT),
        Err(Error::InvalidFormat { .. })
    ));
}

#[test]
fn a_memory_file_holds_a_fresh_log() {
    let mut f = MemoryFile::new(vec![]);
    f.write_all_at(&header(7), 0).expect("write");
    let r = Wal::<MemoryFile>::open_for_recovery(&f, 7).expect("recover");
    assert_eq!(r.committed_frames, 0);
    assert_eq!(r.next_lsn, 1);
}
