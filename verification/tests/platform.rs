//! Files, locks and faults.

use obj_core::error::{Error, LockKind};
use obj_core::platform::fault::{flip_bit, torn_len, OpCounter};
use obj_core::platform::lock::{
    ensure_ofd_locks_supported, target_has_ofd_locks, Retry, SlotSearch, SlotStep,
    READER_LOCK_RANGE_LEN, READER_LOCK_RANGE_OFFSET, WRITER_LOCK_OFFSET,
};
use obj_core::platform::{FileBackend, MemoryFile, SyncMode};
use obj_core::txn::gate_retry;

#[test]
fn default_is_full() {
    assert_eq!(SyncMode::default(), SyncMode::Full);
}

#[test]
fn ofd_capability_gate_matches_target() {
    for (os, vendor, has) in [
        ("linux", "unknown", true),
        ("android", "unknown", true),
        ("macos", "apple", true),
        ("ios", "apple", true),
        ("freebsd", "unknown", false),
        ("openbsd", "unknown", false),
    ] {
        assert_eq!(
            target_has_ofd_locks(os, vendor),
            has,
            "OFD capability must track the supported-target set",
        );
        let allowed = ensure_ofd_locks_supported(target_has_ofd_locks(os, vendor));
        if has {
            allowed.expect("supported targets may lock");
        } else {
            match allowed {
                Err(Error::Io(e)) => {
                    assert_eq!(e.kind(), std::io::ErrorKind::Unsupported);
                }
                other => panic!("expected Io(Unsupported), got {other:?}"),
            }
        }
    }
}

#[test]
fn a_held_gate_is_given_up_when_the_timeout_has_passed() {
    let mut retry = gate_retry(5000);
    let mut clock: u64 = 0;
    let mut pauses: Vec<u64> = Vec::new();
    let end = loop {
        if let Err(e) = retry.try_once() {
            break e;
        }
        match retry.missed(clock) {
            Ok(pause) => {
                pauses.push(pause);
                clock += pause;
            }
            Err(e) => break e,
        }
    };
    assert!(matches!(
        end,
        Error::Busy {
            kind: LockKind::WriterInProcess
        }
    ));
    assert!(clock >= 5000);
    assert_eq!(pauses[..9], [1, 2, 4, 8, 16, 32, 64, 100, 100]);
}

#[test]
fn tries_are_bounded_even_if_the_clock_stands_still() {
    let mut retry = Retry::for_byte(LockKind::Writer, 3);
    let mut tries = 0;
    let end = loop {
        if let Err(e) = retry.try_once() {
            break e;
        }
        tries += 1;
        retry.missed(0).expect("the timeout has not passed");
    };
    assert_eq!(tries, 3 + 2 + 64);
    assert!(matches!(
        end,
        Error::Busy {
            kind: LockKind::Writer
        }
    ));
    let mut at_once = Retry::new(LockKind::Reader, 0, 10);
    at_once.try_once().expect("one try");
    assert!(matches!(
        at_once.missed(0),
        Err(Error::Busy {
            kind: LockKind::Reader
        })
    ));
}

#[test]
fn a_reader_tries_every_slot_once_and_then_waits_for_the_first() {
    let mut search = SlotSearch::new(40);
    let mut tried: Vec<u64> = Vec::new();
    let waits_for = loop {
        let (step, next) = search.step();
        search = next;
        match step {
            SlotStep::Try(slot) => tried.push(slot),
            SlotStep::Wait(slot) => break slot,
            SlotStep::Fail(e) => panic!("{e:?}"),
        }
    };
    assert_eq!(tried[0], READER_LOCK_RANGE_OFFSET + 40 % READER_LOCK_RANGE_LEN);
    assert_eq!(waits_for, tried[0]);
    tried.sort_unstable();
    let all: Vec<u64> =
        (READER_LOCK_RANGE_OFFSET..READER_LOCK_RANGE_OFFSET + READER_LOCK_RANGE_LEN).collect();
    assert_eq!(tried, all);
    assert!(!tried.contains(&WRITER_LOCK_OFFSET));
}

#[test]
fn a_reader_without_a_slot_reports_the_last_failure() {
    let mut search = SlotSearch::new(0);
    let mut n = 0;
    let failure = loop {
        let (step, next) = search.step();
        search = next;
        match step {
            SlotStep::Try(_) => {
                n += 1;
                if n == 3 {
                    search = search.note_failure(Error::InvalidArgument("first"));
                }
                if n == 5 {
                    search = search.note_failure(Error::InvalidArgument("second"));
                }
            }
            SlotStep::Wait(_) => panic!("a failure was noted"),
            SlotStep::Fail(e) => break e,
        }
    };
    assert_eq!(n, 31);
    assert!(matches!(failure, Error::InvalidArgument("second")));
}

#[test]
fn a_memory_file_reads_back_what_was_written() {
    let mut f = MemoryFile::new(vec![1, 2, 3]);
    f.write_all_at(&[9, 9], 5).expect("write behind the end");
    assert_eq!(f.len().expect("len"), 7);
    assert!(!f.is_empty().expect("is_empty"));
    let mut buf = [0u8; 4];
    f.read_exact_at(&mut buf, 3).expect("read");
    assert_eq!(buf, [0, 0, 9, 9]);
    let err = f.read_exact_at(&mut buf, 4).expect_err("short");
    match err {
        Error::Io(e) => assert_eq!(e.kind(), std::io::ErrorKind::UnexpectedEof),
        other => panic!("expected Io, got {other:?}"),
    }
    f.set_len(2).expect("cut");
    f.set_len(4).expect("fill up");
    f.sync_data(SyncMode::Full).expect("sync");
    f.sync_all().expect("sync all");
    assert_eq!(f.into_bytes(), vec![1, 2, 0, 0]);
    assert!(MemoryFile::new(vec![]).is_empty().expect("is_empty"));
}

#[test]
fn a_torn_write_never_leaves_everything() {
    assert_eq!(torn_len(7, 0), 0);
    assert_eq!(torn_len(7, 1), 0);
    assert_eq!(torn_len(4096, 4096), 0);
    assert_eq!(torn_len(5000, 4096), 904);
}

#[test]
fn a_bit_flip_changes_one_bit_of_one_byte() {
    let buf = [0u8; 256];
    let out = flip_bit(&buf, 1000, 13);
    let changed: Vec<(usize, u8)> = out
        .iter()
        .enumerate()
        .filter(|(_, &b)| b != 0)
        .map(|(i, &b)| (i, b))
        .collect();
    assert_eq!(changed, vec![(1000 % 256, 1 << 5)]);
}

#[test]
fn a_crash_comes_at_the_operation_asked_for_and_once() {
    let mut ops = OpCounter::new(2);
    let crashes: Vec<bool> = (0..4).map(|_| ops.count_op()).collect();
    assert_eq!(crashes, vec![false, true, false, false]);
    let mut never = OpCounter::new(0);
    assert!((0..4).all(|_| !never.count_op()));
}
