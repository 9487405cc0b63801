//! Locks across processes: where they lie, and how long to wait for one.
//!
//! The locks are bytes of a file beside the database that holds nothing else.

use crate::error::{Error, LockKind};
use vstd::prelude::*;

verus! {

/// The byte that the writer locks.
pub const WRITER_LOCK_OFFSET: u64 = 96;

/// The first of the bytes that readers lock.
pub const READER_LOCK_RANGE_OFFSET: u64 = 97;

/// Number of bytes that readers lock.
pub const READER_LOCK_RANGE_LEN: u64 = 31;

/// Milliseconds to wait after the first miss.
pub const INITIAL_BACKOFF: u64 = 1;

/// Milliseconds to wait after a miss, at most.
pub const MAX_BACKOFF: u64 = 100;

/// Milliseconds to wait after miss number `n`, counted from zero: twice as long
/// as after the one before, up to a bound.
pub open spec fn backoff_after(n: nat) -> nat
    decreases n,
{
    if n == 0 {
        INITIAL_BACKOFF as nat
    } else if 2 * backoff_after((n - 1) as nat) < MAX_BACKOFF {
        2 * backoff_after((n - 1) as nat)
    } else {
        MAX_BACKOFF as nat
    }
}

/// The seventh doubling reaches the bound, and nothing goes beyond it.
pub proof fn law_backoff_is_bounded(n: nat)
    ensures
        INITIAL_BACKOFF <= backoff_after(n) <= MAX_BACKOFF,
        n >= 7 ==> backoff_after(n) == MAX_BACKOFF,
        n < 7 ==> backoff_after(n) == vstd::arithmetic::power2::pow2(n),
    decreases n,
{
    vstd::arithmetic::power2::lemma2_to64();
    if n > 0 {
        law_backoff_is_bounded((n - 1) as nat);
        vstd::arithmetic::power2::lemma_pow2_unfold(n);
    }
}

/// A wait for a lock: tries, with ever longer pauses, until the lock is had,
/// the timeout has passed, or the tries are used up.
#[derive(Debug)]
pub struct Retry {
    kind: LockKind,
    timeout: u64,
    max_tries: u64,
    tries: u64,
    backoff: u64,
}

impl Retry {
    /// The lock that is waited for.
    pub closed spec fn kind(self) -> LockKind {
        self.kind
    }

    /// How long to wait, in milliseconds.
    pub closed spec fn timeout(self) -> u64 {
        self.timeout
    }

    /// How often to try.
    pub closed spec fn max_tries(self) -> u64 {
        self.max_tries
    }

    /// How often was tried.
    pub closed spec fn tries(self) -> u64 {
        self.tries
    }

    /// How long to pause after the next miss, in milliseconds.
    pub closed spec fn backoff(self) -> u64 {
        self.backoff
    }

    #[verifier::type_invariant]
    spec fn wf(self) -> bool {
        1 <= self.backoff <= MAX_BACKOFF
    }

    /// A wait that has not tried yet.
    pub fn new(kind: LockKind, timeout: u64, max_tries: u64) -> (r: Self)
        ensures
            r.kind() == kind,
            r.timeout() == timeout,
            r.max_tries() == max_tries,
            r.tries() == 0,
            r.backoff() == backoff_after(0),
    {
        Retry { kind, timeout, max_tries, tries: 0, backoff: INITIAL_BACKOFF }
    }

    /// A wait for a lock on a byte: one try per millisecond at most, and a few
    /// to spare.
    pub fn for_byte(kind: LockKind, timeout: u64) -> (r: Self)
        ensures
            r.kind() == kind,
            r.timeout() == timeout,
            r.max_tries() == if timeout + 66 <= u64::MAX {
                timeout + 66
            } else {
                u64::MAX as int
            },
            r.tries() == 0,
            r.backoff() == backoff_after(0),
    {
        Retry::new(kind, timeout, timeout.saturating_add(2).saturating_add(64))
    }

    /// Count one more try; an error if the tries are used up.
    pub fn try_once(&mut self) -> (r: Result<(), Error>)
        ensures
            final(self).kind() == old(self).kind(),
            final(self).timeout() == old(self).timeout(),
            final(self).max_tries() == old(self).max_tries(),
            final(self).backoff() == old(self).backoff(),
            final(self).tries() == if old(self).tries() < u64::MAX {
                old(self).tries() + 1
            } else {
                u64::MAX as int
            },
            r == if final(self).tries() > old(self).max_tries() {
                Err::<(), Error>(Error::Busy { kind: old(self).kind() })
            } else {
                Ok(())
            },
    {
        proof {
            use_type_invariant(&*self);
        }
        self.tries = self.tries.saturating_add(1);
        if self.tries > self.max_tries {
            return Err(Error::Busy { kind: self.kind });
        }
        Ok(())
    }

    /// After a miss: how long to pause, in milliseconds, or an error if the
    /// timeout has passed. `elapsed` is how long the wait has lasted.
    pub fn missed(&mut self, elapsed: u64) -> (r: Result<u64, Error>)
        ensures
            final(self).kind() == old(self).kind(),
            final(self).timeout() == old(self).timeout(),
            final(self).max_tries() == old(self).max_tries(),
            final(self).tries() == old(self).tries(),
            if elapsed >= old(self).timeout() {
                &&& r == Err::<u64, Error>(Error::Busy { kind: old(self).kind() })
                &&& final(self).backoff() == old(self).backoff()
            } else {
                &&& r == Ok::<u64, Error>(old(self).backoff())
                &&& final(self).backoff() == if 2 * old(self).backoff() < MAX_BACKOFF {
                    2 * old(self).backoff()
                } else {
                    MAX_BACKOFF as int
                }
            },
            forall|n: nat|
                elapsed < old(self).timeout() && old(self).backoff() == #[trigger] backoff_after(n)
                    ==> final(self).backoff() == backoff_after(n + 1),
    {
        proof {
            use_type_invariant(&*self);
        }
        if elapsed >= self.timeout {
            return Err(Error::Busy { kind: self.kind });
        }
        let pause: u64 = self.backoff;
        let next: u64 = if 2 * pause < MAX_BACKOFF {
            2 * pause
        } else {
            MAX_BACKOFF
        };
        self.backoff = next;
        Ok(pause)
    }
}

/// The byte that a reader tries at its try number `attempt`, having begun at
/// slot `start`.
pub open spec fn slot_at(start: u64, attempt: u64) -> int {
    READER_LOCK_RANGE_OFFSET + (start + attempt) % READER_LOCK_RANGE_LEN as int
}

/// A reader that tries each slot once comes to every byte of the range once,
/// and never to the byte of the writer.
pub proof fn law_every_slot_is_tried_once(start: u64, a: u64, b: u64, byte: u64)
    requires
        start < READER_LOCK_RANGE_LEN,
        a < b < READER_LOCK_RANGE_LEN,
        READER_LOCK_RANGE_OFFSET <= byte < READER_LOCK_RANGE_OFFSET + READER_LOCK_RANGE_LEN,
    ensures
        slot_at(start, a) != slot_at(start, b),
        slot_at(start, a) != WRITER_LOCK_OFFSET,
        exists|k: u64| k < READER_LOCK_RANGE_LEN && #[trigger] slot_at(start, k) == byte,
{
    let d = byte - READER_LOCK_RANGE_OFFSET - start;
    let k: u64 = if d >= 0 {
        d as u64
    } else {
        (d + READER_LOCK_RANGE_LEN) as u64
    };
    assert(slot_at(start, k) == byte);
}

/// What a reader in search of a slot does next.
#[derive(Debug)]
pub enum SlotStep {
    /// Try to lock this byte.
    Try(u64),
    /// Wait for this byte.
    Wait(u64),
    /// Give up.
    Fail(Error),
}

/// A search for a reader's slot: every slot is tried once. A failure is not
/// the end of the search, only a lock is; but where no slot could be locked
/// and some try failed, the last failure is the result.
#[derive(Debug)]
pub struct SlotSearch {
    start: u64,
    tried: u64,
    failed: Option<Error>,
}

impl SlotSearch {
    /// The slot that is tried first.
    pub closed spec fn start(self) -> u64 {
        self.start
    }

    /// How many slots were tried.
    pub closed spec fn tried(self) -> u64 {
        self.tried
    }

    /// The last failure.
    pub closed spec fn failed(self) -> Option<Error> {
        self.failed
    }

    #[verifier::type_invariant]
    spec fn wf(self) -> bool {
        self.start < READER_LOCK_RANGE_LEN && self.tried <= READER_LOCK_RANGE_LEN
    }

    /// A search that begins at the slot that a running count of readers gives.
    pub fn new(count: u64) -> (r: Self)
        ensures
            r.start() == count % READER_LOCK_RANGE_LEN,
            r.tried() == 0,
            r.failed() is None,
    {
        SlotSearch { start: count % READER_LOCK_RANGE_LEN, tried: 0, failed: None }
    }

    /// What to do next: try the next slot, or once all are tried, give up or
    /// wait for the first.
    pub fn step(self) -> (r: (SlotStep, Self))
        ensures
            r.1.start() == self.start(),
            if self.tried() < READER_LOCK_RANGE_LEN {
                &&& r.0 is Try
                &&& r.0->Try_0 == slot_at(self.start(), self.tried())
                &&& r.1.tried() == self.tried() + 1
                &&& r.1.failed() == self.failed()
            } else {
                &&& r.1.tried() == self.tried()
                &&& r.1.failed() is None
                &&& match self.failed() {
                    Some(e) => r.0 == SlotStep::Fail(e),
                    None => r.0 is Wait && r.0->Wait_0 == slot_at(self.start(), 0),
                }
            },
    {
        proof {
            use_type_invariant(&self);
        }
        if self.tried < READER_LOCK_RANGE_LEN {
            let slot: u64 = READER_LOCK_RANGE_OFFSET + (self.start + self.tried)
                % READER_LOCK_RANGE_LEN;
            return (
                SlotStep::Try(slot),
                SlotSearch { start: self.start, tried: self.tried + 1, failed: self.failed },
            );
        }
        let rest = SlotSearch { start: self.start, tried: self.tried, failed: None };
        match self.failed {
            Some(e) => (SlotStep::Fail(e), rest),
            None => (SlotStep::Wait(READER_LOCK_RANGE_OFFSET + self.start), rest),
        }
    }

    /// The last try failed with `e`.
    pub fn note_failure(self, e: Error) -> (r: Self)
        ensures
            r.start() == self.start(),
            r.tried() == self.tried(),
            r.failed() == Some(e),
    {
        proof {
            use_type_invariant(&self);
        }
        SlotSearch { start: self.start, tried: self.tried, failed: Some(e) }
    }
}

/// A target by its operating system and vendor has locks that belong to an
/// open file rather than to a process.
pub open spec fn has_file_locks(os: Seq<char>, vendor: Seq<char>) -> bool {
    os == "linux"@ || os == "android"@ || vendor == "apple"@
}

/// `true` iff the target has locks that belong to an open file rather than to
/// a process. No other kind of lock keeps apart two handles in one process.
pub fn target_has_ofd_locks(os: &str, vendor: &str) -> (r: bool)
    ensures
        r == has_file_locks(os@, vendor@),
{
    let os: String = os.to_owned();
    let vendor: String = vendor.to_owned();
    os == "linux".to_owned() || os == "android".to_owned() || vendor == "apple".to_owned()
}

/// An error that says that the target lacks a primitive.
///
/// Calls `std::io::Error::new` with `ErrorKind::Unsupported`; nothing is
/// claimed of the value.
#[verifier::external_body]
fn unsupported(reason: &'static str) -> (r: std::io::Error) {
    std::io::Error::new(std::io::ErrorKind::Unsupported, reason)
}

/// Refuse to lock on a target without locks that belong to an open file.
pub fn ensure_ofd_locks_supported(has_ofd_locks: bool) -> (r: Result<(), Error>)
    ensures
        r is Ok <==> has_ofd_locks,
        r matches Err(e) ==> e is Io,
{
    if has_ofd_locks {
        return Ok(());
    }
    Err(
        Error::Io(
            unsupported(
                "locks on an open file are needed and this target has none; locks that belong to a process would not keep apart two handles in one process",
            ),
        ),
    )
}

/// The bytes that are locked: 96 by the writer, and 97 to 127 by readers, each of
/// whom comes to all of these in turn.
pub proof fn law_locked_bytes(start: u64, attempt: u64)
    ensures
        WRITER_LOCK_OFFSET == 96,
        97 <= slot_at(start, attempt) < 128,
        slot_at(start, attempt) == 97 + (start + attempt) % 31,
{
}

/// Pauses begin at a millisecond, double, and stay at a hundred.
pub proof fn law_pauses(n: nat)
    ensures
        backoff_after(0) == 1,
        backoff_after(n + 1) == if 2 * backoff_after(n) < 100 {
            2 * backoff_after(n)
        } else {
            100
        },
        n >= 7 ==> backoff_after(n) == 100,
        n < 7 ==> backoff_after(n) == vstd::arithmetic::power2::pow2(n),
{
    law_backoff_is_bounded(n);
}

/// Linux, Android and what Apple makes have locks that belong to an open file,
/// and nothing else is taken to.
pub proof fn law_targets_with_file_locks(os: Seq<char>, vendor: Seq<char>)
    ensures
        os == seq!['l', 'i', 'n', 'u', 'x'] ==> has_file_locks(os, vendor),
        os == seq!['a', 'n', 'd', 'r', 'o', 'i', 'd'] ==> has_file_locks(os, vendor),
        vendor == seq!['a', 'p', 'p', 'l', 'e'] ==> has_file_locks(os, vendor),
        has_file_locks(os, vendor) ==> os == seq!['l', 'i', 'n', 'u', 'x'] || os == seq![
            'a',
            'n',
            'd',
            'r',
            'o',
            'i',
            'd',
        ] || vendor == seq!['a', 'p', 'p', 'l', 'e'],
{
    reveal_strlit("linux");
    reveal_strlit("android");
    reveal_strlit("apple");
    assert("linux"@ =~= seq!['l', 'i', 'n', 'u', 'x']);
    assert("android"@ =~= seq!['a', 'n', 'd', 'r', 'o', 'i', 'd']);
    assert("apple"@ =~= seq!['a', 'p', 'p', 'l', 'e']);
}

} // verus!
