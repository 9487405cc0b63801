//! The write-ahead log.
//!
//! The log is a file of its own: a header of 32 bytes and, behind it, frames
//! of one size. A frame carries one page. The last frame of a transaction is
//! marked, and what follows the last mark does not count.
//!
//! | bytes of the header | field                                |
//! |---------------------|--------------------------------------|
//! | 0..4                | magic `OBJW`                         |
//! | 4..6                | format major                         |
//! | 6..8                | format minor                         |
//! | 8..12               | page size                            |
//! | 12..16              | salt of this generation              |
//! | 16..32              | zero                                 |
//!
//! | bytes of a frame    | field                                |
//! |---------------------|--------------------------------------|
//! | 0..8                | log sequence number                  |
//! | 8..16               | page id; 0 for the file header       |
//! | 16..20              | salt                                 |
//! | 20..24              | 1 at the end of a transaction, else 0|
//! | 24..28              | CRC32C of bytes 0..24 and the page   |
//! | 28..32              | zero                                 |
//! | 32..4128            | the page                             |
//!
//! Integers are little-endian.

use crate::bytes;
use crate::bytes::{get_le, push_le};
use crate::error::Error;
use crate::pager::checksum;
use crate::pager::checksum::{crc32c, crc32c_append};
use crate::pager::header::{is_supported_format_major, FORMAT_MAJOR, FORMAT_MINOR};
use crate::pager::page::{Page, PAGE_SIZE};
use crate::platform::env;
use crate::platform::env::{Entropy, Kept};
use crate::platform::file;
use crate::platform::file::{FileBackend, SyncMode};
use std::collections::HashMap;
use vstd::prelude::*;

verus! {

broadcast use {
    vstd::std_specs::hash::group_hash_axioms,
    crate::pager::page::lemma_page_len,
};

/// Log magic, `OBJW`.
pub const WAL_MAGIC: [u8; 4] = [0x4F, 0x42, 0x4A, 0x57];

/// Bytes ahead of the first frame.
pub const WAL_HEADER_LEN: usize = 32;

/// Bytes of a frame ahead of its page.
pub const FRAME_HEAD_LEN: usize = 32;

/// Bytes of a frame.
pub const FRAME_LEN: usize = 4128;

/// A log sequence number. Frames are numbered from one on; zero is the end of
/// an empty log.
#[derive(Debug, Clone, Copy, PartialEq, Eq, Structural, Hash, PartialOrd, Ord)]
pub struct Lsn {
    raw: u64,
}

impl View for Lsn {
    type V = u64;

    closed spec fn view(&self) -> u64 {
        self.raw
    }
}

impl Lsn {
    /// The sequence number `raw`.
    pub fn new(raw: u64) -> (r: Self)
        ensures
            r@ == raw,
    {
        Lsn { raw }
    }

    /// The number.
    pub fn get(self) -> (r: u64)
        ensures
            r == self@,
    {
        self.raw
    }
}

/// How a log is kept.
#[derive(Debug, Clone, Copy, PartialEq, Eq, Structural)]
pub struct WalConfig {
    /// The log may not grow beyond this many bytes.
    pub size_limit: u64,
    /// Number of frames from which on a commit rolls the log forward.
    pub checkpoint_threshold: u64,
    /// How a commit syncs.
    pub sync_mode: SyncMode,
}

/// Log size limit where none is asked for: 64 MiB.
pub const DEFAULT_WAL_SIZE_LIMIT: u64 = 0x400_0000;

/// Checkpoint threshold where none is asked for.
pub const DEFAULT_CHECKPOINT_THRESHOLD: u64 = 1000;

/// A frame, as contracts speak of it.
pub struct LogFrame {
    /// Log sequence number.
    pub lsn: u64,
    /// Page id, or `0` for the file header.
    pub id: u64,
    /// The last frame of its transaction.
    pub commit: bool,
    /// The page.
    pub page: Seq<u8>,
}

/// The header of a log of the given salt.
pub open spec fn wal_header(salt: u32) -> Seq<u8> {
    WAL_MAGIC@ + bytes::le_seq(FORMAT_MAJOR as nat, 2) + bytes::le_seq(FORMAT_MINOR as nat, 2)
        + bytes::le_seq(PAGE_SIZE as nat, 4) + bytes::le_seq(salt as nat, 4) + Seq::new(
        16,
        |i: int| 0u8,
    )
}

/// What the checksum of a frame covers, ahead of the page.
pub open spec fn frame_head(salt: u32, f: LogFrame) -> Seq<u8> {
    bytes::le_seq(f.lsn as nat, 8) + bytes::le_seq(f.id as nat, 8) + bytes::le_seq(salt as nat, 4)
        + bytes::le_seq(
        if f.commit {
            1
        } else {
            0
        },
        4,
    )
}

/// The bytes of a frame.
pub open spec fn frame_bytes(salt: u32, f: LogFrame) -> Seq<u8> {
    frame_head(salt, f) + bytes::le_seq(
        checksum::crc32c_of(frame_head(salt, f) + f.page) as nat,
        4,
    ) + Seq::new(4, |i: int| 0u8) + f.page
}

/// The bytes of frames, one after the other.
pub open spec fn frames_bytes(salt: u32, fs: Seq<LogFrame>) -> Seq<u8>
    decreases fs.len(),
{
    if fs.len() == 0 {
        Seq::empty()
    } else {
        frames_bytes(salt, fs.drop_last()) + frame_bytes(salt, fs.last())
    }
}

/// Frames of whole transactions, in order: every page is a page, the numbers
/// go up by one, and the last frame is marked.
pub open spec fn whole(fs: Seq<LogFrame>) -> bool {
    &&& forall|i: int| 0 <= i < fs.len() ==> (#[trigger] fs[i]).page.len() == PAGE_SIZE
    &&& forall|i: int|
        0 <= i < fs.len() ==> #[trigger] fs[i].lsn == fs[0].lsn + i && fs[i].lsn < u64::MAX
    &&& fs.len() > 0 ==> fs.last().commit
}

/// Number of places for a frame in a log.
pub open spec fn slots(b: Seq<u8>) -> nat {
    if b.len() < WAL_HEADER_LEN {
        0
    } else {
        ((b.len() - WAL_HEADER_LEN) / FRAME_LEN as int) as nat
    }
}

/// The `k`-th place for a frame.
pub open spec fn slot(b: Seq<u8>, k: int) -> Seq<u8> {
    b.subrange(WAL_HEADER_LEN + k * FRAME_LEN, WAL_HEADER_LEN + (k + 1) * FRAME_LEN)
}

/// What stands in `s`, read as a frame.
pub open spec fn slot_frame(s: Seq<u8>) -> LogFrame {
    LogFrame {
        lsn: bytes::le_nat(s.subrange(0, 8)) as u64,
        id: bytes::le_nat(s.subrange(8, 16)) as u64,
        commit: bytes::le_nat(s.subrange(20, 24)) != 0,
        page: s.skip(FRAME_HEAD_LEN as int),
    }
}

/// `s` is a frame of the generation `salt`, undamaged.
pub open spec fn slot_valid(s: Seq<u8>, salt: u32) -> bool {
    &&& s == frame_bytes(salt, slot_frame(s))
    &&& slot_frame(s).lsn < u64::MAX
}

/// The frame in the `k`-th place is undamaged and numbered in step.
pub open spec fn in_run(b: Seq<u8>, salt: u32, k: int) -> bool {
    &&& slot_valid(slot(b, k), salt)
    &&& k > 0 ==> slot_frame(slot(b, k)).lsn == slot_frame(slot(b, k - 1)).lsn + 1
}

/// The first place from `k` on without a frame in step.
pub open spec fn first_bad(b: Seq<u8>, salt: u32, k: nat) -> nat
    decreases slots(b) - k,
{
    if k < slots(b) && in_run(b, salt, k as int) {
        first_bad(b, salt, k + 1)
    } else {
        k
    }
}

/// Number of frames up to the last mark among the first `n`.
pub open spec fn marked(b: Seq<u8>, n: nat) -> nat
    decreases n,
{
    if n == 0 || slot_frame(slot(b, n - 1)).commit {
        n
    } else {
        marked(b, (n - 1) as nat)
    }
}

/// An undamaged mark stands in place `k`.
pub open spec fn mark_at(b: Seq<u8>, salt: u32, k: int) -> bool {
    slot_valid(slot(b, k), salt) && slot_frame(slot(b, k)).commit
}

/// A transaction was completed behind the first damaged frame.
pub open spec fn damaged_inside(b: Seq<u8>, salt: u32) -> bool {
    exists|k: int| first_bad(b, salt, 0) <= k < slots(b) && #[trigger] mark_at(b, salt, k)
}

/// The salt that a log carries.
pub open spec fn salt_of(b: Seq<u8>) -> u32 {
    bytes::le_nat(b.subrange(12, 16)) as u32
}

/// `b` begins with a log header of generation `salt`.
pub open spec fn headed(b: Seq<u8>, salt: u32) -> bool {
    &&& b.len() >= WAL_HEADER_LEN
    &&& b.take(4) == WAL_MAGIC@
    &&& crate::pager::header::major_supported(bytes::le_nat(b.subrange(4, 6)) as u16)
    &&& salt_of(b) == salt
}

/// `b` is a log of generation `salt` that holds exactly `fs`.
pub open spec fn is_log(b: Seq<u8>, salt: u32, fs: Seq<LogFrame>) -> bool {
    headed(b, salt) && b.skip(WAL_HEADER_LEN as int) == frames_bytes(salt, fs)
}

/// The frames that count in a log, for a main file that expects `salt`. A log
/// without a whole header and a log of another generation count as empty.
pub open spec fn counted(b: Seq<u8>, salt: u32) -> Seq<LogFrame> {
    if b.len() < WAL_HEADER_LEN || salt_of(b) != salt {
        Seq::empty()
    } else {
        Seq::new(marked(b, first_bad(b, salt, 0)), |k: int| slot_frame(slot(b, k)))
    }
}

/// What stops a log from being read, if anything does.
pub open spec fn log_error(b: Seq<u8>, salt: u32) -> Option<Error> {
    if b.len() < WAL_HEADER_LEN {
        None
    } else if b.take(4) != WAL_MAGIC@ {
        Some(Error::InvalidFormat { reason: "log magic bytes are not OBJW" })
    } else if !crate::pager::header::major_supported(bytes::le_nat(b.subrange(4, 6)) as u16) {
        Some(Error::InvalidFormat { reason: "log format-major version not supported" })
    } else if salt_of(b) == salt && damaged_inside(b, salt) {
        Some(
            Error::WalCorruption {
                offset: (WAL_HEADER_LEN + first_bad(b, salt, 0) * FRAME_LEN) as u64,
            },
        )
    } else {
        None
    }
}

/// The latest page `id` among `fs`.
pub open spec fn latest(fs: Seq<LogFrame>, id: u64) -> Option<Seq<u8>>
    decreases fs.len(),
{
    if fs.len() == 0 {
        None
    } else if fs.last().id == id {
        Some(fs.last().page)
    } else {
        latest(fs.drop_last(), id)
    }
}

/// `m` holds the latest of every page among `fs`, the file header left out.
pub open spec fn collapsed(fs: Seq<LogFrame>, m: Map<u64, Seq<u8>>) -> bool {
    forall|id: u64|
        #![trigger m.contains_key(id)]
        #![trigger latest(fs, id)]
        if id != 0 && latest(fs, id) is Some {
            m.contains_key(id) && m[id] == latest(fs, id)->0
        } else {
            !m.contains_key(id)
        }
}

/// Pages by id, as their bytes.
pub open spec fn page_bytes(m: Map<u64, Page>) -> Map<u64, Seq<u8>> {
    m.map_values(|p: Page| p@)
}

proof fn lemma_head_len(salt: u32, f: LogFrame)
    ensures
        frame_head(salt, f).len() == 24,
{
    bytes::lemma_le_seq_len(f.lsn as nat, 8);
    bytes::lemma_le_seq_len(f.id as nat, 8);
    bytes::lemma_le_seq_len(salt as nat, 4);
    bytes::lemma_le_seq_len(1, 4);
    bytes::lemma_le_seq_len(0, 4);
}

/// A frame is read back as it was written.
pub proof fn law_frame_round_trip(salt: u32, f: LogFrame)
    requires
        f.page.len() == PAGE_SIZE,
        f.lsn < u64::MAX,
    ensures
        frame_bytes(salt, f).len() == FRAME_LEN,
        slot_valid(frame_bytes(salt, f), salt),
        slot_frame(frame_bytes(salt, f)) == f,
{
    let head = frame_head(salt, f);
    let crc = checksum::crc32c_of(head + f.page);
    let flag: nat = if f.commit {
        1
    } else {
        0
    };
    let s = frame_bytes(salt, f);
    lemma_head_len(salt, f);
    bytes::lemma_le_seq_len(f.lsn as nat, 8);
    bytes::lemma_le_seq_len(f.id as nat, 8);
    bytes::lemma_le_seq_len(salt as nat, 4);
    bytes::lemma_le_seq_len(flag, 4);
    bytes::lemma_le_seq_len(crc as nat, 4);
    bytes::lemma_pow256();
    bytes::lemma_le_round_trip(f.lsn as nat, 8);
    bytes::lemma_le_round_trip(f.id as nat, 8);
    bytes::lemma_le_round_trip(salt as nat, 4);
    bytes::lemma_le_round_trip(flag, 4);
    bytes::lemma_le_round_trip(crc as nat, 4);
    assert(s.subrange(0, 8) =~= bytes::le_seq(f.lsn as nat, 8));
    assert(s.subrange(8, 16) =~= bytes::le_seq(f.id as nat, 8));
    assert(s.subrange(16, 20) =~= bytes::le_seq(salt as nat, 4));
    assert(s.subrange(20, 24) =~= bytes::le_seq(flag, 4));
    assert(s.subrange(24, 28) =~= bytes::le_seq(crc as nat, 4));
    assert(s.subrange(0, 24) =~= head);
    assert(s.skip(FRAME_HEAD_LEN as int) =~= f.page);
}

proof fn lemma_frames_bytes(salt: u32, fs: Seq<LogFrame>, k: int)
    requires
        forall|i: int|
            0 <= i < fs.len() ==> (#[trigger] fs[i]).page.len() == PAGE_SIZE && fs[i].lsn
                < u64::MAX,
    ensures
        frames_bytes(salt, fs).len() == fs.len() * FRAME_LEN,
        0 <= k < fs.len() ==> frames_bytes(salt, fs).subrange(k * FRAME_LEN, (k + 1) * FRAME_LEN)
            == frame_bytes(salt, fs[k]),
    decreases fs.len(),
{
    if fs.len() > 0 {
        let t = fs.drop_last();
        assert forall|i: int| 0 <= i < t.len() implies (#[trigger] t[i]).page.len() == PAGE_SIZE
            && t[i].lsn < u64::MAX by {
            assert(t[i] == fs[i]);
        }
        lemma_frames_bytes(salt, t, k);
        law_frame_round_trip(salt, fs.last());
        let a = frames_bytes(salt, t);
        let b = frame_bytes(salt, fs.last());
        if k == fs.len() - 1 {
            assert((a + b).subrange(k * FRAME_LEN, (k + 1) * FRAME_LEN) =~= b);
        } else if 0 <= k < t.len() {
            assert((k + 1) * FRAME_LEN <= t.len() * FRAME_LEN);
            assert((a + b).subrange(k * FRAME_LEN, (k + 1) * FRAME_LEN) =~= a.subrange(
                k * FRAME_LEN,
                (k + 1) * FRAME_LEN,
            ));
            assert(t[k] == fs[k]);
        }
    }
}

proof fn lemma_frames_bytes_append(salt: u32, fs: Seq<LogFrame>, gs: Seq<LogFrame>)
    ensures
        frames_bytes(salt, fs + gs) == frames_bytes(salt, fs) + frames_bytes(salt, gs),
    decreases gs.len(),
{
    if gs.len() == 0 {
        assert(fs + gs =~= fs);
        assert(frames_bytes(salt, fs) + frames_bytes(salt, gs) =~= frames_bytes(salt, fs));
    } else {
        lemma_frames_bytes_append(salt, fs, gs.drop_last());
        assert((fs + gs).drop_last() =~= fs + gs.drop_last());
        assert((fs + gs).last() == gs.last());
        assert(frames_bytes(salt, fs + gs) =~= frames_bytes(salt, fs) + frames_bytes(salt, gs));
    }
}

proof fn lemma_wal_header(salt: u32)
    ensures
        wal_header(salt).len() == WAL_HEADER_LEN,
        wal_header(salt).take(4) == WAL_MAGIC@,
        bytes::le_nat(wal_header(salt).subrange(4, 6)) == FORMAT_MAJOR,
        salt_of(wal_header(salt)) == salt,
        bytes::le_nat(wal_header(salt).subrange(12, 16)) == salt,
{
    bytes::lemma_le_seq_len(FORMAT_MAJOR as nat, 2);
    bytes::lemma_le_seq_len(FORMAT_MINOR as nat, 2);
    bytes::lemma_le_seq_len(PAGE_SIZE as nat, 4);
    bytes::lemma_le_seq_len(salt as nat, 4);
    bytes::lemma_pow256();
    bytes::lemma_le_round_trip(salt as nat, 4);
    bytes::lemma_le_round_trip(FORMAT_MAJOR as nat, 2);
    let h = wal_header(salt);
    assert(h.take(4) =~= WAL_MAGIC@);
    assert(h.subrange(4, 6) =~= bytes::le_seq(FORMAT_MAJOR as nat, 2));
    assert(h.subrange(12, 16) =~= bytes::le_seq(salt as nat, 4));
}

proof fn lemma_first_bad_bound(b: Seq<u8>, salt: u32, k: nat)
    requires
        k <= slots(b),
    ensures
        k <= first_bad(b, salt, k) <= slots(b),
        first_bad(b, salt, k) < slots(b) ==> !in_run(b, salt, first_bad(b, salt, k) as int),
        forall|j: int| k <= j < first_bad(b, salt, k) ==> #[trigger] in_run(b, salt, j),
    decreases slots(b) - k,
{
    if k < slots(b) && in_run(b, salt, k as int) {
        lemma_first_bad_bound(b, salt, k + 1);
    }
}

/// From a place before it, the search for the first bad place goes on from the
/// next one.
proof fn lemma_first_bad_reaches(b: Seq<u8>, salt: u32, k: nat, n: nat)
    requires
        k <= n <= slots(b),
        forall|j: int| k <= j < n ==> #[trigger] in_run(b, salt, j),
    ensures
        first_bad(b, salt, k) == first_bad(b, salt, n),
    decreases n - k,
{
    if k < n {
        assert(in_run(b, salt, k as int));
        lemma_first_bad_reaches(b, salt, k + 1, n);
    }
}

/// Reading a log that holds whole transactions gives exactly its frames, and
/// finds nothing wrong with it.
pub proof fn law_log_round_trip(b: Seq<u8>, salt: u32, fs: Seq<LogFrame>)
    requires
        whole(fs),
        is_log(b, salt, fs),
    ensures
        log_error(b, salt) is None,
        counted(b, salt) == fs,
{
    let n = fs.len();
    lemma_frames_bytes(salt, fs, 0);
    assert(b.len() == WAL_HEADER_LEN + n * FRAME_LEN);
    assert(slots(b) == n) by {
        assert((n * FRAME_LEN) / (FRAME_LEN as int) == n) by (nonlinear_arith)
            requires
                FRAME_LEN == 4128,
        ;
    }
    assert forall|k: int| 0 <= k < n implies #[trigger] slot(b, k) == frame_bytes(
        salt,
        fs[k],
    ) by {
        lemma_frames_bytes(salt, fs, k);
        assert((k + 1) * FRAME_LEN <= n * FRAME_LEN);
        assert(slot(b, k) =~= frames_bytes(salt, fs).subrange(k * FRAME_LEN, (k + 1) * FRAME_LEN));
    }
    assert forall|k: int| 0 <= k < n implies #[trigger] in_run(b, salt, k) && slot_frame(
        slot(b, k),
    ) == fs[k] by {
        assert(slot(b, k) == frame_bytes(salt, fs[k]));
        law_frame_round_trip(salt, fs[k]);
        if k > 0 {
            assert(slot(b, k - 1) == frame_bytes(salt, fs[k - 1]));
            law_frame_round_trip(salt, fs[k - 1]);
            assert(fs[k].lsn == fs[0].lsn + k);
            assert(fs[k - 1].lsn == fs[0].lsn + (k - 1));
        }
    }
    lemma_first_bad_reaches(b, salt, 0, n);
    assert(first_bad(b, salt, 0) == n);
    if n > 0 {
        assert(in_run(b, salt, n - 1));
        assert(slot_frame(slot(b, n - 1)) == fs.last());
    }
    assert(marked(b, n) == n);
    assert forall|k: int| 0 <= k < n implies slot_frame(slot(b, k)) == fs[k] by {
        assert(in_run(b, salt, k));
    }
    assert(counted(b, salt) =~= fs);
}

/// A log of nothing but its header counts for nothing.
pub proof fn lemma_empty_log(salt: u32)
    ensures
        log_error(wal_header(salt), salt) is None,
        counted(wal_header(salt), salt) == Seq::<LogFrame>::empty(),
{
    let b = wal_header(salt);
    lemma_wal_header(salt);
    assert(b.skip(WAL_HEADER_LEN as int) =~= Seq::<u8>::empty());
    law_log_round_trip(b, salt, Seq::empty());
}

/// A transaction of which only a part reached the log does not count, and
/// nothing is wrong with the log: wherever the write was cut off, what counted
/// before it counts after it.
pub proof fn law_torn_transaction_does_not_count(
    base: Seq<u8>,
    salt: u32,
    fs: Seq<LogFrame>,
    txn: Seq<LogFrame>,
    k: int,
)
    requires
        whole(fs),
        is_log(base, salt, fs),
        forall|i: int| 0 <= i < txn.len() ==> (#[trigger] txn[i]).page.len() == PAGE_SIZE,
        forall|i: int| 0 <= i < txn.len() ==> (#[trigger] txn[i]).lsn < u64::MAX,
        forall|i: int| 0 <= i < txn.len() - 1 ==> !(#[trigger] txn[i]).commit,
        0 <= k < frames_bytes(salt, txn).len(),
    ensures
        log_error(base + frames_bytes(salt, txn).take(k), salt) is None,
        counted(base + frames_bytes(salt, txn).take(k), salt) == fs,
{
    let torn = frames_bytes(salt, txn).take(k);
    let b = base + torn;
    let n = fs.len();
    lemma_frames_bytes(salt, fs, 0);
    lemma_frames_bytes(salt, txn, 0);
    let j = k / (FRAME_LEN as int);
    assert(0 <= j < txn.len() && j * FRAME_LEN <= k < (j + 1) * FRAME_LEN) by (nonlinear_arith)
        requires
            j == k / (FRAME_LEN as int),
            0 <= k < txn.len() * FRAME_LEN,
            FRAME_LEN == 4128,
    ;
    assert(slots(b) == n + j) by {
        assert((n * FRAME_LEN + k) / (FRAME_LEN as int) == n + j) by (nonlinear_arith)
            requires
                FRAME_LEN == 4128,
                j * FRAME_LEN <= k < (j + 1) * FRAME_LEN,
        ;
        assert(b.len() - WAL_HEADER_LEN == n * FRAME_LEN + k);
    }
    assert(b.take(4) =~= base.take(4));
    assert(b.subrange(4, 6) =~= base.subrange(4, 6));
    assert(b.subrange(12, 16) =~= base.subrange(12, 16));
    assert forall|i: int| 0 <= i < n + j implies #[trigger] slot(b, i) == frame_bytes(
        salt,
        if i < n {
            fs[i]
        } else {
            txn[i - n]
        },
    ) by {
        if i < n {
            lemma_frames_bytes(salt, fs, i);
            assert((i + 1) * FRAME_LEN <= n * FRAME_LEN);
            assert(slot(b, i) =~= frames_bytes(salt, fs).subrange(
                i * FRAME_LEN,
                (i + 1) * FRAME_LEN,
            ));
        } else {
            let t = i - n;
            lemma_frames_bytes(salt, txn, t);
            assert((t + 1) * FRAME_LEN <= j * FRAME_LEN);
            assert(slot(b, i) =~= frames_bytes(salt, txn).subrange(
                t * FRAME_LEN,
                (t + 1) * FRAME_LEN,
            ));
        }
    }
    assert forall|i: int| 0 <= i < n + j implies slot_valid(#[trigger] slot(b, i), salt)
        && slot_frame(slot(b, i)) == if i < n {
        fs[i]
    } else {
        txn[i - n]
    } by {
        law_frame_round_trip(
            salt,
            if i < n {
                fs[i]
            } else {
                txn[i - n]
            },
        );
    }
    assert forall|i: int| 0 <= i < n implies #[trigger] in_run(b, salt, i) by {
        assert(slot_valid(slot(b, i), salt));
        if i > 0 {
            assert(slot_valid(slot(b, i - 1), salt));
            assert(fs[i].lsn == fs[0].lsn + i);
            assert(fs[i - 1].lsn == fs[0].lsn + (i - 1));
        }
    }
    lemma_first_bad_reaches(b, salt, 0, n);
    lemma_first_bad_bound(b, salt, n);
    let q = first_bad(b, salt, 0);
    assert(n <= q <= n + j);
    assert forall|i: int| n <= i < n + j implies !slot_frame(#[trigger] slot(b, i)).commit by {
        assert(slot_valid(slot(b, i), salt));
        assert(!txn[i - n].commit);
    }
    if n > 0 {
        assert(slot_valid(slot(b, n - 1), salt));
        assert(slot_frame(slot(b, n - 1)) == fs.last());
    }
    lemma_marked_back(b, n, q);
    assert forall|i: int| q <= i < slots(b) implies !#[trigger] mark_at(b, salt, i) by {
        assert(!slot_frame(slot(b, i)).commit);
    }
    assert(!damaged_inside(b, salt));
    assert forall|i: int| 0 <= i < n implies slot_frame(slot(b, i)) == fs[i] by {
        assert(slot_valid(slot(b, i), salt));
    }
    assert(counted(b, salt) =~= fs);
}

/// Frames without a mark are passed over on the way back to the last mark.
proof fn lemma_marked_back(b: Seq<u8>, n: nat, q: nat)
    requires
        n <= q,
        n > 0 ==> slot_frame(slot(b, n - 1)).commit,
        forall|i: int| n <= i < q ==> !slot_frame(#[trigger] slot(b, i)).commit,
    ensures
        marked(b, q) == n,
    decreases q - n,
{
    if q > n {
        assert(!slot_frame(slot(b, q - 1)).commit);
        lemma_marked_back(b, n, (q - 1) as nat);
    }
}

/// The frames that count in a log are whole transactions, and the log begins
/// with exactly them.
pub proof fn lemma_counted(b: Seq<u8>, salt: u32)
    ensures
        whole(counted(b, salt)),
        b.len() >= WAL_HEADER_LEN && salt_of(b) == salt ==> {
            &&& WAL_HEADER_LEN + counted(b, salt).len() * FRAME_LEN <= b.len()
            &&& b.subrange(
                WAL_HEADER_LEN as int,
                WAL_HEADER_LEN + counted(b, salt).len() * FRAME_LEN,
            ) == frames_bytes(salt, counted(b, salt))
        },
{
    if b.len() >= WAL_HEADER_LEN && salt_of(b) == salt {
        let n = first_bad(b, salt, 0);
        lemma_first_bad_bound(b, salt, 0);
        lemma_marked(b, n);
        let c = marked(b, n);
        let fs = counted(b, salt);
        assert(slots(b) * FRAME_LEN <= b.len() - WAL_HEADER_LEN) by (nonlinear_arith)
            requires
                slots(b) == (b.len() - WAL_HEADER_LEN) / (FRAME_LEN as int),
                FRAME_LEN == 4128,
                b.len() >= WAL_HEADER_LEN,
        ;
        assert forall|i: int| 0 <= i < fs.len() implies (#[trigger] fs[i]).page.len() == PAGE_SIZE
            && fs[i].lsn < u64::MAX by {
            assert(in_run(b, salt, i));
            assert((i + 1) * FRAME_LEN <= slots(b) * FRAME_LEN);
        }
        lemma_run_numbers(b, salt, fs, c);
        assert forall|i: int| 0 <= i < fs.len() implies #[trigger] fs[i].lsn == fs[0].lsn + i by {
            lemma_run_numbers(b, salt, fs, (i + 1) as nat);
        }
        lemma_run_bytes(b, salt, fs, c);
        assert(fs.take(c as int) =~= fs);
    }
}

proof fn lemma_marked(b: Seq<u8>, n: nat)
    ensures
        marked(b, n) <= n,
        marked(b, n) > 0 ==> slot_frame(slot(b, marked(b, n) - 1)).commit,
    decreases n,
{
    if n > 0 && !slot_frame(slot(b, n - 1)).commit {
        lemma_marked(b, (n - 1) as nat);
    }
}

proof fn lemma_run_numbers(b: Seq<u8>, salt: u32, fs: Seq<LogFrame>, c: nat)
    requires
        c <= fs.len(),
        forall|i: int| 0 <= i < fs.len() ==> fs[i] == #[trigger] slot_frame(slot(b, i)),
        forall|i: int| 0 <= i < fs.len() ==> #[trigger] in_run(b, salt, i),
    ensures
        c > 0 ==> fs[c - 1].lsn == fs[0].lsn + (c - 1),
    decreases c,
{
    if c > 1 {
        lemma_run_numbers(b, salt, fs, (c - 1) as nat);
        assert(in_run(b, salt, c - 1));
        assert(fs[c - 1] == slot_frame(slot(b, c - 1)));
        assert(fs[c - 2] == slot_frame(slot(b, c - 2)));
    }
}

proof fn lemma_run_bytes(b: Seq<u8>, salt: u32, fs: Seq<LogFrame>, c: nat)
    requires
        c <= fs.len(),
        WAL_HEADER_LEN + fs.len() * FRAME_LEN <= b.len(),
        forall|i: int| 0 <= i < fs.len() ==> fs[i] == #[trigger] slot_frame(slot(b, i)),
        forall|i: int| 0 <= i < fs.len() ==> #[trigger] in_run(b, salt, i),
    ensures
        b.subrange(WAL_HEADER_LEN as int, WAL_HEADER_LEN + c * FRAME_LEN) == frames_bytes(
            salt,
            fs.take(c as int),
        ),
    decreases c,
{
    if c == 0 {
        assert(b.subrange(WAL_HEADER_LEN as int, WAL_HEADER_LEN as int) =~= Seq::<u8>::empty());
    } else {
        lemma_run_bytes(b, salt, fs, (c - 1) as nat);
        assert(in_run(b, salt, c - 1));
        assert(fs[c - 1] == slot_frame(slot(b, c - 1)));
        assert(fs.take(c as int).drop_last() =~= fs.take(c - 1));
        assert(fs.take(c as int).last() == fs[c - 1]);
        assert(c * FRAME_LEN <= fs.len() * FRAME_LEN);
        assert(b.subrange(WAL_HEADER_LEN as int, WAL_HEADER_LEN + c * FRAME_LEN) =~= b.subrange(
            WAL_HEADER_LEN as int,
            WAL_HEADER_LEN + (c - 1) * FRAME_LEN,
        ) + slot(b, c - 1));
    }
}

/// What was logged later counts.
pub proof fn lemma_latest_append(fs: Seq<LogFrame>, gs: Seq<LogFrame>, id: u64)
    ensures
        latest(fs + gs, id) == if latest(gs, id) is Some {
            latest(gs, id)
        } else {
            latest(fs, id)
        },
    decreases gs.len(),
{
    if gs.len() == 0 {
        assert(fs + gs =~= fs);
    } else {
        assert((fs + gs).drop_last() =~= fs + gs.drop_last());
        assert((fs + gs).last() == gs.last());
        lemma_latest_append(fs, gs.drop_last(), id);
    }
}

/// The fields of a frame ahead of its page.
#[derive(Clone, Copy)]
struct FrameHead {
    lsn: u64,
    id: u64,
    commit: bool,
}

proof fn lemma_slot_fields(s: Seq<u8>, salt: u32)
    requires
        s.len() == FRAME_LEN,
    ensures
        slot_valid(s, salt) <==> {
            &&& bytes::le_nat(s.subrange(16, 20)) == salt
            &&& bytes::le_nat(s.subrange(20, 24)) <= 1
            &&& bytes::le_nat(s.subrange(24, 28)) == checksum::crc32c_of(
                s.subrange(0, 24) + s.skip(FRAME_HEAD_LEN as int),
            )
            &&& bytes::le_nat(s.subrange(28, 32)) == 0
            &&& bytes::le_nat(s.subrange(0, 8)) < u64::MAX
        },
        bytes::le_nat(s.subrange(0, 8)) <= u64::MAX,
        bytes::le_nat(s.subrange(8, 16)) <= u64::MAX,
{
    let f = slot_frame(s);
    let flag = bytes::le_nat(s.subrange(20, 24));
    let crc = bytes::le_nat(s.subrange(24, 28));
    let zeros = Seq::new(4, |i: int| 0u8);
    bytes::lemma_pow256();
    bytes::lemma_le_round_trip_bytes(s.subrange(0, 8));
    bytes::lemma_le_round_trip_bytes(s.subrange(8, 16));
    bytes::lemma_le_round_trip_bytes(s.subrange(16, 20));
    bytes::lemma_le_round_trip_bytes(s.subrange(20, 24));
    bytes::lemma_le_round_trip_bytes(s.subrange(24, 28));
    bytes::lemma_le_round_trip_bytes(s.subrange(28, 32));
    lemma_zero_word(s.subrange(28, 32));
    lemma_head_len(salt, f);
    bytes::lemma_le_seq_len(crc, 4);
    if bytes::le_nat(s.subrange(16, 20)) == salt && flag <= 1 && crc == checksum::crc32c_of(
        s.subrange(0, 24) + s.skip(FRAME_HEAD_LEN as int),
    ) && bytes::le_nat(s.subrange(28, 32)) == 0 && f.lsn < u64::MAX {
        assert(frame_head(salt, f) =~= s.subrange(0, 24));
        assert(s.subrange(28, 32) =~= zeros);
        assert(frame_bytes(salt, f) =~= s);
    }
    if slot_valid(s, salt) {
        assert(f.page.len() == PAGE_SIZE);
        let t = frame_bytes(salt, f);
        let head = frame_head(salt, f);
        let sum = checksum::crc32c_of(head + f.page);
        let one: nat = if f.commit {
            1
        } else {
            0
        };
        bytes::lemma_le_seq_len(f.lsn as nat, 8);
        bytes::lemma_le_seq_len(f.id as nat, 8);
        bytes::lemma_le_seq_len(salt as nat, 4);
        bytes::lemma_le_seq_len(one, 4);
        bytes::lemma_le_seq_len(sum as nat, 4);
        bytes::lemma_le_round_trip(salt as nat, 4);
        bytes::lemma_le_round_trip(one, 4);
        bytes::lemma_le_round_trip(sum as nat, 4);
        assert(t.subrange(16, 20) =~= bytes::le_seq(salt as nat, 4));
        assert(t.subrange(20, 24) =~= bytes::le_seq(one, 4));
        assert(t.subrange(24, 28) =~= bytes::le_seq(sum as nat, 4));
        assert(t.subrange(28, 32) =~= zeros);
        assert(t.subrange(0, 24) =~= head);
    }
}

/// Four bytes are zero as a number iff they are zero as bytes.
proof fn lemma_zero_word(w: Seq<u8>)
    requires
        w.len() == 4,
    ensures
        bytes::le_nat(w) == 0 <==> w == Seq::new(4, |i: int| 0u8),
{
    let zeros = Seq::new(4, |i: int| 0u8);
    bytes::lemma_pow256();
    bytes::lemma_le_round_trip_bytes(w);
    bytes::lemma_le_round_trip_bytes(zeros);
    assert(bytes::le_nat(zeros) == 0) by {
        reveal_with_fuel(bytes::le_nat, 5);
    }
}

/// Read the frame that stands in `s`; `None` if it is damaged or of another
/// generation.
fn read_slot(s: &[u8], salt: u32) -> (r: Option<FrameHead>)
    requires
        s@.len() == FRAME_LEN,
    ensures
        r is Some <==> slot_valid(s@, salt),
        r matches Some(h) ==> h.lsn == slot_frame(s@).lsn && h.id == slot_frame(s@).id && h.commit
            == slot_frame(s@).commit,
{
    let lsn: u64 = get_le(vstd::slice::slice_subrange(s, 0, 8), 8);
    let id: u64 = get_le(vstd::slice::slice_subrange(s, 8, 16), 8);
    let stored_salt: u64 = get_le(vstd::slice::slice_subrange(s, 16, 20), 4);
    let flag: u64 = get_le(vstd::slice::slice_subrange(s, 20, 24), 4);
    let stored_crc: u64 = get_le(vstd::slice::slice_subrange(s, 24, 28), 4);
    let pad: u64 = get_le(vstd::slice::slice_subrange(s, 28, 32), 4);
    let covered: &[u8] = vstd::slice::slice_subrange(s, 0, 24);
    let body: &[u8] = vstd::slice::slice_subrange(s, FRAME_HEAD_LEN, FRAME_LEN);
    proof {
        lemma_slot_fields(s@, salt);
        assert(s@.subrange(0, 8).take(8) =~= s@.subrange(0, 8));
        assert(s@.subrange(8, 16).take(8) =~= s@.subrange(8, 16));
        assert(s@.subrange(16, 20).take(4) =~= s@.subrange(16, 20));
        assert(s@.subrange(20, 24).take(4) =~= s@.subrange(20, 24));
        assert(s@.subrange(24, 28).take(4) =~= s@.subrange(24, 28));
        assert(s@.subrange(28, 32).take(4) =~= s@.subrange(28, 32));
        assert(body@ =~= s@.skip(FRAME_HEAD_LEN as int));
    }
    if stored_salt != salt as u64 || flag > 1 || pad != 0 || lsn == u64::MAX {
        return None;
    }
    let sum: u32 = crc32c_append(crc32c(covered), body);
    proof {
        checksum::lemma_crc_append(covered@, body@);
    }
    if stored_crc != sum as u64 {
        return None;
    }
    Some(FrameHead { lsn, id, commit: flag != 0 })
}

/// Append a frame to `out`.
fn push_frame(out: &mut Vec<u8>, salt: u32, head: FrameHead, page: &Page)
    ensures
        final(out)@ == old(out)@ + frame_bytes(
            salt,
            LogFrame { lsn: head.lsn, id: head.id, commit: head.commit, page: page@ },
        ),
{
    let ghost f = LogFrame { lsn: head.lsn, id: head.id, commit: head.commit, page: page@ };
    let flag: u64 = if head.commit {
        1
    } else {
        0
    };
    let mut covered: Vec<u8> = Vec::new();
    push_le(&mut covered, head.lsn, 8);
    push_le(&mut covered, head.id, 8);
    push_le(&mut covered, salt as u64, 4);
    push_le(&mut covered, flag, 4);
    proof {
        assert(covered@ =~= frame_head(salt, f));
    }
    let body: &[u8] = page.as_bytes().as_slice();
    let sum: u32 = crc32c_append(crc32c(covered.as_slice()), body);
    proof {
        checksum::lemma_crc_append(covered@, body@);
    }
    out.extend_from_slice(covered.as_slice());
    push_le(out, sum as u64, 4);
    push_le(out, 0, 4);
    out.extend_from_slice(body);
    proof {
        bytes::lemma_pow256();
        bytes::lemma_le_seq_len(0, 4);
        bytes::lemma_le_round_trip(0, 4);
        lemma_zero_word(bytes::le_seq(0, 4));
        assert(out@ =~= old(out)@ + frame_bytes(salt, f));
    }
}

/// What a log was found to hold.
pub struct Recovered {
    /// Number of frames that count.
    pub committed_frames: u64,
    /// The number that the next frame will carry.
    pub next_lsn: u64,
    /// Where the next frame goes.
    pub end_offset: u64,
    /// The latest of every page.
    pub pages: HashMap<u64, Page>,
    /// The latest file header.
    pub header: Option<Page>,
}

/// The number behind the last of `fs`.
pub open spec fn lsn_after(fs: Seq<LogFrame>) -> u64 {
    if fs.len() == 0 {
        1
    } else {
        (fs.last().lsn + 1) as u64
    }
}

impl Recovered {
    /// This is what a log of `fs` holds.
    pub open spec fn is_of(self, fs: Seq<LogFrame>) -> bool {
        &&& self.committed_frames == fs.len()
        &&& self.next_lsn == lsn_after(fs)
        &&& self.end_offset == WAL_HEADER_LEN + fs.len() * FRAME_LEN
        &&& collapsed(fs, page_bytes(self.pages@))
        &&& match self.header {
            Some(p) => latest(fs, 0) == Some(p@),
            None => latest(fs, 0) is None,
        }
    }

    fn nothing() -> (r: Self)
        ensures
            r.is_of(Seq::empty()),
    {
        let r = Recovered {
            committed_frames: 0,
            next_lsn: 1,
            end_offset: WAL_HEADER_LEN as u64,
            pages: HashMap::new(),
            header: None,
        };
        proof {
            assert(collapsed(Seq::<LogFrame>::empty(), page_bytes(r.pages@)));
        }
        r
    }
}

/// The `k`-th place for a frame.
fn slot_at(b: &[u8], k: usize) -> (r: &[u8])
    requires
        k < slots(b@),
    ensures
        r@ == slot(b@, k as int),
        r@.len() == FRAME_LEN,
{
    let len: usize = b.len();
    proof {
        lemma_slot_in(b@, k as int);
        assert(WAL_HEADER_LEN + k * FRAME_LEN + FRAME_LEN <= len);
    }
    let start: usize = WAL_HEADER_LEN + k * FRAME_LEN;
    vstd::slice::slice_subrange(b, start, start + FRAME_LEN)
}

proof fn lemma_slot_in(b: Seq<u8>, k: int)
    requires
        0 <= k < slots(b),
    ensures
        WAL_HEADER_LEN + (k + 1) * FRAME_LEN <= b.len(),
        (k + 1) * FRAME_LEN == k * FRAME_LEN + FRAME_LEN,
{
    let n = slots(b) as int;
    assert((k + 1) * FRAME_LEN <= b.len() - WAL_HEADER_LEN) by (nonlinear_arith)
        requires
            k + 1 <= n,
            n == (b.len() - WAL_HEADER_LEN) / (FRAME_LEN as int),
            FRAME_LEN == 4128,
            b.len() >= WAL_HEADER_LEN,
    ;
}

/// Take the page in place `k` into `m`.
fn take_slot(b: &[u8], k: usize, id: u64, m: &mut HashMap<u64, Page>, header: &mut Option<Page>)
    requires
        k < slots(b@),
        id == slot_frame(slot(b@, k as int)).id,
        slot_frame(slot(b@, k as int)).page.len() == PAGE_SIZE,
    ensures
        id == 0 ==> final(m)@ == old(m)@ && (*final(header) matches Some(p) && p@ == slot_frame(
            slot(b@, k as int),
        ).page),
        id != 0 ==> *final(header) == *old(header) && page_bytes(final(m)@) == page_bytes(
            old(m)@,
        ).insert(id, slot_frame(slot(b@, k as int)).page),
{
    let s: &[u8] = slot_at(b, k);
    let body: &[u8] = vstd::slice::slice_subrange(s, FRAME_HEAD_LEN, FRAME_LEN);
    let mut page = Page::zeroed();
    page.put(0, body);
    proof {
        assert(page@ =~= slot_frame(s@).page);
    }
    if id == 0 {
        *header = Some(page);
    } else {
        m.insert(id, page);
        proof {
            assert(page_bytes(m@) =~= page_bytes(old(m)@).insert(id, page@));
        }
    }
}

/// What counts in the log `b`, for a main file that expects `salt`.
pub fn recover_bytes(b: &[u8], salt: u32) -> (r: Result<Recovered, Error>)
    ensures
        match log_error(b@, salt) {
            Some(e) => r == Err::<Recovered, Error>(e),
            None => r matches Ok(rec) && rec.is_of(counted(b@, salt)),
        },
{
    if b.len() < WAL_HEADER_LEN {
        return Ok(Recovered::nothing());
    }
    let magic: [u8; 4] = WAL_MAGIC;
    proof {
        bytes::lemma_pow256();
        assert(b@.take(4) =~= WAL_MAGIC@ <==> (b[0] == WAL_MAGIC[0] && b[1] == WAL_MAGIC[1] && b[2]
            == WAL_MAGIC[2] && b[3] == WAL_MAGIC[3]));
        assert(b@.subrange(4, 6).take(2) =~= b@.subrange(4, 6));
        assert(b@.subrange(12, 16).take(4) =~= b@.subrange(12, 16));
        bytes::lemma_le_round_trip_bytes(b@.subrange(4, 6));
        bytes::lemma_le_round_trip_bytes(b@.subrange(12, 16));
    }
    if b[0] != magic[0] || b[1] != magic[1] || b[2] != magic[2] || b[3] != magic[3] {
        return Err(Error::InvalidFormat { reason: "log magic bytes are not OBJW" });
    }
    let major: u16 = get_le(vstd::slice::slice_subrange(b, 4, 6), 2) as u16;
    if !is_supported_format_major(major) {
        return Err(Error::InvalidFormat { reason: "log format-major version not supported" });
    }
    let found: u32 = get_le(vstd::slice::slice_subrange(b, 12, 16), 4) as u32;
    if found != salt {
        return Ok(Recovered::nothing());
    }
    recover_frames(b, salt)
}

fn recover_frames(b: &[u8], salt: u32) -> (r: Result<Recovered, Error>)
    requires
        headed(b@, salt),
    ensures
        match log_error(b@, salt) {
            Some(e) => r == Err::<Recovered, Error>(e),
            None => r matches Ok(rec) && rec.is_of(counted(b@, salt)),
        },
{
    let n: usize = (b.len() - WAL_HEADER_LEN) / FRAME_LEN;
    let mut k: usize = 0;
    let mut done: usize = 0;
    let mut done_lsn: u64 = 0;
    let mut last_lsn: u64 = 0;
    let mut going: bool = true;
    while going && k < n
        invariant
            n == slots(b@),
            k <= n,
            done <= k,
            done == marked(b@, k as nat),
            forall|j: int| 0 <= j < k ==> #[trigger] in_run(b@, salt, j),
            k > 0 ==> last_lsn == slot_frame(slot(b@, k - 1)).lsn,
            done > 0 ==> done_lsn == slot_frame(slot(b@, done - 1)).lsn,
            !going ==> k < n && !in_run(b@, salt, k as int),
        decreases
                n - k,
                if going {
                    1int
                } else {
                    0
                },
    {
        proof {
            if k > 0 {
                assert(in_run(b@, salt, k - 1));
            }
        }
        match read_slot(slot_at(b, k), salt) {
            Some(h) => {
                if k > 0 && h.lsn != last_lsn + 1 {
                    going = false;
                } else {
                    proof {
                        assert(in_run(b@, salt, k as int));
                    }
                    last_lsn = h.lsn;
                    k = k + 1;
                    if h.commit {
                        done = k;
                        done_lsn = h.lsn;
                    }
                }
            },
            None => {
                going = false;
            },
        }
    }
    proof {
        lemma_first_bad_reaches(b@, salt, 0, k as nat);
        assert(first_bad(b@, salt, 0) == k);
        lemma_counted(b@, salt);
    }
    let mut j: usize = k;
    while j < n
        invariant
            n == slots(b@),
            k <= j <= n,
            k == first_bad(b@, salt, 0),
            headed(b@, salt),
            b@.len() <= usize::MAX,
            forall|i: int| k <= i < j ==> !#[trigger] mark_at(b@, salt, i),
        decreases n - j,
    {
        if let Some(h) = read_slot(slot_at(b, j), salt) {
            if h.commit {
                proof {
                    assert(mark_at(b@, salt, j as int));
                    lemma_slot_in(b@, k as int);
                }
                return Err(
                    Error::WalCorruption {
                        offset: WAL_HEADER_LEN as u64 + k as u64 * FRAME_LEN as u64,
                    },
                );
            }
        }
        j = j + 1;
    }
    let ghost fs = counted(b@, salt);
    let mut pages: HashMap<u64, Page> = HashMap::new();
    let mut header: Option<Page> = None;
    let mut i: usize = 0;
    proof {
        assert(fs.len() == done);
        assert(fs.take(0) =~= Seq::<LogFrame>::empty());
    }
    while i < done
        invariant
            i <= done <= k <= slots(b@),
            fs == counted(b@, salt),
            fs.len() == done,
            headed(b@, salt),
            forall|j: int| 0 <= j < k ==> #[trigger] in_run(b@, salt, j),
            collapsed(fs.take(i as int), page_bytes(pages@)),
            match header {
                Some(p) => latest(fs.take(i as int), 0) == Some(p@),
                None => latest(fs.take(i as int), 0) is None,
            },
        decreases done - i,
    {
        let ghost before = page_bytes(pages@);
        proof {
            assert(in_run(b@, salt, i as int));
            lemma_slot_in(b@, i as int);
            assert(fs[i as int] == slot_frame(slot(b@, i as int)));
            assert(fs.take(i + 1).drop_last() =~= fs.take(i as int));
            assert(fs.take(i + 1).last() == fs[i as int]);
        }
        if let Some(h) = read_slot(slot_at(b, i), salt) {
            take_slot(b, i, h.id, &mut pages, &mut header);
        }
        proof {
            let after = page_bytes(pages@);
            let f = fs[i as int];
            assert forall|id: u64|
                #![trigger after.contains_key(id)]
                #![trigger latest(fs.take(i + 1), id)]
                if id != 0 && latest(fs.take(i + 1), id) is Some {
                    after.contains_key(id) && after[id] == latest(fs.take(i + 1), id)->0
                } else {
                    !after.contains_key(id)
                } by {
                assert(before.contains_key(id) || !before.contains_key(id));
            }
        }
        i = i + 1;
    }
    proof {
        assert(fs.take(done as int) =~= fs);
        if done > 0 {
            lemma_slot_in(b@, done - 1);
            assert(fs.last() == slot_frame(slot(b@, done - 1)));
            assert(in_run(b@, salt, done - 1));
        }
        assert(!damaged_inside(b@, salt));
    }
    Ok(
        Recovered {
            committed_frames: done as u64,
            next_lsn: if done == 0 {
                1
            } else {
                done_lsn + 1
            },
            end_offset: WAL_HEADER_LEN as u64 + done as u64 * FRAME_LEN as u64,
            pages,
            header,
        },
    )
}

/// The frames of a transaction: the pages `ids`, in that order, and behind
/// them the file header if it changed. The first carries `lsn`, and the last
/// is marked.
pub open spec fn txn_frames(
    lsn: u64,
    ids: Seq<u64>,
    pages: Map<u64, Seq<u8>>,
    header: Option<Seq<u8>>,
) -> Seq<LogFrame> {
    let n = txn_len(ids, header);
    Seq::new(
        n,
        |i: int|
            LogFrame {
                lsn: (lsn + i) as u64,
                id: if i < ids.len() {
                    ids[i]
                } else {
                    0
                },
                commit: i + 1 == n,
                page: if i < ids.len() {
                    pages[ids[i]]
                } else {
                    header->0
                },
            },
    )
}

/// Number of frames of a transaction.
pub open spec fn txn_len(ids: Seq<u64>, header: Option<Seq<u8>>) -> nat {
    if header is Some {
        ids.len() + 1
    } else {
        ids.len()
    }
}

/// The latest of a page among the frames of a transaction is what the
/// transaction wrote.
pub proof fn lemma_latest_txn(
    lsn: u64,
    ids: Seq<u64>,
    pages: Map<u64, Seq<u8>>,
    header: Option<Seq<u8>>,
    id: u64,
)
    requires
        ids.no_duplicates(),
        !ids.contains(0),
    ensures
        id != 0 ==> latest(txn_frames(lsn, ids, pages, header), id) == if ids.contains(id) {
            Some(pages[id])
        } else {
            None
        },
        latest(txn_frames(lsn, ids, pages, header), 0) == header,
{
    let fs = txn_frames(lsn, ids, pages, header);
    lemma_latest_ids(fs, ids, pages, ids.len(), id);
    lemma_latest_ids(fs, ids, pages, ids.len(), 0);
    assert(ids.take(ids.len() as int) =~= ids);
    if header is Some {
        assert(fs.drop_last() =~= fs.take(ids.len() as int));
        assert(fs.last().id == 0);
    } else {
        assert(fs =~= fs.take(ids.len() as int));
    }
}

proof fn lemma_latest_ids(
    fs: Seq<LogFrame>,
    ids: Seq<u64>,
    pages: Map<u64, Seq<u8>>,
    n: nat,
    id: u64,
)
    requires
        n <= ids.len() <= fs.len(),
        forall|i: int|
            0 <= i < ids.len() ==> (#[trigger] fs[i]).id == ids[i] && fs[i].page == pages[ids[i]],
    ensures
        latest(fs.take(n as int), id) == if ids.take(n as int).contains(id) {
            Some(pages[id])
        } else {
            None
        },
    decreases n,
{
    if n > 0 {
        let t = fs.take(n as int);
        let s = ids.take(n as int);
        lemma_latest_ids(fs, ids, pages, (n - 1) as nat, id);
        assert(t.drop_last() =~= fs.take(n - 1));
        assert(t.last() == fs[n - 1]);
        assert(s.drop_last() =~= ids.take(n - 1));
        assert(s.last() == ids[n - 1]);
        assert(s =~= s.drop_last().push(s.last()));
        if s.contains(id) && id != s.last() {
            let i = choose|i: int| 0 <= i < s.len() && s[i] == id;
            assert(s.drop_last()[i] == id);
        }
        if s.drop_last().contains(id) {
            let i = choose|i: int| 0 <= i < s.len() - 1 && s.drop_last()[i] == id;
            assert(s[i] == id);
        }
        assert(s[n - 1] == ids[n - 1]);
    }
}

/// A log, as contracts speak of it.
pub struct WalView {
    /// Salt of the current generation.
    pub salt: u32,
    /// The frames that count.
    pub frames: Seq<LogFrame>,
    /// The number that the next frame will carry.
    pub next_lsn: u64,
    /// The bytes of the log file.
    pub file: Seq<u8>,
    /// The file begins with the header of this generation. It does not where
    /// an earlier attempt to write that header failed; the log is then empty.
    pub headed: bool,
    /// How the log is kept.
    pub config: WalConfig,
    /// The syncs of the file that succeeded, one after the other: the mode of
    /// each, and the bytes of the file by then.
    pub syncs: Seq<(SyncMode, Seq<u8>)>,
    /// No operation on the file that stays within this many bytes fails.
    pub limit: Option<nat>,
    /// Where the next salt comes from.
    pub source: Kept<Box<dyn Entropy>>,
}

impl WalView {
    /// Where the next frame goes.
    pub open spec fn end(self) -> nat {
        (WAL_HEADER_LEN + self.frames.len() * FRAME_LEN) as nat
    }

    /// The file holds the frames that count.
    pub open spec fn wf(self) -> bool {
        &&& whole(self.frames)
        &&& self.next_lsn >= 1
        &&& self.frames.len() > 0 ==> self.next_lsn == lsn_after(self.frames)
        &&& self.end() <= u64::MAX
        &&& if self.headed {
            &&& headed(self.file, self.salt)
            &&& self.end() <= self.file.len()
            &&& self.file.subrange(WAL_HEADER_LEN as int, self.end() as int) == frames_bytes(
                self.salt,
                self.frames,
            )
        } else {
            self.frames.len() == 0
        }
    }

    /// A transaction of `n` more frames would take the log beyond its limit.
    pub open spec fn too_long(self, n: nat) -> bool {
        self.end() + n * FRAME_LEN > self.config.size_limit
    }

    /// There are no sequence numbers left for `n` more frames.
    pub open spec fn out_of_numbers(self, n: nat) -> bool {
        self.next_lsn + n > u64::MAX
    }

    /// The log with the frames of a transaction behind the others.
    pub open spec fn extended(self, new: WalView, fs: Seq<LogFrame>) -> bool {
        &&& new.salt == self.salt
        &&& new.frames == self.frames + fs
        &&& new.next_lsn == self.next_lsn + fs.len()
        &&& new.headed
        &&& new.config == self.config
        &&& new.file.len() == new.end()
        &&& new.syncs == self.syncs.push((self.config.sync_mode, new.file))
        &&& new.limit == self.limit
        &&& new.source == self.source
    }

    /// The log counts for the same as before, though its file may have
    /// changed behind what counts.
    pub open spec fn counts_same(self, new: WalView) -> bool {
        &&& new.salt == self.salt
        &&& new.frames == self.frames
        &&& new.next_lsn == self.next_lsn
        &&& new.config == self.config
        &&& new.syncs == self.syncs
        &&& new.limit == self.limit
        &&& new.source == self.source
    }

    /// The log with another generation of another salt, empty.
    pub open spec fn emptied(self, new: WalView) -> bool {
        &&& new.frames.len() == 0
        &&& new.next_lsn == self.next_lsn
        &&& new.config == self.config
        &&& new.limit == self.limit
        &&& env::may_draw(&*self.source.source, new.salt)
    }

    /// The log with another generation of another salt, empty, and its header
    /// written and synced.
    pub open spec fn restarted(self, new: WalView) -> bool {
        &&& self.emptied(new)
        &&& new.headed
        &&& new.file == wal_header(new.salt)
        &&& new.syncs == self.syncs.push((self.config.sync_mode, new.file))
    }
}

/// A log on a file.
pub struct Wal<F: FileBackend> {
    file: F,
    path: String,
    salt: u32,
    next_lsn: u64,
    end_offset: u64,
    committed_frames: u64,
    headed: bool,
    config: WalConfig,
    entropy: Kept<Box<dyn Entropy>>,
    frames: Ghost<Seq<LogFrame>>,
}

impl<F: FileBackend> View for Wal<F> {
    type V = WalView;

    closed spec fn view(&self) -> WalView {
        WalView {
            salt: self.salt,
            frames: self.frames@,
            next_lsn: self.next_lsn,
            file: self.file.contents(),
            headed: self.headed,
            config: self.config,
            syncs: self.file.syncs(),
            limit: self.file.limit(),
            source: self.entropy,
        }
    }
}

/// The header of a log of the given salt.
fn header_bytes(salt: u32) -> (r: Vec<u8>)
    ensures
        r@ == wal_header(salt),
{
    let magic: [u8; 4] = WAL_MAGIC;
    let mut out: Vec<u8> = Vec::new();
    out.extend_from_slice(magic.as_slice());
    push_le(&mut out, FORMAT_MAJOR as u64, 2);
    push_le(&mut out, FORMAT_MINOR as u64, 2);
    push_le(&mut out, PAGE_SIZE as u64, 4);
    push_le(&mut out, salt as u64, 4);
    push_le(&mut out, 0, 8);
    push_le(&mut out, 0, 8);
    proof {
        bytes::lemma_pow256();
        lemma_zero_bytes(8);
        bytes::lemma_le_seq_len(0, 8);
        assert(out@ =~= wal_header(salt));
    }
    out
}

proof fn lemma_zero_bytes(n: nat)
    ensures
        bytes::le_seq(0, n) == Seq::new(n, |i: int| 0u8),
    decreases n,
{
    if n > 0 {
        lemma_zero_bytes((n - 1) as nat);
    }
    assert(bytes::le_seq(0, n) =~= Seq::new(n, |i: int| 0u8));
}

/// Read a whole file.
fn read_whole<F: FileBackend>(file: &F) -> (r: Result<Vec<u8>, Error>)
    ensures
        match r {
            Ok(b) => b@ == file.contents(),
            Err(e) => e is Io && !file::within(file.limit(), file.contents().len() as int)
                || file.contents().len() > usize::MAX && e == Error::InvalidArgument(
                "log too large for memory",
            ),
        },
{
    let n: u64 = match file.len() {
        Ok(n) => n,
        Err(e) => return Err(e),
    };
    if n > usize::MAX as u64 {
        return Err(Error::InvalidArgument("log too large for memory"));
    }
    let mut b: Vec<u8> = vec![0u8; n as usize];
    match file.read_exact_at(b.as_mut_slice(), 0) {
        Ok(_) => {},
        Err(e) => return Err(e),
    }
    proof {
        assert(file.contents().subrange(0, n as int) =~= file.contents());
    }
    Ok(b)
}

proof fn lemma_headed(b: Seq<u8>, salt: u32)
    requires
        b.len() >= WAL_HEADER_LEN,
        b.take(WAL_HEADER_LEN as int) == wal_header(salt),
    ensures
        headed(b, salt),
{
    lemma_wal_header(salt);
    let h = wal_header(salt);
    assert(b.take(4) =~= h.take(4));
    assert(b.subrange(4, 6) =~= h.subrange(4, 6));
    assert(b.subrange(12, 16) =~= h.subrange(12, 16));
}

/// Changing a log behind what counts leaves it well-formed.
proof fn lemma_same_ahead(v: WalView, new: WalView)
    requires
        v.wf(),
        v.counts_same(new),
        new.headed == v.headed,
        v.headed ==> v.end() <= new.file.len() && new.file.take(v.end() as int) == v.file.take(
            v.end() as int,
        ),
    ensures
        new.wf(),
{
    if v.headed {
        let e = v.end() as int;
        assert(new.file.subrange(WAL_HEADER_LEN as int, e) =~= new.file.take(e).skip(
            WAL_HEADER_LEN as int,
        ));
        assert(v.file.subrange(WAL_HEADER_LEN as int, e) =~= v.file.take(e).skip(
            WAL_HEADER_LEN as int,
        ));
        assert(new.file.take(4) =~= new.file.take(e).take(4));
        assert(v.file.take(4) =~= v.file.take(e).take(4));
        assert(new.file.subrange(4, 6) =~= new.file.take(e).subrange(4, 6));
        assert(v.file.subrange(4, 6) =~= v.file.take(e).subrange(4, 6));
        assert(new.file.subrange(12, 16) =~= new.file.take(e).subrange(12, 16));
        assert(v.file.subrange(12, 16) =~= v.file.take(e).subrange(12, 16));
    }
}

/// Writing a transaction behind what counts makes it count.
proof fn lemma_extended(v: WalView, new: WalView, fs: Seq<LogFrame>)
    requires
        v.wf(),
        v.headed,
        fs.len() > 0,
        fs.last().commit,
        forall|i: int| 0 <= i < fs.len() ==> (#[trigger] fs[i]).page.len() == PAGE_SIZE,
        forall|i: int| 0 <= i < fs.len() ==> #[trigger] fs[i].lsn == v.next_lsn + i,
        v.next_lsn + fs.len() <= u64::MAX,
        new.salt == v.salt,
        new.frames == v.frames + fs,
        new.next_lsn == v.next_lsn + fs.len(),
        new.headed,
        new.end() <= u64::MAX,
        new.file == v.file.take(v.end() as int) + frames_bytes(v.salt, fs),
    ensures
        new.wf(),
        new.file.len() == new.end(),
{
    let all = v.frames + fs;
    assert(all.last() == fs.last());
    assert forall|i: int| 0 <= i < all.len() implies (#[trigger] all[i]).page.len() == PAGE_SIZE by {
        if i >= v.frames.len() {
            assert(all[i] == fs[i - v.frames.len()]);
        } else {
            assert(all[i] == v.frames[i]);
        }
    }
    assert forall|i: int| 0 <= i < all.len() implies #[trigger] all[i].lsn == all[0].lsn + i
        && all[i].lsn < u64::MAX by {
        if v.frames.len() > 0 {
            assert(v.frames.last().lsn == v.frames[0].lsn + (v.frames.len() - 1));
            assert(all[0] == v.frames[0]);
        } else {
            assert(all[0] == fs[0]);
        }
        if i >= v.frames.len() {
            assert(all[i] == fs[i - v.frames.len()]);
        } else {
            assert(all[i] == v.frames[i]);
        }
    }
    lemma_frames_bytes_append(v.salt, v.frames, fs);
    lemma_frames_bytes(v.salt, fs, 0);
    lemma_frames_bytes(v.salt, v.frames, 0);
    let e = v.end() as int;
    assert(new.file.take(e) =~= v.file.take(e));
    assert(new.file.subrange(WAL_HEADER_LEN as int, new.end() as int) =~= v.file.subrange(
        WAL_HEADER_LEN as int,
        e,
    ) + frames_bytes(v.salt, fs));
    assert(new.file.take(4) =~= v.file.take(4));
    assert(new.file.subrange(4, 6) =~= v.file.subrange(4, 6));
    assert(new.file.subrange(12, 16) =~= v.file.subrange(12, 16));
}

impl<F: FileBackend> Wal<F> {
    /// The log is what its view says.
    pub closed spec fn wf(&self) -> bool {
        &&& self@.wf()
        &&& self.end_offset == self@.end()
        &&& self.committed_frames == self.frames@.len()
    }

    /// What every log satisfies.
    pub proof fn lemma_wf(&self)
        requires
            self.wf(),
        ensures
            self@.wf(),
    {
    }

    /// Where the log file lives.
    pub closed spec fn spec_path(&self) -> Seq<char> {
        self.path@
    }

    /// Start a new log on `file`, with a salt drawn from `entropy`.
    pub fn create_fresh_with(
        file: F,
        path: String,
        config: WalConfig,
        entropy: Kept<Box<dyn Entropy>>,
    ) -> (r: Result<Self, Error>)
        ensures
            match r {
                Ok(w) => {
                    &&& w.wf()
                    &&& w@.frames.len() == 0
                    &&& w@.next_lsn == 1
                    &&& w@.headed
                    &&& w@.file == wal_header(w@.salt)
                    &&& w@.config == config
                    &&& w@.syncs == file.syncs().push((SyncMode::Normal, w@.file))
                    &&& w@.limit == file.limit()
                    &&& env::may_draw(&*entropy.source, w@.salt)
                    &&& w.spec_path() == path@
                },
                Err(e) => e is Io && !file::within(file.limit(), WAL_HEADER_LEN as int),
            },
    {
        let mut file = file;
        let mut entropy = entropy;
        let salt: u32 = entropy.source.next_u32();
        let h: Vec<u8> = header_bytes(salt);
        proof {
            lemma_wal_header(salt);
        }
        match file.write_all_at(h.as_slice(), 0) {
            Ok(_) => {},
            Err(e) => return Err(e),
        }
        match file.set_len(WAL_HEADER_LEN as u64) {
            Ok(_) => {},
            Err(e) => return Err(e),
        }
        match file.sync_all() {
            Ok(_) => {},
            Err(e) => return Err(e),
        }
        proof {
            assert(file.contents() =~= wal_header(salt));
            assert(wal_header(salt).take(WAL_HEADER_LEN as int) =~= wal_header(salt));
            lemma_headed(file.contents(), salt);
            assert(file.contents().subrange(WAL_HEADER_LEN as int, WAL_HEADER_LEN as int)
                =~= Seq::<u8>::empty());
        }
        Ok(
            Wal {
                file,
                path,
                salt,
                next_lsn: 1,
                end_offset: WAL_HEADER_LEN as u64,
                committed_frames: 0,
                headed: true,
                config,
                entropy,
                frames: Ghost(Seq::empty()),
            },
        )
    }

    /// What counts in the log on `file`, for a main file that expects `salt`.
    pub fn open_for_recovery(file: &F, salt: u32) -> (r: Result<Recovered, Error>)
        ensures
            match r {
                Ok(rec) => log_error(file.contents(), salt) is None && rec.is_of(
                    counted(file.contents(), salt),
                ),
                Err(e) => {
                    ||| e is Io && !file::within(file.limit(), file.contents().len() as int)
                    ||| file.contents().len() > usize::MAX && e == Error::InvalidArgument(
                        "log too large for memory",
                    )
                    ||| log_error(file.contents(), salt) == Some(e)
                },
            },
    {
        match read_whole(file) {
            Ok(b) => recover_bytes(b.as_slice(), salt),
            Err(e) => Err(e),
        }
    }

    /// Go on with the log on `file`, of which `rec` was read. The next salt
    /// will come from `entropy`.
    pub fn from_recovered_meta(
        file: F,
        path: String,
        salt: u32,
        rec: &Recovered,
        config: WalConfig,
        entropy: Kept<Box<dyn Entropy>>,
    ) -> (r: Self)
        requires
            log_error(file.contents(), salt) is None,
            counted(file.contents(), salt).len() > 0,
            rec.is_of(counted(file.contents(), salt)),
        ensures
            r.wf(),
            r@.salt == salt,
            r@.frames == counted(file.contents(), salt),
            r@.next_lsn == rec.next_lsn,
            r@.file == file.contents(),
            r@.headed,
            r@.config == config,
            r@.syncs == file.syncs(),
            r@.limit == file.limit(),
            r@.source == entropy,
            r.spec_path() == path@,
    {
        let ghost fs = counted(file.contents(), salt);
        proof {
            lemma_counted(file.contents(), salt);
        }
        Wal {
            file,
            path,
            salt,
            next_lsn: rec.next_lsn,
            end_offset: rec.end_offset,
            committed_frames: rec.committed_frames,
            headed: true,
            config,
            entropy,
            frames: Ghost(fs),
        }
    }

    /// Salt of the current generation.
    pub fn salt(&self) -> (r: u32)
        ensures
            r == self@.salt,
    {
        self.salt
    }

    /// The number that the next frame will carry.
    pub fn next_lsn(&self) -> (r: Lsn)
        ensures
            r@ == self@.next_lsn,
    {
        Lsn::new(self.next_lsn)
    }

    /// Number of frames that count.
    pub fn committed_frames(&self) -> (r: u64)
        requires
            self.wf(),
        ensures
            r == self@.frames.len(),
    {
        self.committed_frames
    }

    /// `true` iff the file is known to begin with the header of the current
    /// generation.
    pub fn has_header(&self) -> (r: bool)
        ensures
            r == self@.headed,
    {
        self.headed
    }

    /// Where the log file lives.
    pub fn path(&self) -> (r: &String)
        ensures
            r@ == self.spec_path(),
    {
        &self.path
    }

    /// Write the header of the current generation if it is not there.
    fn ensure_header(&mut self) -> (r: Result<(), Error>)
        requires
            old(self).wf(),
        ensures
            final(self).wf(),
            old(self)@.counts_same(final(self)@),
            final(self).spec_path() == old(self).spec_path(),
            match r {
                Ok(_) => final(self)@.headed,
                Err(e) => e is Io && !file::within(old(self)@.limit, WAL_HEADER_LEN as int),
            },
    {
        if self.headed {
            return Ok(());
        }
        let h: Vec<u8> = header_bytes(self.salt);
        proof {
            lemma_wal_header(self.salt);
        }
        match self.file.write_all_at(h.as_slice(), 0) {
            Ok(_) => {},
            Err(e) => return Err(e),
        }
        proof {
            let b = self.file.contents();
            assert(b.take(WAL_HEADER_LEN as int) =~= wal_header(self.salt));
            lemma_headed(b, self.salt);
            assert(b.subrange(WAL_HEADER_LEN as int, WAL_HEADER_LEN as int)
                =~= Seq::<u8>::empty());
        }
        self.headed = true;
        Ok(())
    }

    /// Write `buf` behind what counts, with nothing after it, and sync once.
    fn append_bytes(&mut self, buf: &[u8]) -> (r: Result<(), Error>)
        requires
            old(self).wf(),
            old(self)@.headed,
        ensures
            final(self).wf(),
            final(self)@.headed,
            final(self).spec_path() == old(self).spec_path(),
            match r {
                Ok(_) => {
                    &&& final(self)@.file == old(self)@.file.take(old(self)@.end() as int) + buf@
                    &&& final(self)@.syncs == old(self)@.syncs.push(
                        (old(self)@.config.sync_mode, final(self)@.file),
                    )
                    &&& old(self)@.counts_same(WalView { syncs: old(self)@.syncs, ..final(self)@ })
                },
                Err(e) => e is Io && old(self)@.counts_same(final(self)@) && !file::within(
                    old(self)@.limit,
                    (old(self)@.end() + buf@.len()) as int,
                ),
            },
    {
        let ghost v = self@;
        let ghost e = v.end() as int;
        let len: u64 = match self.file.len() {
            Ok(n) => n,
            Err(e) => return Err(e),
        };
        if len > self.end_offset {
            match self.file.set_len(self.end_offset) {
                Ok(_) => {},
                Err(e) => return Err(e),
            }
        }
        proof {
            assert(self.file.contents() =~= v.file.take(e));
            assert(self@.file.take(e) =~= v.file.take(e));
            lemma_same_ahead(v, self@);
        }
        match self.file.write_all_at(buf, self.end_offset) {
            Ok(_) => {},
            Err(err) => {
                proof {
                    assert(self@.file.take(e) =~= v.file.take(e));
                    lemma_same_ahead(v, self@);
                }
                return Err(err);
            },
        }
        proof {
            assert(self@.file =~= v.file.take(e) + buf@);
            assert(self@.file.take(e) =~= v.file.take(e));
            lemma_same_ahead(v, self@);
        }
        self.file.sync_data(self.config.sync_mode)
    }

    /// Log a transaction: the pages `ids` of `pages`, and the file header if
    /// there is one. One write, one sync. Returns the number of the last
    /// frame. Where it fails, the log counts for what it did before.
    pub fn commit_pages(
        &mut self,
        ids: &Vec<u64>,
        pages: &HashMap<u64, Page>,
        header: Option<&Page>,
    ) -> (r: Result<Lsn, Error>)
        requires
            old(self).wf(),
            ids@.len() > 0 || header is Some,
            forall|i: int| 0 <= i < ids@.len() ==> pages@.contains_key(#[trigger] ids@[i]),
        ensures
            final(self).wf(),
            final(self).spec_path() == old(self).spec_path(),
            ({
                let h = match header {
                    Some(p) => Some(p@),
                    None => None,
                };
                let n = txn_len(ids@, h);
                match r {
                    Ok(lsn) => {
                        &&& !old(self)@.too_long(n) && !old(self)@.out_of_numbers(n)
                        &&& lsn@ == old(self)@.next_lsn + n - 1
                        &&& old(self)@.extended(
                            final(self)@,
                            txn_frames(old(self)@.next_lsn, ids@, page_bytes(pages@), h),
                        )
                    },
                    Err(e) => {
                        &&& old(self)@.counts_same(final(self)@)
                        &&& if old(self)@.too_long(n) {
                            e == Error::InvalidArgument("wal size limit exceeded")
                        } else if old(self)@.out_of_numbers(n) {
                            e == Error::InvalidArgument("log sequence numbers exhausted")
                        } else {
                            e is Io && !file::within(
                                old(self)@.limit,
                                (old(self)@.end() + n * FRAME_LEN) as int,
                            )
                        }
                    },
                }
            }),
    {
        let ghost h = match header {
            Some(p) => Some(p@),
            None => None,
        };
        let ghost v = self@;
        let ghost pb = page_bytes(pages@);
        let pages_logged: u64 = ids.len() as u64;
        let count: u64 = if header.is_some() {
            match pages_logged.checked_add(1) {
                Some(count) => count,
                None => return Err(Error::InvalidArgument("wal size limit exceeded")),
            }
        } else {
            pages_logged
        };
        let ghost fs = txn_frames(v.next_lsn, ids@, pb, h);
        let new_end: u64 = match count.checked_mul(FRAME_LEN as u64) {
            Some(more) => match self.end_offset.checked_add(more) {
                Some(end) => end,
                None => return Err(Error::InvalidArgument("wal size limit exceeded")),
            },
            None => return Err(Error::InvalidArgument("wal size limit exceeded")),
        };
        if new_end > self.config.size_limit {
            return Err(Error::InvalidArgument("wal size limit exceeded"));
        }
        let next: u64 = match self.next_lsn.checked_add(count) {
            Some(next) => next,
            None => return Err(Error::InvalidArgument("log sequence numbers exhausted")),
        };
        let mut buf: Vec<u8> = Vec::new();
        let mut i: usize = 0;
        proof {
            assert(fs.take(0) =~= Seq::<LogFrame>::empty());
        }
        while i < ids.len()
            invariant
                i <= ids@.len() <= count == fs.len(),
                self.next_lsn + count <= u64::MAX,
                self.next_lsn == v.next_lsn,
                self.salt == v.salt,
                fs == txn_frames(v.next_lsn, ids@, pb, h),
                fs.len() == txn_len(ids@, h),
                pb == page_bytes(pages@),
                forall|i: int| 0 <= i < ids@.len() ==> pages@.contains_key(#[trigger] ids@[i]),
                buf@ == frames_bytes(v.salt, fs.take(i as int)),
            decreases ids.len() - i,
        {
            let id: u64 = ids[i];
            proof {
                assert(pages@.contains_key(ids@[i as int]));
                assert(fs.take(i + 1).drop_last() =~= fs.take(i as int));
                assert(fs.take(i + 1).last() == fs[i as int]);
            }
            if let Some(page) = pages.get(&id) {
                push_frame(
                    &mut buf,
                    self.salt,
                    FrameHead { lsn: self.next_lsn + i as u64, id, commit: i as u64 + 1 == count },
                    page,
                );
            }
            i = i + 1;
        }
        if let Some(page) = header {
            proof {
                assert(fs.drop_last() =~= fs.take(i as int));
                assert(fs.last() == fs[i as int]);
            }
            push_frame(
                &mut buf,
                self.salt,
                FrameHead { lsn: self.next_lsn + i as u64, id: 0, commit: true },
                page,
            );
        }
        proof {
            assert(fs.take(fs.len() as int) =~= fs);
            assert(buf@ == frames_bytes(v.salt, fs));
            assert forall|i: int| 0 <= i < fs.len() implies (#[trigger] fs[i]).page.len()
                == PAGE_SIZE by {
                if i < ids@.len() {
                    assert(pages@.contains_key(ids@[i]));
                    assert(pb[ids@[i]] == pages@[ids@[i]]@);
                }
            }
            lemma_frames_bytes(v.salt, fs, 0);
        }
        match self.ensure_header() {
            Ok(_) => {},
            Err(e) => return Err(e),
        }
        let ghost mid = self@;
        match self.append_bytes(buf.as_slice()) {
            Ok(_) => {},
            Err(e) => return Err(e),
        }
        self.frames = Ghost(mid.frames + fs);
        self.next_lsn = next;
        self.end_offset = new_end;
        self.committed_frames = self.committed_frames + count;
        proof {
            lemma_extended(mid, self@, fs);
        }
        Ok(Lsn::new(next - 1))
    }

    /// Start a new generation: drop every frame, draw a new salt, and write
    /// the header that carries it. Sequence numbers go on.
    pub fn reset_after_checkpoint(&mut self) -> (r: Result<(), Error>)
        requires
            old(self).wf(),
        ensures
            final(self).wf(),
            final(self).spec_path() == old(self).spec_path(),
            match r {
                Ok(_) => old(self)@.restarted(final(self)@),
                Err(e) => {
                    &&& e is Io
                    &&& !file::within(old(self)@.limit, WAL_HEADER_LEN as int)
                    &&& final(self)@ == old(self)@ && old(self)@.headed || old(self)@.emptied(
                        final(self)@,
                    ) && !final(self)@.headed && final(self)@.syncs == old(self)@.syncs
                },
            },
    {
        match self.file.set_len(WAL_HEADER_LEN as u64) {
            Ok(_) => {},
            Err(e) => {
                if !self.headed {
                    self.salt = self.entropy.source.next_u32();
                }
                return Err(e);
            },
        }
        let salt: u32 = self.entropy.source.next_u32();
        self.salt = salt;
        self.end_offset = WAL_HEADER_LEN as u64;
        self.committed_frames = 0;
        self.headed = false;
        self.frames = Ghost(Seq::empty());
        let h: Vec<u8> = header_bytes(salt);
        proof {
            lemma_wal_header(salt);
        }
        match self.file.write_all_at(h.as_slice(), 0) {
            Ok(_) => {},
            Err(e) => return Err(e),
        }
        match self.file.sync_data(self.config.sync_mode) {
            Ok(_) => {},
            Err(e) => return Err(e),
        }
        self.headed = true;
        proof {
            assert(self.file.contents() =~= wal_header(salt));
            assert(wal_header(salt).take(WAL_HEADER_LEN as int) =~= wal_header(salt));
            lemma_headed(self.file.contents(), salt);
            assert(self.file.contents().subrange(WAL_HEADER_LEN as int, WAL_HEADER_LEN as int)
                =~= Seq::<u8>::empty());
        }
        Ok(())
    }
}

/// Where the frames of a log stand: behind the 32 bytes of the header, one after
/// the other, 4128 bytes each.
pub proof fn law_places_of_frames(b: Seq<u8>, k: int)
    requires
        b.len() >= 32,
        0 <= k,
    ensures
        k < slots(b) <==> 32 + (k + 1) * 4128 <= b.len(),
        slot(b, k) == b.subrange(32 + k * 4128, 32 + (k + 1) * 4128),
{
    let n = b.len() - 32;
    assert(k < n / 4128 <==> (k + 1) * 4128 <= n) by (nonlinear_arith)
        requires
            n >= 0,
            k >= 0,
    ;
}

/// A frame is its number, its page id, the salt, a mark of zero or one, a
/// checksum, four zeros, and the page. It is undamaged exactly where it carries
/// the salt and the checksum fits what stands ahead of it and the page.
pub proof fn law_when_a_frame_is_undamaged(s: Seq<u8>, salt: u32)
    requires
        s.len() == 4128,
    ensures
        slot_valid(s, salt) <==> {
            &&& bytes::le_nat(s.subrange(16, 20)) == salt
            &&& bytes::le_nat(s.subrange(20, 24)) <= 1
            &&& bytes::le_nat(s.subrange(24, 28)) == checksum::crc32c_of(
                s.subrange(0, 24) + s.subrange(32, 4128),
            )
            &&& bytes::le_nat(s.subrange(28, 32)) == 0
            &&& bytes::le_nat(s.subrange(0, 8)) < u64::MAX
        },
        slot_frame(s).lsn == bytes::le_nat(s.subrange(0, 8)),
        slot_frame(s).id == bytes::le_nat(s.subrange(8, 16)),
        slot_frame(s).commit <==> bytes::le_nat(s.subrange(20, 24)) != 0,
        slot_frame(s).page == s.subrange(32, 4128),
{
    lemma_slot_fields(s, salt);
    assert(s.skip(32) =~= s.subrange(32, 4128));
}

/// A change of any one byte of an undamaged frame damages it.
pub proof fn law_one_byte_damages_a_frame(s: Seq<u8>, t: Seq<u8>, salt: u32, at: int)
    requires
        s.len() == 4128,
        t.len() == 4128,
        slot_valid(s, salt),
        0 <= at < 4128,
        s[at] != t[at],
        forall|i: int| 0 <= i < 4128 && i != at ==> #[trigger] s[i] == t[i],
    ensures
        !slot_valid(t, salt),
{
    lemma_slot_fields(s, salt);
    lemma_slot_fields(t, salt);
    let a = s.subrange(0, 24) + s.skip(32);
    let b = t.subrange(0, 24) + t.skip(32);
    if 24 <= at < 28 {
        assert(a =~= b);
        bytes::lemma_le_round_trip_bytes(s.subrange(24, 28));
        bytes::lemma_le_round_trip_bytes(t.subrange(24, 28));
        assert(s.subrange(24, 28)[at - 24] != t.subrange(24, 28)[at - 24]);
    } else if 28 <= at < 32 {
        bytes::lemma_le_round_trip_bytes(s.subrange(28, 32));
        bytes::lemma_le_round_trip_bytes(t.subrange(28, 32));
        assert(s.subrange(28, 32)[at - 28] != t.subrange(28, 32)[at - 28]);
    } else {
        assert(s.subrange(24, 28) =~= t.subrange(24, 28));
        let k = if at < 24 {
            at
        } else {
            at - 8
        };
        assert(a[k] == s[at] && b[k] == t[at]);
        assert forall|i: int| 0 <= i < a.len() && i != k implies #[trigger] a[i] == b[i] by {
            let j = if i < 24 {
                i
            } else {
                i + 8
            };
            assert(a[i] == s[j] && b[i] == t[j]);
        }
        checksum::law_checksum_finds_one_byte(a, b, k);
    }
}

/// A log that does not begin as a log does is refused; one too short to begin
/// at all, and one of another salt, count for nothing.
pub proof fn law_foreign_logs(b: Seq<u8>, salt: u32)
    ensures
        b.len() < 32 ==> log_error(b, salt) is None && counted(b, salt).len() == 0,
        b.len() >= 32 && b.take(4) != seq![0x4Fu8, 0x42u8, 0x4Au8, 0x57u8] ==> log_error(b, salt)
            matches Some(Error::InvalidFormat { .. }),
        b.len() >= 32 && bytes::le_nat(b.subrange(4, 6)) > 1 ==> log_error(b, salt) matches Some(
            Error::InvalidFormat { .. },
        ),
        b.len() >= 32 && b.take(4) == seq![0x4Fu8, 0x42u8, 0x4Au8, 0x57u8] && bytes::le_nat(
            b.subrange(4, 6),
        ) <= 1 && bytes::le_nat(b.subrange(12, 16)) != salt ==> log_error(b, salt) is None
            && counted(b, salt).len() == 0,
{
    assert(WAL_MAGIC@ =~= seq![0x4Fu8, 0x42u8, 0x4Au8, 0x57u8]);
    if b.len() >= 32 {
        bytes::lemma_pow256();
        bytes::lemma_le_round_trip_bytes(b.subrange(4, 6));
        bytes::lemma_le_round_trip_bytes(b.subrange(12, 16));
    }
}

/// A log of the expected salt is refused exactly where a frame is damaged or out
/// of step and an undamaged frame that is marked stands there or behind it. The
/// first frame that is damaged or out of step is named.
pub proof fn law_damage_ahead_of_a_mark_is_refused(b: Seq<u8>, salt: u32, k: int)
    requires
        32 <= b.len() <= u64::MAX,
        b.take(4) == seq![0x4Fu8, 0x42u8, 0x4Au8, 0x57u8],
        bytes::le_nat(b.subrange(4, 6)) <= 1,
        bytes::le_nat(b.subrange(12, 16)) == salt,
        0 <= k <= slots(b),
        forall|j: int|
            0 <= j < k ==> slot_valid(#[trigger] slot(b, j), salt) && (j > 0 ==> slot_frame(
                slot(b, j),
            ).lsn == slot_frame(slot(b, j - 1)).lsn + 1),
        k < slots(b) ==> !slot_valid(slot(b, k), salt) || k > 0 && slot_frame(slot(b, k)).lsn
            != slot_frame(slot(b, k - 1)).lsn + 1,
    ensures
        log_error(b, salt) == if exists|m: int|
            k <= m < slots(b) && slot_valid(#[trigger] slot(b, m), salt) && slot_frame(
                slot(b, m),
            ).commit {
            Some(Error::WalCorruption { offset: (32 + k * 4128) as u64 })
        } else {
            None
        },
        32 + k * 4128 <= b.len(),
{
    assert(WAL_MAGIC@ =~= seq![0x4Fu8, 0x42u8, 0x4Au8, 0x57u8]);
    bytes::lemma_pow256();
    bytes::lemma_le_round_trip_bytes(b.subrange(4, 6));
    bytes::lemma_le_round_trip_bytes(b.subrange(12, 16));
    lemma_first_bad_is(b, salt, k);
    if k > 0 {
        law_places_of_frames(b, k - 1);
    }
    if exists|m: int|
        k <= m < slots(b) && slot_valid(#[trigger] slot(b, m), salt) && slot_frame(
            slot(b, m),
        ).commit {
        let m = choose|m: int|
            k <= m < slots(b) && slot_valid(#[trigger] slot(b, m), salt) && slot_frame(
                slot(b, m),
            ).commit;
        assert(mark_at(b, salt, m));
    }
    if damaged_inside(b, salt) {
        let m = choose|m: int|
            first_bad(b, salt, 0) <= m < slots(b) && #[trigger] mark_at(b, salt, m);
        assert(slot_valid(slot(b, m), salt));
    }
}

proof fn lemma_first_bad_is(b: Seq<u8>, salt: u32, k: int)
    requires
        0 <= k <= slots(b),
        forall|j: int|
            0 <= j < k ==> slot_valid(#[trigger] slot(b, j), salt) && (j > 0 ==> slot_frame(
                slot(b, j),
            ).lsn == slot_frame(slot(b, j - 1)).lsn + 1),
        k < slots(b) ==> !slot_valid(slot(b, k), salt) || k > 0 && slot_frame(slot(b, k)).lsn
            != slot_frame(slot(b, k - 1)).lsn + 1,
    ensures
        first_bad(b, salt, 0) == k,
{
    assert forall|j: int| 0 <= j < k implies #[trigger] in_run(b, salt, j) by {
        assert(slot_valid(slot(b, j), salt));
    }
    lemma_first_bad_reaches(b, salt, 0, k as nat);
}

/// What counts in a log of the expected salt is what stands ahead of the first
/// frame that is damaged or out of step, up to the last mark there.
pub proof fn law_what_counts_in_a_log(b: Seq<u8>, salt: u32, k: int)
    requires
        32 <= b.len(),
        bytes::le_nat(b.subrange(12, 16)) == salt,
        0 <= k <= slots(b),
        forall|j: int|
            0 <= j < k ==> slot_valid(#[trigger] slot(b, j), salt) && (j > 0 ==> slot_frame(
                slot(b, j),
            ).lsn == slot_frame(slot(b, j - 1)).lsn + 1),
        k < slots(b) ==> !slot_valid(slot(b, k), salt) || k > 0 && slot_frame(slot(b, k)).lsn
            != slot_frame(slot(b, k - 1)).lsn + 1,
    ensures
        ({
            let fs = counted(b, salt);
            &&& fs.len() <= k
            &&& forall|i: int| 0 <= i < fs.len() ==> #[trigger] fs[i] == slot_frame(slot(b, i))
            &&& fs.len() > 0 ==> fs.last().commit
            &&& forall|i: int|
                fs.len() <= i < k ==> !slot_frame(#[trigger] slot(b, i)).commit
        }),
{
    bytes::lemma_pow256();
    bytes::lemma_le_round_trip_bytes(b.subrange(12, 16));
    lemma_first_bad_is(b, salt, k);
    lemma_marked(b, k as nat);
    lemma_unmarked(b, k as nat);
}

proof fn lemma_unmarked(b: Seq<u8>, n: nat)
    ensures
        forall|i: int| marked(b, n) <= i < n ==> !slot_frame(#[trigger] slot(b, i)).commit,
    decreases n,
{
    if n > 0 && !slot_frame(slot(b, n - 1)).commit {
        lemma_unmarked(b, (n - 1) as nat);
    }
}

/// One changed byte in a log of whole transactions, in any frame but the last,
/// makes recovery refuse the log and name that frame: a mark stands behind it.
pub proof fn law_flipped_byte_is_refused(
    b: Seq<u8>,
    c: Seq<u8>,
    salt: u32,
    fs: Seq<LogFrame>,
    k: int,
    at: int,
)
    requires
        whole(fs),
        is_log(b, salt, fs),
        b.len() <= u64::MAX,
        0 <= k < fs.len() - 1,
        32 + k * 4128 <= at < 32 + (k + 1) * 4128,
        c.len() == b.len(),
        c[at] != b[at],
        forall|i: int| 0 <= i < b.len() && i != at ==> #[trigger] c[i] == b[i],
    ensures
        log_error(c, salt) == Some(Error::WalCorruption { offset: (32 + k * 4128) as u64 }),
{
    let n = fs.len();
    lemma_log_slots(b, salt, fs);
    assert(slots(c) == slots(b));
    assert(c.take(4) =~= b.take(4));
    assert(c.subrange(4, 6) =~= b.subrange(4, 6));
    assert(c.subrange(12, 16) =~= b.subrange(12, 16));
    bytes::lemma_pow256();
    bytes::lemma_le_round_trip_bytes(b.subrange(4, 6));
    bytes::lemma_le_round_trip_bytes(b.subrange(12, 16));
    assert forall|j: int| 0 <= j < n && j != k implies #[trigger] slot(c, j) == slot(b, j) by {
        law_places_of_frames(b, j);
        if j < k {
            assert((j + 1) * 4128 <= k * 4128);
        } else {
            assert((k + 1) * 4128 <= j * 4128);
        }
        assert(slot(c, j) =~= slot(b, j));
    }
    law_places_of_frames(b, k);
    let s = slot(b, k);
    let t = slot(c, k);
    let o = at - (32 + k * 4128);
    assert(s[o] == b[at] && t[o] == c[at]);
    assert forall|i: int| 0 <= i < 4128 && i != o implies #[trigger] s[i] == t[i] by {
        assert(s[i] == b[32 + k * 4128 + i] && t[i] == c[32 + k * 4128 + i]);
    }
    assert(slot_valid(slot(b, k), salt));
    law_one_byte_damages_a_frame(s, t, salt, o);
    assert forall|j: int| 0 <= j < k implies slot_valid(#[trigger] slot(c, j), salt) && (j > 0
        ==> slot_frame(slot(c, j)).lsn == slot_frame(slot(c, j - 1)).lsn + 1) by {
        assert(slot(c, j) == slot(b, j));
        assert(slot_valid(slot(b, j), salt));
        if j > 0 {
            assert(slot(c, j - 1) == slot(b, j - 1));
            assert(slot_frame(slot(b, j)) == fs[j] && slot_frame(slot(b, j - 1)) == fs[j - 1]);
            assert(fs[j].lsn == fs[0].lsn + j);
            assert(fs[j - 1].lsn == fs[0].lsn + (j - 1));
        }
    }
    assert(slot(c, n - 1) == slot(b, n - 1));
    assert(slot_valid(slot(b, n - 1), salt) && slot_frame(slot(b, n - 1)) == fs.last());
    assert(WAL_MAGIC@ =~= seq![0x4Fu8, 0x42u8, 0x4Au8, 0x57u8]);
    law_damage_ahead_of_a_mark_is_refused(c, salt, k);
}

proof fn lemma_log_slots(b: Seq<u8>, salt: u32, fs: Seq<LogFrame>)
    requires
        whole(fs),
        is_log(b, salt, fs),
    ensures
        slots(b) == fs.len(),
        forall|j: int|
            0 <= j < fs.len() ==> slot_valid(#[trigger] slot(b, j), salt) && slot_frame(slot(b, j))
                == fs[j],
{
    let n = fs.len();
    lemma_frames_bytes(salt, fs, 0);
    assert(slots(b) == n) by {
        assert((n * FRAME_LEN) / (FRAME_LEN as int) == n) by (nonlinear_arith)
            requires
                FRAME_LEN == 4128,
        ;
    }
    assert forall|j: int| 0 <= j < n implies slot_valid(#[trigger] slot(b, j), salt)
        && slot_frame(slot(b, j)) == fs[j] by {
        lemma_frames_bytes(salt, fs, j);
        assert((j + 1) * FRAME_LEN <= n * FRAME_LEN);
        assert(slot(b, j) =~= frames_bytes(salt, fs).subrange(j * FRAME_LEN, (j + 1) * FRAME_LEN));
        assert(fs[j].lsn == fs[0].lsn + j);
        law_frame_round_trip(salt, fs[j]);
    }
}

/// The latest of a page is that of the last frame of its id; there is none where
/// no frame has that id.
pub proof fn law_last_frame_of_a_page_counts(fs: Seq<LogFrame>, id: u64)
    ensures
        forall|i: int|
            0 <= i < fs.len() && (#[trigger] fs[i]).id == id && (forall|j: int|
                i < j < fs.len() ==> (#[trigger] fs[j]).id != id) ==> latest(fs, id) == Some(
                fs[i].page,
            ),
        latest(fs, id) is None <==> forall|i: int|
            0 <= i < fs.len() ==> (#[trigger] fs[i]).id != id,
    decreases fs.len(),
{
    if fs.len() > 0 {
        let some = fs.drop_last();
        let n = fs.len() - 1;
        law_last_frame_of_a_page_counts(some, id);
        assert forall|i: int|
            0 <= i < fs.len() && (#[trigger] fs[i]).id == id && (forall|j: int|
                i < j < fs.len() ==> (#[trigger] fs[j]).id != id) implies latest(fs, id) == Some(
            fs[i].page,
        ) by {
            if i < n {
                assert(fs[n].id != id);
                assert(some[i] == fs[i]);
                assert forall|j: int| i < j < some.len() implies (#[trigger] some[j]).id != id by {
                    assert(some[j] == fs[j]);
                }
            }
        }
        if latest(fs, id) is None {
            assert forall|i: int| 0 <= i < fs.len() implies (#[trigger] fs[i]).id != id by {
                if i < n {
                    assert(some[i] == fs[i]);
                }
            }
        } else if forall|i: int| 0 <= i < fs.len() ==> (#[trigger] fs[i]).id != id {
            assert(fs[n].id != id);
            assert forall|i: int| 0 <= i < some.len() implies (#[trigger] some[i]).id != id by {
                assert(some[i] == fs[i]);
            }
        }
    }
}

/// What is recovered of frames: how many there are, the number and the place of
/// the next, the last of every page, and the last file header.
pub proof fn law_what_is_recovered(rec: Recovered, fs: Seq<LogFrame>)
    requires
        rec.is_of(fs),
        whole(fs),
    ensures
        rec.committed_frames == fs.len(),
        rec.end_offset == 32 + fs.len() * 4128,
        fs.len() == 0 ==> rec.next_lsn == 1,
        fs.len() > 0 ==> rec.next_lsn == fs.last().lsn + 1,
        forall|i: int|
            0 <= i < fs.len() && (#[trigger] fs[i]).id != 0 && (forall|j: int|
                i < j < fs.len() ==> (#[trigger] fs[j]).id != fs[i].id) ==> rec.pages@.contains_key(
                fs[i].id,
            ) && rec.pages@[fs[i].id]@ == fs[i].page,
        forall|id: u64| #[trigger]
            rec.pages@.contains_key(id) ==> id != 0 && exists|i: int|
                0 <= i < fs.len() && (#[trigger] fs[i]).id == id,
        forall|i: int|
            0 <= i < fs.len() && (#[trigger] fs[i]).id == 0 && (forall|j: int|
                i < j < fs.len() ==> (#[trigger] fs[j]).id != 0) ==> rec.header is Some
                && rec.header->0@ == fs[i].page,
        rec.header is None <==> forall|i: int|
            0 <= i < fs.len() ==> (#[trigger] fs[i]).id != 0,
{
    let m = page_bytes(rec.pages@);
    law_last_frame_of_a_page_counts(fs, 0);
    assert forall|i: int|
        0 <= i < fs.len() && (#[trigger] fs[i]).id != 0 && (forall|j: int|
            i < j < fs.len() ==> (#[trigger] fs[j]).id
                != fs[i].id) implies rec.pages@.contains_key(fs[i].id) && rec.pages@[fs[i].id]@
        == fs[i].page by {
        law_last_frame_of_a_page_counts(fs, fs[i].id);
        assert(latest(fs, fs[i].id) == Some(fs[i].page));
        assert(m.contains_key(fs[i].id));
    }
    assert forall|id: u64| #[trigger] rec.pages@.contains_key(id) implies id != 0 && exists|i: int|
        0 <= i < fs.len() && (#[trigger] fs[i]).id == id by {
        law_last_frame_of_a_page_counts(fs, id);
        assert(m.contains_key(id));
        assert(latest(fs, id) is Some);
    }
}

/// The frames of a transaction: one for each of its pages, with its id and its
/// bytes, and behind them one of id zero where the file header changed. They are
/// numbered on, and only the last is marked.
pub proof fn law_frames_of_a_transaction(
    lsn: u64,
    ids: Seq<u64>,
    pages: Map<u64, Seq<u8>>,
    header: Option<Seq<u8>>,
)
    requires
        lsn + ids.len() < u64::MAX,
    ensures
        ({
            let fs = txn_frames(lsn, ids, pages, header);
            &&& fs.len() == ids.len() + if header is Some {
                1int
            } else {
                0int
            }
            &&& forall|i: int|
                0 <= i < ids.len() ==> (#[trigger] fs[i]).id == ids[i] && fs[i].page
                    == pages[ids[i]]
            &&& header matches Some(h) ==> fs.last().id == 0 && fs.last().page == h
            &&& forall|i: int| 0 <= i < fs.len() ==> #[trigger] fs[i].lsn == lsn + i
            &&& forall|i: int|
                0 <= i < fs.len() ==> ((#[trigger] fs[i]).commit <==> i == fs.len() - 1)
        }),
{
}

/// A logged transaction stands behind what the log held, under the same salt, and
/// the log ends with it. A log that refuses one counts for what it did.
pub proof fn law_logging_adds_to_the_log(v: WalView, w: WalView, fs: Seq<LogFrame>, x: WalView)
    requires
        v.extended(w, fs),
        v.counts_same(x),
    ensures
        w.salt == v.salt,
        w.frames.len() == v.frames.len() + fs.len(),
        forall|i: int| 0 <= i < v.frames.len() ==> #[trigger] w.frames[i] == v.frames[i],
        forall|i: int|
            0 <= i < fs.len() ==> #[trigger] fs[i] == w.frames[v.frames.len() + i],
        w.next_lsn == v.next_lsn + fs.len(),
        w.file.len() == 32 + (v.frames.len() + fs.len()) * 4128,
        w.syncs.len() == v.syncs.len() + 1,
        w.syncs.last().1 == w.file,
        x.frames == v.frames,
        x.salt == v.salt,
        x.next_lsn == v.next_lsn,
        x.syncs == v.syncs,
        w.headed,
        w.config == v.config,
        w.limit == v.limit,
        w.source == v.source,
        x.config == v.config,
        x.limit == v.limit,
        x.source == v.source,
{
}

/// A transaction is refused for the length of the log exactly where the log with
/// it would be longer than its limit.
pub proof fn law_log_limit(v: WalView, n: nat)
    ensures
        v.too_long(n) <==> 32 + (v.frames.len() + n) * 4128 > v.config.size_limit,
        v.out_of_numbers(n) <==> v.next_lsn + n > u64::MAX,
{
}

/// A new generation of a log holds nothing, goes on with the numbers, and begins
/// with a header that carries the new salt.
pub proof fn law_new_generation(v: WalView, w: WalView)
    requires
        v.restarted(w),
    ensures
        w.frames.len() == 0,
        w.next_lsn == v.next_lsn,
        w.headed,
        w.file.len() == 32,
        bytes::le_nat(w.file.subrange(12, 16)) == w.salt,
        counted(w.file, w.salt).len() == 0,
        log_error(w.file, w.salt) is None,
        w.syncs == v.syncs.push((v.config.sync_mode, w.file)),
        w.config == v.config,
        w.limit == v.limit,
        exists|b: Seq<u8>| #[trigger]
            v.source.source.may_give(b) && b.len() == 4 && w.salt == bytes::le_nat(b),
{
    lemma_wal_header(w.salt);
    lemma_empty_log(w.salt);
}

/// The header of a log: its magic, the version, the page size, the salt, and
/// zeros.
pub proof fn law_log_header_layout(salt: u32, i: int)
    requires
        16 <= i < 32,
    ensures
        ({
            let h = wal_header(salt);
            &&& h.len() == 32
            &&& h.take(4) == seq![0x4Fu8, 0x42u8, 0x4Au8, 0x57u8]
            &&& bytes::le_nat(h.subrange(4, 6)) == 1
            &&& bytes::le_nat(h.subrange(6, 8)) == 2
            &&& bytes::le_nat(h.subrange(8, 12)) == 4096
            &&& bytes::le_nat(h.subrange(12, 16)) == salt
            &&& h[i] == 0
        }),
{
    let h = wal_header(salt);
    bytes::lemma_pow256();
    bytes::lemma_le_seq_len(1, 2);
    bytes::lemma_le_seq_len(2, 2);
    bytes::lemma_le_seq_len(4096, 4);
    bytes::lemma_le_seq_len(salt as nat, 4);
    bytes::lemma_le_round_trip(1, 2);
    bytes::lemma_le_round_trip(2, 2);
    bytes::lemma_le_round_trip(4096, 4);
    bytes::lemma_le_round_trip(salt as nat, 4);
    assert(h.take(4) =~= seq![0x4Fu8, 0x42u8, 0x4Au8, 0x57u8]);
    assert(h.subrange(4, 6) =~= bytes::le_seq(1, 2));
    assert(h.subrange(6, 8) =~= bytes::le_seq(2, 2));
    assert(h.subrange(8, 12) =~= bytes::le_seq(4096, 4));
    assert(h.subrange(12, 16) =~= bytes::le_seq(salt as nat, 4));
}

/// The bytes of a frame: its number, its page, the salt, its mark, a checksum of
/// these and of the page, four zeros, and the page.
pub proof fn law_frame_layout(salt: u32, f: LogFrame)
    requires
        f.page.len() == 4096,
    ensures
        ({
            let s = frame_bytes(salt, f);
            &&& s.len() == 4128
            &&& bytes::le_nat(s.subrange(0, 8)) == f.lsn
            &&& bytes::le_nat(s.subrange(8, 16)) == f.id
            &&& bytes::le_nat(s.subrange(16, 20)) == salt
            &&& bytes::le_nat(s.subrange(20, 24)) == if f.commit {
                1int
            } else {
                0int
            }
            &&& bytes::le_nat(s.subrange(24, 28)) == checksum::crc32c_of(
                s.subrange(0, 24) + s.subrange(32, 4128),
            )
            &&& bytes::le_nat(s.subrange(28, 32)) == 0
            &&& s.subrange(32, 4128) == f.page
        }),
{
    let s = frame_bytes(salt, f);
    let mark: nat = if f.commit {
        1
    } else {
        0
    };
    let crc = checksum::crc32c_of(frame_head(salt, f) + f.page) as nat;
    bytes::lemma_pow256();
    bytes::lemma_le_seq_len(f.lsn as nat, 8);
    bytes::lemma_le_seq_len(f.id as nat, 8);
    bytes::lemma_le_seq_len(salt as nat, 4);
    bytes::lemma_le_seq_len(mark, 4);
    bytes::lemma_le_seq_len(crc, 4);
    bytes::lemma_le_round_trip(f.lsn as nat, 8);
    bytes::lemma_le_round_trip(f.id as nat, 8);
    bytes::lemma_le_round_trip(salt as nat, 4);
    bytes::lemma_le_round_trip(mark, 4);
    bytes::lemma_le_round_trip(crc, 4);
    assert(s.subrange(0, 8) =~= bytes::le_seq(f.lsn as nat, 8));
    assert(s.subrange(8, 16) =~= bytes::le_seq(f.id as nat, 8));
    assert(s.subrange(16, 20) =~= bytes::le_seq(salt as nat, 4));
    assert(s.subrange(20, 24) =~= bytes::le_seq(mark, 4));
    assert(s.subrange(24, 28) =~= bytes::le_seq(crc, 4));
    assert(s.subrange(0, 24) =~= frame_head(salt, f));
    assert(s.subrange(32, 4128) =~= f.page);
    assert(s.subrange(28, 32) =~= Seq::new(4, |i: int| 0u8));
    lemma_zero_word(s.subrange(28, 32));
}

/// Frames are whole transactions where every page is a page, their numbers go up
/// by one, and the last is marked. A log of such frames is its header and their
/// bytes, one after the other.
pub proof fn law_logs_of_whole_transactions(b: Seq<u8>, salt: u32, fs: Seq<LogFrame>, k: int)
    requires
        whole(fs),
        is_log(b, salt, fs),
        0 <= k < fs.len(),
    ensures
        fs.last().commit,
        fs[k].page.len() == 4096,
        k > 0 ==> fs[k].lsn == fs[k - 1].lsn + 1,
        b.len() == 32 + fs.len() * 4128,
        b.subrange(32 + k * 4128, 32 + (k + 1) * 4128) == frame_bytes(salt, fs[k]),
        counted(b, salt) == fs,
        log_error(b, salt) is None,
{
    lemma_log_slots(b, salt, fs);
    lemma_frames_bytes(salt, fs, k);
    assert((k + 1) * FRAME_LEN <= fs.len() * FRAME_LEN);
    assert(b.subrange(32 + k * 4128, 32 + (k + 1) * 4128) =~= frames_bytes(salt, fs).subrange(
        k * FRAME_LEN,
        (k + 1) * FRAME_LEN,
    ));
    law_log_round_trip(b, salt, fs);
    if k > 0 {
        assert(fs[k].lsn == fs[0].lsn + k);
        assert(fs[k - 1].lsn == fs[0].lsn + (k - 1));
    }
}

} // verus!
