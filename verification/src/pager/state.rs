//! The state of a pager, as contracts speak of it.
//!
//! A page of a file-backed pager is looked for in three places: among the
//! writes of the open transaction, among the pages that the log holds, and in
//! the main file. A memory-backed pager has no log; a page is in its cache or
//! in its backing store, and the cache wins.

use crate::bytes;
use crate::error::Error;
use crate::pager::cache;
use crate::pager::cache::CacheEntry;
use crate::pager::checksum;
use crate::pager::config::Config;
use crate::pager::disk;
use crate::pager::header;
use crate::pager::header::{FileHeader, FEATURE_FLAG_COMPRESSION, FEATURE_FLAG_ENCRYPTION};
use crate::pager::page::PAGE_SIZE;
use crate::pager::snapshot::{HeaderState, SnapshotView};
use crate::platform::file;
use crate::platform::file::SyncMode;
use crate::wal;
use crate::wal::WalView;
use vstd::prelude::*;

verus! {

/// The part of the state that only a file-backed pager has.
pub struct LogState {
    /// The log.
    pub wal: WalView,
    /// Pages written by the open transaction.
    pub pending: Map<u64, Seq<u8>>,
    /// Pages committed to the log and not yet rolled forward.
    pub view: Map<u64, Seq<u8>>,
    /// The open transaction changed the file header.
    pub header_dirty: bool,
    /// The file header committed to the log and not yet rolled forward.
    pub view_header: Option<Seq<u8>>,
    /// The file header as of the last commit, with the salt of the log.
    pub committed: FileHeader,
    /// How many transactions were begun and not ended.
    pub depth: u32,
    /// Page 0 with the salt of the log, where a checkpoint emptied the log and
    /// then failed to write that page. It is written before anything else is
    /// appended to the log.
    pub owed: Option<Seq<u8>>,
}

/// The state of a pager.
pub struct PagerView {
    /// The bytes of the main file or of the backing store.
    pub main: Seq<u8>,
    /// The file header.
    pub header: FileHeader,
    /// The cache, most recently used page first.
    pub cache: Seq<CacheEntry>,
    /// The log; a memory-backed pager has none.
    pub log: Option<LogState>,
    /// How the pager is set up.
    pub config: Config,
    /// The log position that each live snapshot holds on to, by snapshot id.
    pub pins: Map<u64, u64>,
    /// The id that the next snapshot will carry.
    pub next_snapshot: u64,
    /// Number of pages that the main file has room for.
    pub high_water: u64,
    /// The syncs of the main file that succeeded, one after the other: the mode
    /// of each, and the bytes of the file by then.
    pub main_syncs: Seq<(SyncMode, Seq<u8>)>,
    /// No operation on the main file that stays within this many bytes fails.
    pub main_limit: Option<nat>,
}

/// Room for page `id` in `main`.
pub open spec fn has_slot(main: Seq<u8>, id: u64) -> bool {
    (id + 1) * PAGE_SIZE <= main.len()
}

/// The place of page `id` in `main`.
pub open spec fn slot(main: Seq<u8>, id: u64) -> Seq<u8> {
    main.subrange(id * PAGE_SIZE, (id + 1) * PAGE_SIZE)
}

/// The page that stands in `s`; `None` where it is damaged.
pub open spec fn decoded(flags: u32, s: Seq<u8>) -> Option<Seq<u8>> {
    if flags & FEATURE_FLAG_COMPRESSION != 0 {
        match disk::decoded_body_v1(s) {
            Some(body) => Some(disk::stamped_body(body)),
            None => None,
        }
    } else if checksum::trailer_ok(s) {
        Some(s)
    } else {
        None
    }
}

/// `s` is a form that `page` takes on disk.
pub open spec fn encodes(flags: u32, page: Seq<u8>, s: Seq<u8>) -> bool {
    if flags & FEATURE_FLAG_COMPRESSION != 0 {
        disk::encodes_v1(page, s)
    } else {
        s == checksum::stamped(page)
    }
}

/// Page `id` as `main` holds it; `None` where there is no room for it or it
/// is damaged.
pub open spec fn on_main(flags: u32, main: Seq<u8>, id: u64) -> Option<Seq<u8>> {
    if has_slot(main, id) {
        decoded(flags, slot(main, id))
    } else {
        None
    }
}

/// The main file of `v` has page `id` and cannot fail to give it.
pub open spec fn sure_to_read(v: PagerView, id: u64) -> bool {
    has_slot(v.main, id) && file::within(v.main_limit, (id + 1) * PAGE_SIZE)
}

/// Every page of `view` stands in `main`.
pub open spec fn view_on_main(flags: u32, main: Seq<u8>, view: Map<u64, Seq<u8>>) -> bool {
    forall|id: u64| #[trigger]
        view.contains_key(id) ==> on_main(flags, main, id) == Some(checksum::stamped(view[id]))
}

/// `m` is a file that holds `main`, with `s` in the place of page `id`.
pub open spec fn with_slot(main: Seq<u8>, id: u64, s: Seq<u8>, m: Seq<u8>) -> bool {
    &&& s.len() == PAGE_SIZE
    &&& m == crate::pager::page::overwrite(main, id * PAGE_SIZE, s)
}

/// Number of pages that a main file of `len` bytes has room for, page 0
/// counted. A part of a page at the end does not count.
pub open spec fn pages_for_len(len: nat) -> nat {
    len / PAGE_SIZE as nat
}

/// The main file is `b` where it was `a`, but for the place of page `id`,
/// which may hold anything.
pub open spec fn only_slot_differs(a: Seq<u8>, b: Seq<u8>, id: u64) -> bool {
    &&& a.len() == b.len()
    &&& forall|i: int|
        0 <= i < a.len() && !(id * PAGE_SIZE <= i < (id + 1) * PAGE_SIZE) ==> #[trigger] b[i]
            == a[i]
}

/// The salt that a header carries.
pub open spec fn header_salt(h: FileHeader) -> u32 {
    bytes::le_nat(h.wal_salt@.take(4)) as u32
}

/// `h` is `old` with `salt` in it.
pub open spec fn salted(old: FileHeader, salt: u32, h: FileHeader) -> bool {
    h == (FileHeader { wal_salt: h.wal_salt, ..old }) && h.wal_salt@ == bytes::le_seq(
        salt as nat,
        4,
    ) + Seq::new(12, |i: int| 0u8)
}

/// A salt is read back from the header it was put into.
pub proof fn law_salt_round_trip(old: FileHeader, salt: u32, h: FileHeader)
    requires
        salted(old, salt, h),
    ensures
        header_salt(h) == salt,
{
    bytes::lemma_le_seq_len(salt as nat, 4);
    bytes::lemma_pow256();
    bytes::lemma_le_round_trip(salt as nat, 4);
    assert(h.wal_salt@.take(4) =~= bytes::le_seq(salt as nat, 4));
}

/// What is read of a page that was written to the main file is the page with
/// its plain trailer.
pub proof fn law_main_round_trip(flags: u32, page: Seq<u8>, s: Seq<u8>)
    requires
        page.len() == PAGE_SIZE,
        encodes(flags, page, s),
    ensures
        s.len() == PAGE_SIZE,
        decoded(flags, s) == Some(checksum::stamped(page)),
        checksum::body_of(checksum::stamped(page)) == checksum::body_of(page),
{
    checksum::law_stamped_is_valid(page);
    if flags & FEATURE_FLAG_COMPRESSION != 0 {
        disk::law_disk_round_trip(page, s);
    }
}

/// Writing one slot leaves the others as they were.
pub proof fn lemma_other_slots(a: Seq<u8>, b: Seq<u8>, id: u64, k: u64)
    requires
        only_slot_differs(a, b, id),
        k != id,
    ensures
        has_slot(b, k) == has_slot(a, k),
        has_slot(a, k) ==> slot(b, k) == slot(a, k),
{
    if has_slot(a, k) {
        assert forall|i: int| k * PAGE_SIZE <= i < (k + 1) * PAGE_SIZE implies b[i] == a[i] by {
            if k < id {
                assert((k + 1) * PAGE_SIZE <= id * PAGE_SIZE);
            } else {
                assert((id + 1) * PAGE_SIZE <= k * PAGE_SIZE);
            }
        }
        assert(slot(b, k) =~= slot(a, k));
    }
}

/// What overwriting a slot does.
pub proof fn lemma_with_slot(a: Seq<u8>, id: u64, s: Seq<u8>, b: Seq<u8>)
    requires
        has_slot(a, id),
        with_slot(a, id, s, b),
    ensures
        only_slot_differs(a, b, id),
        has_slot(b, id),
        slot(b, id) == s,
{
    assert(slot(b, id) =~= s);
}

impl PagerView {
    /// Feature bits of the file.
    pub open spec fn flags(self) -> u32 {
        self.header.feature_flags
    }

    /// Page `id` as of the last commit.
    pub open spec fn committed_at(self, id: u64) -> Option<Seq<u8>> {
        match self.log {
            Some(l) => if l.view.contains_key(id) {
                Some(l.view[id])
            } else {
                on_main(self.flags(), self.main, id)
            },
            None => if cache::holds(self.cache, id) {
                Some(cache::entry(self.cache, id).page)
            } else {
                on_main(self.flags(), self.main, id)
            },
        }
    }

    /// Page `id` as a read finds it.
    pub open spec fn page_at(self, id: u64) -> Option<Seq<u8>> {
        match self.log {
            Some(l) => if l.pending.contains_key(id) {
                Some(l.pending[id])
            } else {
                self.committed_at(id)
            },
            None => self.committed_at(id),
        }
    }

    /// The log, or the open transaction, holds page `id`.
    pub open spec fn in_log(self, id: u64) -> bool {
        self.log matches Some(l) && (l.pending.contains_key(id) || l.view.contains_key(id))
    }

    /// The part of page `id` ahead of its trailer. A trailer is written anew
    /// whenever a page goes to the main file.
    pub open spec fn body_at(self, id: u64) -> Option<Seq<u8>> {
        match self.page_at(id) {
            Some(p) => Some(checksum::body_of(p)),
            None => None,
        }
    }

    /// Page `id` as the freelist finds it.
    pub open spec fn link_at(self, id: u64) -> Option<Seq<u8>> {
        match self.log {
            Some(l) => self.page_at(id),
            None => on_main(self.flags(), self.main, id),
        }
    }

    /// The number of the last frame in the log.
    pub open spec fn end_lsn(self) -> u64 {
        match self.log {
            Some(l) => (l.wal.next_lsn - 1) as u64,
            None => 0,
        }
    }

    /// A live snapshot holds on to an earlier position of the log than the
    /// last.
    pub open spec fn held_back(self) -> bool {
        exists|id: u64| #[trigger] self.pins.contains_key(id) && self.pins[id] < self.end_lsn()
    }

    /// Every cached page may be thrown away: it is what the main file holds.
    pub open spec fn cache_is_clean(self) -> bool {
        forall|id: u64| #[trigger]
            cache::holds(self.cache, id) ==> id != 0 && !cache::entry(self.cache, id).dirty
                && on_main(self.flags(), self.main, id) == Some(cache::entry(self.cache, id).page)
    }

    /// What every file-backed pager satisfies.
    pub open spec fn file_wf(self, l: LogState) -> bool {
        &&& l.wal.wf()
        &&& l.wal.config == self.config.spec_wal_config()
        &&& self.high_water == pages_for_len(self.main.len())
        &&& self.cache_is_clean()
        &&& !l.pending.contains_key(0)
        &&& !l.view.contains_key(0)
        &&& forall|id: u64| #[trigger]
            l.pending.contains_key(id) ==> l.pending[id].len() == PAGE_SIZE
        &&& forall|id: u64| #[trigger] l.view.contains_key(id) ==> l.view[id].len() == PAGE_SIZE
        &&& l.view_header matches Some(p) ==> p.len() == PAGE_SIZE
        &&& l.owed matches Some(p) ==> p.len() == PAGE_SIZE && view_on_main(
            self.flags(),
            self.main,
            l.view,
        )
        &&& l.committed.well_formed()
        &&& l.committed.feature_flags == self.header.feature_flags
        &&& forall|id: u64| #[trigger]
            self.pins.contains_key(id) ==> self.pins[id] <= self.end_lsn()
    }

    /// What every memory-backed pager satisfies.
    pub open spec fn memory_wf(self) -> bool {
        &&& self.header.page_count * PAGE_SIZE <= self.main.len()
        &&& self.main.len() <= usize::MAX
        &&& forall|id: u64|
            1 <= id < self.header.page_count ==> #[trigger] on_main(
                self.flags(),
                self.main,
                id,
            ) is Some
        &&& forall|id: u64| #[trigger]
            cache::holds(self.cache, id) ==> id != 0 && has_slot(self.main, id) && cache::entry(
                self.cache,
                id,
            ).page.len() == PAGE_SIZE
        &&& forall|id: u64| #[trigger]
            cache::holds(self.cache, id) && !cache::entry(self.cache, id).dirty ==> on_main(
                self.flags(),
                self.main,
                id,
            ) == Some(cache::entry(self.cache, id).page)
        &&& forall|id: u64| #[trigger] self.pins.contains_key(id) ==> self.pins[id] == 0
    }

    /// What every pager satisfies.
    pub open spec fn wf(self) -> bool {
        &&& self.header.well_formed()
        &&& self.header.feature_flags & FEATURE_FLAG_ENCRYPTION == 0
        &&& PAGE_SIZE <= self.main.len() <= u64::MAX
        &&& cache::distinct(self.cache)
        &&& forall|id: u64| #[trigger] self.pins.contains_key(id) ==> id < self.next_snapshot
        &&& match self.log {
            Some(l) => self.file_wf(l),
            None => self.memory_wf(),
        }
    }

    /// `w` is this state, but that pages may have moved between the cache and
    /// the backing store. A page that moved keeps all but its trailer.
    pub open spec fn settled(self, w: PagerView) -> bool {
        &&& w.header == self.header
        &&& w.log == self.log
        &&& w.config == self.config
        &&& w.pins == self.pins
        &&& w.next_snapshot == self.next_snapshot
        &&& w.high_water == self.high_water
        &&& w.main_syncs == self.main_syncs
        &&& w.main_limit == self.main_limit
        &&& w.main.len() == self.main.len()
        &&& self.log is Some ==> w.main == self.main
        &&& forall|id: u64|
            1 <= id < self.header.page_count ==> #[trigger] w.body_at(id) == self.body_at(id)
    }

    /// Every page but `id` is in `w` what it was, but for its trailer.
    pub open spec fn others_kept(self, id: u64, w: PagerView) -> bool {
        forall|k: u64|
            k != id && 1 <= k < self.header.page_count ==> #[trigger] w.body_at(k) == self.body_at(
                k,
            )
    }

    /// The backing store of a memory-backed pager can take one more page.
    pub open spec fn has_room(self) -> bool {
        self.log is None ==> self.main.len() + PAGE_SIZE <= usize::MAX
    }

    /// `w` differs at most in the cache and the main file.
    pub open spec fn same_but_cache_and_main(self, w: PagerView) -> bool {
        &&& w.header == self.header
        &&& w.log == self.log
        &&& w.config == self.config
        &&& w.pins == self.pins
        &&& w.next_snapshot == self.next_snapshot
        &&& w.high_water == self.high_water
        &&& w.main_syncs == self.main_syncs
        &&& w.main_limit == self.main_limit
    }
}

/// `w` is `v` with `e` taken into the cache. Where another page had to leave
/// for it and was dirty, that page was written to the backing store.
pub open spec fn taken_in(
    v: PagerView,
    e: CacheEntry,
    left: Option<CacheEntry>,
    w: PagerView,
) -> bool {
    &&& v.same_but_cache_and_main(w)
    &&& match left {
        None => w.cache == cache::in_front(v.cache, e) && w.main == v.main,
        Some(ev) => {
            &&& v.cache.len() > 0
            &&& ev == v.cache.last()
            &&& w.cache == cache::in_front(v.cache.drop_last(), e)
            &&& if ev.dirty {
                exists|s: Seq<u8>| #[trigger]
                    encodes(v.flags(), ev.page, s) && with_slot(v.main, ev.id, s, w.main)
            } else {
                w.main == v.main
            }
        },
    }
}

/// Taking a page into the cache leaves every other page readable as it was.
pub proof fn lemma_taken_in(
    v: PagerView,
    e: CacheEntry,
    left: Option<CacheEntry>,
    w: PagerView,
)
    requires
        v.wf(),
        taken_in(v, e, left, w),
        !cache::holds(v.cache, e.id),
        e.id != 0,
        has_slot(v.main, e.id),
        e.page.len() == PAGE_SIZE,
        !e.dirty ==> on_main(v.flags(), v.main, e.id) == Some(e.page),
        v.log is Some ==> !e.dirty,
    ensures
        w.wf(),
        w.main.len() == v.main.len(),
        slot(w.main, 0) == slot(v.main, 0),
        v.log is Some ==> w.main == v.main,
        w.log is None ==> w.page_at(e.id) == Some(e.page),
        v.others_kept(e.id, w),
{
    let kept = match left {
        None => v.cache,
        Some(ev) => v.cache.drop_last(),
    };
    match left {
        Some(ev) => {
            cache::lemma_drop_last(v.cache);
            cache::lemma_without(v.cache, ev.id);
            assert(cache::holds(v.cache, ev.id));
            if ev.dirty {
                let s = choose|s: Seq<u8>| #[trigger]
                    encodes(v.flags(), ev.page, s) && with_slot(v.main, ev.id, s, w.main);
                law_main_round_trip(v.flags(), ev.page, s);
                lemma_with_slot(v.main, ev.id, s, w.main);
                lemma_other_slots(v.main, w.main, ev.id, 0);
            }
        },
        None => {},
    }
    assert(!cache::holds(kept, e.id));
    cache::lemma_in_front(kept, e);
    assert(w.main.len() == v.main.len());
    assert forall|k: u64|
        has_slot(w.main, k) == has_slot(v.main, k) && (!(left is Some && left->0.dirty
            && left->0.id == k) ==> on_main(v.flags(), w.main, k) == #[trigger] on_main(
            v.flags(),
            v.main,
            k,
        )) by {
        if left is Some && left->0.dirty && left->0.id != k {
            lemma_other_slots(v.main, w.main, left->0.id, k);
        }
    }
    if left is Some && left->0.dirty {
        let ev = left->0;
        assert(on_main(v.flags(), w.main, ev.id) == Some(checksum::stamped(ev.page)));
    }
    assert forall|k: u64| #[trigger] cache::holds(w.cache, k) implies cache::holds(v.cache, k)
        && cache::entry(w.cache, k) == cache::entry(v.cache, k) || k == e.id by {
        if k != e.id {
            assert(cache::holds(kept, k));
        }
    }
    if v.log is None {
        assert forall|k: u64| 1 <= k < w.header.page_count implies #[trigger] on_main(
            w.flags(),
            w.main,
            k,
        ) is Some by {
            assert(on_main(v.flags(), v.main, k) is Some);
        }
        assert forall|k: u64| #[trigger]
            cache::holds(w.cache, k) && !cache::entry(w.cache, k).dirty implies on_main(
            w.flags(),
            w.main,
            k,
        ) == Some(cache::entry(w.cache, k).page) by {
            assert(on_main(v.flags(), v.main, k) == on_main(v.flags(), v.main, k));
            if k != e.id {
                assert(cache::holds(v.cache, k));
                if left is Some && left->0.id == k {
                    assert(cache::holds(kept, k));
                }
            } else if left is Some && left->0.id == k {
                assert(cache::holds(v.cache, k));
            }
        }
        assert forall|k: u64| k != e.id && 1 <= k < v.header.page_count implies #[trigger] w.body_at(
            k,
        ) == v.body_at(k) by {
            assert(on_main(v.flags(), v.main, k) == on_main(v.flags(), v.main, k));
            assert(cache::holds(w.cache, k) == cache::holds(kept, k));
            assert(cache::holds(kept, k) || !cache::holds(kept, k));
            if left is Some && left->0.id == k {
                assert(cache::entry(v.cache, k) == left->0);
            }
        }
    } else {
        assert forall|k: u64| #[trigger] cache::holds(w.cache, k) implies k != 0 && !cache::entry(
            w.cache,
            k,
        ).dirty && on_main(w.flags(), w.main, k) == Some(cache::entry(w.cache, k).page) by {
            if k != e.id {
                assert(cache::holds(v.cache, k));
            }
        }
    }
}

/// Taking a page out of the cache that is not dirty changes nothing that a
/// read finds.
pub proof fn lemma_dropped(v: PagerView, id: u64, w: PagerView)
    requires
        v.wf(),
        cache::holds(v.cache, id),
        w == (PagerView { cache: cache::without(v.cache, id), ..v }),
    ensures
        w.wf(),
        !cache::holds(w.cache, id),
        forall|k: u64|
            k != id || v.log is Some || !cache::entry(v.cache, id).dirty ==> #[trigger] w.page_at(k)
                == v.page_at(k),
{
    cache::lemma_without(v.cache, id);
    assert forall|k: u64| #[trigger] cache::holds(w.cache, k) implies cache::holds(v.cache, k)
        && cache::entry(w.cache, k) == cache::entry(v.cache, k) by {
        if k != id {
            assert(cache::holds(cache::without(v.cache, id), k));
        }
    }
    assert forall|k: u64|
        k != id || v.log is Some || !cache::entry(v.cache, id).dirty implies #[trigger] w.page_at(k)
        == v.page_at(k) by {
        if k != id {
            assert(cache::holds(w.cache, k) == cache::holds(v.cache, k));
        }
    }
}

/// Using a cached page changes nothing that a read finds.
pub proof fn lemma_touched(v: PagerView, id: u64, w: PagerView)
    requires
        v.wf(),
        cache::holds(v.cache, id),
        w == (PagerView { cache: cache::touched(v.cache, id), ..v }),
    ensures
        w.wf(),
        cache::holds(w.cache, id),
        forall|k: u64| #[trigger] w.page_at(k) == v.page_at(k),
{
    let rest = cache::without(v.cache, id);
    let e = cache::entry(v.cache, id);
    cache::lemma_without(v.cache, id);
    assert(e.id == id);
    cache::lemma_in_front(rest, e);
    assert forall|k: u64|
        #![trigger cache::holds(w.cache, k)]
        #![trigger cache::entry(w.cache, k)]
        cache::holds(w.cache, k) == cache::holds(v.cache, k) && (cache::holds(v.cache, k)
            ==> cache::entry(w.cache, k) == cache::entry(v.cache, k)) by {
        if k != id {
            assert(cache::holds(cache::in_front(rest, e), k) == cache::holds(rest, k));
            assert(cache::holds(rest, k) == cache::holds(v.cache, k));
        }
    }
    assert forall|k: u64| #[trigger] w.page_at(k) == v.page_at(k) by {
        assert(cache::holds(w.cache, k) == cache::holds(v.cache, k));
    }
}

/// Changing the header and the open transaction of a file-backed pager.
pub proof fn lemma_staged(v: PagerView, w: PagerView)
    requires
        v.wf(),
        v.log is Some,
        w.log is Some,
        w == (PagerView { header: w.header, log: w.log, ..v }),
        w.header.well_formed(),
        w.header.feature_flags == v.header.feature_flags,
        w.log->0 == (LogState {
            pending: w.log->0.pending,
            header_dirty: w.log->0.header_dirty,
            depth: w.log->0.depth,
            ..v.log->0
        }),
        !w.log->0.pending.contains_key(0),
        forall|id: u64| #[trigger]
            w.log->0.pending.contains_key(id) ==> w.log->0.pending[id].len() == PAGE_SIZE,
    ensures
        w.wf(),
{
    assert(w.end_lsn() == v.end_lsn());
    assert forall|id: u64| #[trigger] w.pins.contains_key(id) implies w.pins[id]
        <= w.end_lsn() by {
        assert(v.pins.contains_key(id));
    }
    assert forall|id: u64| #[trigger] cache::holds(w.cache, id) implies id != 0 && !cache::entry(
        w.cache,
        id,
    ).dirty && on_main(w.flags(), w.main, id) == Some(cache::entry(w.cache, id).page) by {
        assert(cache::holds(v.cache, id));
    }
}

/// Changing a cached page of a memory-backed pager in place.
pub proof fn lemma_rewritten(v: PagerView, id: u64, page: Seq<u8>, w: PagerView)
    requires
        v.wf(),
        v.log is None,
        page.len() == PAGE_SIZE,
        cache::holds(v.cache, id),
        w == (PagerView {
            cache: cache::in_front(
                cache::without(v.cache, id),
                CacheEntry { id, page, dirty: true },
            ),
            ..v
        }),
    ensures
        w.wf(),
        w.page_at(id) == Some(page),
        forall|k: u64| k != id ==> #[trigger] w.page_at(k) == v.page_at(k),
{
    let rest = cache::without(v.cache, id);
    let e = CacheEntry { id, page, dirty: true };
    cache::lemma_without(v.cache, id);
    cache::lemma_in_front(rest, e);
    assert forall|k: u64|
        #![trigger cache::holds(w.cache, k)]
        #![trigger cache::entry(w.cache, k)]
        k != id implies cache::holds(w.cache, k) == cache::holds(v.cache, k) && (cache::holds(
        v.cache,
        k,
    ) ==> cache::entry(w.cache, k) == cache::entry(v.cache, k)) by {
        assert(cache::holds(cache::in_front(rest, e), k) == cache::holds(rest, k));
        assert(cache::holds(rest, k) == cache::holds(v.cache, k));
    }
    assert forall|k: u64| k != id implies #[trigger] w.page_at(k) == v.page_at(k) by {
        assert(cache::holds(w.cache, k) == cache::holds(v.cache, k));
    }
}

/// Writing a page that is not cached straight to the backing store.
pub proof fn lemma_slot_written(v: PagerView, id: u64, page: Seq<u8>, s: Seq<u8>, w: PagerView)
    requires
        v.wf(),
        v.log is None,
        id != 0,
        !cache::holds(v.cache, id),
        has_slot(v.main, id),
        page.len() == PAGE_SIZE,
        encodes(v.flags(), page, s),
        with_slot(v.main, id, s, w.main),
        w == (PagerView { main: w.main, ..v }),
    ensures
        w.wf(),
        w.main.len() == v.main.len(),
        on_main(w.flags(), w.main, id) == Some(checksum::stamped(page)),
        w.page_at(id) == Some(checksum::stamped(page)),
        forall|k: u64| k != id ==> #[trigger] w.page_at(k) == v.page_at(k),
        forall|k: u64|
            k != id ==> #[trigger] on_main(w.flags(), w.main, k) == on_main(v.flags(), v.main, k),
{
    law_main_round_trip(v.flags(), page, s);
    lemma_with_slot(v.main, id, s, w.main);
    assert forall|k: u64| k != id implies has_slot(w.main, k) == has_slot(v.main, k)
        && #[trigger] on_main(v.flags(), w.main, k) == on_main(v.flags(), v.main, k) by {
        lemma_other_slots(v.main, w.main, id, k);
    }
    assert forall|k: u64| k != id implies #[trigger] w.page_at(k) == v.page_at(k) by {
        assert(on_main(v.flags(), w.main, k) == on_main(v.flags(), v.main, k));
    }
    assert forall|k: u64| 1 <= k < w.header.page_count implies #[trigger] on_main(
        w.flags(),
        w.main,
        k,
    ) is Some by {
        assert(on_main(v.flags(), v.main, k) is Some);
    }
}

/// Changing the header of a memory-backed pager, page 0 with it.
pub proof fn lemma_page0_written(v: PagerView, w: PagerView)
    requires
        v.wf(),
        v.log is None,
        w.header.well_formed(),
        w.header.feature_flags == v.header.feature_flags,
        with_slot(v.main, 0, header::header_page(w.header), w.main),
        w == (PagerView { main: w.main, header: w.header, ..v }),
        w.header.page_count * PAGE_SIZE <= v.main.len(),
        forall|id: u64|
            1 <= id < w.header.page_count ==> #[trigger] on_main(
                v.flags(),
                v.main,
                id,
            ) is Some,
    ensures
        w.wf(),
        w.main.len() == v.main.len(),
        forall|k: u64|
            k != 0 ==> #[trigger] on_main(w.flags(), w.main, k) == on_main(v.flags(), v.main, k),
        forall|k: u64| k != 0 ==> #[trigger] w.page_at(k) == v.page_at(k),
{
    lemma_with_slot(v.main, 0, header::header_page(w.header), w.main);
    assert forall|k: u64| k != 0 implies has_slot(w.main, k) == has_slot(v.main, k)
        && #[trigger] on_main(w.flags(), w.main, k) == on_main(v.flags(), v.main, k) by {
        lemma_other_slots(v.main, w.main, 0, k);
    }
    assert forall|k: u64| k != 0 implies #[trigger] w.page_at(k) == v.page_at(k) by {
        assert(on_main(w.flags(), w.main, k) == on_main(v.flags(), v.main, k));
    }
    assert forall|k: u64| #[trigger] cache::holds(w.cache, k) implies k != 0 && has_slot(
        w.main,
        k,
    ) && cache::entry(w.cache, k).page.len() == PAGE_SIZE by {
        assert(cache::holds(v.cache, k));
        assert(on_main(w.flags(), w.main, k) == on_main(v.flags(), v.main, k));
    }
}

/// Making the backing store longer.
pub proof fn lemma_lengthened(v: PagerView, w: PagerView)
    requires
        v.wf(),
        v.log is None,
        w == (PagerView { main: w.main, ..v }),
        v.main.len() <= w.main.len() <= usize::MAX,
        w.main.take(v.main.len() as int) == v.main,
    ensures
        w.wf(),
        forall|k: u64|
            has_slot(v.main, k) ==> #[trigger] on_main(w.flags(), w.main, k) == on_main(
                v.flags(),
                v.main,
                k,
            ),
        forall|k: u64| has_slot(v.main, k) ==> #[trigger] w.page_at(k) == v.page_at(k),
{
    assert forall|k: u64| has_slot(v.main, k) implies has_slot(w.main, k) && #[trigger] on_main(
        w.flags(),
        w.main,
        k,
    ) == on_main(v.flags(), v.main, k) by {
        assert forall|i: int| 0 <= i < v.main.len() implies w.main[i] == v.main[i] by {
            assert(w.main.take(v.main.len() as int)[i] == w.main[i]);
        }
        assert(slot(w.main, k) =~= slot(v.main, k));
    }
    assert forall|k: u64| has_slot(v.main, k) implies #[trigger] w.page_at(k) == v.page_at(k) by {
        assert(on_main(w.flags(), w.main, k) == on_main(v.flags(), v.main, k));
    }
    assert forall|k: u64| 1 <= k < w.header.page_count implies #[trigger] on_main(
        w.flags(),
        w.main,
        k,
    ) is Some by {
        assert(on_main(v.flags(), v.main, k) is Some);
    }
    assert forall|k: u64| #[trigger] cache::holds(w.cache, k) implies has_slot(w.main, k) && (
    !cache::entry(w.cache, k).dirty ==> on_main(w.flags(), w.main, k) == Some(
        cache::entry(w.cache, k).page,
    )) by {
        assert(cache::holds(v.cache, k));
        assert(has_slot(v.main, k));
        assert(on_main(w.flags(), w.main, k) == on_main(v.flags(), v.main, k));
    }
}

/// `w` is `v` with `page` written as page `id`.
pub open spec fn wrote(v: PagerView, id: u64, page: Seq<u8>, w: PagerView) -> bool {
    match v.log {
        Some(l) => w == (PagerView {
            log: Some(LogState { pending: l.pending.insert(id, page), ..l }),
            cache: w.cache,
            ..v
        }),
        None => {
            &&& v.same_but_cache_and_main(w)
            &&& w.main.len() == v.main.len()
            &&& w.page_at(id) == Some(page)
            &&& v.others_kept(id, w)
        },
    }
}

/// `w` is `v` with the header changed to `h`: noted for the next commit, or
/// written to page 0 where there is no log.
pub open spec fn reheaded(v: PagerView, h: FileHeader, w: PagerView) -> bool {
    match v.log {
        Some(l) => w == (PagerView {
            header: h,
            log: Some(LogState { header_dirty: true, ..l }),
            ..v
        }),
        None => w == (PagerView { header: h, main: w.main, ..v }) && with_slot(
            v.main,
            0,
            header::header_page(h),
            w.main,
        ),
    }
}

/// The link that the freelist head `head` holds, where it is one that can be
/// followed.
pub open spec fn next_free(v: PagerView, head: u64) -> Option<u64> {
    match v.link_at(head) {
        Some(p) => match crate::pager::freelist::freelist_entry(p) {
            Some(f) => if f.next != 0 && (f.next == head || f.next >= v.header.page_count) {
                None
            } else {
                Some(f.next)
            },
            None => None,
        },
        None => None,
    }
}

/// `w` is `v` with the freelist head taken off the list.
pub open spec fn recycled(v: PagerView, head: u64, w: PagerView) -> bool {
    let next = next_free(v, head);
    let h = FileHeader { freelist_head: next->0, ..v.header };
    &&& next is Some
    &&& match v.log {
        Some(l) => w == (PagerView {
            header: h,
            cache: w.cache,
            log: Some(LogState { pending: l.pending.remove(head), header_dirty: true, ..l }),
            ..v
        }),
        None => {
            &&& w == (PagerView { header: h, main: w.main, cache: w.cache, ..v })
            &&& with_slot(v.main, 0, header::header_page(h), w.main)
            &&& forall|k: u64| k != 0 && k != head ==> #[trigger] w.page_at(k) == v.page_at(k)
        },
    }
}

/// `w` is `v` with one more page at the end, all zeros.
pub open spec fn appended(v: PagerView, id: u64, w: PagerView) -> bool {
    let h = FileHeader { page_count: (v.header.page_count + 1) as u64, ..v.header };
    &&& id == v.header.page_count
    &&& 0 < id < u64::MAX
    &&& w.header == h
    &&& match v.log {
        Some(l) => w == (PagerView {
            header: h,
            log: Some(
                LogState {
                    pending: l.pending.insert(
                        id,
                        checksum::stamped(crate::pager::page::zero_page()),
                    ),
                    header_dirty: true,
                    ..l
                },
            ),
            ..v
        }),
        None => {
            &&& w == (PagerView { header: h, main: w.main, cache: w.cache, ..v })
            &&& w.main.len() == v.main.len() + PAGE_SIZE
            &&& slot(w.main, 0) == header::header_page(h)
            &&& w.page_at(id) == Some(crate::pager::page::zero_page())
            &&& v.others_kept(id, w)
        },
    }
}

/// The page that a free page holds.
pub open spec fn free_link(next: u64) -> Seq<u8> {
    checksum::stamped(
        crate::pager::freelist::freelist_bytes(crate::pager::freelist::FreeListPage { next }),
    )
}

/// `w` is `v` with page `id` in front of the freelist.
pub open spec fn freed(v: PagerView, id: u64, w: PagerView) -> bool {
    let h = FileHeader { freelist_head: id, ..v.header };
    let link = free_link(v.header.freelist_head);
    match v.log {
        Some(l) => w == (PagerView {
            header: h,
            cache: w.cache,
            log: Some(
                LogState { pending: l.pending.insert(id, link), header_dirty: true, ..l },
            ),
            ..v
        }),
        None => {
            &&& w == (PagerView { header: h, main: w.main, cache: w.cache, ..v })
            &&& w.main.len() == v.main.len()
            &&& slot(w.main, 0) == header::header_page(h)
            &&& w.link_at(id) == Some(link)
            &&& w.page_at(id) == Some(link)
            &&& forall|k: u64| k != 0 && k != id ==> #[trigger] w.page_at(k) == v.page_at(k)
            &&& forall|k: u64| k != 0 && k != id ==> #[trigger] w.link_at(k) == v.link_at(k)
        },
    }
}

/// The page that was freed last is allocated next, and with that the freelist
/// is what it was before the page was freed.
pub proof fn law_freed_page_comes_back(v: PagerView, id: u64, w: PagerView)
    requires
        v.wf(),
        1 <= id < v.header.page_count,
        v.header.freelist_head != id,
        v.header.freelist_head < v.header.page_count,
        freed(v, id, w),
    ensures
        w.header.freelist_head == id,
        w.header.page_count == v.header.page_count,
        next_free(w, id) == Some(v.header.freelist_head),
{
    crate::pager::freelist::law_stamped_freelist_round_trip(
        crate::pager::freelist::FreeListPage { next: v.header.freelist_head },
    );
}

/// A page that was written is read back as it was written.
pub proof fn law_read_your_write(v: PagerView, id: u64, page: Seq<u8>, w: PagerView)
    requires
        wrote(v, id, page, w),
    ensures
        w.page_at(id) == Some(page),
{
}

/// A write leaves every other page as it was, but for trailers.
pub proof fn law_write_keeps_others(v: PagerView, id: u64, page: Seq<u8>, w: PagerView, k: u64)
    requires
        wrote(v, id, page, w),
        k != id,
        1 <= k < v.header.page_count,
    ensures
        w.body_at(k) == v.body_at(k),
        v.log is Some ==> w.page_at(k) == v.page_at(k),
{
}

/// A new page is all zeros ahead of its trailer, and every other page is as it
/// was.
pub proof fn law_new_page_is_zero(v: PagerView, id: u64, w: PagerView, k: u64)
    requires
        v.wf(),
        appended(v, id, w),
        1 <= k < v.header.page_count,
    ensures
        w.body_at(id) == Some(checksum::body_of(crate::pager::page::zero_page())),
        w.body_at(k) == v.body_at(k),
        id == v.header.page_count,
        w.header.page_count == v.header.page_count + 1,
{
    checksum::law_stamped_is_valid(crate::pager::page::zero_page());
}

/// The header page that a commit logs.
pub open spec fn logged_header(v: PagerView) -> Option<Seq<u8>> {
    if v.log is Some && v.log->0.header_dirty {
        Some(header::header_page(v.header))
    } else {
        None
    }
}

/// There is something to commit.
pub open spec fn has_changes(l: LogState) -> bool {
    l.header_dirty || exists|id: u64| l.pending.contains_key(id)
}

/// `ids` lists the keys of `m`, smallest first.
pub open spec fn lists_keys(ids: Seq<u64>, m: Map<u64, Seq<u8>>) -> bool {
    &&& crate::ordered::increasing(ids)
    &&& ids.no_duplicates()
    &&& ids.to_set() == m.dom()
}

/// Number of frames that a commit logs.
pub open spec fn frames_to_log(v: PagerView) -> nat {
    v.log->0.pending.dom().len() + if v.log->0.header_dirty {
        1nat
    } else {
        0nat
    }
}

/// `v` with a checkpoint finished that had emptied the log and failed to write
/// page 0: that page is written and synced, and what the log held is dropped,
/// as the main file holds it.
pub open spec fn finished(v: PagerView) -> PagerView {
    if v.log is Some && v.log->0.owed is Some {
        let main = crate::pager::page::overwrite(v.main, 0, v.log->0.owed->0);
        PagerView {
            main,
            log: Some(
                LogState { view: Map::empty(), view_header: None, owed: None, ..v.log->0 },
            ),
            main_syncs: v.main_syncs.push((v.config.sync_mode, main)),
            ..v
        }
    } else {
        v
    }
}

/// `w` is `v` with the open transaction committed to the log, where no
/// checkpoint is left to finish.
pub open spec fn logged_on(v: PagerView, w: PagerView) -> bool {
    let l = v.log->0;
    let m = w.log->0;
    &&& v.log is Some
    &&& w.log is Some
    &&& l.owed is None
    &&& exists|ids: Seq<u64>| #[trigger]
        lists_keys(ids, l.pending) && l.wal.extended(
            m.wal,
            wal::txn_frames(l.wal.next_lsn, ids, l.pending, logged_header(v)),
        )
    &&& m.wal.wf()
    &&& m == (LogState {
        wal: m.wal,
        pending: Map::empty(),
        view: l.view.union_prefer_right(l.pending),
        header_dirty: false,
        view_header: if l.header_dirty {
            logged_header(v)
        } else {
            l.view_header
        },
        committed: if l.header_dirty {
            v.header
        } else {
            l.committed
        },
        depth: l.depth,
        owed: None,
    })
    &&& w == (PagerView { log: w.log, cache: w.cache, ..v })
}

/// `w` is `v` with the open transaction committed to the log. A checkpoint
/// that could not finish is finished first. Nothing else is done to the main
/// file.
pub open spec fn logged(v: PagerView, w: PagerView) -> bool {
    v.log is Some && logged_on(finished(v), w)
}

/// `w` is `v`, but that a failed commit may have left something behind what
/// counts in the log. Where a checkpoint was left to finish, that may have
/// been done, or page 0 may have suffered in the attempt.
pub open spec fn commit_failed(v: PagerView, w: PagerView) -> bool {
    let l = v.log->0;
    let m = w.log->0;
    &&& v.log is Some
    &&& w.log is Some
    &&& l.wal.counts_same(m.wal)
    &&& m.wal.wf()
    &&& {
        ||| w == (PagerView { log: Some(LogState { wal: m.wal, ..l }), main: w.main, ..v }) && (
        w.main == v.main || l.owed is Some && m.wal == l.wal && only_slot_differs(
            v.main,
            w.main,
            0,
        ))
        ||| w == (PagerView {
            log: Some(LogState { wal: m.wal, ..finished(v).log->0 }),
            ..finished(v)
        })
    }
}

/// What a commit ends with before it looks at the size of the log.
pub open spec fn commit_step(v: PagerView, lsn: u64, w: PagerView) -> bool {
    if v.log is Some && has_changes(v.log->0) {
        logged(v, w) && lsn == w.end_lsn()
    } else {
        lsn == 0 && w == v
    }
}

/// Why a commit failed. An operating-system error comes first where a
/// checkpoint was left to finish, else last; there is none where the files
/// cannot fail.
pub open spec fn commit_error(v: PagerView, e: Error) -> bool {
    let n = frames_to_log(v);
    if v.log->0.owed is Some && e is Io && !file::within(v.main_limit, PAGE_SIZE as int) {
        true
    } else if v.log->0.wal.too_long(n) {
        e == Error::InvalidArgument("wal size limit exceeded")
    } else if v.log->0.wal.out_of_numbers(n) {
        e == Error::InvalidArgument("log sequence numbers exhausted")
    } else {
        e is Io && !file::within(
            v.log->0.wal.limit,
            (v.log->0.wal.end() + n * wal::FRAME_LEN) as int,
        )
    }
}

/// Finishing a checkpoint leaves a pager well-formed.
pub proof fn lemma_finished(v: PagerView, w: PagerView)
    requires
        v.wf(),
        v.log is Some,
        w == finished(v),
    ensures
        w.wf(),
        w.main.len() == v.main.len(),
        only_slot_differs(v.main, w.main, 0),
{
    if v.log->0.owed is Some {
        let p = v.log->0.owed->0;
        assert(with_slot(v.main, 0, p, w.main));
        lemma_with_slot(v.main, 0, p, w.main);
        lemma_file_slot_changed(v, 0, PagerView { main: w.main, ..v });
        lemma_view_dropped(PagerView { main: w.main, ..v }, PagerView {
            log: Some(LogState { owed: v.log->0.owed, ..w.log->0 }),
            main_syncs: v.main_syncs,
            ..w
        });
        assert(w.end_lsn() == v.end_lsn());
    }
}

/// A commit changes nothing that a read finds, but for trailers where it had a
/// checkpoint to finish.
pub proof fn law_commit_keeps_reads(v: PagerView, w: PagerView, id: u64)
    requires
        v.wf(),
        logged(v, w),
        id != 0,
    ensures
        w.body_at(id) == v.body_at(id),
        w.committed_at(id) == w.page_at(id),
        v.log->0.owed is None ==> w.page_at(id) == v.page_at(id),
{
    let l = v.log->0;
    lemma_finished(v, finished(v));
    lemma_other_slots(v.main, finished(v).main, 0, id);
    if l.owed is Some && l.view.contains_key(id) {
        checksum::law_stamped_is_valid(l.view[id]);
    }
}

/// A failed commit changes nothing: neither what a read finds, nor what is
/// committed, nor the transaction itself. Where it had a checkpoint to finish,
/// trailers may differ.
pub proof fn law_failed_commit_changes_nothing(v: PagerView, w: PagerView, id: u64)
    requires
        v.wf(),
        commit_failed(v, w),
        id != 0,
    ensures
        w.body_at(id) == v.body_at(id),
        v.log->0.owed is None ==> w.page_at(id) == v.page_at(id) && w.committed_at(id)
            == v.committed_at(id),
        w.header == v.header,
        w.log->0.pending == v.log->0.pending,
        w.log->0.header_dirty == v.log->0.header_dirty,
        w.log->0.wal.frames == v.log->0.wal.frames,
{
    let l = v.log->0;
    lemma_finished(v, finished(v));
    lemma_other_slots(v.main, finished(v).main, 0, id);
    if l.owed is Some {
        if only_slot_differs(v.main, w.main, 0) {
            lemma_other_slots(v.main, w.main, 0, id);
        }
        if l.view.contains_key(id) {
            checksum::law_stamped_is_valid(l.view[id]);
        }
    }
}

/// Committing leaves the state well-formed.
pub proof fn lemma_logged(v: PagerView, w: PagerView)
    requires
        v.wf(),
        logged_on(v, w),
        cache::distinct(w.cache),
        w.cache_is_clean(),
    ensures
        w.wf(),
{
    let l = v.log->0;
    let m = w.log->0;
    assert forall|id: u64| #[trigger] m.view.contains_key(id) implies m.view[id].len()
        == PAGE_SIZE by {
        assert(l.pending.contains_key(id) || l.view.contains_key(id));
    }
    assert(m.wal.next_lsn >= l.wal.next_lsn);
    assert forall|id: u64| #[trigger] w.pins.contains_key(id) implies w.pins[id]
        <= w.end_lsn() by {
        assert(v.pins.contains_key(id));
    }
    if l.header_dirty {
        header::lemma_header_page_fields(v.header);
    }
}

/// Moving a page from the open transaction to the committed pages.
pub proof fn lemma_published(v: PagerView, id: u64, w: PagerView)
    requires
        v.wf(),
        v.log is Some,
        v.log->0.owed is None,
        v.log->0.pending.contains_key(id),
        w == (PagerView {
            log: Some(
                LogState {
                    pending: v.log->0.pending.remove(id),
                    view: v.log->0.view.insert(id, v.log->0.pending[id]),
                    ..v.log->0
                },
            ),
            ..v
        }),
    ensures
        w.wf(),
{
    assert(w.end_lsn() == v.end_lsn());
    assert forall|k: u64| #[trigger] w.pins.contains_key(k) implies w.pins[k] <= w.end_lsn() by {
        assert(v.pins.contains_key(k));
    }
    assert forall|k: u64| #[trigger] cache::holds(w.cache, k) implies k != 0 && !cache::entry(
        w.cache,
        k,
    ).dirty && on_main(w.flags(), w.main, k) == Some(cache::entry(w.cache, k).page) by {
        assert(cache::holds(v.cache, k));
    }
}

/// A longer log.
pub proof fn lemma_log_grew(v: PagerView, w: PagerView)
    requires
        v.wf(),
        v.log is Some,
        w.log is Some,
        w == (PagerView { log: Some(LogState { wal: w.log->0.wal, ..v.log->0 }), ..v }),
        w.log->0.wal.wf(),
        w.log->0.wal.config == v.log->0.wal.config,
        w.log->0.wal.next_lsn >= v.log->0.wal.next_lsn,
    ensures
        w.wf(),
{
    assert forall|k: u64| #[trigger] w.pins.contains_key(k) implies w.pins[k] <= w.end_lsn() by {
        assert(v.pins.contains_key(k));
    }
    assert forall|k: u64| #[trigger] cache::holds(w.cache, k) implies k != 0 && !cache::entry(
        w.cache,
        k,
    ).dirty && on_main(w.flags(), w.main, k) == Some(cache::entry(w.cache, k).page) by {
        assert(cache::holds(v.cache, k));
    }
}

/// Byte `i` of the main file belongs to page 0 or to one of the pages `view`.
pub open spec fn rolled_byte(view: Map<u64, Seq<u8>>, i: int) -> bool {
    i < PAGE_SIZE || view.contains_key((i / PAGE_SIZE as int) as u64)
}

/// Outside page 0 and the pages `view`, `b` is `a` and then zeros.
pub open spec fn outside_kept(view: Map<u64, Seq<u8>>, a: Seq<u8>, b: Seq<u8>) -> bool {
    &&& a.len() <= b.len()
    &&& forall|i: int|
        0 <= i < b.len() && !rolled_byte(view, i) ==> #[trigger] b[i] == if i < a.len() {
            a[i]
        } else {
            0u8
        }
}

/// A main file of `n` bytes has just the room that `view` needs, where there
/// were `len` bytes before.
pub open spec fn rolled_len(view: Map<u64, Seq<u8>>, len: nat, n: nat) -> bool {
    &&& forall|id: u64| #[trigger] view.contains_key(id) ==> (id + 1) * PAGE_SIZE <= n
    &&& n == len || exists|id: u64| #[trigger]
        view.contains_key(id) && n == (id + 1) * PAGE_SIZE && n > len
}

/// `b` is the main file `a` with the pages `view` written into it.
pub open spec fn rolled_main(
    flags: u32,
    view: Map<u64, Seq<u8>>,
    a: Seq<u8>,
    b: Seq<u8>,
) -> bool {
    &&& outside_kept(view, a, b)
    &&& rolled_len(view, a.len(), b.len())
    &&& forall|id: u64| #[trigger] view.contains_key(id) ==> encodes(flags, view[id], slot(b, id))
}

/// The log holds a page whose place in the main file is beyond any file.
pub open spec fn page_too_far(v: PagerView) -> bool {
    exists|id: u64| #[trigger]
        v.log->0.view.contains_key(id) && (id + 1) * PAGE_SIZE > u64::MAX
}

/// The log holds nothing that the main file lacks.
pub open spec fn nothing_to_roll(l: LogState) -> bool {
    l.owed is None && l.view_header is None && forall|id: u64| !#[trigger] l.view.contains_key(id)
}

/// In the call that made `w` of `v`, the main file was brought to hold every
/// page of the log, and was then synced in full: the next of its syncs is that
/// one. Nothing but page 0 was written to it since.
pub open spec fn synced_in_full(v: PagerView, w: PagerView) -> bool {
    let n = v.main_syncs.len() as int;
    &&& n < w.main_syncs.len()
    &&& w.main_syncs.take(n) == v.main_syncs
    &&& w.main_syncs[n].0 == SyncMode::Full
    &&& rolled_main(v.flags(), v.log->0.view, v.main, w.main_syncs[n].1)
    &&& only_slot_differs(w.main_syncs[n].1, w.main, 0)
}

/// `w` is `v` with everything that the log held written to the main file and
/// that synced in full, then the log started anew with a salt of its source,
/// and that noted on page 0 and synced. Page 0 is the committed header,
/// whatever an open transaction has made of it.
pub open spec fn rolled_forward(v: PagerView, w: PagerView) -> bool {
    let l = v.log->0;
    let m = w.log->0;
    &&& v.log is Some
    &&& w.log is Some
    &&& l.wal.restarted(m.wal)
    &&& m == (LogState {
        wal: m.wal,
        view: Map::empty(),
        view_header: None,
        owed: None,
        committed: m.committed,
        ..l
    })
    &&& salted(v.header, m.wal.salt, w.header)
    &&& salted(l.committed, m.wal.salt, m.committed)
    &&& rolled_main(v.flags(), l.view, v.main, w.main)
    &&& slot(w.main, 0) == header::header_page(m.committed)
    &&& w.high_water == pages_for_len(w.main.len())
    &&& synced_in_full(v, w)
    &&& w.main_syncs.len() == v.main_syncs.len() + 2
    &&& w.main_syncs.last() == (v.config.sync_mode, w.main)
    &&& w == (PagerView {
        main: w.main,
        header: w.header,
        cache: w.cache,
        log: w.log,
        high_water: w.high_water,
        main_syncs: w.main_syncs,
        ..v
    })
}

/// `w` is what a failed checkpoint may leave of `v`: everything that was
/// committed is still there. Either some of it has reached the main file and
/// the log is as it was; or all of it has and was synced in full, the log was
/// started anew, and page 0 is still owed the salt of the log.
pub open spec fn roll_failed(v: PagerView, w: PagerView) -> bool {
    let l = v.log->0;
    let m = w.log->0;
    &&& v.log is Some
    &&& w.log is Some
    &&& w == (PagerView {
        main: w.main,
        header: w.header,
        cache: w.cache,
        log: Some(LogState { wal: m.wal, owed: m.owed, committed: m.committed, ..l }),
        high_water: w.high_water,
        main_syncs: w.main_syncs,
        ..v
    })
    &&& if l.owed is Some {
        &&& m.wal == l.wal
        &&& m.owed == l.owed
        &&& m.committed == l.committed
        &&& w.header == v.header
        &&& w.main_syncs == v.main_syncs
        &&& only_slot_differs(v.main, w.main, 0)
    } else {
        &&& outside_kept(l.view, v.main, w.main)
        &&& {
            ||| {
                &&& m.wal == l.wal
                &&& m.owed is None
                &&& m.committed == l.committed
                &&& w.header == v.header
                &&& w.main_syncs == v.main_syncs || synced_in_full(v, w)
            }
            ||| {
                &&& l.wal.emptied(m.wal)
                &&& salted(v.header, m.wal.salt, w.header)
                &&& salted(l.committed, m.wal.salt, m.committed)
                &&& m.owed == Some(header::header_page(m.committed))
                &&& rolled_main(v.flags(), l.view, v.main, w.main)
                &&& synced_in_full(v, w)
            }
        }
    }
}

/// `w` is `v` with everything that the log held in the main file, and the log
/// empty. Where that had been done but for page 0, page 0 is written.
pub open spec fn rolled(v: PagerView, w: PagerView) -> bool {
    if v.log is Some && v.log->0.owed is Some {
        w == finished(v)
    } else {
        rolled_forward(v, w)
    }
}

/// `v` with the main file synced in full once more.
pub open spec fn resynced(v: PagerView) -> PagerView {
    PagerView { main_syncs: v.main_syncs.push((SyncMode::Full, v.main)), ..v }
}

/// What a checkpoint does where it does not fail: nothing where there is no log
/// or a snapshot holds it back, and but for a sync of the main file nothing
/// where there is nothing to roll forward.
pub open spec fn checkpointed(v: PagerView, w: PagerView) -> bool {
    if v.log is None || v.held_back() {
        w == v
    } else if nothing_to_roll(v.log->0) {
        w == resynced(v)
    } else {
        rolled(v, w)
    }
}

/// The files of `v` cannot fail a checkpoint.
pub open spec fn sure_to_roll(v: PagerView) -> bool {
    &&& file::within(v.main_limit, PAGE_SIZE as int)
    &&& forall|id: u64| #[trigger]
        v.log->0.view.contains_key(id) ==> file::within(v.main_limit, (id + 1) * PAGE_SIZE)
    &&& file::within(v.log->0.wal.limit, wal::WAL_HEADER_LEN as int)
}

/// Everything written to the main file survives what the configured sync mode
/// is for: its last sync is in that mode or in full, and nothing was written
/// since.
pub open spec fn main_synced(v: PagerView) -> bool {
    v.config.sync_mode == SyncMode::Off || {
        &&& v.main_syncs.len() > 0
        &&& v.main_syncs.last().0 == v.config.sync_mode || v.main_syncs.last().0 == SyncMode::Full
        &&& v.main_syncs.last().1 == v.main
    }
}

/// A page of a rolled-forward file.
proof fn lemma_rolled_slot(view: Map<u64, Seq<u8>>, a: Seq<u8>, b: Seq<u8>, id: u64)
    requires
        outside_kept(view, a, b),
        id != 0,
        !view.contains_key(id),
        has_slot(a, id),
    ensures
        has_slot(b, id),
        slot(b, id) == slot(a, id),
{
    assert forall|i: int| id * PAGE_SIZE <= i < (id + 1) * PAGE_SIZE implies b[i] == a[i] by {
        assert(i / PAGE_SIZE as int == id) by (nonlinear_arith)
            requires
                id * PAGE_SIZE <= i < (id + 1) * PAGE_SIZE,
                PAGE_SIZE == 4096,
        ;
        assert(!rolled_byte(view, i));
    }
    assert(slot(b, id) =~= slot(a, id));
}

/// A checkpoint changes nothing that a read finds, but for trailers: not where
/// it succeeds, nor where a reader holds it back, nor where it fails.
pub proof fn law_checkpoint_keeps_reads(v: PagerView, w: PagerView, id: u64)
    requires
        v.wf(),
        checkpointed(v, w) || roll_failed(v, w),
        id != 0,
        v.body_at(id) is Some,
    ensures
        w.body_at(id) == v.body_at(id),
        w.header.page_count == v.header.page_count,
        w.header.root_catalog == v.header.root_catalog,
        w.header.freelist_head == v.header.freelist_head,
{
    if v.log is Some {
        if roll_failed(v, w) {
            law_failed_checkpoint_keeps_reads(v, w, id);
        } else if !v.held_back() && !nothing_to_roll(v.log->0) {
            lemma_rolled_keeps_reads(v, w, id);
        }
    }
}

/// Rolling the log forward changes nothing that a read finds, but for trailers.
pub proof fn lemma_rolled_keeps_reads(v: PagerView, w: PagerView, id: u64)
    requires
        v.wf(),
        v.log is Some,
        rolled(v, w),
        id != 0,
        v.body_at(id) is Some,
    ensures
        w.body_at(id) == v.body_at(id),
        w.header.page_count == v.header.page_count,
        w.header.root_catalog == v.header.root_catalog,
        w.header.freelist_head == v.header.freelist_head,
{
    let l = v.log->0;
    if l.owed is Some {
        lemma_finished(v, w);
        lemma_other_slots(v.main, w.main, 0, id);
        if l.view.contains_key(id) {
            checksum::law_stamped_is_valid(l.view[id]);
        }
    } else if l.view.contains_key(id) {
        law_main_round_trip(v.flags(), l.view[id], slot(w.main, id));
    } else if has_slot(v.main, id) {
        lemma_rolled_slot(l.view, v.main, w.main, id);
    }
}

/// A failed checkpoint changes nothing that a read finds.
pub proof fn law_failed_checkpoint_keeps_reads(v: PagerView, w: PagerView, id: u64)
    requires
        v.wf(),
        roll_failed(v, w),
        id != 0,
        v.log->0.pending.contains_key(id) || v.log->0.view.contains_key(id) || has_slot(
            v.main,
            id,
        ),
    ensures
        w.page_at(id) == v.page_at(id),
        v.log->0.view.contains_key(id) || has_slot(v.main, id) ==> w.committed_at(id)
            == v.committed_at(id),
        w.log->0.pending == v.log->0.pending,
        w.log->0.view == v.log->0.view,
{
    if v.log->0.owed is Some {
        lemma_other_slots(v.main, w.main, 0, id);
    } else if !v.log->0.view.contains_key(id) && has_slot(v.main, id) {
        lemma_rolled_slot(v.log->0.view, v.main, w.main, id);
    }
}

/// A checkpoint right after one that succeeded changes nothing: at most it
/// syncs the main file once more.
pub proof fn law_checkpoint_twice(v: PagerView, w: PagerView, x: PagerView)
    requires
        checkpointed(v, w),
        checkpointed(w, x),
    ensures
        x == w || x == resynced(w),
{
    if v.log is Some && !v.held_back() && w != v {
        assert(w.end_lsn() == v.end_lsn());
        assert(w.pins == v.pins);
    }
}

/// Changing one slot of the main file, of a page that is not cached.
pub proof fn lemma_file_slot_changed(v: PagerView, id: u64, w: PagerView)
    requires
        v.wf(),
        v.log is Some,
        !cache::holds(v.cache, id),
        only_slot_differs(v.main, w.main, id),
        id == 0 || v.log->0.owed is None,
        w == (PagerView { main: w.main, ..v }),
    ensures
        w.wf(),
{
    if v.log->0.owed is Some {
        assert forall|k: u64| #[trigger] w.log->0.view.contains_key(k) implies on_main(
            w.flags(),
            w.main,
            k,
        ) == Some(checksum::stamped(w.log->0.view[k])) by {
            lemma_other_slots(v.main, w.main, 0, k);
        }
    }
    assert forall|k: u64| #[trigger] cache::holds(w.cache, k) implies k != 0 && !cache::entry(
        w.cache,
        k,
    ).dirty && on_main(w.flags(), w.main, k) == Some(cache::entry(w.cache, k).page) by {
        assert(cache::holds(v.cache, k));
        lemma_other_slots(v.main, w.main, id, k);
    }
    assert(w.end_lsn() == v.end_lsn());
}

/// Making the main file longer.
pub proof fn lemma_file_grew(v: PagerView, w: PagerView)
    requires
        v.wf(),
        v.log is Some,
        v.main.len() <= w.main.len() <= u64::MAX,
        w.main.take(v.main.len() as int) == v.main,
        v.log->0.owed is None,
        w == (PagerView { main: w.main, high_water: w.high_water, ..v }),
        w.high_water == pages_for_len(w.main.len()),
    ensures
        w.wf(),
{
    assert forall|k: u64| #[trigger] cache::holds(w.cache, k) implies k != 0 && !cache::entry(
        w.cache,
        k,
    ).dirty && on_main(w.flags(), w.main, k) == Some(cache::entry(w.cache, k).page) by {
        assert(cache::holds(v.cache, k));
        assert forall|i: int| 0 <= i < v.main.len() implies w.main[i] == v.main[i] by {
            assert(w.main.take(v.main.len() as int)[i] == w.main[i]);
        }
        assert(slot(w.main, k) =~= slot(v.main, k));
    }
    assert(w.end_lsn() == v.end_lsn());
}

/// Changing a slot of a page that is being rolled forward.
pub proof fn lemma_rolled_one(
    view: Map<u64, Seq<u8>>,
    a: Seq<u8>,
    b: Seq<u8>,
    c: Seq<u8>,
    id: u64,
)
    requires
        outside_kept(view, a, b),
        only_slot_differs(b, c, id),
        id == 0 || view.contains_key(id),
    ensures
        outside_kept(view, a, c),
{
    assert forall|i: int| 0 <= i < c.len() && !rolled_byte(view, i) implies #[trigger] c[i]
        == if i < a.len() {
        a[i]
    } else {
        0u8
    } by {
        if id * PAGE_SIZE <= i < (id + 1) * PAGE_SIZE {
            assert(i / PAGE_SIZE as int == id) by (nonlinear_arith)
                requires
                    id * PAGE_SIZE <= i < (id + 1) * PAGE_SIZE,
                    PAGE_SIZE == 4096,
            ;
        }
        assert(b[i] == c[i]);
    }
}

/// Dropping what the log held once the main file holds it.
pub proof fn lemma_view_dropped(v: PagerView, w: PagerView)
    requires
        v.wf(),
        v.log is Some,
        w == (PagerView {
            log: Some(LogState { view: Map::empty(), view_header: None, ..v.log->0 }),
            ..v
        }),
    ensures
        w.wf(),
{
    assert(w.end_lsn() == v.end_lsn());
    assert forall|k: u64| #[trigger] w.pins.contains_key(k) implies w.pins[k] <= w.end_lsn() by {
        assert(v.pins.contains_key(k));
    }
    assert forall|k: u64| #[trigger] cache::holds(w.cache, k) implies k != 0 && !cache::entry(
        w.cache,
        k,
    ).dirty && on_main(w.flags(), w.main, k) == Some(cache::entry(w.cache, k).page) by {
        assert(cache::holds(v.cache, k));
    }
}

/// What a commit does once the transaction is in the log: where the log has
/// grown to the threshold, it tries a checkpoint, and takes no notice if that
/// fails.
pub open spec fn auto_checkpointed(v: PagerView, w: PagerView) -> bool {
    if v.log is Some && v.log->0.wal.frames.len() >= v.config.checkpoint_threshold {
        checkpointed(v, w) || !v.held_back() && roll_failed(v, w)
    } else {
        w == v
    }
}

/// `w` is what a commit that returns `lsn` makes of `v`.
pub open spec fn committed(v: PagerView, lsn: u64, w: PagerView) -> bool {
    exists|u: PagerView| #[trigger] commit_step(v, lsn, u) && u.wf() && auto_checkpointed(u, w)
}

/// A commit that has changes to log and no checkpoint to finish or to start
/// syncs the log once and does nothing to the main file.
pub proof fn law_commit_syncs_once(v: PagerView, lsn: u64, w: PagerView)
    requires
        v.log is Some,
        has_changes(v.log->0),
        v.log->0.owed is None,
        v.log->0.wal.frames.len() + frames_to_log(v) < v.config.checkpoint_threshold,
        committed(v, lsn, w),
    ensures
        w.log->0.wal.syncs == v.log->0.wal.syncs.push(
            (v.log->0.wal.config.sync_mode, w.log->0.wal.file),
        ),
        w.log->0.wal.frames.len() == v.log->0.wal.frames.len() + frames_to_log(v),
        w.main == v.main,
        w.main_syncs == v.main_syncs,
{
    let u = choose|u: PagerView| #[trigger]
        commit_step(v, lsn, u) && u.wf() && auto_checkpointed(u, w);
    let l = v.log->0;
    let ids = choose|ids: Seq<u64>| #[trigger]
        lists_keys(ids, l.pending) && l.wal.extended(
            u.log->0.wal,
            wal::txn_frames(l.wal.next_lsn, ids, l.pending, logged_header(v)),
        );
    ids.unique_seq_to_set();
}

/// What is committed is synced when the commit returns: the log was synced with
/// it, and is as it was then unless the main file has taken it over and was
/// synced in full. `u` is the pager once the transaction was in the log.
pub proof fn law_commit_is_synced(v: PagerView, lsn: u64, w: PagerView) -> (u: PagerView)
    requires
        v.log is Some,
        has_changes(v.log->0),
        committed(v, lsn, w),
    ensures
        logged(v, u),
        u.log->0.wal.syncs.last() == (v.log->0.wal.config.sync_mode, u.log->0.wal.file),
        w.log->0.wal == u.log->0.wal || synced_in_full(u, w),
{
    choose|u: PagerView| #[trigger]
        commit_step(v, lsn, u) && u.wf() && auto_checkpointed(u, w)
}

/// The log is emptied only once the main file holds what was in it and has been
/// synced in full, whether the checkpoint then fails or not.
pub proof fn law_log_is_emptied_after_a_full_sync(v: PagerView, w: PagerView)
    requires
        checkpointed(v, w) || roll_failed(v, w),
        v.log is Some,
        v.log->0.wal.frames.len() > 0,
        w.log->0.wal.frames.len() == 0,
    ensures
        synced_in_full(v, w),
{
}

/// Where the files cannot fail and the log has room, a commit does not fail.
pub proof fn law_commit_succeeds_on_sure_files(v: PagerView, e: Error)
    requires
        v.log is Some,
        v.log->0.owed is Some ==> file::within(v.main_limit, PAGE_SIZE as int),
        file::within(
            v.log->0.wal.limit,
            (v.log->0.wal.end() + frames_to_log(v) * wal::FRAME_LEN) as int,
        ),
        !v.log->0.wal.too_long(frames_to_log(v)),
        !v.log->0.wal.out_of_numbers(frames_to_log(v)),
    ensures
        !commit_error(v, e),
{
}

/// `w` is `t` with page 0 written.
pub open spec fn header_written(t: PagerView, w: PagerView) -> bool {
    &&& w == (PagerView { main: w.main, cache: w.cache, ..t })
    &&& with_slot(t.main, 0, header::header_page(t.header), w.main)
}

/// `w` is `t` with page 0 written and synced.
pub open spec fn header_synced(t: PagerView, w: PagerView) -> bool {
    &&& w == (PagerView {
        main: w.main,
        cache: w.cache,
        main_syncs: t.main_syncs.push((t.config.sync_mode, w.main)),
        ..t
    })
    &&& with_slot(t.main, 0, header::header_page(t.header), w.main)
}

/// `w` is a memory-backed `v` with every dirty page and page 0 in the backing
/// store.
pub open spec fn drained(v: PagerView, w: PagerView) -> bool {
    &&& v.settled(w)
    &&& slot(w.main, 0) == header::header_page(v.header)
    &&& forall|id: u64| #[trigger]
        cache::holds(w.cache, id) ==> !cache::entry(w.cache, id).dirty
}

/// `w` is what a flush makes of `v`: a commit, a checkpoint, and page 0.
pub open spec fn flushed(v: PagerView, w: PagerView) -> bool {
    match v.log {
        Some(_) => exists|lsn: u64, c: PagerView, t: PagerView|
            #![trigger committed(v, lsn, c), checkpointed(c, t)]
            committed(v, lsn, c) && checkpointed(c, t) && header_synced(t, w),
        None => drained(v, w),
    }
}

/// `w` is what a failed flush may leave of `v`.
pub open spec fn flush_failed(v: PagerView, w: PagerView) -> bool {
    ||| commit_failed(v, w)
    ||| exists|lsn: u64, c: PagerView| #[trigger] committed(v, lsn, c) && roll_failed(c, w)
    ||| exists|lsn: u64, c: PagerView, t: PagerView|
        #![trigger committed(v, lsn, c), checkpointed(c, t)]
        committed(v, lsn, c) && checkpointed(c, t) && w == (PagerView {
            main: w.main,
            cache: w.cache,
            ..t
        }) && only_slot_differs(t.main, w.main, 0)
}

/// The snapshot that a pager gives out next.
pub open spec fn next_reader(v: PagerView) -> SnapshotView {
    SnapshotView {
        lsn: v.end_lsn(),
        frozen: match v.log {
            Some(l) => l.view,
            None => Map::empty(),
        },
        header: match v.log {
            Some(l) => l.view_header,
            None => None,
        },
        root_catalog: match v.log {
            Some(l) => l.committed.root_catalog,
            None => v.header.root_catalog,
        },
        id: v.next_snapshot,
    }
}

/// Page `id` as a snapshot finds it.
pub open spec fn seen(snap: SnapshotView, v: PagerView, id: u64) -> Option<Seq<u8>> {
    if snap.frozen.contains_key(id) {
        Some(snap.frozen[id])
    } else if id >= v.header.page_count {
        None
    } else if v.log is None {
        v.page_at(id)
    } else if id >= pages_for_len(v.main.len()) {
        Some(crate::pager::page::zero_page())
    } else {
        on_main(v.flags(), v.main, id)
    }
}

/// The live snapshot `snap` still stands for the end of the log only if the
/// log holds nothing that the snapshot does not.
pub open spec fn in_step(snap: SnapshotView, v: PagerView) -> bool {
    &&& v.log is Some
    &&& v.pins.contains_key(snap.id)
    &&& v.pins[snap.id] == snap.lsn
    &&& snap.lsn == v.end_lsn() ==> forall|id: u64| #[trigger]
        v.log->0.view.contains_key(id) ==> snap.frozen.contains_key(id)
}

/// A snapshot that was just taken sees every page as of the last commit, and
/// is in step with the pager.
pub proof fn law_snapshot_sees_committed(v: PagerView, w: PagerView, id: u64)
    requires
        v.wf(),
        v.log is Some,
        w == (PagerView {
            pins: v.pins.insert(v.next_snapshot, v.end_lsn()),
            next_snapshot: (v.next_snapshot + 1) as u64,
            ..v
        }),
        v.log->0.view.contains_key(id) || has_slot(v.main, id) && id < v.header.page_count,
    ensures
        seen(next_reader(v), w, id) == v.committed_at(id),
        in_step(next_reader(v), w),
{
    if !v.log->0.view.contains_key(id) {
        lemma_has_slot(v.main, id);
    }
}

/// There is room for page `id` iff it is among the pages that there is room
/// for.
pub proof fn lemma_has_slot(main: Seq<u8>, id: u64)
    ensures
        has_slot(main, id) <==> id < pages_for_len(main.len()),
{
    let n = main.len() as int;
    assert((id + 1) * PAGE_SIZE <= n <==> id < n / PAGE_SIZE as int) by (nonlinear_arith)
        requires
            PAGE_SIZE == 4096,
            n >= 0,
    ;
}

/// What a writer does short of a checkpoint is invisible to a snapshot: what
/// it sees is a matter of its frozen pages and of the main file alone, page 0
/// left out.
pub proof fn law_snapshot_ignores_the_log(
    snap: SnapshotView,
    v: PagerView,
    w: PagerView,
    id: u64,
)
    requires
        v.log is Some,
        w.log is Some,
        only_slot_differs(v.main, w.main, 0),
        w.flags() == v.flags(),
        id != 0,
        id < v.header.page_count <= w.header.page_count,
    ensures
        seen(snap, w, id) == seen(snap, v, id),
{
    lemma_other_slots(v.main, w.main, 0, id);
}

/// A checkpoint is invisible to a live snapshot: either it is held back, or
/// every page that it writes is frozen in the snapshot.
pub proof fn law_snapshot_survives_checkpoint(
    snap: SnapshotView,
    v: PagerView,
    w: PagerView,
    id: u64,
)
    requires
        v.wf(),
        in_step(snap, v),
        checkpointed(v, w) || !v.held_back() && roll_failed(v, w),
        id != 0,
        snap.frozen.contains_key(id) || has_slot(v.main, id),
    ensures
        seen(snap, w, id) == seen(snap, v, id),
        in_step(snap, w),
        has_slot(v.main, id) ==> has_slot(w.main, id),
{
    assert(v.pins[snap.id] <= v.end_lsn());
    if w != v {
        if !v.held_back() {
            assert(snap.lsn == v.end_lsn());
        }
        if v.log->0.owed is Some {
            lemma_finished(v, finished(v));
            lemma_other_slots(v.main, w.main, 0, id);
        } else if has_slot(v.main, id) {
            if !v.log->0.view.contains_key(id) {
                lemma_rolled_slot(v.log->0.view, v.main, w.main, id);
            }
            lemma_has_slot(v.main, id);
            lemma_has_slot(w.main, id);
        }
    }
}

/// A commit keeps a live snapshot in step: it moves the end of the log beyond
/// the snapshot.
pub proof fn law_commit_keeps_snapshots_in_step(snap: SnapshotView, v: PagerView, w: PagerView)
    requires
        v.wf(),
        in_step(snap, v),
        logged(v, w),
        has_changes(v.log->0),
    ensures
        in_step(snap, w),
        w.held_back(),
{
    let l = v.log->0;
    let m = w.log->0;
    assert(v.pins[snap.id] <= v.end_lsn());
    let ids = choose|ids: Seq<u64>| #[trigger]
        lists_keys(ids, l.pending) && l.wal.extended(
            m.wal,
            wal::txn_frames(l.wal.next_lsn, ids, l.pending, logged_header(v)),
        );
    if !l.header_dirty {
        let id = choose|id: u64| l.pending.contains_key(id);
        assert(ids.to_set().contains(id));
        assert(ids.len() > 0);
    }
    assert(m.wal.next_lsn > l.wal.next_lsn);
    assert(w.pins.contains_key(snap.id));
}

/// What a rollback to `v` puts back.
pub open spec fn header_state(v: PagerView) -> HeaderState {
    HeaderState {
        root_catalog: v.header.root_catalog,
        freelist_head: v.header.freelist_head,
        page_count: v.header.page_count,
        view: match v.log {
            Some(l) => l.view,
            None => Map::empty(),
        },
    }
}

/// `v` with `s` put back, but for page 0.
pub open spec fn put_back(v: PagerView, s: HeaderState) -> PagerView {
    PagerView {
        header: FileHeader {
            root_catalog: s.root_catalog,
            freelist_head: s.freelist_head,
            page_count: s.page_count,
            ..v.header
        },
        log: match v.log {
            Some(l) => Some(LogState { view: s.view, ..l }),
            None => None,
        },
        ..v
    }
}

/// `s` names pages that `v` has.
pub open spec fn can_put_back(v: PagerView, s: HeaderState) -> bool {
    match v.log {
        Some(l) => !s.view.contains_key(0) && (l.owed is Some ==> view_on_main(
            v.flags(),
            v.main,
            s.view,
        )) && forall|id: u64| #[trigger]
            s.view.contains_key(id) ==> s.view[id].len() == PAGE_SIZE,
        None => s.page_count * PAGE_SIZE <= v.main.len() && forall|id: u64|
            1 <= id < s.page_count ==> #[trigger] on_main(v.flags(), v.main, id) is Some,
    }
}

/// What can be put back can still be put back after a commit that failed.
pub proof fn lemma_can_still_put_back(v: PagerView, s: HeaderState, w: PagerView)
    requires
        v.wf(),
        can_put_back(v, s),
        commit_failed(v, w),
    ensures
        can_put_back(w, s),
{
    if w.log->0.owed is Some {
        assert forall|id: u64| #[trigger] s.view.contains_key(id) implies on_main(
            w.flags(),
            w.main,
            id,
        ) == Some(checksum::stamped(s.view[id])) by {
            assert(id != 0);
            if w.main != v.main {
                lemma_other_slots(v.main, w.main, 0, id);
            }
        }
    }
}

/// `v` with the open transaction dropped.
pub open spec fn dropped(v: PagerView) -> PagerView {
    PagerView {
        log: match v.log {
            Some(l) => Some(LogState { pending: Map::empty(), header_dirty: false, ..l }),
            None => None,
        },
        ..v
    }
}

/// `v` with the pages that the open transaction wrote dropped.
pub open spec fn unwritten(v: PagerView) -> PagerView {
    PagerView {
        log: match v.log {
            Some(l) => Some(LogState { pending: Map::empty(), ..l }),
            None => None,
        },
        ..v
    }
}

/// `w` is what closing makes of `v`: the pages that were not committed are
/// dropped, and everything that the log held is in the main file, whatever
/// snapshots hold on to.
pub open spec fn closed_down(v: PagerView, w: PagerView) -> bool {
    if v.log is None {
        w == v
    } else if nothing_to_roll(v.log->0) {
        w == resynced(unwritten(v))
    } else {
        rolled(unwritten(v), w)
    }
}

/// Dropping a transaction and putting back what was noted when it began leaves
/// every page and the header as they were then, whatever the transaction
/// wrote, allocated or freed.
pub proof fn law_rollback_restores(v: PagerView, w: PagerView, id: u64)
    requires
        v.log is Some,
        w.log is Some,
        only_slot_differs(v.main, w.main, 0),
        id != 0,
        w.flags() == v.flags(),
        forall|k: u64| !#[trigger] v.log->0.pending.contains_key(k),
    ensures
        put_back(dropped(w), header_state(v)).page_at(id) == v.page_at(id),
        put_back(dropped(w), header_state(v)).header.page_count == v.header.page_count,
        put_back(dropped(w), header_state(v)).header.root_catalog == v.header.root_catalog,
        put_back(dropped(w), header_state(v)).header.freelist_head == v.header.freelist_head,
        !put_back(dropped(w), header_state(v)).log->0.header_dirty,
{
    lemma_other_slots(v.main, w.main, 0, id);
}

/// Changing only snapshots.
pub proof fn lemma_pins_changed(v: PagerView, w: PagerView)
    requires
        v.wf(),
        w == (PagerView { pins: w.pins, next_snapshot: w.next_snapshot, ..v }),
        forall|id: u64| #[trigger]
            w.pins.contains_key(id) ==> id < w.next_snapshot && w.pins[id] <= v.end_lsn(),
    ensures
        w.wf(),
{
    assert(w.end_lsn() == v.end_lsn());
    if v.log is None {
        assert forall|k: u64| 1 <= k < w.header.page_count implies #[trigger] on_main(
            w.flags(),
            w.main,
            k,
        ) is Some by {
            assert(on_main(v.flags(), v.main, k) is Some);
        }
    } else {
        assert forall|k: u64| #[trigger] cache::holds(w.cache, k) implies k != 0 && !cache::entry(
            w.cache,
            k,
        ).dirty && on_main(w.flags(), w.main, k) == Some(cache::entry(w.cache, k).page) by {
            assert(cache::holds(v.cache, k));
        }
    }
}

/// Putting a header and a view back.
pub proof fn lemma_put_back(v: PagerView, s: HeaderState)
    requires
        v.wf(),
        v.log is Some,
        can_put_back(v, s),
    ensures
        put_back(v, s).wf(),
{
    let w = put_back(v, s);
    assert(w.end_lsn() == v.end_lsn());
    assert forall|k: u64| #[trigger] w.pins.contains_key(k) implies w.pins[k] <= w.end_lsn() by {
        assert(v.pins.contains_key(k));
    }
    assert forall|k: u64| #[trigger] cache::holds(w.cache, k) implies k != 0 && !cache::entry(
        w.cache,
        k,
    ).dirty && on_main(w.flags(), w.main, k) == Some(cache::entry(w.cache, k).page) by {
        assert(cache::holds(v.cache, k));
    }
}

/// Keeping only the clean part of the cache.
pub proof fn lemma_only_clean_left(v: PagerView, w: PagerView)
    requires
        v.wf(),
        w == (PagerView { cache: w.cache, ..v }),
        cache::distinct(w.cache),
        forall|id: u64|
            #![trigger cache::holds(w.cache, id)]
            #![trigger cache::entry(w.cache, id)]
            (cache::holds(w.cache, id) <==> cache::holds(v.cache, id) && !cache::entry(
                v.cache,
                id,
            ).dirty) && (cache::holds(w.cache, id) ==> cache::entry(w.cache, id) == cache::entry(
                v.cache,
                id,
            )),
    ensures
        w.wf(),
{
    assert(w.end_lsn() == v.end_lsn());
    if v.log is None {
        assert forall|k: u64| 1 <= k < w.header.page_count implies #[trigger] on_main(
            w.flags(),
            w.main,
            k,
        ) is Some by {
            assert(on_main(v.flags(), v.main, k) is Some);
        }
    } else {
        assert forall|k: u64| #[trigger] cache::holds(w.cache, k) implies k != 0 && !cache::entry(
            w.cache,
            k,
        ).dirty && on_main(w.flags(), w.main, k) == Some(cache::entry(w.cache, k).page) by {
            assert(cache::holds(v.cache, k));
        }
    }
}

/// `h` is the header that opening finds in `main`, or makes for it where it
/// is empty.
pub open spec fn found_header(main: Seq<u8>, config: Config, h: FileHeader) -> bool {
    if main.len() == 0 {
        h.is_fresh(crate::pager::config::new_file_flags(config.compression_mode, false))
            && header::all_zero(h.kdf_salt@)
    } else {
        header::header_fields(main.take(PAGE_SIZE as int), h)
    }
}

/// The salt that `main` expects of its log.
pub open spec fn found_salt(main: Seq<u8>) -> u32 {
    if main.len() == 0 {
        0
    } else {
        bytes::le_nat(main.subrange(40, 44)) as u32
    }
}

/// What stands in the way of opening `main` with the log `log`, if anything
/// does.
pub open spec fn open_error(main: Seq<u8>, log: Seq<u8>, config: Config) -> Option<Error> {
    let salt = found_salt(main);
    if crate::pager::config::config_error(config) is Some {
        crate::pager::config::config_error(config)
    } else if 0 < main.len() < PAGE_SIZE {
        Some(Error::InvalidFormat { reason: "file is shorter than one page" })
    } else if main.len() > 0 && header::header_error(main.take(PAGE_SIZE as int)) is Some {
        header::header_error(main.take(PAGE_SIZE as int))
    } else if main.len() > 0 && crate::pager::config::feature_error(
        header::field(main, 10, 4) as u32,
        true,
        false,
    ) is Some {
        crate::pager::config::feature_error(header::field(main, 10, 4) as u32, true, false)
    } else if wal::log_error(log, salt) is Some {
        wal::log_error(log, salt)
    } else {
        match wal::latest(wal::counted(log, salt), 0) {
            Some(hp) => header::header_error(hp),
            None => None,
        }
    }
}

/// `h` is `h0` with what the log says of the header.
pub open spec fn header_with_log(h0: FileHeader, logged: Option<Seq<u8>>, h: FileHeader) -> bool {
    match logged {
        Some(hp) => {
            &&& h == (FileHeader {
                page_count: h.page_count,
                root_catalog: h.root_catalog,
                freelist_head: h.freelist_head,
                ..h0
            })
            &&& h.page_count == header::field(hp, 16, 8)
            &&& h.root_catalog == header::field(hp, 24, 8)
            &&& h.freelist_head == header::field(hp, 32, 8)
        },
        None => h == h0,
    }
}

/// The log part of a pager that was opened on `main` and `log`.
pub open spec fn opened_log(
    main: Seq<u8>,
    log: Seq<u8>,
    h0: FileHeader,
    h: FileHeader,
    main2: Seq<u8>,
    wal: WalView,
    view: Map<u64, Seq<u8>>,
    view_header: Option<Seq<u8>>,
) -> bool {
    let fs = wal::counted(log, header_salt(h0));
    if fs.len() > 0 {
        &&& main2 == main
        &&& wal.frames == fs
        &&& wal.salt == header_salt(h0)
        &&& wal.file == log
        &&& wal.headed
        &&& wal::collapsed(fs, view)
        &&& view_header == wal::latest(fs, 0)
        &&& header_with_log(h0, view_header, h)
    } else {
        &&& wal.frames.len() == 0
        &&& wal.headed
        &&& wal.file == wal::wal_header(wal.salt)
        &&& wal.next_lsn == 1
        &&& salted(h0, wal.salt, h)
        &&& with_slot(main, 0, header::header_page(h), main2)
        &&& view == Map::<u64, Seq<u8>>::empty()
        &&& view_header is None
    }
}

/// `v` is a pager that was just opened on `main` and `log`.
///
/// Where the log counts for something, its pages and its header are taken
/// over. Otherwise the log is started anew, and its salt noted on page 0.
pub open spec fn opened(main: Seq<u8>, log: Seq<u8>, config: Config, v: PagerView) -> bool {
    let l = v.log->0;
    &&& v.log is Some
    &&& exists|h0: FileHeader| #[trigger]
        found_header(main, config, h0) && opened_log(
            if main.len() == 0 {
                header::header_page(h0)
            } else {
                main
            },
            log,
            h0,
            v.header,
            v.main,
            l.wal,
            l.view,
            l.view_header,
        )
    &&& l.pending == Map::<u64, Seq<u8>>::empty()
    &&& !l.header_dirty
    &&& l.committed == v.header
    &&& l.depth == 0
    &&& l.owed is None
    &&& v.cache.len() == 0
    &&& v.config == config
    &&& v.pins == Map::<u64, u64>::empty()
    &&& v.next_snapshot == 1
}

/// The syncs `syncs` of a main file by the time it is opened: those that were
/// before, one of page 0 where the file was made a database, and one in the
/// configured mode where a new salt was noted on page 0.
pub open spec fn opened_syncs(
    main: Seq<u8>,
    before: Seq<(SyncMode, Seq<u8>)>,
    log: Seq<u8>,
    v: PagerView,
) -> bool {
    let made = if main.len() == 0 {
        before.push((SyncMode::Normal, v.main_syncs[before.len() as int].1))
    } else {
        before
    };
    &&& main.len() == 0 ==> exists|h0: FileHeader| #[trigger]
        found_header(main, v.config, h0) && v.main_syncs[before.len() as int].1
            == header::header_page(h0)
    &&& v.main_syncs == if wal::counted(log, found_salt(main)).len() > 0 {
        made
    } else {
        made.push((v.config.sync_mode, v.main))
    }
}

/// Opening with the log `log` cannot fail for the sake of the files, whose
/// limits are these.
pub open spec fn sure_to_open(
    main_limit: Option<nat>,
    log: Seq<u8>,
    log_limit: Option<nat>,
) -> bool {
    &&& file::within(main_limit, PAGE_SIZE as int)
    &&& file::within(log_limit, wal::WAL_HEADER_LEN as int)
    &&& file::within(log_limit, log.len() as int)
}

/// A header read from page 0 carries the salt that stands there.
pub proof fn lemma_found_salt(main: Seq<u8>, config: Config, h: FileHeader)
    requires
        main.len() == 0 || main.len() >= PAGE_SIZE,
        found_header(main, config, h),
    ensures
        header_salt(h) == found_salt(main),
{
    if main.len() == 0 {
        let z = h.wal_salt@.take(4);
        assert(bytes::le_nat(z) == 0) by {
            reveal_with_fuel(bytes::le_nat, 5);
        }
    } else {
        let p = main.take(PAGE_SIZE as int);
        assert(h.wal_salt@.take(4) =~= main.subrange(40, 44));
    }
}

/// What is written on page 0 is the page that is found there.
pub proof fn lemma_page0(main: Seq<u8>, h: FileHeader)
    requires
        main.len() >= PAGE_SIZE,
        header::header_error(main.take(PAGE_SIZE as int)) is None,
        header::header_fields(main.take(PAGE_SIZE as int), h),
    ensures
        header::field(main, 10, 4) == h.feature_flags,
{
    let p = main.take(PAGE_SIZE as int);
    assert(p.subrange(10, 14) =~= main.subrange(10, 14));
}

/// Page 0 of a main file.
pub open spec fn page0(main: Seq<u8>) -> Seq<u8> {
    main.take(PAGE_SIZE as int)
}

/// The page `p` is a page 0 of a file with the feature bits `flags`, and
/// carries `salt`.
pub open spec fn carries(p: Seq<u8>, flags: u32, salt: u32) -> bool {
    &&& header::header_error(p) is None
    &&& header::field(p, 10, 4) == flags
    &&& found_salt(p) == salt
}

/// The pages 0 `a` and `b` tell of the same pages, catalog and freelist.
pub open spec fn same_counts(a: Seq<u8>, b: Seq<u8>) -> bool {
    &&& header::field(a, 16, 8) == header::field(b, 16, 8)
    &&& header::field(a, 24, 8) == header::field(b, 24, 8)
    &&& header::field(a, 32, 8) == header::field(b, 32, 8)
}

/// The header `h` and the page 0 `p` tell of the same pages, catalog and
/// freelist.
pub open spec fn counts_on(h: FileHeader, p: Seq<u8>) -> bool {
    &&& h.page_count == header::field(p, 16, 8)
    &&& h.root_catalog == header::field(p, 24, 8)
    &&& h.freelist_head == header::field(p, 32, 8)
}

/// The page that the committed header stands on.
pub open spec fn committed_header(v: PagerView) -> Seq<u8> {
    match v.log->0.view_header {
        Some(hp) => hp,
        None => page0(v.main),
    }
}

/// Every committed page is on disk: among the frames of the log, or in the
/// main file.
pub open spec fn pages_on_disk(v: PagerView) -> bool {
    let l = v.log->0;
    let fs = l.wal.frames;
    &&& forall|id: u64|
        id != 0 && (#[trigger] wal::latest(fs, id)) is Some ==> l.view.contains_key(id)
            && l.view[id] == wal::latest(fs, id)->0
    &&& forall|id: u64| #[trigger]
        l.view.contains_key(id) ==> id != 0 && (wal::latest(fs, id) is Some || on_main(
            v.flags(),
            v.main,
            id,
        ) == Some(checksum::stamped(l.view[id])))
}

/// The committed header is on disk: the latest among the frames of the log, or
/// else page 0.
pub open spec fn header_on_disk(v: PagerView) -> bool {
    let l = v.log->0;
    let fs = l.wal.frames;
    &&& wal::latest(fs, 0) is Some ==> l.view_header == wal::latest(fs, 0)
    &&& l.view_header matches Some(hp) ==> {
        &&& header::header_error(hp) is None
        &&& if l.owed is Some {
            same_counts(page0(v.main), hp)
        } else {
            wal::latest(fs, 0) is Some && carries(hp, v.flags(), l.wal.salt)
        }
    }
    &&& counts_on(l.committed, committed_header(v))
    &&& !l.header_dirty ==> counts_on(v.header, committed_header(v))
}

/// Page 0 is in order. It carries the salt of the log, unless that is owed; the
/// log is then empty.
pub open spec fn page0_in_order(v: PagerView) -> bool {
    let l = v.log->0;
    &&& header_salt(v.header) == l.wal.salt
    &&& header_salt(l.committed) == l.wal.salt
    &&& carries(page0(v.main), v.flags(), found_salt(v.main))
    &&& match l.owed {
        None => found_salt(v.main) == l.wal.salt,
        Some(p) => {
            &&& l.wal.frames.len() == 0
            &&& carries(p, v.flags(), l.wal.salt)
            &&& same_counts(p, committed_header(v))
        },
    }
}

/// The frames that count in the log and the main file are enough to find
/// everything that is committed.
pub open spec fn anchored(v: PagerView) -> bool {
    &&& v.log is Some
    &&& page0_in_order(v)
    &&& pages_on_disk(v)
    &&& header_on_disk(v)
}

/// What is on disk is enough to find everything that is committed: the pager
/// is anchored, and the log file counts for the frames of the log.
pub open spec fn durable(v: PagerView) -> bool {
    &&& anchored(v)
    &&& wal::log_error(v.log->0.wal.file, found_salt(v.main)) is None
    &&& wal::counted(v.log->0.wal.file, found_salt(v.main)) == v.log->0.wal.frames
}

/// The part of page `id` ahead of its trailer, as of the last commit.
pub open spec fn committed_body(v: PagerView, id: u64) -> Option<Seq<u8>> {
    match v.committed_at(id) {
        Some(p) => Some(checksum::body_of(p)),
        None => None,
    }
}

/// Page 0 is the first slot.
proof fn lemma_first_slot(main: Seq<u8>)
    requires
        main.len() >= PAGE_SIZE,
    ensures
        slot(main, 0) == page0(main),
        page0(main).len() == PAGE_SIZE,
        found_salt(page0(main)) == found_salt(main),
        header::field(main, 10, 4) == header::field(page0(main), 10, 4),
{
    assert(slot(main, 0) =~= page0(main));
    assert(page0(main).subrange(40, 44) =~= main.subrange(40, 44));
    assert(page0(main).subrange(10, 14) =~= main.subrange(10, 14));
}

/// What stands on the page of a header.
proof fn lemma_header_page(h: FileHeader)
    requires
        h.well_formed(),
    ensures
        header::header_page(h).len() == PAGE_SIZE,
        carries(header::header_page(h), h.feature_flags, header_salt(h)),
        counts_on(h, header::header_page(h)),
{
    let p = header::header_page(h);
    header::law_header_round_trip(h);
    header::lemma_header_page_fields(h);
    assert(h.wal_salt@.take(4) =~= p.subrange(40, 44));
}

/// Opening finds the header that was committed.
pub proof fn lemma_open_finds_header(v: PagerView, log: Seq<u8>, config: Config, w: PagerView)
    requires
        v.wf(),
        anchored(v),
        wal::counted(log, found_salt(v.main)) == v.log->0.wal.frames,
        opened(v.main, log, config, w),
    ensures
        w.header.page_count == header::field(committed_header(v), 16, 8),
        w.header.root_catalog == header::field(committed_header(v), 24, 8),
        w.header.freelist_head == header::field(committed_header(v), 32, 8),
        w.log->0.wal.frames == v.log->0.wal.frames,
        wal::collapsed(w.log->0.wal.frames, w.log->0.view),
        v.log->0.wal.frames.len() == 0 ==> w.log->0.view == Map::<u64, Seq<u8>>::empty(),
{
    let m = w.log->0;
    let h0 = choose|h0: FileHeader| #[trigger]
        found_header(v.main, config, h0) && opened_log(
            if v.main.len() == 0 {
                header::header_page(h0)
            } else {
                v.main
            },
            log,
            h0,
            w.header,
            w.main,
            m.wal,
            m.view,
            m.view_header,
        );
    lemma_found_salt(v.main, config, h0);
    lemma_page0(v.main, h0);
    lemma_first_slot(v.main);
    let fs = v.log->0.wal.frames;
    if fs.len() == 0 {
        assert(m.wal.frames =~= fs);
    }
}

/// Opening finds what was committed.
///
/// `log` is what is left of the log file: the file as it is, or what a write
/// that was cut off made of it, as long as it counts for the same frames.
/// Every committed page that the log or the main file holds is read back as it
/// was, and so are the number of pages, the root of the catalog and the
/// freelist. Only where a checkpoint was left to finish may the trailer of a
/// page differ.
pub proof fn law_open_finds_committed(
    v: PagerView,
    log: Seq<u8>,
    config: Config,
    w: PagerView,
    id: u64,
)
    requires
        v.wf(),
        anchored(v),
        wal::counted(log, found_salt(v.main)) == v.log->0.wal.frames,
        opened(v.main, log, config, w),
        id != 0,
        v.log->0.view.contains_key(id) || has_slot(v.main, id),
    ensures
        w.body_at(id) == committed_body(v, id),
        !v.log->0.view.contains_key(id) || wal::latest(v.log->0.wal.frames, id) is Some
            ==> w.page_at(id) == v.committed_at(id),
        w.header.page_count == header::field(committed_header(v), 16, 8),
        w.header.root_catalog == header::field(committed_header(v), 24, 8),
        w.header.freelist_head == header::field(committed_header(v), 32, 8),
{
    let l = v.log->0;
    let m = w.log->0;
    let p = page0(v.main);
    let h0 = choose|h0: FileHeader| #[trigger]
        found_header(v.main, config, h0) && opened_log(
            if v.main.len() == 0 {
                header::header_page(h0)
            } else {
                v.main
            },
            log,
            h0,
            w.header,
            w.main,
            m.wal,
            m.view,
            m.view_header,
        );
    lemma_found_salt(v.main, config, h0);
    lemma_page0(v.main, h0);
    lemma_first_slot(v.main);
    assert(v.flags() == h0.feature_flags);
    let fs = l.wal.frames;
    if l.view.contains_key(id) {
        checksum::law_stamped_is_valid(l.view[id]);
    }
    assert(m.view.contains_key(id) <==> wal::latest(fs, id) is Some) by {
        if fs.len() > 0 {
            assert(wal::latest(fs, id) is Some || wal::latest(fs, id) is None);
        }
    }
    assert(wal::latest(fs, id) is Some ==> l.view.contains_key(id));
    if fs.len() == 0 {
        lemma_with_slot(v.main, 0, header::header_page(w.header), w.main);
        lemma_other_slots(v.main, w.main, 0, id);
    }
}

/// A pager that was just opened is durable. The header that the log holds, if
/// it holds one, is one that was logged for this file.
pub proof fn law_open_is_durable(main: Seq<u8>, log: Seq<u8>, config: Config, v: PagerView)
    requires
        v.wf(),
        open_error(main, log, config) is None,
        opened(main, log, config, v),
        wal::latest(v.log->0.wal.frames, 0) matches Some(hp) ==> carries(
            hp,
            v.flags(),
            v.log->0.wal.salt,
        ),
    ensures
        durable(v),
{
    let l = v.log->0;
    let h0 = choose|h0: FileHeader| #[trigger]
        found_header(main, config, h0) && opened_log(
            if main.len() == 0 {
                header::header_page(h0)
            } else {
                main
            },
            log,
            h0,
            v.header,
            v.main,
            l.wal,
            l.view,
            l.view_header,
        );
    lemma_found_salt(main, config, h0);
    header::lemma_header_page_fields(h0);
    let base = if main.len() == 0 {
        header::header_page(h0)
    } else {
        main
    };
    if main.len() > 0 {
        lemma_page0(main, h0);
    }
    lemma_first_slot(v.main);
    let fs = wal::counted(log, header_salt(h0));
    if fs.len() > 0 {
        if main.len() == 0 {
            lemma_new_header(config, h0);
            assert(page0(v.main) =~= v.main);
            lemma_header_page(h0);
        }
        assert forall|id: u64| #[trigger] l.view.contains_key(id) implies id != 0 && wal::latest(
            fs,
            id,
        ) is Some by {
            assert(wal::latest(fs, id) is Some || wal::latest(fs, id) is None);
        }
        assert(header_salt(v.header) == l.wal.salt);
    } else {
        lemma_with_slot(base, 0, header::header_page(v.header), v.main);
        lemma_header_page(v.header);
        law_salt_round_trip(h0, l.wal.salt, v.header);
        wal::lemma_empty_log(l.wal.salt);
        assert(l.wal.frames =~= Seq::empty());
    }
}

/// The header of a new file is well-formed and carries no salt.
proof fn lemma_new_header(config: Config, h: FileHeader)
    requires
        found_header(Seq::empty(), config, h),
    ensures
        h.well_formed(),
        header_salt(h) == 0,
{
    lemma_found_salt(Seq::empty(), config, h);
    assert(0u32 & !3u32 == 0 && 1u32 & !3u32 == 0) by (bit_vector);
}

/// Nothing stands in the way of opening the files of a durable pager again.
pub proof fn law_durable_files_open(v: PagerView, config: Config)
    requires
        v.wf(),
        durable(v),
        crate::pager::config::config_error(config) is None,
    ensures
        open_error(v.main, v.log->0.wal.file, config) is None,
{
    lemma_first_slot(v.main);
}

/// Finishing a checkpoint leaves a pager anchored.
proof fn lemma_finished_anchored(v: PagerView)
    requires
        v.wf(),
        anchored(v),
    ensures
        anchored(finished(v)),
{
    let w = finished(v);
    if v.log->0.owed is Some {
        let p = v.log->0.owed->0;
        lemma_finished(v, w);
        lemma_first_slot(v.main);
        lemma_first_slot(w.main);
        assert(page0(w.main) =~= p);
        assert(forall|id: u64| wal::latest(w.log->0.wal.frames, id) is None);
    }
}

/// A successful commit is durable.
pub proof fn law_commit_is_durable(v: PagerView, w: PagerView)
    requires
        v.wf(),
        w.wf(),
        anchored(v),
        logged(v, w),
    ensures
        durable(w),
{
    let t = finished(v);
    lemma_finished_anchored(v);
    lemma_finished(v, t);
    let l = t.log->0;
    let m = w.log->0;
    let hp = logged_header(t);
    let ids = choose|ids: Seq<u64>| #[trigger]
        lists_keys(ids, l.pending) && l.wal.extended(
            m.wal,
            wal::txn_frames(l.wal.next_lsn, ids, l.pending, hp),
        );
    let fs = l.wal.frames;
    let gs = wal::txn_frames(l.wal.next_lsn, ids, l.pending, hp);
    assert(!ids.contains(0)) by {
        if ids.contains(0) {
            assert(ids.to_set().contains(0));
        }
    }
    assert forall|id: u64|
        #![trigger m.view.contains_key(id)]
        #![trigger wal::latest(m.wal.frames, id)]
        id != 0 implies (wal::latest(m.wal.frames, id) is Some ==> m.view.contains_key(id)
        && m.view[id] == wal::latest(m.wal.frames, id)->0) && (m.view.contains_key(id) ==> (
    wal::latest(m.wal.frames, id) is Some || on_main(w.flags(), w.main, id) == Some(
        checksum::stamped(m.view[id]),
    ))) by {
        wal::lemma_latest_append(fs, gs, id);
        wal::lemma_latest_txn(l.wal.next_lsn, ids, l.pending, hp, id);
        assert(ids.contains(id) <==> ids.to_set().contains(id));
        assert(l.view.contains_key(id) || !l.view.contains_key(id));
        assert(wal::latest(fs, id) is Some || wal::latest(fs, id) is None);
    }
    wal::lemma_latest_append(fs, gs, 0);
    wal::lemma_latest_txn(l.wal.next_lsn, ids, l.pending, hp, 0);
    lemma_header_page(v.header);
    lemma_first_slot(w.main);
    let file = m.wal.file;
    assert(file.subrange(wal::WAL_HEADER_LEN as int, m.wal.end() as int) =~= file.skip(
        wal::WAL_HEADER_LEN as int,
    ));
    wal::law_log_round_trip(file, m.wal.salt, m.wal.frames);
}

/// A failed commit leaves a pager anchored, unless it tore page 0.
pub proof fn law_failed_commit_is_anchored(v: PagerView, w: PagerView)
    requires
        v.wf(),
        anchored(v),
        commit_failed(v, w),
        w.main == v.main || Some(page0(w.main)) == v.log->0.owed,
    ensures
        anchored(w),
{
    lemma_finished_anchored(v);
    lemma_finished(v, finished(v));
    lemma_first_slot(v.main);
    if w.main != v.main && only_slot_differs(v.main, w.main, 0) {
        lemma_first_slot(w.main);
        assert forall|id: u64| id != 0 implies #[trigger] on_main(w.flags(), w.main, id) == on_main(
            v.flags(),
            v.main,
            id,
        ) by {
            lemma_other_slots(v.main, w.main, 0, id);
        }
    }
}

/// A successful checkpoint leaves a pager anchored. Where it started the log
/// anew it leaves it durable.
pub proof fn law_checkpoint_is_durable(v: PagerView, w: PagerView)
    requires
        v.wf(),
        w.wf(),
        anchored(v),
        checkpointed(v, w),
    ensures
        anchored(w),
        rolled_forward(v, w) ==> durable(w),
{
    if rolled(v, w) {
        lemma_rolled_anchored(v, w);
    }
}

/// Rolling the log forward leaves a pager anchored, and the log empty. Where it
/// started the log anew it leaves the pager durable.
proof fn lemma_rolled_anchored(v: PagerView, w: PagerView)
    requires
        v.wf(),
        w.wf(),
        anchored(v),
        rolled(v, w),
    ensures
        anchored(w),
        w.log->0.wal.frames.len() == 0,
        counts_on(v.log->0.committed, page0(w.main)),
        rolled_forward(v, w) ==> durable(w),
{
    let m = w.log->0;
    lemma_first_slot(w.main);
    if rolled_forward(v, w) {
        lemma_header_page(m.committed);
        law_salt_round_trip(v.header, m.wal.salt, w.header);
        law_salt_round_trip(v.log->0.committed, m.wal.salt, m.committed);
        wal::lemma_empty_log(m.wal.salt);
        assert(m.wal.frames =~= Seq::empty());
    }
    lemma_finished_anchored(v);
}

/// A closed database is whole without its log: opening its main file finds
/// every committed page, and the committed number of pages, root of the catalog
/// and freelist. Of what was written and not committed it finds nothing.
pub proof fn law_closed_file_holds_everything(
    v: PagerView,
    w: PagerView,
    config: Config,
    x: PagerView,
    id: u64,
)
    requires
        v.wf(),
        w.wf(),
        anchored(v),
        closed_down(v, w),
        opened(w.main, Seq::empty(), config, x),
        id != 0,
        committed_body(v, id) is Some,
    ensures
        x.body_at(id) == committed_body(v, id),
        x.header.page_count == v.log->0.committed.page_count,
        x.header.root_catalog == v.log->0.committed.root_catalog,
        x.header.freelist_head == v.log->0.committed.freelist_head,
{
    let u = unwritten(v);
    let fs = v.log->0.wal.frames;
    assert(anchored(u));
    lemma_staged(v, u);
    if nothing_to_roll(v.log->0) {
        if fs.len() > 0 {
            assert(wal::latest(fs, fs.last().id) is Some);
        }
    } else {
        lemma_rolled_anchored(u, w);
        lemma_rolled_keeps_reads(u, w, id);
    }
    assert(w.log->0.wal.frames =~= Seq::empty());
    law_open_finds_committed(w, Seq::empty(), config, x, id);
}

/// Nothing stands in the way of opening a closed database without its log.
pub proof fn law_closed_file_opens(v: PagerView, w: PagerView, config: Config)
    requires
        v.wf(),
        w.wf(),
        anchored(v),
        closed_down(v, w),
        crate::pager::config::config_error(config) is None,
    ensures
        open_error(w.main, Seq::empty(), config) is None,
{
    let u = unwritten(v);
    assert(anchored(u));
    lemma_staged(v, u);
    if !nothing_to_roll(v.log->0) {
        lemma_rolled_anchored(u, w);
    }
    lemma_first_slot(w.main);
}

/// Page 0 is whole after a failed checkpoint: it is what it was, or what it was
/// to be. So is every page that only the main file holds.
pub open spec fn nothing_torn(v: PagerView, w: PagerView) -> bool {
    let l = v.log->0;
    let p = page0(w.main);
    &&& if l.owed is None && w.log->0.owed is Some {
        p == committed_header(v) || w.log->0.owed == Some(p)
    } else {
        p == page0(v.main) || l.owed == Some(p) || l.owed is None && l.view_header == Some(p)
    }
    &&& forall|id: u64| #[trigger]
        l.view.contains_key(id) && wal::latest(l.wal.frames, id) is None && w.log->0.wal == l.wal
            ==> on_main(w.flags(), w.main, id) == on_main(v.flags(), v.main, id)
}

/// A failed checkpoint leaves a pager anchored, unless it tore a page that
/// nothing else holds.
pub proof fn law_failed_checkpoint_is_anchored(v: PagerView, w: PagerView)
    requires
        v.wf(),
        w.wf(),
        anchored(v),
        roll_failed(v, w),
        nothing_torn(v, w),
    ensures
        anchored(w),
{
    let l = v.log->0;
    let m = w.log->0;
    lemma_first_slot(v.main);
    lemma_first_slot(w.main);
    if l.owed is None && m.owed is Some {
        lemma_header_page(m.committed);
        law_salt_round_trip(v.header, m.wal.salt, w.header);
        law_salt_round_trip(l.committed, m.wal.salt, m.committed);
        assert forall|id: u64| #[trigger] m.view.contains_key(id) implies id != 0 && on_main(
            w.flags(),
            w.main,
            id,
        ) == Some(checksum::stamped(m.view[id])) by {
            law_main_round_trip(v.flags(), l.view[id], slot(w.main, id));
        }
        assert(forall|id: u64| wal::latest(m.wal.frames, id) is None);
    }
}

/// What a transaction does short of its commit leaves a pager anchored.
pub proof fn law_staging_is_durable(v: PagerView, w: PagerView)
    requires
        anchored(v),
        w.log is Some,
        w.main == v.main,
        w.flags() == v.flags(),
        header_salt(w.header) == header_salt(v.header),
        w.log->0.header_dirty || w.header == v.header && !v.log->0.header_dirty,
        w.log->0.wal == v.log->0.wal,
        w.log->0.view == v.log->0.view,
        w.log->0.view_header == v.log->0.view_header,
        w.log->0.owed == v.log->0.owed,
        w.log->0.committed == v.log->0.committed,
    ensures
        anchored(w),
        durable(v) ==> durable(w),
{
}

/// Giving up a transaction that was begun at `v` leaves the pager anchored.
pub proof fn law_rollback_is_anchored(v: PagerView, u: PagerView, w: PagerView)
    requires
        v.wf(),
        w.wf(),
        anchored(v),
        !v.log->0.header_dirty,
        anchored(u),
        u.main == v.main,
        u.flags() == v.flags(),
        u.log->0.view == v.log->0.view,
        u.log->0.view_header == v.log->0.view_header,
        u.log->0.wal == v.log->0.wal,
        u.log->0.owed == v.log->0.owed,
        u.log->0.committed == v.log->0.committed,
        header_written(put_back(dropped(u), header_state(v)), w),
    ensures
        anchored(w),
{
    let t = put_back(dropped(u), header_state(v));
    lemma_first_slot(v.main);
    lemma_first_slot(w.main);
    lemma_header_page(w.header);
    lemma_with_slot(t.main, 0, header::header_page(t.header), w.main);
    assert forall|id: u64| id != 0 implies #[trigger] on_main(w.flags(), w.main, id) == on_main(
        v.flags(),
        v.main,
        id,
    ) by {
        lemma_other_slots(v.main, w.main, 0, id);
    }
}

} // verus!
