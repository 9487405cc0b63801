//! Bounded page cache with least-recently-used eviction.
//!
//! The frames are allocated once. The recency order is a doubly linked list
//! threaded through them, and the unused frames form a second, singly linked
//! list.

use crate::pager::page::{Page, PageId};
use std::collections::HashMap;
use vstd::prelude::*;

verus! {

broadcast use vstd::std_specs::hash::group_hash_axioms;

/// "No frame" in a link.
const NIL: usize = usize::MAX;

#[derive(Debug)]
struct Frame {
    page_id: Option<PageId>,
    buffer: Page,
    dirty: bool,
    prev: usize,
    next: usize,
}

/// A page that left the cache.
#[derive(Debug)]
pub struct Evicted {
    /// The page that left.
    pub page_id: PageId,
    /// `true` if the page was changed and has to be written back.
    pub dirty: bool,
    /// The bytes it held.
    pub buffer: Page,
}

/// A page in the cache, as contracts speak of it.
pub struct CacheEntry {
    /// Page id.
    pub id: u64,
    /// Bytes of the page.
    pub page: Seq<u8>,
    /// Changed since it was loaded.
    pub dirty: bool,
}

/// Fixed-capacity cache of pages.
///
/// Its view is the list of the pages it holds, most recently used first.
pub struct Cache {
    frames: Vec<Frame>,
    index: HashMap<u64, usize>,
    head: usize,
    tail: usize,
    free_head: usize,
    lru: Ghost<Seq<usize>>,
    free: Ghost<Seq<usize>>,
}

/// `s` holds page `id`.
pub open spec fn holds(s: Seq<CacheEntry>, id: u64) -> bool {
    exists|i: int| 0 <= i < s.len() && (#[trigger] s[i]).id == id
}

/// Where `s` holds page `id`.
pub open spec fn place(s: Seq<CacheEntry>, id: u64) -> int {
    choose|i: int| 0 <= i < s.len() && (#[trigger] s[i]).id == id
}

/// What `s` holds of page `id`.
pub open spec fn entry(s: Seq<CacheEntry>, id: u64) -> CacheEntry {
    s[place(s, id)]
}

/// `s` without page `id`.
pub open spec fn without(s: Seq<CacheEntry>, id: u64) -> Seq<CacheEntry> {
    s.remove(place(s, id))
}

/// `s` with `e` in front.
pub open spec fn in_front(s: Seq<CacheEntry>, e: CacheEntry) -> Seq<CacheEntry> {
    seq![e] + s
}

/// `s` with page `id` moved to the front.
pub open spec fn touched(s: Seq<CacheEntry>, id: u64) -> Seq<CacheEntry> {
    in_front(without(s, id), entry(s, id))
}

/// No page is held twice.
pub open spec fn distinct(s: Seq<CacheEntry>) -> bool {
    forall|i: int, j: int| 0 <= i < j < s.len() ==> (#[trigger] s[i]).id != (#[trigger] s[j]).id
}

/// The entries of `s` that are not dirty, in order.
pub open spec fn clean_part(s: Seq<CacheEntry>) -> Seq<CacheEntry> {
    s.filter(|e: CacheEntry| !e.dirty)
}

spec fn prev_link(list: Seq<usize>, i: int) -> usize {
    if i == 0 {
        NIL
    } else {
        list[i - 1]
    }
}

spec fn next_link(list: Seq<usize>, i: int) -> usize {
    if i + 1 == list.len() {
        NIL
    } else {
        list[i + 1]
    }
}

/// The forward link of the `i`-th frame of `list` is right.
spec fn forward_link(frames: Seq<Frame>, list: Seq<usize>, i: int) -> bool {
    frames[list[i] as int].next == next_link(list, i)
}

/// Both links of the `i`-th frame of `list` are right.
spec fn both_links(frames: Seq<Frame>, list: Seq<usize>, i: int) -> bool {
    frames[list[i] as int].prev == prev_link(list, i) && frames[list[i] as int].next == next_link(
        list,
        i,
    )
}

/// `list` names frames, none of them twice.
spec fn frame_list(frames: Seq<Frame>, list: Seq<usize>) -> bool {
    &&& list.no_duplicates()
    &&& forall|i: int| 0 <= i < list.len() ==> (#[trigger] list[i]) < frames.len()
}

/// The doubly linked list from `head` to `tail` is `list`.
spec fn linked(frames: Seq<Frame>, head: usize, tail: usize, list: Seq<usize>) -> bool {
    &&& frames.len() < NIL
    &&& frame_list(frames, list)
    &&& head == if list.len() == 0 {
        NIL
    } else {
        list[0]
    }
    &&& tail == if list.len() == 0 {
        NIL
    } else {
        list.last()
    }
    &&& forall|i: int| 0 <= i < list.len() ==> #[trigger] both_links(frames, list, i)
}

/// The singly linked list from `head` is `list`.
spec fn chained(frames: Seq<Frame>, head: usize, list: Seq<usize>) -> bool {
    &&& frame_list(frames, list)
    &&& head == if list.len() == 0 {
        NIL
    } else {
        list[0]
    }
    &&& forall|i: int| 0 <= i < list.len() ==> #[trigger] forward_link(frames, list, i)
}

/// Two states of a frame differ in their links at most.
spec fn same_payload(a: Frame, b: Frame) -> bool {
    a.page_id == b.page_id && a.buffer == b.buffer && a.dirty == b.dirty
}

spec fn entry_of(f: Frame) -> CacheEntry {
    CacheEntry { id: f.page_id->0@, page: f.buffer@, dirty: f.dirty }
}

spec fn entries(frames: Seq<Frame>, list: Seq<usize>) -> Seq<CacheEntry> {
    list.map_values(|f: usize| entry_of(frames[f as int]))
}

/// The index names exactly the frames of `list`, each under its page id.
spec fn indexed(frames: Seq<Frame>, index: Map<u64, usize>, list: Seq<usize>) -> bool {
    &&& forall|i: int|
        0 <= i < list.len() ==> frames[(#[trigger] list[i]) as int].page_id is Some
            && index.contains_key(frames[list[i] as int].page_id->0@)
            && index[frames[list[i] as int].page_id->0@] == list[i]
    &&& forall|id: u64| #[trigger]
        index.contains_key(id) ==> list.contains(index[id]) && frames[index[id] as int].page_id
            is Some && frames[index[id] as int].page_id->0@ == id
}

/// The frames of `list` are unused.
spec fn unused(frames: Seq<Frame>, list: Seq<usize>) -> bool {
    forall|i: int|
        0 <= i < list.len() ==> frames[(#[trigger] list[i]) as int].page_id is None
            && !frames[list[i] as int].dirty
}

/// The two lists have no frame in common.
spec fn disjoint_lists(a: Seq<usize>, b: Seq<usize>) -> bool {
    forall|i: int, j: int|
        0 <= i < a.len() && 0 <= j < b.len() ==> (#[trigger] a[i]) != (#[trigger] b[j])
}

/// The lists and the index hold together.
spec fn lists_wf(
    frames: Seq<Frame>,
    index: Map<u64, usize>,
    head: usize,
    tail: usize,
    free_head: usize,
    lru: Seq<usize>,
    free: Seq<usize>,
) -> bool {
    &&& frames.len() >= 1
    &&& linked(frames, head, tail, lru)
    &&& chained(frames, free_head, free)
    &&& disjoint_lists(lru, free)
    &&& indexed(frames, index, lru)
    &&& unused(frames, free)
}

/// The free list does not notice changes to frames outside it.
proof fn lemma_free_kept(before: Seq<Frame>, after: Seq<Frame>, head: usize, free: Seq<usize>)
    requires
        chained(before, head, free),
        unused(before, free),
        before.len() == after.len(),
        forall|i: int|
            0 <= i < free.len() ==> after[(#[trigger] free[i]) as int] == before[free[i] as int],
    ensures
        chained(after, head, free),
        unused(after, free),
{
    assert forall|i: int| 0 <= i < free.len() implies #[trigger] forward_link(after, free, i) by {
        assert(forward_link(before, free, i));
        assert(after[free[i] as int] == before[free[i] as int]);
    }
}

/// The recency list and the index do not notice what frames hold, only their
/// links and page ids.
proof fn lemma_payload_change(
    before: Seq<Frame>,
    idx: int,
    f: Frame,
    index: Map<u64, usize>,
    head: usize,
    tail: usize,
    free_head: usize,
    lru: Seq<usize>,
    free: Seq<usize>,
)
    requires
        lists_wf(before, index, head, tail, free_head, lru, free),
        lru.len() > 0,
        idx == lru[0],
        f.page_id == before[idx].page_id,
        f.prev == before[idx].prev,
        f.next == before[idx].next,
    ensures
        lists_wf(before.update(idx, f), index, head, tail, free_head, lru, free),
        entries(before.update(idx, f), lru) == in_front(entries(before, lru).skip(1), entry_of(f)),
{
    let after = before.update(idx, f);
    assert forall|i: int| 0 <= i < lru.len() implies #[trigger] both_links(after, lru, i) by {
        assert(both_links(before, lru, i));
    }
    assert forall|i: int| 0 <= i < free.len() implies after[(#[trigger] free[i]) as int]
        == before[free[i] as int] by {
        assert(lru[0] != free[i]);
    }
    lemma_free_kept(before, after, free_head, free);
    assert(entries(after, lru) =~= in_front(entries(before, lru).skip(1), entry_of(f)));
}

impl View for Cache {
    type V = Seq<CacheEntry>;

    closed spec fn view(&self) -> Seq<CacheEntry> {
        entries(self.frames@, self.lru@)
    }
}

proof fn lemma_entries_distinct(frames: Seq<Frame>, index: Map<u64, usize>, list: Seq<usize>)
    requires
        list.no_duplicates(),
        indexed(frames, index, list),
    ensures
        distinct(entries(frames, list)),
{
    let s = entries(frames, list);
    assert forall|i: int, j: int| 0 <= i < j < s.len() implies (#[trigger] s[i]).id != (
    #[trigger] s[j]).id by {
        assert(list[i] != list[j]);
    }
}

/// A page stands in one place only.
pub proof fn lemma_place(s: Seq<CacheEntry>, i: int)
    requires
        distinct(s),
        0 <= i < s.len(),
    ensures
        holds(s, s[i].id),
        place(s, s[i].id) == i,
{
    let j = place(s, s[i].id);
    assert(s[i].id == s[i].id);
    if j < i {
        assert(s[j].id != s[i].id);
    } else if i < j {
        assert(s[i].id != s[j].id);
    }
}

/// What [`without`] leaves.
pub proof fn lemma_without(s: Seq<CacheEntry>, id: u64)
    requires
        distinct(s),
        holds(s, id),
    ensures
        distinct(without(s, id)),
        !holds(without(s, id), id),
        forall|k: u64|
            #![trigger holds(without(s, id), k)]
            #![trigger entry(without(s, id), k)]
            k != id ==> holds(without(s, id), k) == holds(s, k) && (holds(s, k) ==> entry(
                without(s, id),
                k,
            ) == entry(s, k)),
{
    let p = place(s, id);
    let t = without(s, id);
    assert forall|i: int, j: int| 0 <= i < j < t.len() implies (#[trigger] t[i]).id != (
    #[trigger] t[j]).id by {
        let a = if i < p { i } else { i + 1 };
        let b = if j < p { j } else { j + 1 };
        assert(t[i] == s[a] && t[j] == s[b]);
    }
    if holds(t, id) {
        let i = place(t, id);
        let a = if i < p { i } else { i + 1 };
        assert(t[i] == s[a]);
        lemma_place(s, a);
    }
    assert forall|k: u64|
        #![trigger holds(t, k)]
        #![trigger entry(t, k)]
        k != id implies holds(t, k) == holds(s, k) && (holds(s, k) ==> entry(t, k) == entry(
        s,
        k,
    )) by {
        if holds(s, k) {
            let q = place(s, k);
            let b = if q < p { q } else { q - 1 };
            assert(t[b] == s[q]);
            lemma_place(t, b);
        }
        if holds(t, k) {
            let i = place(t, k);
            let a = if i < p { i } else { i + 1 };
            assert(t[i] == s[a]);
            lemma_place(s, a);
        }
    }
}

/// What [`in_front`] adds.
pub proof fn lemma_in_front(s: Seq<CacheEntry>, e: CacheEntry)
    requires
        distinct(s),
        !holds(s, e.id),
    ensures
        distinct(in_front(s, e)),
        holds(in_front(s, e), e.id),
        entry(in_front(s, e), e.id) == e,
        forall|k: u64|
            #![trigger holds(in_front(s, e), k)]
            #![trigger entry(in_front(s, e), k)]
            k != e.id ==> holds(in_front(s, e), k) == holds(s, k) && (holds(s, k) ==> entry(
                in_front(s, e),
                k,
            ) == entry(s, k)),
{
    let t = in_front(s, e);
    assert forall|i: int, j: int| 0 <= i < j < t.len() implies (#[trigger] t[i]).id != (
    #[trigger] t[j]).id by {
        assert(t[j] == s[j - 1]);
        if i > 0 {
            assert(t[i] == s[i - 1]);
        }
    }
    lemma_place(t, 0);
    assert forall|k: u64|
        #![trigger holds(t, k)]
        #![trigger entry(t, k)]
        k != e.id implies holds(t, k) == holds(s, k) && (holds(s, k) ==> entry(t, k) == entry(
        s,
        k,
    )) by {
        if holds(s, k) {
            let q = place(s, k);
            assert(t[q + 1] == s[q]);
            lemma_place(t, q + 1);
        }
        if holds(t, k) {
            let i = place(t, k);
            assert(t[i] == s[i - 1]);
            lemma_place(s, i - 1);
        }
    }
}

/// What dropping the last entry leaves.
pub proof fn lemma_drop_last(s: Seq<CacheEntry>)
    requires
        distinct(s),
        s.len() > 0,
    ensures
        s.drop_last() == without(s, s.last().id),
        holds(s, s.last().id),
        entry(s, s.last().id) == s.last(),
{
    lemma_place(s, s.len() - 1);
    assert(s.drop_last() =~= without(s, s.last().id));
}

/// What [`clean_part`] leaves.
pub proof fn lemma_clean_part(s: Seq<CacheEntry>, id: u64)
    requires
        distinct(s),
    ensures
        distinct(clean_part(s)),
        holds(clean_part(s), id) <==> holds(s, id) && !entry(s, id).dirty,
        holds(clean_part(s), id) ==> entry(clean_part(s), id) == entry(s, id),
    decreases s.len(),
{
    let keep = |e: CacheEntry| !e.dirty;
    reveal(Seq::filter);
    if s.len() > 0 {
        let t = s.drop_last();
        let c = clean_part(t);
        assert(distinct(t));
        lemma_clean_part(t, id);
        lemma_clean_part(t, s.last().id);
        lemma_drop_last(s);
        lemma_without(s, s.last().id);
        if keep(s.last()) {
            let d = c.push(s.last());
            assert(clean_part(s) =~= d);
            assert forall|i: int, j: int| 0 <= i < j < d.len() implies (#[trigger] d[i]).id != (
            #[trigger] d[j]).id by {
                if j == c.len() {
                    lemma_place(c, i);
                }
            }
            if holds(c, id) {
                let i = place(c, id);
                assert(d[i] == c[i]);
                lemma_place(d, i);
            }
            lemma_place(d, d.len() - 1);
            if holds(d, id) && id != s.last().id {
                let i = place(d, id);
                assert(d[i] == c[i]);
                lemma_place(c, i);
            }
        } else {
            assert(clean_part(s) =~= c);
        }
    }
}

impl Cache {
    /// The lists hold together and every frame is in one of them.
    pub closed spec fn wf(&self) -> bool {
        &&& lists_wf(
            self.frames@,
            self.index@,
            self.head,
            self.tail,
            self.free_head,
            self.lru@,
            self.free@,
        )
        &&& self.lru@.len() + self.free@.len() == self.frames@.len()
    }

    /// Number of frames.
    pub closed spec fn spec_capacity(&self) -> nat {
        self.frames@.len()
    }

    /// What every cache satisfies: no page is held twice, and no more pages
    /// are held than there are frames.
    pub proof fn lemma_wf(&self)
        requires
            self.wf(),
        ensures
            distinct(self@),
            self@.len() <= self.spec_capacity(),
            self.spec_capacity() >= 1,
    {
        lemma_entries_distinct(self.frames@, self.index@, self.lru@);
    }

    /// A cache of `capacity` frames that holds nothing.
    pub fn new(capacity: usize) -> (r: Self)
        requires
            1 <= capacity < usize::MAX,
        ensures
            r.wf(),
            r@.len() == 0,
            r.spec_capacity() == capacity,
    {
        let mut frames: Vec<Frame> = Vec::with_capacity(capacity);
        let mut i: usize = 0;
        while i < capacity
            invariant
                1 <= capacity < usize::MAX,
                i <= capacity,
                frames@.len() == i,
                forall|j: int|
                    0 <= j < i ==> (#[trigger] frames@[j]).page_id is None && !frames@[j].dirty
                        && frames@[j].next == if j + 1 == capacity {
                        NIL
                    } else {
                        (j + 1) as usize
                    },
            decreases capacity - i,
        {
            frames.push(
                Frame {
                    page_id: None,
                    buffer: Page::zeroed(),
                    dirty: false,
                    prev: NIL,
                    next: if i + 1 == capacity {
                        NIL
                    } else {
                        i + 1
                    },
                },
            );
            i = i + 1;
        }
        let ghost all: Seq<usize> = Seq::new(capacity as nat, |j: int| j as usize);
        Cache {
            frames,
            index: HashMap::with_capacity(capacity),
            head: NIL,
            tail: NIL,
            free_head: 0,
            lru: Ghost(Seq::empty()),
            free: Ghost(all),
        }
    }

    /// Number of frames.
    pub fn capacity(&self) -> (r: usize)
        ensures
            r == self.spec_capacity(),
    {
        self.frames.len()
    }

    /// Take frame `idx`, at position `p` of the recency list, out of it.
    fn unlink_lru(&mut self, idx: usize, p: Ghost<int>)
        requires
            linked(old(self).frames@, old(self).head, old(self).tail, old(self).lru@),
            0 <= p@ < old(self).lru@.len(),
            old(self).lru@[p@] == idx,
        ensures
            linked(final(self).frames@, final(self).head, final(self).tail, final(self).lru@),
            final(self).lru@ == old(self).lru@.remove(p@),
            !final(self).lru@.contains(idx),
            final(self).free_head == old(self).free_head,
            final(self).free == old(self).free,
            final(self).index == old(self).index,
            final(self).frames@.len() == old(self).frames@.len(),
            forall|f: int|
                0 <= f < old(self).frames@.len() ==> same_payload(
                    #[trigger] final(self).frames@[f],
                    old(self).frames@[f],
                ),
            forall|f: usize|
                f < old(self).frames@.len() && !#[trigger] old(self).lru@.contains(f)
                    ==> final(self).frames@[f as int] == old(self).frames@[f as int],
    {
        let ghost lru = self.lru@;
        let ghost before = self.frames@;
        proof {
            assert(both_links(before, lru, p@));
        }
        let prev: usize = self.frames[idx].prev;
        let next: usize = self.frames[idx].next;
        if prev != NIL {
            self.frames[prev].next = next;
        } else {
            self.head = next;
        }
        if next != NIL {
            self.frames[next].prev = prev;
        } else {
            self.tail = prev;
        }
        self.frames[idx].prev = NIL;
        self.frames[idx].next = NIL;
        self.lru = Ghost(lru.remove(p@));
        proof {
            let new = self.lru@;
            assert forall|i: int| 0 <= i < new.len() implies #[trigger] both_links(
                self.frames@,
                new,
                i,
            ) by {
                let a = if i < p@ { i } else { i + 1 };
                assert(new[i] == lru[a]);
                assert(both_links(before, lru, a));
                assert(lru[a] != idx);
                if p@ > 0 && a != p@ - 1 {
                    assert(lru[a] != lru[p@ - 1]);
                }
                if p@ + 1 < lru.len() && a != p@ + 1 {
                    assert(lru[a] != lru[p@ + 1]);
                }
            }
            assert forall|i: int, j: int| 0 <= i < new.len() && 0 <= j < new.len() && i
                != j implies new[i] != new[j] by {
                let a = if i < p@ { i } else { i + 1 };
                let b = if j < p@ { j } else { j + 1 };
                assert(new[i] == lru[a] && new[j] == lru[b]);
            }
            if new.contains(idx) {
                let i = new.index_of(idx);
                let a = if i < p@ { i } else { i + 1 };
                assert(new[i] == lru[a]);
            }
            if p@ > 0 {
                assert(lru.contains(lru[p@ - 1]));
            }
            if p@ + 1 < lru.len() {
                assert(lru.contains(lru[p@ + 1]));
            }
            assert(lru.contains(lru[p@]));
        }
    }

    /// Put frame `idx`, which is in no list, at the front of the recency list.
    fn push_front(&mut self, idx: usize)
        requires
            linked(old(self).frames@, old(self).head, old(self).tail, old(self).lru@),
            idx < old(self).frames@.len(),
            !old(self).lru@.contains(idx),
        ensures
            linked(final(self).frames@, final(self).head, final(self).tail, final(self).lru@),
            final(self).lru@ == seq![idx] + old(self).lru@,
            final(self).free_head == old(self).free_head,
            final(self).free == old(self).free,
            final(self).index == old(self).index,
            final(self).frames@.len() == old(self).frames@.len(),
            forall|f: int|
                0 <= f < old(self).frames@.len() ==> same_payload(
                    #[trigger] final(self).frames@[f],
                    old(self).frames@[f],
                ),
            forall|f: usize|
                f < old(self).frames@.len() && f != idx && !#[trigger] old(self).lru@.contains(f)
                    ==> final(self).frames@[f as int] == old(self).frames@[f as int],
    {
        let ghost lru = self.lru@;
        let ghost before = self.frames@;
        let head: usize = self.head;
        self.frames[idx].prev = NIL;
        self.frames[idx].next = head;
        if head != NIL {
            self.frames[head].prev = idx;
        }
        self.head = idx;
        if self.tail == NIL {
            self.tail = idx;
        }
        self.lru = Ghost(seq![idx] + lru);
        proof {
            let new = self.lru@;
            assert forall|i: int| 0 <= i < new.len() implies #[trigger] both_links(
                self.frames@,
                new,
                i,
            ) by {
                if i > 0 {
                    assert(both_links(before, lru, i - 1));
                    assert(new[i] == lru[i - 1]);
                    assert(lru.contains(lru[i - 1]));
                    if i > 1 {
                        assert(lru[i - 1] != lru[0]);
                    }
                }
            }
            assert forall|i: int, j: int| 0 <= i < new.len() && 0 <= j < new.len() && i
                != j implies new[i] != new[j] by {
                if i > 0 {
                    assert(new[i] == lru[i - 1]);
                    assert(lru.contains(lru[i - 1]));
                }
                if j > 0 {
                    assert(new[j] == lru[j - 1]);
                    assert(lru.contains(lru[j - 1]));
                }
            }
            if lru.len() > 0 {
                assert(lru.contains(lru[0]));
                assert(new.last() == lru.last());
            }
        }
    }

    /// Move frame `idx` to the front of the recency list.
    fn move_to_front(&mut self, idx: usize, id: u64)
        requires
            old(self).wf(),
            old(self).index@.contains_key(id),
            old(self).index@[id] == idx,
        ensures
            final(self).wf(),
            final(self)@ == touched(old(self)@, id),
            final(self).spec_capacity() == old(self).spec_capacity(),
            holds(old(self)@, id),
            final(self).lru@.len() > 0,
            final(self).lru@[0] == idx,
            idx < final(self).frames@.len(),
            final(self).frames@[idx as int].page_id is Some,
            final(self).frames@[idx as int].page_id->0@ == id,
            final(self)@[0] == entry(old(self)@, id),
    {
        let ghost p: int = self.lru@.index_of(idx);
        let ghost lru = self.lru@;
        let ghost before = self.frames@;
        proof {
            self.lemma_wf();
            lemma_place(self@, p);
        }
        self.unlink_lru(idx, Ghost(p));
        let ghost mid = self.lru@;
        self.push_front(idx);
        proof {
            let new = self.lru@;
            assert(new =~= seq![idx] + lru.remove(p));
            assert forall|i: int| 0 <= i < new.len() implies lru.contains(#[trigger] new[i]) by {
                if i > 0 {
                    let a = if i - 1 < p { i - 1 } else { i };
                    assert(new[i] == lru[a]);
                }
            }
            assert forall|i: int| 0 <= i < lru.len() implies new.contains(#[trigger] lru[i]) by {
                if i == p {
                    assert(new[0] == lru[i]);
                } else {
                    let b = if i < p { i + 1 } else { i };
                    assert(new[b] == lru[i]);
                }
            }
            assert forall|j: int| 0 <= j < self.free@.len() implies self.frames@[(
            #[trigger] self.free@[j]) as int] == before[self.free@[j] as int] by {
                assert(!lru.contains(self.free@[j]));
                if mid.contains(self.free@[j]) {
                    let i = mid.index_of(self.free@[j]);
                    let a = if i < p { i } else { i + 1 };
                    assert(mid[i] == lru[a]);
                }
            }
            lemma_free_kept(before, self.frames@, self.free_head, self.free@);
            assert forall|i: int| 0 <= i < new.len() implies same_payload(
                self.frames@[(#[trigger] new[i]) as int],
                before[new[i] as int],
            ) by {}
            assert(disjoint_lists(new, self.free@)) by {
                assert forall|i: int, j: int|
                    0 <= i < new.len() && 0 <= j < self.free@.len() implies (#[trigger] new[i])
                    != (#[trigger] self.free@[j]) by {
                    let a = lru.index_of(new[i]);
                    assert(lru[a] != self.free@[j]);
                }
            }
            assert(indexed(self.frames@, self.index@, new)) by {
                assert forall|i: int| 0 <= i < new.len() implies self.frames@[(
                #[trigger] new[i]) as int].page_id is Some && self.index@.contains_key(
                    self.frames@[new[i] as int].page_id->0@,
                ) && self.index@[self.frames@[new[i] as int].page_id->0@] == new[i] by {
                    let a = lru.index_of(new[i]);
                    assert(lru[a] == new[i]);
                }
                assert forall|k: u64| #[trigger]
                    self.index@.contains_key(k) implies new.contains(self.index@[k])
                    && self.frames@[self.index@[k] as int].page_id is Some
                    && self.frames@[self.index@[k] as int].page_id->0@ == k by {
                    let a = lru.index_of(self.index@[k]);
                    assert(new.contains(lru[a]));
                    assert(same_payload(
                        self.frames@[self.index@[k] as int],
                        before[self.index@[k] as int],
                    ));
                }
            }
            assert(entries(self.frames@, new) =~= touched(entries(before, lru), id));
        }
    }

    /// The bytes of page `id`, if it is held; the page becomes the most
    /// recently used.
    pub fn get(&mut self, id: PageId) -> (r: Option<&Page>)
        requires
            old(self).wf(),
        ensures
            final(self).wf(),
            final(self).spec_capacity() == old(self).spec_capacity(),
            r is Some <==> holds(old(self)@, id@),
            r matches Some(p) ==> p@ == entry(old(self)@, id@).page && final(self)@ == touched(
                old(self)@,
                id@,
            ),
            r is None ==> *final(self) == *old(self),
    {
        let raw: u64 = id.get();
        proof {
            self.lemma_index(raw);
        }
        match self.index.get(&raw) {
            None => None,
            Some(slot) => {
                let idx: usize = *slot;
                self.move_to_front(idx, raw);
                Some(&self.frames[idx].buffer)
            },
        }
    }

    proof fn lemma_index(&self, id: u64)
        requires
            self.wf(),
        ensures
            self.index@.contains_key(id) <==> holds(self@, id),
            self.index@.contains_key(id) ==> self.lru@.contains(self.index@[id]) && entry(
                self@,
                id,
            ) == entry_of(self.frames@[self.index@[id] as int]),
    {
        self.lemma_wf();
        if self.index@.contains_key(id) {
            let p = self.lru@.index_of(self.index@[id]);
            lemma_place(self@, p);
        }
        if holds(self@, id) {
            let p = place(self@, id);
            assert(self@[p] == entry_of(self.frames@[self.lru@[p] as int]));
        }
    }

    /// The bytes of page `id`, if it is held. The order stays as it is.
    pub fn peek(&self, id: PageId) -> (r: Option<&Page>)
        requires
            self.wf(),
        ensures
            r is Some <==> holds(self@, id@),
            r matches Some(p) ==> p@ == entry(self@, id@).page,
    {
        let raw: u64 = id.get();
        proof {
            self.lemma_index(raw);
        }
        match self.index.get(&raw) {
            None => None,
            Some(slot) => Some(&self.frames[*slot].buffer),
        }
    }

    /// The bytes of page `id` for writing, if it is held; the page becomes
    /// dirty and the most recently used.
    pub fn get_mut(&mut self, id: PageId) -> (r: Option<&mut Page>)
        requires
            old(self).wf(),
        ensures
            final(self).wf(),
            final(self).spec_capacity() == old(self).spec_capacity(),
            r is Some <==> holds(old(self)@, id@),
            r matches Some(p) ==> p@ == entry(old(self)@, id@).page && final(self)@ == in_front(
                without(old(self)@, id@),
                CacheEntry { id: id@, page: final(p)@, dirty: true },
            ),
            r is None ==> *final(self) == *old(self),
    {
        let raw: u64 = id.get();
        proof {
            self.lemma_index(raw);
        }
        match self.index.get(&raw) {
            None => None,
            Some(slot) => {
                let idx: usize = *slot;
                self.move_to_front(idx, raw);
                proof {
                    let fr = self.frames@;
                    assert forall|f: Frame|
                        f.page_id == fr[idx as int].page_id && f.prev == fr[idx as int].prev
                            && f.next == fr[idx as int].next implies lists_wf(
                        #[trigger] fr.update(idx as int, f),
                        self.index@,
                        self.head,
                        self.tail,
                        self.free_head,
                        self.lru@,
                        self.free@,
                    ) && entries(fr.update(idx as int, f), self.lru@) == in_front(
                        self@.skip(1),
                        entry_of(f),
                    ) by {
                        lemma_payload_change(
                            fr,
                            idx as int,
                            f,
                            self.index@,
                            self.head,
                            self.tail,
                            self.free_head,
                            self.lru@,
                            self.free@,
                        );
                    }
                    assert(self@.skip(1) =~= without(old(self)@, raw));
                }
                let frame: &mut Frame = &mut self.frames[idx];
                frame.dirty = true;
                Some(&mut frame.buffer)
            },
        }
    }

    /// A frame for a page that is coming in: an unused one, or else the one
    /// of the least recently used page, which leaves.
    fn acquire_frame(&mut self) -> (r: (usize, Option<Evicted>))
        requires
            old(self).wf(),
        ensures
            lists_wf(
                final(self).frames@,
                final(self).index@,
                final(self).head,
                final(self).tail,
                final(self).free_head,
                final(self).lru@,
                final(self).free@,
            ),
            final(self).frames@.len() == old(self).frames@.len(),
            final(self).lru@.len() + final(self).free@.len() + 1 == final(self).frames@.len(),
            r.0 < final(self).frames@.len(),
            !final(self).lru@.contains(r.0),
            !final(self).free@.contains(r.0),
            r.1 is None <==> old(self)@.len() < old(self).spec_capacity(),
            r.1 is None ==> final(self)@ == old(self)@,
            r.1 matches Some(ev) ==> final(self)@ == old(self)@.drop_last() && ev.page_id@
                == old(self)@.last().id && ev.buffer@ == old(self)@.last().page && ev.dirty
                == old(self)@.last().dirty,
    {
        let ghost lru = self.lru@;
        let ghost free = self.free@;
        let ghost before = self.frames@;
        if self.free_head != NIL {
            let idx: usize = self.free_head;
            proof {
                assert(forward_link(before, free, 0));
            }
            self.free_head = self.frames[idx].next;
            self.frames[idx].next = NIL;
            self.frames[idx].prev = NIL;
            self.free = Ghost(free.skip(1));
            proof {
                let rest = self.free@;
                assert forall|i: int| 0 <= i < rest.len() implies #[trigger] forward_link(
                    self.frames@,
                    rest,
                    i,
                ) by {
                    assert(forward_link(before, free, i + 1));
                    assert(rest[i] == free[i + 1]);
                    assert(free[0] != free[i + 1]);
                }
                assert forall|i: int, j: int| 0 <= i < rest.len() && 0 <= j < rest.len() && i
                    != j implies rest[i] != rest[j] by {
                    assert(free[i + 1] != free[j + 1]);
                }
                assert forall|i: int| 0 <= i < rest.len() implies self.frames@[(
                #[trigger] rest[i]) as int] == before[rest[i] as int] by {
                    assert(rest[i] == free[i + 1]);
                    assert(free[0] != free[i + 1]);
                }
                assert forall|i: int| 0 <= i < lru.len() implies self.frames@[(
                #[trigger] lru[i]) as int] == before[lru[i] as int] by {
                    assert(lru[i] != free[0]);
                }
                assert forall|i: int| 0 <= i < lru.len() implies #[trigger] both_links(
                    self.frames@,
                    lru,
                    i,
                ) by {
                    assert(both_links(before, lru, i));
                    assert(self.frames@[lru[i] as int] == before[lru[i] as int]);
                }
                assert forall|i: int, j: int| 0 <= i < lru.len() && 0 <= j < rest.len() implies (
                #[trigger] lru[i]) != (#[trigger] rest[j]) by {
                    assert(lru[i] != free[j + 1]);
                }
                assert(indexed(self.frames@, self.index@, lru)) by {
                    assert forall|k: u64| #[trigger]
                        self.index@.contains_key(k) implies lru.contains(self.index@[k])
                        && self.frames@[self.index@[k] as int].page_id is Some
                        && self.frames@[self.index@[k] as int].page_id->0@ == k by {
                        let a = lru.index_of(self.index@[k]);
                        assert(self.frames@[lru[a] as int] == before[lru[a] as int]);
                    }
                }
                assert(entries(self.frames@, lru) =~= entries(before, lru));
                if lru.contains(idx) {
                    let a = lru.index_of(idx);
                    assert(lru[a] != free[0]);
                }
                if rest.contains(idx) {
                    let a = rest.index_of(idx);
                    assert(free[a + 1] != free[0]);
                }
            }
            return (idx, None);
        }
        let tail: usize = self.tail;
        let ghost last = lru.len() - 1;
        proof {
            assert(free.len() == 0);
            self.lemma_wf();
            assert(lru[last] == tail);
        }
        self.unlink_lru(tail, Ghost(last));
        let ghost mid = self.frames@;
        proof {
            assert(self.lru@ =~= lru.drop_last());
        }
        let dirty: bool = self.frames[tail].dirty;
        let page_id: Option<PageId> = self.frames[tail].page_id;
        let mut buffer = Page::zeroed();
        std::mem::swap(&mut buffer, &mut self.frames[tail].buffer);
        self.frames[tail].dirty = false;
        self.frames[tail].page_id = None;
        match page_id {
            Some(evicted_id) => {
                let raw: u64 = evicted_id.get();
                self.index.remove(&raw);
                proof {
                    self.lemma_taken_out(before, old(self).index@, lru, last, mid);
                    assert(entries(self.frames@, self.lru@) =~= entries(before, lru).drop_last());
                    assert forall|i: int, j: int|
                        0 <= i < self.lru@.len() && 0 <= j < free.len() implies (
                    #[trigger] self.lru@[i]) != (#[trigger] free[j]) by {}
                }
                (tail, Some(Evicted { page_id: evicted_id, dirty, buffer }))
            },
            None => {
                proof {
                    assert(before[lru[last] as int].page_id is Some);
                }
                (tail, None)
            },
        }
    }

    /// The recency list and the index after the frame at position `p` has
    /// been unlinked (which gave `mid`), emptied and taken out of the index.
    proof fn lemma_taken_out(
        &self,
        before: Seq<Frame>,
        index: Map<u64, usize>,
        lru: Seq<usize>,
        p: int,
        mid: Seq<Frame>,
    )
        requires
            0 <= p < lru.len(),
            frame_list(before, lru),
            indexed(before, index, lru),
            self.lru@ == lru.remove(p),
            linked(mid, self.head, self.tail, self.lru@),
            mid.len() == before.len(),
            forall|f: int| 0 <= f < mid.len() ==> same_payload(#[trigger] mid[f], before[f]),
            self.frames@.len() == mid.len(),
            self.frames@[lru[p] as int].page_id is None,
            forall|f: int|
                0 <= f < mid.len() && f != lru[p] ==> #[trigger] self.frames@[f] == mid[f],
            self.index@ == index.remove(before[lru[p] as int].page_id->0@),
        ensures
            linked(self.frames@, self.head, self.tail, self.lru@),
            indexed(self.frames@, self.index@, self.lru@),
            entries(self.frames@, self.lru@) == entries(before, lru).remove(p),
            !self.lru@.contains(lru[p]),
    {
        let new = self.lru@;
        assert forall|i: int| 0 <= i < new.len() implies (#[trigger] new[i]) != lru[p] && new[i]
            == lru[if i < p { i } else { i + 1 }] by {}
        assert forall|i: int| 0 <= i < new.len() implies #[trigger] both_links(
            self.frames@,
            new,
            i,
        ) by {
            assert(both_links(mid, new, i));
            assert(new[i] != lru[p]);
            assert(self.frames@[new[i] as int] == mid[new[i] as int]);
        }
        let gone = before[lru[p] as int].page_id->0@;
        assert(index[gone] == lru[p]);
        assert forall|i: int| 0 <= i < new.len() implies same_payload(
            self.frames@[(#[trigger] new[i]) as int],
            before[new[i] as int],
        ) && self.frames@[new[i] as int].page_id is Some && self.index@.contains_key(
            self.frames@[new[i] as int].page_id->0@,
        ) && self.index@[self.frames@[new[i] as int].page_id->0@] == new[i] by {
            let a = if i < p { i } else { i + 1 };
            assert(new[i] == lru[a]);
            assert(self.frames@[new[i] as int] == mid[new[i] as int]);
            assert(same_payload(mid[new[i] as int], before[new[i] as int]));
            let k = before[lru[a] as int].page_id->0@;
            assert(index[k] == lru[a]);
            assert(k != gone);
        }
        assert forall|k: u64| #[trigger] self.index@.contains_key(k) implies new.contains(
            self.index@[k],
        ) && self.frames@[self.index@[k] as int].page_id is Some && self.frames@[self.index@[k] as int].page_id->0@
            == k by {
            assert(index.contains_key(k));
            let a = lru.index_of(index[k]);
            assert(a != p);
            let b = if a < p { a } else { a - 1 };
            assert(new[b] == lru[a]);
        }
        assert(entries(self.frames@, new) =~= entries(before, lru).remove(p));
        if new.contains(lru[p]) {
            let i = new.index_of(lru[p]);
            assert(new[i] != lru[p]);
        }
    }

    /// Bring page `id` in, as the most recently used. Where the cache is full,
    /// the least recently used page leaves and is returned.
    pub fn insert(&mut self, id: PageId, buffer: Page, dirty: bool) -> (r: Option<Evicted>)
        requires
            old(self).wf(),
            !holds(old(self)@, id@),
        ensures
            final(self).wf(),
            final(self).spec_capacity() == old(self).spec_capacity(),
            r is None <==> old(self)@.len() < old(self).spec_capacity(),
            r is None ==> final(self)@ == in_front(
                old(self)@,
                CacheEntry { id: id@, page: buffer@, dirty },
            ),
            r matches Some(ev) ==> final(self)@ == in_front(
                old(self)@.drop_last(),
                CacheEntry { id: id@, page: buffer@, dirty },
            ) && ev.page_id@ == old(self)@.last().id && ev.buffer@ == old(self)@.last().page
                && ev.dirty == old(self)@.last().dirty,
    {
        proof {
            self.lemma_wf();
            if self@.len() > 0 {
                lemma_drop_last(self@);
                lemma_without(self@, self@.last().id);
            }
        }
        let (idx, evicted) = self.acquire_frame();
        let ghost mid = self.frames@;
        let ghost mid_view = self@;
        let ghost lru = self.lru@;
        let ghost free = self.free@;
        let ghost index = self.index@;
        proof {
            assert(!holds(mid_view, id@)) by {
                if evicted is Some {
                    assert(holds(mid_view, id@) ==> holds(old(self)@, id@));
                }
            }
            if index.contains_key(id@) {
                let a = lru.index_of(index[id@]);
                assert(mid_view[a].id == id@);
            }
        }
        self.frames[idx].page_id = Some(id);
        self.frames[idx].buffer = buffer;
        self.frames[idx].dirty = dirty;
        proof {
            assert forall|i: int| 0 <= i < lru.len() implies #[trigger] both_links(
                self.frames@,
                lru,
                i,
            ) by {
                assert(both_links(mid, lru, i));
                assert(lru.contains(lru[i]));
            }
        }
        let ghost set = self.frames@;
        self.push_front(idx);
        let raw: u64 = id.get();
        self.index.insert(raw, idx);
        proof {
            let new = self.lru@;
            assert forall|j: int| 0 <= j < free.len() implies self.frames@[(
            #[trigger] free[j]) as int] == mid[free[j] as int] by {
                assert(free.contains(free[j]));
                if lru.contains(free[j]) {
                    let a = lru.index_of(free[j]);
                    assert(lru[a] != free[j]);
                }
            }
            lemma_free_kept(mid, self.frames@, self.free_head, free);
            assert forall|i: int| 0 <= i < lru.len() implies lru[i] != idx && same_payload(
                self.frames@[(#[trigger] lru[i]) as int],
                mid[lru[i] as int],
            ) by {
                assert(lru.contains(lru[i]));
                assert(same_payload(self.frames@[lru[i] as int], set[lru[i] as int]));
            }
            assert(same_payload(self.frames@[idx as int], set[idx as int]));
            assert(disjoint_lists(new, free)) by {
                assert forall|i: int, j: int|
                    0 <= i < new.len() && 0 <= j < free.len() implies (#[trigger] new[i]) != (
                #[trigger] free[j]) by {
                    assert(free.contains(free[j]));
                    if i > 0 {
                        assert(new[i] == lru[i - 1]);
                        assert(lru[i - 1] != free[j]);
                    }
                }
            }
            assert(indexed(self.frames@, self.index@, new)) by {
                assert forall|i: int| 0 <= i < new.len() implies self.frames@[(
                #[trigger] new[i]) as int].page_id is Some && self.index@.contains_key(
                    self.frames@[new[i] as int].page_id->0@,
                ) && self.index@[self.frames@[new[i] as int].page_id->0@] == new[i] by {
                    if i > 0 {
                        assert(new[i] == lru[i - 1]);
                        assert(same_payload(
                            self.frames@[lru[i - 1] as int],
                            mid[lru[i - 1] as int],
                        ));
                    }
                }
                assert forall|k: u64| #[trigger]
                    self.index@.contains_key(k) implies new.contains(self.index@[k])
                    && self.frames@[self.index@[k] as int].page_id is Some
                    && self.frames@[self.index@[k] as int].page_id->0@ == k by {
                    if k == raw {
                        assert(new[0] == idx);
                    } else {
                        assert(index.contains_key(k));
                        let a = lru.index_of(index[k]);
                        assert(new[a + 1] == lru[a]);
                        assert(same_payload(self.frames@[lru[a] as int], mid[lru[a] as int]));
                    }
                }
            }
            assert(entries(self.frames@, new) =~= in_front(
                entries(mid, lru),
                CacheEntry { id: id@, page: buffer@, dirty },
            ));
        }
        evicted
    }

    /// Empty frame `idx`, at position `p` of the recency list, and put it on
    /// the free list.
    fn release(&mut self, idx: usize, id: PageId, p: Ghost<int>) -> (r: Evicted)
        requires
            old(self).wf(),
            0 <= p@ < old(self).lru@.len(),
            old(self).lru@[p@] == idx,
            old(self)@[p@].id == id@,
        ensures
            final(self).wf(),
            final(self).frames@.len() == old(self).frames@.len(),
            final(self)@ == old(self)@.remove(p@),
            final(self).lru@ == old(self).lru@.remove(p@),
            forall|f: int|
                0 <= f < old(self).frames@.len() && f != idx ==> same_payload(
                    #[trigger] final(self).frames@[f],
                    old(self).frames@[f],
                ),
            !final(self).frames@[idx as int].dirty,
            r.page_id@ == id@,
            r.buffer@ == old(self)@[p@].page,
            r.dirty == old(self)@[p@].dirty,
    {
        let ghost lru = self.lru@;
        let ghost free = self.free@;
        let ghost before = self.frames@;
        let ghost index = self.index@;
        let raw: u64 = id.get();
        self.index.remove(&raw);
        self.unlink_lru(idx, p);
        let ghost mid = self.frames@;
        let dirty: bool = self.frames[idx].dirty;
        let mut buffer = Page::zeroed();
        std::mem::swap(&mut buffer, &mut self.frames[idx].buffer);
        self.frames[idx].dirty = false;
        self.frames[idx].page_id = None;
        self.frames[idx].next = self.free_head;
        self.free_head = idx;
        self.free = Ghost(seq![idx] + free);
        proof {
            self.lemma_taken_out(before, index, lru, p@, mid);
            let new = self.free@;
            assert forall|j: int| 0 <= j < free.len() implies (#[trigger] free[j]) != idx
                && self.frames@[free[j] as int] == before[free[j] as int] by {
                assert(lru[p@] != free[j]);
                if lru.contains(free[j]) {
                    let a = lru.index_of(free[j]);
                    assert(lru[a] != free[j]);
                }
            }
            assert forall|i: int| 0 <= i < new.len() implies #[trigger] forward_link(
                self.frames@,
                new,
                i,
            ) by {
                if i > 0 {
                    assert(forward_link(before, free, i - 1));
                    assert(new[i] == free[i - 1]);
                }
            }
            assert forall|i: int, j: int| 0 <= i < new.len() && 0 <= j < new.len() && i
                != j implies new[i] != new[j] by {
                if i > 0 {
                    assert(new[i] == free[i - 1]);
                }
                if j > 0 {
                    assert(new[j] == free[j - 1]);
                }
            }
            assert forall|i: int| 0 <= i < new.len() implies self.frames@[(
            #[trigger] new[i]) as int].page_id is None && !self.frames@[new[i] as int].dirty by {
                if i > 0 {
                    assert(new[i] == free[i - 1]);
                }
            }
            assert(disjoint_lists(self.lru@, new)) by {
                assert forall|i: int, j: int|
                    0 <= i < self.lru@.len() && 0 <= j < new.len() implies (#[trigger] self.lru@[i])
                    != (#[trigger] new[j]) by {
                    let a = if i < p@ { i } else { i + 1 };
                    assert(self.lru@[i] == lru[a]);
                    if j > 0 {
                        assert(new[j] == free[j - 1]);
                    }
                }
            }
        }
        Evicted { page_id: id, dirty, buffer }
    }

    /// Take page `id` out, if it is held.
    pub fn evict(&mut self, id: PageId) -> (r: Option<Evicted>)
        requires
            old(self).wf(),
        ensures
            final(self).wf(),
            final(self).spec_capacity() == old(self).spec_capacity(),
            r is Some <==> holds(old(self)@, id@),
            r is None ==> *final(self) == *old(self),
            r matches Some(ev) ==> final(self)@ == without(old(self)@, id@) && ev.page_id@ == id@
                && ev.buffer@ == entry(old(self)@, id@).page && ev.dirty == entry(
                old(self)@,
                id@,
            ).dirty,
    {
        let raw: u64 = id.get();
        proof {
            self.lemma_index(raw);
            self.lemma_wf();
        }
        match self.index.get(&raw) {
            None => None,
            Some(slot) => {
                let idx: usize = *slot;
                let ghost p: int = self.lru@.index_of(idx);
                proof {
                    lemma_place(self@, p);
                }
                Some(self.release(idx, id, Ghost(p)))
            },
        }
    }

    /// Take every dirty page out, each with its bytes. The order in which
    /// they come is that of the frames, which says nothing of their use.
    pub fn drain_dirty(&mut self) -> (r: Vec<(PageId, Page)>)
        requires
            old(self).wf(),
        ensures
            final(self).wf(),
            final(self).spec_capacity() == old(self).spec_capacity(),
            final(self)@ == clean_part(old(self)@),
            forall|j: int|
                0 <= j < r@.len() ==> holds(old(self)@, (#[trigger] r@[j]).0@) && entry(
                    old(self)@,
                    r@[j].0@,
                ) == (CacheEntry { id: r@[j].0@, page: r@[j].1@, dirty: true }),
            forall|i: int, j: int|
                0 <= i < j < r@.len() ==> (#[trigger] r@[i]).0@ != (#[trigger] r@[j]).0@,
            forall|id: u64| #[trigger]
                holds(old(self)@, id) && entry(old(self)@, id).dirty ==> drained(r@, id),
    {
        let mut out: Vec<(PageId, Page)> = Vec::new();
        let cap: usize = self.frames.len();
        let ghost s0 = self@;
        let mut idx: usize = 0;
        proof {
            self.lemma_wf();
        }
        while idx < cap
            invariant
                idx <= cap,
                self.wf(),
                cap == self.frames@.len(),
                distinct(s0),
                clean_part(self@) == clean_part(s0),
                forall|f: int| 0 <= f < idx ==> !(#[trigger] self.frames@[f]).dirty,
                forall|j: int|
                    0 <= j < out@.len() ==> holds(s0, (#[trigger] out@[j]).0@) && entry(
                        s0,
                        out@[j].0@,
                    ) == (CacheEntry { id: out@[j].0@, page: out@[j].1@, dirty: true }) && !holds(
                        self@,
                        out@[j].0@,
                    ),
                forall|i: int, j: int|
                    0 <= i < j < out@.len() ==> (#[trigger] out@[i]).0@ != (#[trigger] out@[j]).0@,
                forall|id: u64| #[trigger]
                    holds(s0, id) && entry(s0, id).dirty ==> drained(out@, id) || holds(self@, id),
                forall|id: u64| #[trigger]
                    holds(self@, id) ==> holds(s0, id) && entry(self@, id) == entry(s0, id),
            decreases cap - idx,
        {
            proof {
                self.lemma_wf();
            }
            if self.frames[idx].dirty {
                let ghost before = self@;
                let ghost frames = self.frames@;
                let ghost lru = self.lru@;
                let ghost gone = out@;
                proof {
                    self.lemma_dirty_is_listed(idx);
                }
                let ghost p: int = lru.index_of(idx);
                if let Some(id) = self.frames[idx].page_id {
                    proof {
                        lemma_place(before, p);
                    }
                    let ev = self.release(idx, id, Ghost(p));
                    out.push((id, ev.buffer));
                    proof {
                        lemma_without(before, id@);
                        lemma_clean_part_remove(before, p);
                        assert(self@ == without(before, id@));
                        assert forall|k: u64| #[trigger]
                            holds(s0, k) && entry(s0, k).dirty implies drained(out@, k) || holds(
                            self@,
                            k,
                        ) by {
                            if k == id@ {
                                assert(out@[gone.len() as int].0@ == k);
                            } else if drained(gone, k) {
                                let j = choose|j: int|
                                    0 <= j < gone.len() && (#[trigger] gone[j]).0@ == k;
                                assert(out@[j] == gone[j]);
                            } else {
                                assert(holds(before, k));
                                assert(holds(without(before, id@), k));
                            }
                        }
                        assert forall|k: u64| #[trigger] holds(self@, k) implies holds(s0, k)
                            && entry(self@, k) == entry(s0, k) by {
                            assert(holds(without(before, id@), k));
                            assert(k != id@);
                            assert(entry(without(before, id@), k) == entry(before, k));
                            assert(holds(before, k));
                        }
                        assert forall|j: int| 0 <= j < out@.len() implies holds(
                            s0,
                            (#[trigger] out@[j]).0@,
                        ) && entry(s0, out@[j].0@) == (CacheEntry {
                            id: out@[j].0@,
                            page: out@[j].1@,
                            dirty: true,
                        }) && !holds(self@, out@[j].0@) by {
                            if j < gone.len() {
                                assert(out@[j] == gone[j]);
                                assert(!holds(before, gone[j].0@));
                                assert(holds(without(before, id@), gone[j].0@) ==> holds(
                                    before,
                                    gone[j].0@,
                                ));
                            } else {
                                assert(holds(before, id@));
                            }
                        }
                        assert forall|i: int, j: int| 0 <= i < j < out@.len() implies (
                        #[trigger] out@[i]).0@ != (#[trigger] out@[j]).0@ by {
                            if j == gone.len() {
                                assert(out@[i] == gone[i]);
                                assert(!holds(before, gone[i].0@));
                            }
                        }
                        assert forall|f: int| 0 <= f < idx + 1 implies !(
                        #[trigger] self.frames@[f]).dirty by {
                            if f != idx {
                                assert(same_payload(self.frames@[f], frames[f]));
                            }
                        }
                    }
                }
            }
            idx = idx + 1;
        }
        proof {
            self.lemma_wf();
            assert forall|i: int| 0 <= i < self@.len() implies !(#[trigger] self@[i]).dirty by {
                assert(self@[i] == entry_of(self.frames@[self.lru@[i] as int]));
            }
            lemma_all_clean(self@);
            assert forall|id: u64| #[trigger]
                holds(s0, id) && entry(s0, id).dirty implies drained(out@, id) by {
                if holds(self@, id) {
                    let i = place(self@, id);
                    assert(!self@[i].dirty);
                }
            }
        }
        out
    }

    proof fn lemma_dirty_is_listed(&self, idx: usize)
        requires
            self.wf(),
            idx < self.frames@.len(),
            self.frames@[idx as int].dirty,
        ensures
            self.lru@.contains(idx),
            self.frames@[idx as int].page_id is Some,
    {
        if !self.lru@.contains(idx) {
            // Every frame is in one of the lists: together they are as long as
            // the frames are many.
            let all = self.lru@ + self.free@;
            assert(all.no_duplicates()) by {
                assert forall|i: int, j: int|
                    0 <= i < all.len() && 0 <= j < all.len() && i != j implies all[i]
                    != all[j] by {
                    let n = self.lru@.len();
                    if i < n && j >= n {
                        assert(self.lru@[i] != self.free@[j - n]);
                    } else if j < n && i >= n {
                        assert(self.lru@[j] != self.free@[i - n]);
                    } else if i >= n {
                        assert(self.free@[i - n] != self.free@[j - n]);
                    }
                }
            }
            lemma_covers(all, self.frames@.len(), idx);
            let i = all.index_of(idx);
            let n = self.lru@.len();
            if i < n {
                assert(self.lru@[i] == idx);
            } else {
                assert(self.free@[i - n] == idx);
                assert(!self.frames@[self.free@[i - n] as int].dirty);
            }
            assert(false);
        }
        let i = self.lru@.index_of(idx);
        assert(self.lru@[i] == idx);
    }

    /// The pages held, most recently used first.
    pub fn lru_order(&self) -> (r: Vec<PageId>)
        requires
            self.wf(),
        ensures
            r@.len() == self@.len(),
            forall|i: int| 0 <= i < r@.len() ==> (#[trigger] r@[i])@ == self@[i].id,
    {
        let mut out: Vec<PageId> = Vec::new();
        let mut idx: usize = self.head;
        let ghost mut n: int = 0;
        while idx != NIL
            invariant
                self.wf(),
                0 <= n <= self.lru@.len(),
                out@.len() == n,
                idx == if n == self.lru@.len() {
                    NIL
                } else {
                    self.lru@[n]
                },
                forall|i: int| 0 <= i < n ==> (#[trigger] out@[i])@ == self@[i].id,
            decreases self.lru@.len() - n,
        {
            proof {
                assert(self.lru@[n] < self.frames@.len());
                assert(both_links(self.frames@, self.lru@, n));
                assert(self.frames@[self.lru@[n] as int].page_id is Some);
            }
            if let Some(id) = self.frames[idx].page_id {
                out.push(id);
            }
            idx = self.frames[idx].next;
            proof {
                n = n + 1;
            }
        }
        out
    }
}

/// Page `id` is among `r`.
pub open spec fn drained(r: Seq<(PageId, Page)>, id: u64) -> bool {
    exists|j: int| 0 <= j < r.len() && (#[trigger] r[j]).0@ == id
}

/// A list of `n` different numbers below `n` holds every one of them.
proof fn lemma_covers(list: Seq<usize>, n: nat, x: usize)
    requires
        list.no_duplicates(),
        list.len() == n,
        forall|i: int| 0 <= i < list.len() ==> (#[trigger] list[i]) < n,
        x < n,
    ensures
        list.contains(x),
{
    let ints: Seq<int> = list.map_values(|f: usize| f as int);
    assert(ints.no_duplicates());
    ints.unique_seq_to_set();
    let range = vstd::set_lib::set_int_range(0, n as int);
    vstd::set_lib::lemma_int_range(0, n as int);
    assert(ints.to_set().subset_of(range));
    vstd::set_lib::lemma_subset_equality(ints.to_set(), range);
    assert(range.contains(x as int));
    assert(ints.contains(x as int));
    let i = ints.index_of(x as int);
    assert(list[i] == x);
}

proof fn lemma_clean_part_remove(s: Seq<CacheEntry>, p: int)
    requires
        0 <= p < s.len(),
        s[p].dirty,
    ensures
        clean_part(s.remove(p)) == clean_part(s),
    decreases s.len(),
{
    reveal(Seq::filter);
    if p == s.len() - 1 {
        assert(s.remove(p) =~= s.drop_last());
    } else {
        let t = s.drop_last();
        lemma_clean_part_remove(t, p);
        assert(s.remove(p).drop_last() =~= t.remove(p));
        assert(s.remove(p).last() == s.last());
    }
}

proof fn lemma_all_clean(s: Seq<CacheEntry>)
    requires
        forall|i: int| 0 <= i < s.len() ==> !(#[trigger] s[i]).dirty,
    ensures
        clean_part(s) == s,
    decreases s.len(),
{
    reveal(Seq::filter);
    if s.len() > 0 {
        lemma_all_clean(s.drop_last());
        assert(s.drop_last().push(s.last()) =~= s);
    }
}

/// A page that is held stands at one place. Using it moves it to the front, and
/// the others stay in order; taking it out leaves the others in order.
pub proof fn law_order_of_use(s: Seq<CacheEntry>, p: int, i: int)
    requires
        distinct(s),
        0 <= p < s.len(),
        0 <= i < s.len(),
    ensures
        holds(s, s[p].id),
        entry(s, s[p].id) == s[p],
        touched(s, s[p].id).len() == s.len(),
        touched(s, s[p].id)[0] == s[p],
        i < p ==> touched(s, s[p].id)[i + 1] == s[i],
        i > p ==> touched(s, s[p].id)[i] == s[i],
        without(s, s[p].id).len() == s.len() - 1,
        i < p ==> without(s, s[p].id)[i] == s[i],
        i > p ==> without(s, s[p].id)[i - 1] == s[i],
{
    lemma_place(s, p);
}

/// A page that comes in stands in front of all others.
pub proof fn law_page_that_comes_in(s: Seq<CacheEntry>, e: CacheEntry, i: int)
    requires
        0 <= i < s.len(),
    ensures
        in_front(s, e).len() == s.len() + 1,
        in_front(s, e)[0] == e,
        in_front(s, e)[i + 1] == s[i],
        holds(in_front(s, e), e.id),
{
    assert(in_front(s, e)[0].id == e.id);
}

/// A page is held exactly where an entry has its id, and what is left once the
/// dirty pages are taken out are the others, in order.
pub proof fn law_what_a_cache_holds(s: Seq<CacheEntry>, id: u64)
    ensures
        holds(s, id) <==> s.map_values(|e: CacheEntry| e.id).contains(id),
        clean_part(s) == s.filter(|e: CacheEntry| e.dirty == false),
{
    let ids = s.map_values(|e: CacheEntry| e.id);
    if holds(s, id) {
        let i = choose|i: int| 0 <= i < s.len() && (#[trigger] s[i]).id == id;
        assert(ids[i] == id);
    }
    if ids.contains(id) {
        let i = choose|i: int| 0 <= i < ids.len() && ids[i] == id;
        assert(s[i].id == id);
    }
    let f = |e: CacheEntry| !e.dirty;
    let g = |e: CacheEntry| e.dirty == false;
    assert(f =~= g);
}

/// Entries are distinct where no id is listed twice, and a page is among those
/// that were taken out where one of them has its id.
pub proof fn law_no_page_is_held_twice(s: Seq<CacheEntry>, r: Seq<(PageId, Page)>, id: u64)
    ensures
        distinct(s) <==> s.map_values(|e: CacheEntry| e.id).no_duplicates(),
        drained(r, id) <==> r.map_values(|e: (PageId, Page)| e.0@).contains(id),
{
    let ids = s.map_values(|e: CacheEntry| e.id);
    if distinct(s) {
        assert forall|i: int, j: int|
            0 <= i < ids.len() && 0 <= j < ids.len() && i != j implies ids[i] != ids[j] by {
            if i < j {
                assert(s[i].id != s[j].id);
            } else {
                assert(s[j].id != s[i].id);
            }
        }
    }
    if ids.no_duplicates() {
        assert forall|i: int, j: int| 0 <= i < j < s.len() implies (#[trigger] s[i]).id != (
        #[trigger] s[j]).id by {
            assert(ids[i] != ids[j]);
        }
    }
    let taken = r.map_values(|e: (PageId, Page)| e.0@);
    if drained(r, id) {
        let j = choose|j: int| 0 <= j < r.len() && (#[trigger] r[j]).0@ == id;
        assert(taken[j] == id);
    }
    if taken.contains(id) {
        let j = choose|j: int| 0 <= j < taken.len() && taken[j] == id;
        assert(r[j].0@ == id);
    }
}

} // verus!
