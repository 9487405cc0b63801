//! What holds over a whole run of calls on a pager.

use crate::bytes;
use crate::pager::config::Config;
use crate::pager::freelist;
use crate::pager::freelist::FreeListPage;
use crate::pager::header;
use crate::pager::header::FileHeader;
use crate::pager::snapshot::SnapshotView;
use crate::pager::state;
use crate::pager::state::PagerView;
use crate::wal;
use vstd::prelude::*;

verus! {

/// `w` is `v` after a call that stays within the open transaction: nothing on
/// disk and nothing that is committed changes.
pub open spec fn staged(v: PagerView, w: PagerView) -> bool {
    let l = v.log->0;
    let m = w.log->0;
    &&& w.main == v.main
    &&& w.flags() == v.flags()
    &&& state::header_salt(w.header) == state::header_salt(v.header)
    &&& w.header.page_count >= v.header.page_count
    &&& m.header_dirty || w.header == v.header && !l.header_dirty
    &&& m.wal == l.wal
    &&& m.view == l.view
    &&& m.view_header == l.view_header
    &&& m.owed == l.owed
    &&& m.committed == l.committed
}

/// `w` is `v` after one call on a file-backed pager: within a transaction, a
/// commit, a checkpoint, or a failed attempt at either.
pub open spec fn called(v: PagerView, w: PagerView) -> bool {
    &&& v.log is Some
    &&& w.log is Some
    &&& w.wf()
    &&& {
        ||| staged(v, w)
        ||| state::has_changes(v.log->0) && state::logged(v, w)
        ||| state::commit_failed(v, w)
        ||| state::checkpointed(v, w)
        ||| !v.held_back() && state::roll_failed(v, w)
    }
}

/// Writing, allocating and freeing pages stay within the transaction.
pub proof fn law_staging_calls(v: PagerView, id: u64, page: Seq<u8>, w: PagerView)
    requires
        v.log is Some,
        w.wf(),
        state::wrote(v, id, page, w) || state::appended(v, id, w) || state::recycled(v, id, w)
            || state::freed(v, id, w),
    ensures
        called(v, w),
{
}

/// A commit that succeeds is a call that logs the transaction, where there is
/// anything to log, and then one that tries a checkpoint, where one is due.
pub proof fn law_commit_is_two_calls(v: PagerView, lsn: u64, w: PagerView) -> (u: PagerView)
    requires
        v.wf(),
        w.wf(),
        v.log is Some,
        state::committed(v, lsn, w),
    ensures
        u == v || called(v, u) && state::logged(v, u),
        w == u || called(u, w),
{
    choose|u: PagerView| #[trigger]
        state::commit_step(v, lsn, u) && u.wf() && state::auto_checkpointed(u, w)
}

/// The states of a pager one call after the other.
pub open spec fn run_of(h: Seq<PagerView>) -> bool {
    &&& h.len() > 0
    &&& h[0].wf()
    &&& forall|i: int| #[trigger] step_at(h, i)
}

/// If there is a state behind `h[i]`, one call leads to it.
pub open spec fn step_at(h: Seq<PagerView>, i: int) -> bool {
    0 <= i < h.len() - 1 ==> called(h[i], h[i + 1])
}

/// `snap` is a live snapshot of `v`.
pub open spec fn live(snap: SnapshotView, v: PagerView) -> bool {
    v.pins.contains_key(snap.id) && v.pins[snap.id] == snap.lsn
}

/// One call is invisible to a live snapshot.
proof fn lemma_call_unseen(snap: SnapshotView, v: PagerView, w: PagerView, id: u64)
    requires
        v.wf(),
        called(v, w),
        state::in_step(snap, v),
        live(snap, w),
        0 < id < v.header.page_count,
        snap.frozen.contains_key(id) || state::has_slot(v.main, id),
    ensures
        state::seen(snap, w, id) == state::seen(snap, v, id),
        state::in_step(snap, w),
        id < w.header.page_count,
        snap.frozen.contains_key(id) || state::has_slot(w.main, id),
{
    if staged(v, w) {
    } else if state::has_changes(v.log->0) && state::logged(v, w) {
        let t = state::finished(v);
        state::lemma_finished(v, t);
        state::law_snapshot_ignores_the_log(snap, v, w, id);
        assert(state::in_step(snap, t)) by {
            assert(t.end_lsn() == v.end_lsn());
        }
        assert(state::logged(t, w));
        state::law_commit_keeps_snapshots_in_step(snap, t, w);
        state::lemma_other_slots(v.main, w.main, 0, id);
    } else if state::commit_failed(v, w) {
        state::lemma_finished(v, state::finished(v));
        assert(state::only_slot_differs(v.main, w.main, 0));
        state::law_snapshot_ignores_the_log(snap, v, w, id);
        state::lemma_other_slots(v.main, w.main, 0, id);
        assert(w.end_lsn() == v.end_lsn());
    } else {
        state::law_snapshot_survives_checkpoint(snap, v, w, id);
    }
}

/// A snapshot sees the same at every moment of its life: what was committed
/// when it was taken. Neither what a transaction had written by then, nor what
/// is committed later, nor a checkpoint, be it a failed one, is visible to it.
pub proof fn law_snapshot_sees_one_moment(
    snap: SnapshotView,
    v: PagerView,
    h: Seq<PagerView>,
    id: u64,
)
    requires
        v.wf(),
        v.log is Some,
        snap == state::next_reader(v),
        run_of(h),
        h[0] == (PagerView {
            pins: v.pins.insert(v.next_snapshot, v.end_lsn()),
            next_snapshot: (v.next_snapshot + 1) as u64,
            ..v
        }),
        forall|i: int| 0 <= i < h.len() ==> live(snap, #[trigger] h[i]),
        0 < id < v.header.page_count,
        v.log->0.view.contains_key(id) || state::has_slot(v.main, id),
    ensures
        state::seen(snap, h.last(), id) == v.committed_at(id),
{
    state::law_snapshot_sees_committed(v, h[0], id);
    lemma_unseen_run(snap, h, id);
}

proof fn lemma_unseen_run(snap: SnapshotView, h: Seq<PagerView>, id: u64)
    requires
        run_of(h),
        state::in_step(snap, h[0]),
        forall|i: int| 0 <= i < h.len() ==> live(snap, #[trigger] h[i]),
        0 < id < h[0].header.page_count,
        snap.frozen.contains_key(id) || state::has_slot(h[0].main, id),
    ensures
        state::seen(snap, h.last(), id) == state::seen(snap, h[0], id),
        state::in_step(snap, h.last()),
        id < h.last().header.page_count,
        snap.frozen.contains_key(id) || state::has_slot(h.last().main, id),
        h.last().wf(),
    decreases h.len(),
{
    if h.len() > 1 {
        let g = h.drop_last();
        assert forall|i: int| #[trigger] step_at(g, i) by {
            assert(step_at(h, i));
        }
        assert forall|i: int| 0 <= i < g.len() implies live(snap, #[trigger] g[i]) by {
            assert(live(snap, h[i]));
        }
        lemma_unseen_run(snap, g, id);
        assert(step_at(h, h.len() - 2));
        assert(live(snap, h[h.len() - 1]));
        lemma_call_unseen(snap, g.last(), h.last(), id);
    }
}

/// A call that tore no page that nothing else holds.
pub open spec fn untorn(v: PagerView, w: PagerView) -> bool {
    ||| staged(v, w)
    ||| state::has_changes(v.log->0) && state::logged(v, w)
    ||| state::commit_failed(v, w) && (w.main == v.main || Some(state::page0(w.main))
        == v.log->0.owed)
    ||| state::checkpointed(v, w)
    ||| state::roll_failed(v, w) && state::nothing_torn(v, w)
}

/// One call leaves a pager anchored.
proof fn lemma_call_anchored(v: PagerView, w: PagerView)
    requires
        v.wf(),
        state::anchored(v),
        called(v, w),
        untorn(v, w),
    ensures
        state::anchored(w),
{
    if staged(v, w) {
        state::law_staging_is_durable(v, w);
    } else if state::has_changes(v.log->0) && state::logged(v, w) {
        state::law_commit_is_durable(v, w);
    } else if state::commit_failed(v, w) && (w.main == v.main || Some(state::page0(w.main))
        == v.log->0.owed) {
        state::law_failed_commit_is_anchored(v, w);
    } else if state::checkpointed(v, w) {
        state::law_checkpoint_is_durable(v, w);
    } else {
        state::law_failed_checkpoint_is_anchored(v, w);
    }
}

/// If there is a state behind `h[i]`, the call that leads to it tore nothing.
pub open spec fn untorn_at(h: Seq<PagerView>, i: int) -> bool {
    0 <= i < h.len() - 1 ==> untorn(h[i], h[i + 1])
}

proof fn lemma_run_anchored(h: Seq<PagerView>)
    requires
        run_of(h),
        state::anchored(h[0]),
        forall|i: int| #[trigger] untorn_at(h, i),
    ensures
        state::anchored(h.last()),
        h.last().wf(),
    decreases h.len(),
{
    if h.len() > 1 {
        let g = h.drop_last();
        assert forall|i: int| #[trigger] step_at(g, i) by {
            assert(step_at(h, i));
        }
        assert forall|i: int| #[trigger] untorn_at(g, i) by {
            assert(untorn_at(h, i));
        }
        lemma_run_anchored(g);
        assert(step_at(h, h.len() - 2));
        assert(untorn_at(h, h.len() - 2));
        lemma_call_anchored(g.last(), h.last());
    }
}

/// Whatever calls a pager has seen since it was opened, opening again finds
/// everything that was committed: commits, failed ones among them, and
/// checkpoints, failed ones among them, in any order.
///
/// `log` is what is left of the log file, which counts for the frames that
/// were committed. No call tore a page that nothing else holds.
pub proof fn law_reopening_finds_every_commit(
    h: Seq<PagerView>,
    log: Seq<u8>,
    config: Config,
    w: PagerView,
    id: u64,
)
    requires
        run_of(h),
        state::anchored(h[0]),
        forall|i: int| #[trigger] untorn_at(h, i),
        wal::counted(log, state::found_salt(h.last().main)) == h.last().log->0.wal.frames,
        state::opened(h.last().main, log, config, w),
        id != 0,
        h.last().log->0.view.contains_key(id) || state::has_slot(h.last().main, id),
    ensures
        w.body_at(id) == state::committed_body(h.last(), id),
        w.header.page_count == header::field(state::committed_header(h.last()), 16, 8),
        w.header.root_catalog == header::field(state::committed_header(h.last()), 24, 8),
        w.header.freelist_head == header::field(state::committed_header(h.last()), 32, 8),
{
    lemma_run_anchored(h);
    state::law_open_finds_committed(h.last(), log, config, w, id);
}

/// A commit that succeeds is found by opening again, also where the checkpoint
/// that it tries fails.
pub proof fn law_commit_survives_a_failed_checkpoint(
    v: PagerView,
    u: PagerView,
    x: PagerView,
    log: Seq<u8>,
    config: Config,
    w: PagerView,
    id: u64,
)
    requires
        v.wf(),
        u.wf(),
        x.wf(),
        state::anchored(v),
        state::logged(v, u),
        state::roll_failed(u, x),
        state::nothing_torn(u, x),
        wal::counted(log, state::found_salt(x.main)) == x.log->0.wal.frames,
        state::opened(x.main, log, config, w),
        id != 0,
        u.log->0.view.contains_key(id) || state::has_slot(u.main, id),
    ensures
        w.body_at(id) == v.body_at(id),
        x.page_at(id) == u.page_at(id),
{
    state::law_commit_is_durable(v, u);
    state::law_failed_checkpoint_is_anchored(u, x);
    state::law_failed_checkpoint_keeps_reads(u, x, id);
    assert(state::has_slot(u.main, id) ==> state::has_slot(x.main, id));
    state::law_open_finds_committed(x, log, config, w, id);
    state::law_commit_keeps_reads(v, u, id);
}

/// `ids[i]` is a page whose link leads on along `ids`.
pub open spec fn linked_at(v: PagerView, ids: Seq<u64>, i: int) -> bool {
    0 <= i < ids.len() ==> {
        &&& 0 < ids[i] < v.header.page_count
        &&& state::next_free(v, ids[i]) == Some(
            if i + 1 < ids.len() {
                ids[i + 1]
            } else {
                0
            },
        )
    }
}

/// The freelist is made of the pages `ids`, the first of them its head.
pub open spec fn free_pages(v: PagerView, ids: Seq<u64>) -> bool {
    &&& ids.no_duplicates()
    &&& v.header.freelist_head == if ids.len() > 0 {
        ids[0]
    } else {
        0
    }
    &&& forall|i: int| #[trigger] linked_at(v, ids, i)
}

/// Freeing a page puts it in front of the freelist.
pub proof fn law_freed_page_goes_in_front(v: PagerView, ids: Seq<u64>, id: u64, w: PagerView)
    requires
        v.wf(),
        free_pages(v, ids),
        0 < id < v.header.page_count,
        !ids.contains(id),
        state::freed(v, id, w),
    ensures
        free_pages(w, seq![id] + ids),
{
    let all = seq![id] + ids;
    freelist::law_stamped_freelist_round_trip(FreeListPage { next: v.header.freelist_head });
    assert forall|i: int| #[trigger] linked_at(w, all, i) by {
        if i == 0 && ids.len() > 0 {
            assert(linked_at(v, ids, 0));
            assert(ids.contains(ids[0]));
        }
        if 0 < i < all.len() {
            assert(linked_at(v, ids, i - 1));
            assert(ids.contains(ids[i - 1]));
            assert(w.link_at(all[i]) == v.link_at(all[i]));
        }
    }
    assert forall|i: int, j: int| 0 <= i < all.len() && 0 <= j < all.len() && i != j implies all[i]
        != all[j] by {
        if i == 0 {
            assert(ids.contains(ids[j - 1]));
        } else if j == 0 {
            assert(ids.contains(ids[i - 1]));
        }
    }
}

/// Allocating from the freelist takes its first page off.
pub proof fn law_first_free_page_is_taken(v: PagerView, ids: Seq<u64>, w: PagerView)
    requires
        v.wf(),
        free_pages(v, ids),
        ids.len() > 0,
        state::recycled(v, v.header.freelist_head, w),
    ensures
        v.header.freelist_head == ids[0],
        free_pages(w, ids.drop_first()),
        w.header.page_count == v.header.page_count,
{
    let rest = ids.drop_first();
    assert(linked_at(v, ids, 0));
    assert forall|i: int| #[trigger] linked_at(w, rest, i) by {
        if 0 <= i < rest.len() {
            assert(linked_at(v, ids, i + 1));
            assert(ids[i + 1] != ids[0]);
            if v.log is None {
                let h = w.header;
                state::lemma_with_slot(v.main, 0, header::header_page(h), w.main);
                state::lemma_other_slots(v.main, w.main, 0, rest[i]);
            }
            assert(w.link_at(rest[i]) == v.link_at(rest[i]));
        }
    }
}

/// A page that is in use is never handed out: what an allocation returns was
/// free, or did not exist.
pub proof fn law_page_in_use_is_not_handed_out(
    v: PagerView,
    ids: Seq<u64>,
    id: u64,
    w: PagerView,
)
    requires
        v.wf(),
        free_pages(v, ids),
        if v.header.freelist_head != 0 {
            id == v.header.freelist_head && state::recycled(v, id, w)
        } else {
            state::appended(v, id, w)
        },
    ensures
        ids.contains(id) || id == v.header.page_count,
{
    if v.header.freelist_head != 0 {
        assert(ids.contains(ids[0]));
    }
}

/// Freeing the pages `ids` one after the other led through the states `h`.
pub open spec fn freed_at(h: Seq<PagerView>, ids: Seq<u64>, i: int) -> bool {
    0 <= i < ids.len() ==> h[i].wf() && 0 < ids[i] < h[0].header.page_count && state::freed(
        h[i],
        ids[i],
        h[i + 1],
    )
}

/// One allocation from the freelist after the other led through the states
/// `g`.
pub open spec fn taken_at(g: Seq<PagerView>, i: int) -> bool {
    0 <= i < g.len() - 1 ==> g[i].wf() && state::recycled(
        g[i],
        g[i].header.freelist_head,
        g[i + 1],
    )
}

/// Pages that are freed one after the other line up in front of the freelist,
/// the last of them first.
pub proof fn law_freed_pages_line_up(h: Seq<PagerView>, ids: Seq<u64>, base: Seq<u64>)
    requires
        h.len() == ids.len() + 1,
        free_pages(h[0], base),
        (ids + base).no_duplicates(),
        forall|i: int| #[trigger] freed_at(h, ids, i),
    ensures
        free_pages(h.last(), ids.reverse() + base),
        h.last().header.page_count == h[0].header.page_count,
    decreases ids.len(),
{
    if ids.len() == 0 {
        assert(ids.reverse() + base =~= base);
    } else {
        let n = ids.len() - 1;
        let some = ids.drop_last();
        let g = h.drop_last();
        assert forall|i: int| #[trigger] freed_at(g, some, i) by {
            assert(freed_at(h, ids, i));
        }
        assert forall|i: int, j: int|
            0 <= i < some.len() + base.len() && 0 <= j < some.len() + base.len() && i
                != j implies (some + base)[i] != (some + base)[j] by {
            let a = if i < n {
                i
            } else {
                i + 1
            };
            let b = if j < n {
                j
            } else {
                j + 1
            };
            assert((ids + base)[a] == (some + base)[i] && (ids + base)[b] == (some + base)[j]);
        }
        law_freed_pages_line_up(g, some, base);
        assert(freed_at(h, ids, n as int));
        let line = some.reverse() + base;
        assert(!line.contains(ids[n as int])) by {
            if line.contains(ids[n as int]) {
                let k = choose|k: int| 0 <= k < line.len() && line[k] == ids[n as int];
                if k < n {
                    assert((ids + base)[n - 1 - k] == line[k]);
                } else {
                    assert((ids + base)[k + 1] == line[k]);
                }
                assert((ids + base)[n as int] == ids[n as int]);
            }
        }
        law_freed_page_goes_in_front(g.last(), line, ids[n as int], h.last());
        assert(seq![ids[n as int]] + line =~= ids.reverse() + base);
    }
}

/// Allocations take the freelist from its head on.
pub proof fn law_free_pages_are_taken_in_order(g: Seq<PagerView>, line: Seq<u64>)
    requires
        0 < g.len() <= line.len() + 1,
        free_pages(g[0], line),
        forall|i: int| #[trigger] taken_at(g, i),
    ensures
        forall|i: int| 0 <= i < g.len() - 1 ==> (#[trigger] g[i]).header.freelist_head == line[i],
        free_pages(g.last(), line.skip(g.len() - 1)),
    decreases g.len(),
{
    if g.len() == 1 {
        assert(line.skip(0) =~= line);
    } else {
        let n = g.len() - 1;
        let f = g.drop_last();
        assert forall|i: int| #[trigger] taken_at(f, i) by {
            assert(taken_at(g, i));
        }
        law_free_pages_are_taken_in_order(f, line);
        assert(taken_at(g, n - 1));
        let rest = line.skip(n - 1);
        law_first_free_page_is_taken(f.last(), rest, g.last());
        assert(rest.drop_first() =~= line.skip(n as int));
        assert forall|i: int| 0 <= i < n implies (#[trigger] g[i]).header.freelist_head
            == line[i] by {
            if i < n - 1 {
                assert(f[i].header.freelist_head == line[i]);
            }
        }
    }
}

/// Pages come back in the reverse of the order in which they were freed.
pub proof fn law_freed_pages_come_back_reversed(
    h: Seq<PagerView>,
    ids: Seq<u64>,
    base: Seq<u64>,
    g: Seq<PagerView>,
)
    requires
        h.len() == ids.len() + 1,
        free_pages(h[0], base),
        (ids + base).no_duplicates(),
        forall|i: int| #[trigger] freed_at(h, ids, i),
        g.len() == ids.len() + 1,
        g[0] == h.last(),
        forall|i: int| #[trigger] taken_at(g, i),
    ensures
        forall|i: int|
            0 <= i < ids.len() ==> (#[trigger] g[i]).header.freelist_head == ids[ids.len() - 1 - i],
        free_pages(g.last(), base),
{
    law_freed_pages_line_up(h, ids, base);
    let line = ids.reverse() + base;
    law_free_pages_are_taken_in_order(g, line);
    assert(line.skip(ids.len() as int) =~= base);
}

/// The catalog of a snapshot is the one that reopening the files would find: the
/// root that the header held as of the last commit, whatever an open transaction
/// has made of the header since.
pub proof fn law_snapshot_root_is_what_reopening_finds(
    v: PagerView,
    log: Seq<u8>,
    config: Config,
    w: PagerView,
)
    requires
        v.wf(),
        state::anchored(v),
        wal::counted(log, state::found_salt(v.main)) == v.log->0.wal.frames,
        state::opened(v.main, log, config, w),
    ensures
        state::next_reader(v).root_catalog == w.header.root_catalog,
        state::next_reader(v).root_catalog == state::next_reader(w).root_catalog,
        forall|id: u64|
            state::next_reader(w).frozen.contains_key(id) ==> state::next_reader(
                v,
            ).frozen.contains_key(id) && #[trigger] state::next_reader(w).frozen[id]
                == state::next_reader(v).frozen[id],
{
    state::lemma_open_finds_header(v, log, config, w);
    assert forall|id: u64| state::next_reader(w).frozen.contains_key(id) implies state::next_reader(
        v,
    ).frozen.contains_key(id) && #[trigger] state::next_reader(w).frozen[id] == state::next_reader(
        v,
    ).frozen[id] by {
        assert(w.log->0.view.contains_key(id));
        assert(wal::latest(v.log->0.wal.frames, id) is Some);
    }
}

/// The catalog of a snapshot is the one that stands in the last header of the
/// log, or on page 0 where the log holds none.
pub proof fn law_snapshot_root_stands_on_disk(v: PagerView)
    requires
        state::anchored(v),
        v.log->0.owed is None,
    ensures
        state::next_reader(v).root_catalog == bytes::le_nat(
            match wal::latest(v.log->0.wal.frames, 0) {
                Some(p) => p.subrange(24, 32),
                None => v.main.take(4096).subrange(24, 32),
            },
        ),
{
}

/// What a transaction does before it commits, or to the header, does not show in
/// the snapshots that are taken meanwhile: not in the catalog, nor in the pages,
/// nor in the place in the log that they stand for.
pub proof fn law_open_transaction_does_not_show_in_snapshots(
    v: PagerView,
    id: u64,
    page: Seq<u8>,
    h: FileHeader,
    w: PagerView,
)
    requires
        v.log is Some,
        state::wrote(v, id, page, w) || state::appended(v, id, w) || state::recycled(v, id, w)
            || state::freed(v, id, w) || state::reheaded(v, h, w),
    ensures
        state::next_reader(w) == state::next_reader(v),
{
}

/// The same holds of any number of such calls one after the other.
pub proof fn law_staging_does_not_show_in_snapshots(h: Seq<PagerView>)
    requires
        h.len() > 0,
        forall|i: int| 0 <= i < h.len() ==> (#[trigger] h[i]).log is Some,
        forall|i: int| 0 <= i < h.len() - 1 ==> staged(#[trigger] h[i], h[i + 1]),
    ensures
        state::next_reader(h.last()).root_catalog == state::next_reader(h[0]).root_catalog,
        state::next_reader(h.last()).frozen == state::next_reader(h[0]).frozen,
        state::next_reader(h.last()).header == state::next_reader(h[0]).header,
        state::next_reader(h.last()).lsn == state::next_reader(h[0]).lsn,
    decreases h.len(),
{
    if h.len() > 1 {
        let g = h.drop_last();
        assert forall|i: int| 0 <= i < g.len() - 1 implies staged(#[trigger] g[i], g[i + 1]) by {
            assert(staged(h[i], h[i + 1]));
        }
        law_staging_does_not_show_in_snapshots(g);
        assert(staged(h[h.len() - 2], h[h.len() - 2 + 1]));
    }
}

/// A snapshot that is taken any number of staging calls after a commit has the
/// catalog that the commit was made with.
pub proof fn law_snapshot_root_is_that_of_the_last_commit(
    v: PagerView,
    u: PagerView,
    h: Seq<PagerView>,
)
    requires
        v.wf(),
        u.wf(),
        state::anchored(v),
        state::logged(v, u),
        h.len() > 0,
        h[0] == u,
        forall|i: int| 0 <= i < h.len() ==> (#[trigger] h[i]).log is Some,
        forall|i: int| 0 <= i < h.len() - 1 ==> staged(#[trigger] h[i], h[i + 1]),
    ensures
        state::next_reader(h.last()).root_catalog == v.header.root_catalog,
{
    law_staging_does_not_show_in_snapshots(h);
}

/// The catalog of a snapshot of a memory-backed pager is that of its header, and
/// such a snapshot holds no pages of its own.
pub proof fn law_memory_snapshot(v: PagerView)
    requires
        v.log is None,
    ensures
        state::next_reader(v).root_catalog == v.header.root_catalog,
        state::next_reader(v).header is None,
        state::next_reader(v).lsn == 0,
        forall|id: u64| !#[trigger] state::next_reader(v).frozen.contains_key(id),
{
}

/// A snapshot stands for the end of the log, holds every page of it, and no two
/// snapshots have an id in common.
pub proof fn law_snapshot_holds_the_log(v: PagerView, w: PagerView)
    requires
        v.log is Some,
        v.next_snapshot < u64::MAX,
        w.next_snapshot == v.next_snapshot + 1,
        v.log->0.wal.next_lsn > 0,
    ensures
        state::next_reader(v).lsn == v.log->0.wal.next_lsn - 1,
        state::next_reader(v).frozen == v.log->0.view,
        state::next_reader(v).header == v.log->0.view_header,
        state::next_reader(v).id == v.next_snapshot,
        state::next_reader(w).id != state::next_reader(v).id,
{
}

} // verus!
