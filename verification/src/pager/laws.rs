//! What each operation on a pager does, in terms of what is read and stored.

use crate::bytes;
use crate::error::Error;
use crate::pager::cache;
use crate::pager::checksum;
use crate::pager::config;
use crate::pager::config::{CompressionMode, Config};
use crate::pager::disk;
use crate::pager::header;
use crate::pager::header::FileHeader;
use crate::pager::snapshot::SnapshotView;
use crate::pager::state;
use crate::pager::state::{LogState, PagerView};
use crate::platform::file;
use crate::platform::file::SyncMode;
use crate::wal;
use vstd::prelude::*;

verus! {

/// Page `id` stands in bytes `4096 * id` to `4096 * (id + 1)` of the main file.
pub proof fn law_places_in_the_main_file(main: Seq<u8>, id: u64)
    ensures
        state::has_slot(main, id) <==> 4096 * (id + 1) <= main.len(),
        state::slot(main, id) == main.subrange(4096 * id, 4096 * (id + 1)),
        id < state::pages_for_len(main.len()) <==> 4096 * (id + 1) <= main.len(),
        state::page0(main) == main.take(4096),
{
    state::lemma_has_slot(main, id);
}

/// A page of a plain file is read as it stands, and is damaged where its trailer
/// does not fit. A page of a compressed file is unpacked first. There is no page
/// where the file ends ahead of it.
pub proof fn law_what_stands_in_the_main_file(flags: u32, main: Seq<u8>, id: u64)
    ensures
        4096 * (id + 1) > main.len() ==> state::on_main(flags, main, id) is None,
        4096 * (id + 1) <= main.len() && flags % 2 == 0 ==> state::on_main(flags, main, id) == ({
            let p = main.subrange(4096 * id, 4096 * (id + 1));
            if checksum::trailer_ok(p) {
                Some(p)
            } else {
                None
            }
        }),
        4096 * (id + 1) <= main.len() && flags % 2 == 1 ==> ({
            let p = main.subrange(4096 * id, 4096 * (id + 1));
            &&& state::on_main(flags, main, id) is Some <==> disk::decoded_body_v1(p) is Some
            &&& disk::decoded_body_v1(p) is Some ==> state::on_main(flags, main, id) == Some(
                disk::stamped_body(disk::decoded_body_v1(p)->0),
            )
        }),
{
    assert((flags & 1 != 0) == (flags % 2 == 1)) by (bit_vector);
}

/// A read looks at the open transaction first, then at the log, then at the main
/// file. Without a log it looks at the cache and then at the backing store.
pub proof fn law_where_a_read_looks(v: PagerView, id: u64)
    ensures
        v.log is Some && v.log->0.pending.contains_key(id) ==> v.page_at(id) == Some(
            v.log->0.pending[id],
        ),
        v.log is Some && !v.log->0.pending.contains_key(id) ==> v.page_at(id) == v.committed_at(id),
        v.log is Some && v.log->0.view.contains_key(id) ==> v.committed_at(id) == Some(
            v.log->0.view[id],
        ),
        v.log is Some && !v.log->0.view.contains_key(id) ==> v.committed_at(id) == state::on_main(
            v.header.feature_flags,
            v.main,
            id,
        ),
        v.log is None && cache::holds(v.cache, id) ==> v.page_at(id) == Some(
            cache::entry(v.cache, id).page,
        ),
        v.log is None && !cache::holds(v.cache, id) ==> v.page_at(id) == state::on_main(
            v.header.feature_flags,
            v.main,
            id,
        ),
        v.body_at(id) is Some <==> v.page_at(id) is Some,
        v.page_at(id) is Some ==> v.body_at(id) == Some(v.page_at(id)->0.take(4092)),
{
}

/// Writing a page stages it: it is read back, nothing that is committed and
/// nothing on disk changes, and there is something to commit.
pub proof fn law_writing_a_page(v: PagerView, id: u64, page: Seq<u8>, w: PagerView)
    requires
        v.log is Some,
        state::wrote(v, id, page, w),
    ensures
        w.page_at(id) == Some(page),
        forall|k: u64| k != id ==> #[trigger] w.page_at(k) == v.page_at(k),
        forall|k: u64| #[trigger] w.committed_at(k) == v.committed_at(k),
        w.main == v.main,
        w.header == v.header,
        w.log->0.wal == v.log->0.wal,
        w.log->0.header_dirty == v.log->0.header_dirty,
        state::has_changes(w.log->0),
{
    assert(w.log->0.pending.contains_key(id));
}

/// Changing the header changes no page, and is there to be committed, or without
/// a log stands on page 0 at once.
pub proof fn law_changing_the_header(v: PagerView, h: FileHeader, w: PagerView, id: u64)
    requires
        v.wf(),
        state::reheaded(v, h, w),
        id != 0,
        h.feature_flags == v.header.feature_flags,
    ensures
        w.header == h,
        w.page_at(id) == v.page_at(id),
        w.committed_at(id) == v.committed_at(id),
        v.log is Some ==> w.main == v.main && w.log->0.header_dirty && state::has_changes(w.log->0)
            && w.log->0.wal == v.log->0.wal,
        v.log is None ==> w.main.take(4096) == header::header_page(h),
{
    if v.log is None {
        state::lemma_with_slot(v.main, 0, header::header_page(h), w.main);
        state::lemma_other_slots(v.main, w.main, 0, id);
        assert(w.main.take(4096) =~= state::slot(w.main, 0));
    }
}

/// The next free page is the number behind the tag of a page that is tagged as a
/// free one. One that is the page itself, or is no page of the file, is not
/// followed.
pub proof fn law_next_free_page(v: PagerView, head: u64)
    ensures
        ({
            let p = v.link_at(head)->0;
            let next = bytes::le_nat(p.subrange(8, 16));
            p.len() == 4096 ==> (state::next_free(v, head) == if v.link_at(head) is Some && p[0]
                == 5 && (next == 0 || (next != head && next < v.header.page_count)) {
                Some(next as u64)
            } else {
                None
            })
        }),
        v.link_at(head) is None ==> state::next_free(v, head) is None,
{
    let p = v.link_at(head)->0;
    if p.len() == 4096 {
        bytes::lemma_le_round_trip_bytes(p.subrange(8, 16));
        bytes::lemma_pow256();
    }
}

/// Taking the first free page leaves the others in line and changes neither the
/// number of pages nor the catalog, nor any other page.
pub proof fn law_taking_a_free_page(v: PagerView, head: u64, w: PagerView, k: u64)
    requires
        state::recycled(v, head, w),
        k != head,
        k != 0,
    ensures
        state::next_free(v, head) == Some(w.header.freelist_head),
        w.header == (FileHeader { freelist_head: w.header.freelist_head, ..v.header }),
        w.page_at(k) == v.page_at(k),
        v.log is Some ==> w.log->0.header_dirty && !w.log->0.pending.contains_key(head) && w.main
            == v.main,
{
}

/// A freed page is the first free one and leads to the one that was; neither the
/// number of pages nor the catalog nor any other page changes.
pub proof fn law_freeing_a_page(v: PagerView, id: u64, w: PagerView, k: u64)
    requires
        state::freed(v, id, w),
        k != id,
        k != 0,
    ensures
        w.header == (FileHeader { freelist_head: id, ..v.header }),
        w.page_at(id) is Some,
        w.page_at(id)->0.len() == 4096,
        w.page_at(id)->0[0] == 5,
        bytes::le_nat(w.page_at(id)->0.subrange(8, 16)) == v.header.freelist_head,
        checksum::trailer_ok(w.page_at(id)->0),
        w.page_at(k) == v.page_at(k),
        v.log is Some ==> w.log->0.header_dirty && w.main == v.main,
{
    let entry = crate::pager::freelist::FreeListPage { next: v.header.freelist_head };
    let raw = crate::pager::freelist::freelist_bytes(entry);
    crate::pager::freelist::law_free_page_layout(entry, raw);
    crate::pager::checksum::law_stamped_is_valid(raw);
    let p = checksum::stamped(raw);
    assert(checksum::body_of(p)[0] == checksum::body_of(raw)[0]);
    assert(p.subrange(8, 16) =~= checksum::body_of(p).subrange(8, 16));
    assert(raw.subrange(8, 16) =~= checksum::body_of(raw).subrange(8, 16));
}

/// A new page has the number that is next, and only the number of pages goes up.
pub proof fn law_appending_a_page(v: PagerView, id: u64, w: PagerView)
    requires
        v.wf(),
        state::appended(v, id, w),
    ensures
        id == v.header.page_count,
        id != 0,
        w.header == (FileHeader { page_count: w.header.page_count, ..v.header }),
        w.header.page_count == v.header.page_count + 1,
        w.body_at(id) is Some,
        forall|i: int| 0 <= i < 4092 ==> #[trigger] w.body_at(id)->0[i] == 0,
        v.log is Some ==> w.main == v.main && w.log->0.header_dirty,
        v.log is Some ==> forall|k: u64| k != id ==> #[trigger] w.page_at(k) == v.page_at(k),
{
    let z = crate::pager::page::zero_page();
    checksum::law_stamped_is_valid(z);
    assert(w.body_at(id) == Some(checksum::body_of(z)));
}

/// A commit takes every page of the transaction over, and the header with its
/// counts where it changed; then nothing is left to commit.
pub proof fn law_what_a_commit_takes_over(v: PagerView, w: PagerView, id: u64)
    requires
        v.wf(),
        state::logged(v, w),
    ensures
        v.log->0.pending.contains_key(id) ==> w.committed_at(id) == Some(v.log->0.pending[id]),
        !w.log->0.pending.contains_key(id),
        !state::has_changes(w.log->0),
        w.header == v.header,
        v.log->0.header_dirty ==> ({
            let p = w.log->0.view_header->0;
            &&& w.log->0.view_header is Some
            &&& bytes::le_nat(p.subrange(16, 24)) == v.header.page_count
            &&& bytes::le_nat(p.subrange(24, 32)) == v.header.root_catalog
            &&& bytes::le_nat(p.subrange(32, 40)) == v.header.freelist_head
            &&& w.log->0.committed == v.header
        }),
        w.log->0.wal.next_lsn == v.log->0.wal.next_lsn + state::frames_to_log(v),
        w.pins == v.pins,
{
    header::law_header_layout(v.header);
    let l = state::finished(v).log->0;
    let ids = choose|ids: Seq<u64>| #[trigger]
        state::lists_keys(ids, l.pending) && l.wal.extended(
            w.log->0.wal,
            wal::txn_frames(
                l.wal.next_lsn,
                ids,
                l.pending,
                state::logged_header(state::finished(v)),
            ),
        );
    ids.unique_seq_to_set();
}

/// The frames that a commit appends to the log: one for each page of the
/// transaction, smallest id first and each once, then the header where it
/// changed.
pub proof fn law_what_a_commit_logs(v: PagerView, w: PagerView) -> (ids: Seq<u64>)
    requires
        v.log is Some,
        v.log->0.owed is None,
        state::logged(v, w),
    ensures
        forall|i: int, j: int| 0 <= i < j < ids.len() ==> ids[i] < ids[j],
        forall|id: u64| #[trigger] ids.contains(id) <==> v.log->0.pending.contains_key(id),
        ({
            let n = v.log->0.wal.frames.len();
            let fs = w.log->0.wal.frames;
            &&& fs.len() == n + ids.len() + if v.log->0.header_dirty {
                1int
            } else {
                0int
            }
            &&& forall|i: int| 0 <= i < n ==> #[trigger] fs[i] == v.log->0.wal.frames[i]
            &&& forall|i: int|
                0 <= i < ids.len() ==> fs[n + i].id == #[trigger] ids[i] && fs[n + i].page
                    == v.log->0.pending[ids[i]]
            &&& v.log->0.header_dirty ==> fs.last().id == 0 && fs.last().page
                == header::header_page(v.header)
            &&& state::has_changes(v.log->0) ==> fs.last().commit
        }),
{
    let l = v.log->0;
    let ids = choose|ids: Seq<u64>| #[trigger]
        state::lists_keys(ids, l.pending) && l.wal.extended(
            w.log->0.wal,
            wal::txn_frames(l.wal.next_lsn, ids, l.pending, state::logged_header(v)),
        );
    let fs = w.log->0.wal.frames;
    let n = l.wal.frames.len() as int;
    assert forall|id: u64| #[trigger] ids.contains(id) <==> l.pending.contains_key(id) by {
        assert(ids.to_set().contains(id) <==> l.pending.dom().contains(id));
    }
    assert forall|i: int| 0 <= i < ids.len() implies fs[n + i].id == #[trigger] ids[i]
        && fs[n + i].page == l.pending[ids[i]] by {}
    if state::has_changes(l) && !l.header_dirty {
        let id = choose|id: u64| l.pending.contains_key(id);
        assert(ids.contains(id));
    }
    ids
}

/// Why a commit is refused: for the limit of the log, for want of numbers, or
/// because a file failed; the limit is looked at first, unless a checkpoint has
/// to be finished.
pub proof fn law_refused_commits(v: PagerView, e: Error)
    requires
        v.log is Some,
        v.log->0.owed is None,
        state::commit_error(v, e),
    ensures
        ({
            let n = state::frames_to_log(v);
            let end = 32 + (v.log->0.wal.frames.len() + n) * 4128;
            &&& end > v.log->0.wal.config.size_limit <==> e == Error::InvalidArgument(
                "wal size limit exceeded",
            )
            &&& end <= v.log->0.wal.config.size_limit && v.log->0.wal.next_lsn + n > u64::MAX
                <==> e == Error::InvalidArgument("log sequence numbers exhausted")
            &&& e is Io || e is InvalidArgument
        }),
{
    reveal_strlit("wal size limit exceeded");
    reveal_strlit("log sequence numbers exhausted");
    assert("wal size limit exceeded"@.len() != "log sequence numbers exhausted"@.len());
}

/// There is something to commit exactly where a page was written or the header
/// changed; a commit of nothing returns zero and does nothing before it looks at
/// the log.
pub proof fn law_commit_of_nothing(v: PagerView, lsn: u64, w: PagerView)
    requires
        v.log is Some,
    ensures
        state::has_changes(v.log->0) <==> v.log->0.header_dirty || exists|id: u64|
            v.log->0.pending.contains_key(id),
        !state::has_changes(v.log->0) && state::commit_step(v, lsn, w) ==> lsn == 0 && w == v,
        state::has_changes(v.log->0) && state::commit_step(v, lsn, w) && w.log->0.wal.next_lsn > 0
            ==> lsn == w.log->0.wal.next_lsn - 1 && state::logged(v, w),
{
}

/// A commit after which the log has as many frames as the threshold tries a
/// checkpoint, unless a snapshot holds it back; one after which it has fewer
/// does not.
pub proof fn law_when_a_commit_checkpoints(u: PagerView, w: PagerView)
    requires
        u.log is Some,
        state::auto_checkpointed(u, w),
    ensures
        u.log->0.wal.frames.len() < u.config.checkpoint_threshold ==> w == u,
        u.log->0.wal.frames.len() >= u.config.checkpoint_threshold && u.held_back() ==> w == u,
        u.log->0.wal.frames.len() >= u.config.checkpoint_threshold && !u.held_back()
            ==> state::checkpointed(u, w) || state::roll_failed(u, w),
{
}

/// A checkpoint is held back exactly while some live snapshot stands for an
/// earlier place than the end of the log.
pub proof fn law_what_holds_a_checkpoint_back(v: PagerView)
    requires
        v.log is Some,
        v.log->0.wal.next_lsn >= 1,
    ensures
        v.held_back() <==> exists|id: u64| #[trigger]
            v.pins.contains_key(id) && v.pins[id] + 1 < v.log->0.wal.next_lsn,
        v.held_back() ==> forall|w: PagerView| #[trigger] state::checkpointed(v, w) ==> w == v,
        (forall|id: u64| !#[trigger] v.pins.contains_key(id)) ==> !v.held_back(),
{
}

/// A checkpoint that is not held back leaves the log empty and every page of it
/// in the main file, under the committed header.
pub proof fn law_what_a_checkpoint_leaves(v: PagerView, w: PagerView, id: u64)
    requires
        v.wf(),
        v.log is Some,
        v.log->0.owed is None,
        !v.held_back(),
        !state::nothing_to_roll(v.log->0),
        state::checkpointed(v, w),
    ensures
        w.log->0.wal.frames.len() == 0,
        !w.log->0.view.contains_key(id),
        w.log->0.view_header is None,
        w.log->0.pending == v.log->0.pending,
        w.log->0.header_dirty == v.log->0.header_dirty,
        v.log->0.view.contains_key(id) ==> state::on_main(w.header.feature_flags, w.main, id)
            == Some(checksum::stamped(v.log->0.view[id])),
        ({
            let p = w.main.take(4096);
            let c = v.log->0.committed;
            &&& bytes::le_nat(p.subrange(16, 24)) == c.page_count
            &&& bytes::le_nat(p.subrange(24, 32)) == c.root_catalog
            &&& bytes::le_nat(p.subrange(32, 40)) == c.freelist_head
            &&& bytes::le_nat(p.subrange(40, 44)) == w.log->0.wal.salt
        }),
        w.header.page_count == v.header.page_count,
        w.header.root_catalog == v.header.root_catalog,
        w.header.freelist_head == v.header.freelist_head,
        exists|i: int|
            0 <= i < w.main_syncs.len() && (#[trigger] w.main_syncs[i]).0 == SyncMode::Full,
{
    let l = v.log->0;
    if l.view.contains_key(id) {
        state::law_main_round_trip(v.flags(), l.view[id], state::slot(w.main, id));
    }
    let m = w.log->0;
    header::law_header_layout(m.committed);
    state::law_salt_round_trip(l.committed, m.wal.salt, m.committed);
    assert(state::slot(w.main, 0) =~= w.main.take(4096));
    let p = w.main.take(4096);
    assert(m.committed.wal_salt@.take(4) =~= p.subrange(40, 44));
    bytes::lemma_le_round_trip_bytes(p.subrange(40, 44));
    bytes::lemma_pow256();
    assert(w.main_syncs[v.main_syncs.len() as int].0 == SyncMode::Full);
}

/// There is nothing to roll forward where no page and no header of the log waits
/// for it, and page 0 is not owed.
pub proof fn law_when_there_is_nothing_to_roll(l: LogState)
    ensures
        state::nothing_to_roll(l) <==> l.owed is None && l.view_header is None && (forall|id: u64|
            !#[trigger] l.view.contains_key(id)),
{
}

/// The salt of a header is its first four bytes, and the other twelve are zero
/// once one was put in; nothing else of the header changes.
pub proof fn law_salts(h: FileHeader, old: FileHeader, salt: u32, i: int)
    requires
        0 <= i < 16,
    ensures
        state::header_salt(h) == bytes::le_nat(h.wal_salt@.subrange(0, 4)),
        state::salted(old, salt, h) ==> bytes::le_nat(h.wal_salt@.subrange(0, 4)) == salt && (i
            >= 4 ==> h.wal_salt@[i] == 0) && h.page_count == old.page_count && h.root_catalog
            == old.root_catalog && h.freelist_head == old.freelist_head && h.feature_flags
            == old.feature_flags && h.file_uuid == old.file_uuid && h.kdf_salt == old.kdf_salt
            && h.format_major == old.format_major && h.format_minor == old.format_minor
            && h.page_size == old.page_size,
{
    assert(h.wal_salt@.subrange(0, 4) =~= h.wal_salt@.take(4));
    bytes::lemma_le_round_trip_bytes(h.wal_salt@.take(4));
    bytes::lemma_pow256();
    bytes::lemma_le_seq_len(salt as nat, 4);
    if state::salted(old, salt, h) {
        state::law_salt_round_trip(old, salt, h);
    }
}

/// What a snapshot sees of a page: what it holds itself; nothing where the
/// database has no such page; and else what the main file holds, or zeros where
/// that ends ahead of the page.
pub proof fn law_what_a_snapshot_sees(snap: SnapshotView, v: PagerView, id: u64)
    requires
        v.log is Some,
    ensures
        snap.frozen.contains_key(id) ==> state::seen(snap, v, id) == Some(snap.frozen[id]),
        !snap.frozen.contains_key(id) && id >= v.header.page_count ==> state::seen(
            snap,
            v,
            id,
        ) is None,
        !snap.frozen.contains_key(id) && id < v.header.page_count && 4096 * (id + 1)
            > v.main.len() ==> state::seen(snap, v, id) is Some && state::seen(
            snap,
            v,
            id,
        )->0.len() == 4096 && forall|i: int|
            0 <= i < 4096 ==> #[trigger] state::seen(snap, v, id)->0[i] == 0,
        !snap.frozen.contains_key(id) && id < v.header.page_count && 4096 * (id + 1)
            <= v.main.len() ==> state::seen(snap, v, id) == state::on_main(
            v.header.feature_flags,
            v.main,
            id,
        ),
{
    state::lemma_has_slot(v.main, id);
}

/// Dropping a transaction leaves what is committed, and forgets that the header
/// changed; putting back what was noted sets the counts and the pages of the
/// log.
pub proof fn law_dropping_a_transaction(v: PagerView, id: u64)
    requires
        v.log is Some,
    ensures
        state::dropped(v).page_at(id) == v.committed_at(id),
        !state::has_changes(state::dropped(v).log->0),
        state::dropped(v).log->0.wal == v.log->0.wal,
        state::dropped(v).main == v.main,
        state::dropped(v).header == v.header,
        state::unwritten(v).page_at(id) == v.committed_at(id),
        state::unwritten(v).log->0.header_dirty == v.log->0.header_dirty,
        state::unwritten(v).header == v.header,
        state::unwritten(v).main == v.main,
{
}

/// Closing rolls everything that is committed forward, whatever snapshots hold
/// on to, and syncs the main file in full.
pub proof fn law_closing(v: PagerView, w: PagerView, id: u64)
    requires
        v.wf(),
        v.log is Some,
        v.log->0.owed is None,
        state::closed_down(v, w),
    ensures
        w.log->0.wal.frames.len() == 0 || state::nothing_to_roll(v.log->0),
        !w.log->0.view.contains_key(id),
        !w.log->0.pending.contains_key(id),
        v.log->0.view.contains_key(id) ==> state::on_main(w.header.feature_flags, w.main, id)
            == Some(checksum::stamped(v.log->0.view[id])),
        exists|i: int|
            0 <= i < w.main_syncs.len() && (#[trigger] w.main_syncs[i]).0 == SyncMode::Full,
{
    let l = v.log->0;
    if state::nothing_to_roll(l) {
        assert(w.main_syncs.last().0 == SyncMode::Full);
    } else {
        if l.view.contains_key(id) {
            state::law_main_round_trip(v.flags(), l.view[id], state::slot(w.main, id));
        }
        assert(w.main_syncs[v.main_syncs.len() as int].0 == SyncMode::Full);
    }
}

/// A flush leaves nothing to commit, and the header on page 0; without a log no
/// page of the cache is newer than the backing store.
pub proof fn law_flushing(v: PagerView, w: PagerView, id: u64)
    requires
        v.wf(),
        state::flushed(v, w),
    ensures
        v.log is Some ==> !state::has_changes(w.log->0),
        v.log is Some && w.main.len() >= 4096 ==> w.main.take(4096) == header::header_page(
            w.header,
        ),
        v.log is None ==> w.main.subrange(0, 4096) == header::header_page(v.header),
        v.log is None && cache::holds(w.cache, id) ==> !cache::entry(w.cache, id).dirty,
        v.log is None && 1 <= id < v.header.page_count ==> w.body_at(id) == v.body_at(id),
{
    if v.log is Some {
        let (lsn, c, t) = choose|lsn: u64, c: PagerView, t: PagerView|
            #![trigger state::committed(v, lsn, c), state::checkpointed(c, t)]
            state::committed(v, lsn, c) && state::checkpointed(c, t) && state::header_synced(t, w);
        let u = choose|u: PagerView| #[trigger]
            state::commit_step(v, lsn, u) && u.wf() && state::auto_checkpointed(u, c);
        if state::has_changes(v.log->0) {
            law_what_a_commit_takes_over(v, u, id);
        }
        assert(!state::has_changes(u.log->0));
        assert(u.log->0.pending == c.log->0.pending && c.log->0.pending == t.log->0.pending);
        assert(u.log->0.header_dirty == c.log->0.header_dirty && c.log->0.header_dirty
            == t.log->0.header_dirty);
        header::law_header_layout(t.header);
        if w.main.len() >= 4096 {
            assert(w.main.take(4096) =~= header::header_page(w.header));
        }
    }
}

/// What stands in the way of opening, in the order in which it is looked at: the
/// set-up, the length of the main file, its header, its features, the log, and
/// the header in the log.
pub proof fn law_what_stands_in_the_way_of_opening(main: Seq<u8>, log: Seq<u8>, config: Config)
    ensures
        ({
            let e = state::open_error(main, log, config);
            let salt = state::found_salt(main);
            let made = config.cache_frames > 0 && config.encryption_key is None;
            let readable = main.len() == 0 || (main.len() >= 4096 && header::header_error(
                main.take(4096),
            ) is None && config::feature_error(
                bytes::le_nat(main.subrange(10, 14)) as u32,
                true,
                false,
            ) is None);
            let last = wal::latest(wal::counted(log, salt), 0);
            &&& e is None <==> made && readable && wal::log_error(log, salt) is None && (last
                is Some ==> header::header_error(last->0) is None)
            &&& made && 0 < main.len() < 4096 ==> e == Some(
                Error::InvalidFormat { reason: "file is shorter than one page" },
            )
            &&& made && main.len() >= 4096 && header::header_error(main.take(4096)) is Some ==> e
                == header::header_error(main.take(4096))
            &&& made && readable && wal::log_error(log, salt) is Some ==> e == wal::log_error(
                log,
                salt,
            )
            &&& main.len() == 0 ==> salt == 0
            &&& main.len() >= 4096 ==> salt == bytes::le_nat(main.subrange(40, 44))
        }),
{
    if main.len() >= 4096 {
        bytes::lemma_le_round_trip_bytes(main.subrange(40, 44));
        bytes::lemma_pow256();
    }
}

/// A file that was empty opens as a database without documents: one page, no
/// catalog, nothing free, and the features that were asked for.
pub proof fn law_opening_an_empty_file(log: Seq<u8>, config: Config, v: PagerView)
    requires
        state::opened(Seq::empty(), log, config, v),
        wal::counted(log, 0).len() == 0,
    ensures
        v.header.page_count == 1,
        v.header.root_catalog == 0,
        v.header.freelist_head == 0,
        v.header.format_major == 1,
        v.header.format_minor == 2,
        v.header.page_size == 4096,
        v.header.feature_flags % 2 == 1 <==> config.compression_mode == CompressionMode::Lz4,
        v.header.feature_flags < 2,
        v.log->0.wal.frames.len() == 0,
        v.main.len() == 4096,
        v.main == header::header_page(v.header),
        forall|id: u64| !#[trigger] v.log->0.view.contains_key(id),
        forall|id: u64| !#[trigger] v.log->0.pending.contains_key(id),
{
    let main = Seq::<u8>::empty();
    let l = v.log->0;
    let h0 = choose|h0: FileHeader| #[trigger]
        state::found_header(main, config, h0) && state::opened_log(
            if main.len() == 0 {
                header::header_page(h0)
            } else {
                main
            },
            log,
            h0,
            v.header,
            v.main,
            l.wal,
            l.view,
            l.view_header,
        );
    state::lemma_found_salt(main, config, h0);
    config::law_features_of_new_files(config.compression_mode, false);
    header::law_header_layout(h0);
    header::law_header_layout(v.header);
    assert(v.main =~= header::header_page(v.header));
}

/// A pager that was just opened has no transaction, no snapshot and an empty
/// cache, and what is committed is what its log and its main file hold.
pub proof fn law_just_opened(main: Seq<u8>, log: Seq<u8>, config: Config, v: PagerView, id: u64)
    requires
        state::opened(main, log, config, v),
        main.len() == 0 || main.len() >= 4096,
    ensures
        !state::has_changes(v.log->0),
        v.log->0.depth == 0,
        v.log->0.owed is None,
        v.cache.len() == 0,
        !v.pins.contains_key(id),
        v.next_snapshot == 1,
        v.config == config,
        v.log->0.committed == v.header,
        ({
            let fs = wal::counted(log, state::found_salt(main));
            &&& v.log->0.wal.frames.len() == fs.len()
            &&& fs.len() > 0 ==> v.log->0.wal.frames == fs && v.main == if main.len() == 0 {
                v.main
            } else {
                main
            }
            &&& fs.len() > 0 && id != 0 ==> v.log->0.view.contains_key(id) == (wal::latest(fs, id)
                is Some)
            &&& fs.len() > 0 && id != 0 && wal::latest(fs, id) is Some ==> v.log->0.view[id]
                == wal::latest(fs, id)->0
        }),
{
    let l = v.log->0;
    let h0 = choose|h0: FileHeader| #[trigger]
        state::found_header(main, config, h0) && state::opened_log(
            if main.len() == 0 {
                header::header_page(h0)
            } else {
                main
            },
            log,
            h0,
            v.header,
            v.main,
            l.wal,
            l.view,
            l.view_header,
        );
    state::lemma_found_salt(main, config, h0);
}

/// A file with a limit does not fail within it.
pub proof fn law_limits(limit: Option<nat>, n: int)
    ensures
        file::within(limit, n) <==> limit is Some && n <= limit->0,
{
}

/// Reading changes nothing that can be told: not the header, the log, the
/// snapshots or the syncs, nor the bytes of a file, nor any page ahead of its
/// trailer.
pub proof fn law_reading_changes_nothing(v: PagerView, w: PagerView, id: u64)
    requires
        v.settled(w),
    ensures
        w.header == v.header,
        w.log == v.log,
        w.config == v.config,
        w.pins == v.pins,
        w.next_snapshot == v.next_snapshot,
        w.high_water == v.high_water,
        w.main_syncs == v.main_syncs,
        w.main_limit == v.main_limit,
        w.main.len() == v.main.len(),
        v.log is Some ==> w.main == v.main && w.page_at(id) == v.page_at(id),
        1 <= id < v.header.page_count ==> w.body_at(id) == v.body_at(id),
{
}

/// Writing a page where there is no log changes that page alone, and neither the
/// header nor the length of the backing store.
pub proof fn law_writing_a_page_in_memory(v: PagerView, id: u64, page: Seq<u8>, w: PagerView, k: u64)
    requires
        v.log is None,
        state::wrote(v, id, page, w),
    ensures
        w.page_at(id) == Some(page),
        k != id && 1 <= k < v.header.page_count ==> w.body_at(k) == v.body_at(k),
        w.header == v.header,
        w.log is None,
        w.config == v.config,
        w.pins == v.pins,
        w.next_snapshot == v.next_snapshot,
        w.main.len() == v.main.len(),
{
}

/// Appending a page where there is no log makes the backing store longer by 4096
/// bytes, notes the number of pages on page 0, and changes no other page.
pub proof fn law_appending_a_page_in_memory(v: PagerView, id: u64, w: PagerView, k: u64)
    requires
        v.log is None,
        state::appended(v, id, w),
        w.main.len() >= 4096,
    ensures
        w.main.len() == v.main.len() + 4096,
        bytes::le_nat(w.main.subrange(16, 24)) == v.header.page_count + 1,
        w.page_at(id) is Some,
        forall|i: int| 0 <= i < 4096 ==> #[trigger] w.page_at(id)->0[i] == 0,
        k != id && 1 <= k < v.header.page_count ==> w.body_at(k) == v.body_at(k),
        w.pins == v.pins,
        w.config == v.config,
{
    header::law_header_layout(w.header);
    assert(state::slot(w.main, 0).subrange(16, 24) =~= w.main.subrange(16, 24));
}

/// A commit that fails leaves the transaction, what is committed and the
/// snapshots as they were; where no checkpoint was left to finish, the main file
/// too.
pub proof fn law_what_a_failed_commit_leaves(v: PagerView, w: PagerView)
    requires
        state::commit_failed(v, w),
    ensures
        w.header == v.header,
        w.log->0.pending == v.log->0.pending,
        w.log->0.header_dirty == v.log->0.header_dirty,
        w.log->0.committed == v.log->0.committed,
        w.log->0.depth == v.log->0.depth,
        w.log->0.wal.frames == v.log->0.wal.frames,
        w.log->0.wal.next_lsn == v.log->0.wal.next_lsn,
        w.log->0.wal.salt == v.log->0.wal.salt,
        w.pins == v.pins,
        w.next_snapshot == v.next_snapshot,
        w.config == v.config,
        v.log->0.owed is None ==> w.main == v.main && w.log->0.view == v.log->0.view
            && w.log->0.view_header == v.log->0.view_header && w.main_syncs == v.main_syncs,
{
}

/// A commit leaves everything but the transaction and the log alone where no
/// checkpoint was left to finish.
pub proof fn law_what_a_commit_leaves_alone(v: PagerView, w: PagerView, id: u64)
    requires
        state::logged(v, w),
        v.log->0.owed is None,
    ensures
        w.main == v.main,
        w.main_syncs == v.main_syncs,
        w.config == v.config,
        w.next_snapshot == v.next_snapshot,
        w.log->0.depth == v.log->0.depth,
        w.log->0.wal.salt == v.log->0.wal.salt,
        w.log->0.owed is None,
        !v.log->0.pending.contains_key(id) ==> w.log->0.view.contains_key(id)
            == v.log->0.view.contains_key(id),
        !v.log->0.pending.contains_key(id) && v.log->0.view.contains_key(id)
            ==> w.log->0.view[id] == v.log->0.view[id],
        !v.log->0.header_dirty ==> w.log->0.view_header == v.log->0.view_header
            && w.log->0.committed == v.log->0.committed,
{
}

/// A checkpoint syncs the main file twice: in full once it holds the pages, and
/// in the mode that was asked for once page 0 is written. It goes on with the
/// numbers of the log, and makes the file just as long as its pages need.
pub proof fn law_how_a_checkpoint_goes(v: PagerView, w: PagerView, id: u64)
    requires
        v.log is Some,
        v.log->0.owed is None,
        state::rolled(v, w),
    ensures
        w.main_syncs.len() == v.main_syncs.len() + 2,
        w.main_syncs.take(v.main_syncs.len() as int) == v.main_syncs,
        w.main_syncs[v.main_syncs.len() as int].0 == SyncMode::Full,
        w.main_syncs.last() == (v.config.sync_mode, w.main),
        w.log->0.wal.next_lsn == v.log->0.wal.next_lsn,
        w.log->0.wal.file.len() == 32,
        w.main.len() >= v.main.len(),
        v.log->0.view.contains_key(id) ==> 4096 * (id + 1) <= w.main.len(),
        w.main.len() > v.main.len() ==> exists|k: u64| #[trigger]
            v.log->0.view.contains_key(k) && w.main.len() == 4096 * (k + 1),
        w.config == v.config,
        w.pins == v.pins,
        w.next_snapshot == v.next_snapshot,
        w.log->0.depth == v.log->0.depth,
{
    wal::law_new_generation(v.log->0.wal, w.log->0.wal);
    if w.main.len() > v.main.len() {
        let k = choose|k: u64| #[trigger]
            v.log->0.view.contains_key(k) && w.main.len() == (k + 1) * 4096;
        assert(v.log->0.view.contains_key(k) && w.main.len() == 4096 * (k + 1));
    }
}

/// A checkpoint with nothing to do syncs the main file in full and changes
/// nothing else; one that was cut off ahead of page 0 writes that page and drops
/// what the main file holds already.
pub proof fn law_checkpoint_with_little_to_do(v: PagerView, w: PagerView, id: u64)
    requires
        v.log is Some,
        !v.held_back(),
        state::checkpointed(v, w),
    ensures
        state::nothing_to_roll(v.log->0) ==> w.main == v.main && w.log == v.log && w.header
            == v.header && w.main_syncs == v.main_syncs.push((SyncMode::Full, v.main)),
        v.log->0.owed is Some && v.log->0.owed->0.len() == 4096 && v.main.len() >= 4096 ==> {
            &&& w.main.take(4096) == v.log->0.owed->0
            &&& w.main.skip(4096) == v.main.skip(4096)
            &&& !w.log->0.view.contains_key(id)
            &&& w.log->0.view_header is None
            &&& w.log->0.owed is None
            &&& w.log->0.wal == v.log->0.wal
            &&& w.log->0.pending == v.log->0.pending
            &&& w.header == v.header
            &&& w.main_syncs == v.main_syncs.push((v.config.sync_mode, w.main))
        },
{
    if v.log->0.owed is Some && v.log->0.owed->0.len() == 4096 && v.main.len() >= 4096 {
        assert(w.main.take(4096) =~= v.log->0.owed->0);
        assert(w.main.skip(4096) =~= v.main.skip(4096));
    }
}

/// A failed checkpoint keeps the transaction, the pages of the log and the counts
/// of the header; the log is empty only where all of it has reached the main
/// file.
pub proof fn law_what_a_failed_checkpoint_leaves(v: PagerView, w: PagerView, id: u64)
    requires
        state::roll_failed(v, w),
    ensures
        w.log->0.pending == v.log->0.pending,
        w.log->0.view == v.log->0.view,
        w.log->0.view_header == v.log->0.view_header,
        w.log->0.header_dirty == v.log->0.header_dirty,
        w.header.page_count == v.header.page_count,
        w.header.root_catalog == v.header.root_catalog,
        w.header.freelist_head == v.header.freelist_head,
        w.log->0.committed.root_catalog == v.log->0.committed.root_catalog,
        w.log->0.committed.page_count == v.log->0.committed.page_count,
        w.pins == v.pins,
        w.log->0.wal.next_lsn == v.log->0.wal.next_lsn,
        w.log->0.wal.frames != v.log->0.wal.frames && v.log->0.view.contains_key(id)
            && v.log->0.view[id].len() == 4096 ==> state::on_main(
            v.header.feature_flags,
            w.main,
            id,
        ) == Some(checksum::stamped(v.log->0.view[id])),
{
    if v.log->0.owed is None && w.log->0.wal.frames != v.log->0.wal.frames
        && v.log->0.view.contains_key(id) && v.log->0.view[id].len() == 4096 {
        state::law_main_round_trip(v.flags(), v.log->0.view[id], state::slot(w.main, id));
    }
}

/// The syncs of opening come behind those that were: one of a new page 0, and one
/// in the mode that was asked for where the log was started anew.
pub proof fn law_syncs_of_opening(
    main: Seq<u8>,
    before: Seq<(SyncMode, Seq<u8>)>,
    log: Seq<u8>,
    v: PagerView,
)
    requires
        state::opened_syncs(main, before, log, v),
    ensures
        ({
            let counts = wal::counted(log, state::found_salt(main)).len() > 0;
            &&& v.main_syncs.take(before.len() as int) == before
            &&& v.main_syncs.len() == before.len() + (if main.len() == 0 {
                1int
            } else {
                0int
            }) + (if counts {
                0int
            } else {
                1int
            })
            &&& main.len() == 0 ==> v.main_syncs[before.len() as int].0 == SyncMode::Normal
            &&& !counts ==> v.main_syncs.last() == (v.config.sync_mode, v.main)
        }),
{
    assert(v.main_syncs.take(before.len() as int) =~= before);
}

/// The main file is synced where no sync was asked for, or its last sync was in
/// the mode that was asked for or in full and nothing was written since.
pub proof fn law_when_the_main_file_is_synced(v: PagerView)
    ensures
        v.config.sync_mode == SyncMode::Off ==> state::main_synced(v),
        v.config.sync_mode != SyncMode::Off && state::main_synced(v) ==> v.main_syncs.len() > 0
            && v.main_syncs.last().1 == v.main && v.main_syncs.last().0 != SyncMode::Off,
        v.config.sync_mode == SyncMode::Full && state::main_synced(v) ==> v.main_syncs.last().0
            == SyncMode::Full,
{
}

/// What can be put back: pages of the right size where there is a log, and pages
/// that the backing store has where there is none.
pub proof fn law_putting_back(v: PagerView, s: crate::pager::snapshot::HeaderState, id: u64)
    ensures
        state::put_back(v, s).header == (FileHeader {
            root_catalog: s.root_catalog,
            freelist_head: s.freelist_head,
            page_count: s.page_count,
            ..v.header
        }),
        v.log is Some ==> state::put_back(v, s).log == Some(LogState { view: s.view, ..v.log->0 }),
        state::put_back(v, s).main == v.main,
        state::put_back(v, s).pins == v.pins,
        v.log is Some && state::can_put_back(v, s) && s.view.contains_key(id) ==> id != 0
            && s.view[id].len() == 4096,
        v.log is None && state::can_put_back(v, s) ==> s.page_count * 4096 <= v.main.len(),
{
}

} // verus!
