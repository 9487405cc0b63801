//! Transactions: what beginning, committing and giving up one does to a pager,
//! and how long a writer waits for its turn.

use crate::error::{Error, LockKind};
use crate::pager::page::{Page, PageId, PAGE_SIZE};
use crate::pager::snapshot::{HeaderSnapshot, HeaderState, ReaderSnapshot, SnapshotView};
use crate::pager::state;
use crate::pager::state::{LogState, PagerView};
use crate::pager::store::Pager;
use crate::platform::file;
use crate::platform::file::FileBackend;
use crate::platform::lock::Retry;
use crate::wal::Lsn;
use vstd::prelude::*;

verus! {

/// How long to wait for a lock if a caller does not say, in milliseconds.
pub const DEFAULT_BUSY_TIMEOUT: u64 = 5000;

/// Tries that a writer is granted beyond one per millisecond.
pub const GATE_SPARE_TRIES: u64 = 64;

/// How a writer waits for the other writers of its process: one try per
/// millisecond of the timeout at most, and a few to spare.
pub fn gate_retry(timeout_millis: u64) -> (r: Retry)
    ensures
        r.kind() == LockKind::WriterInProcess,
        r.timeout() == timeout_millis,
        r.tries() == 0,
        r.max_tries() == if timeout_millis + GATE_SPARE_TRIES <= u64::MAX {
            timeout_millis + GATE_SPARE_TRIES
        } else {
            u64::MAX as int
        },
        r.backoff() == 1,
{
    Retry::new(
        LockKind::WriterInProcess,
        timeout_millis,
        timeout_millis.saturating_add(GATE_SPARE_TRIES),
    )
}

/// `v` with one more transaction begun.
pub open spec fn begun(v: PagerView) -> PagerView {
    PagerView {
        log: match v.log {
            Some(l) => Some(
                LogState {
                    depth: if l.depth < u32::MAX {
                        (l.depth + 1) as u32
                    } else {
                        l.depth
                    },
                    ..l
                },
            ),
            None => None,
        },
        ..v
    }
}

/// `v` with one transaction less.
pub open spec fn ended(v: PagerView) -> PagerView {
    PagerView {
        log: match v.log {
            Some(l) => Some(
                LogState {
                    depth: if l.depth > 0 {
                        (l.depth - 1) as u32
                    } else {
                        0
                    },
                    ..l
                },
            ),
            None => None,
        },
        ..v
    }
}

/// `w` is `v` with its open transaction given up and `s` put back; writing
/// page 0 failed if `failed` says so.
pub open spec fn given_up(v: PagerView, s: HeaderState, failed: bool, w: PagerView) -> bool {
    let t = state::put_back(state::dropped(v), s);
    exists|u: PagerView|
        {
            &&& w == #[trigger] ended(u)
            &&& if failed {
                &&& v.log is Some
                &&& !file::within(v.main_limit, PAGE_SIZE as int)
                &&& u == (PagerView { main: u.main, ..t })
                &&& state::only_slot_differs(v.main, u.main, 0)
            } else {
                state::header_written(t, u)
            }
        }
}

/// A write transaction on a pager. It notes what the header was when it began.
///
/// Nobody but the holder of the writer's locks begins one, so a pager has one
/// at most.
#[derive(Debug)]
pub struct WriteTxn {
    header_at_begin: HeaderSnapshot,
}

impl WriteTxn {
    /// What giving up the transaction puts back.
    pub closed spec fn noted(self) -> HeaderState {
        self.header_at_begin.state()
    }

    /// Begin a transaction on `pager`.
    pub fn begin<F: FileBackend>(pager: &mut Pager<F>) -> (r: Self)
        requires
            old(pager).wf(),
        ensures
            final(pager).wf(),
            final(pager)@ == begun(old(pager)@),
            r.noted() == state::header_state(old(pager)@),
            state::can_put_back(old(pager)@, r.noted()),
    {
        proof {
            pager.lemma_wf();
        }
        pager.begin_txn();
        WriteTxn { header_at_begin: pager.header_snapshot() }
    }

    /// Commit the transaction. Where that fails, the transaction is given up.
    pub fn commit<F: FileBackend>(self, pager: &mut Pager<F>) -> (r: Result<Lsn, Error>)
        requires
            old(pager).wf(),
            state::can_put_back(old(pager)@, self.noted()),
        ensures
            final(pager).wf(),
            match r {
                Ok(lsn) => exists|u: PagerView| #[trigger]
                    state::committed(old(pager)@, lsn@, u) && final(pager)@ == ended(u),
                Err(e) => {
                    &&& state::has_changes(old(pager)@.log->0)
                    &&& state::commit_error(old(pager)@, e)
                    &&& exists|u: PagerView, failed: bool|
                        state::commit_failed(old(pager)@, u) && #[trigger] given_up(
                            u,
                            self.noted(),
                            failed,
                            final(pager)@,
                        )
                },
            },
    {
        proof {
            pager.lemma_wf();
        }
        match pager.commit() {
            Ok(lsn) => {
                pager.end_txn();
                Ok(lsn)
            },
            Err(e) => {
                proof {
                    state::lemma_can_still_put_back(old(pager)@, self.noted(), pager@);
                }
                let given: Result<(), Error> = self.rollback(pager);
                Err(e)
            },
        }
    }

    /// Give the transaction up: its writes are dropped, and what it noted is
    /// put back.
    pub fn rollback<F: FileBackend>(self, pager: &mut Pager<F>) -> (r: Result<(), Error>)
        requires
            old(pager).wf(),
            state::can_put_back(old(pager)@, self.noted()),
        ensures
            final(pager).wf(),
            given_up(old(pager)@, self.noted(), r is Err, final(pager)@),
            r matches Err(e) ==> e is Io && !file::within(
                old(pager)@.main_limit,
                PAGE_SIZE as int,
            ),
    {
        let ghost v = pager@;
        pager.rollback_pending_writes();
        let r = pager.restore_header_snapshot(self.header_at_begin);
        let ghost u = pager@;
        pager.end_txn();
        proof {
            assert(pager@ == ended(u));
        }
        r
    }
}

/// A transaction that is begun, writes what it likes, and is given up, leaves
/// every page and the header fields that it noted as they were, also where page
/// 0 could not be written.
pub proof fn law_giving_up_restores(
    v: PagerView,
    w: PagerView,
    failed: bool,
    x: PagerView,
    id: u64,
)
    requires
        v.wf(),
        v.log is Some,
        w.log is Some,
        state::only_slot_differs(v.main, w.main, 0),
        w.flags() == v.flags(),
        forall|k: u64| !#[trigger] v.log->0.pending.contains_key(k),
        given_up(w, state::header_state(v), failed, x),
        1 <= id < v.header.page_count,
    ensures
        x.page_at(id) == v.page_at(id),
        x.header.page_count == v.header.page_count,
        x.header.root_catalog == v.header.root_catalog,
        x.header.freelist_head == v.header.freelist_head,
{
    let t = state::put_back(state::dropped(w), state::header_state(v));
    let u = choose|u: PagerView|
        {
            &&& x == #[trigger] ended(u)
            &&& state::only_slot_differs(t.main, u.main, 0) || state::header_written(t, u)
            &&& u == (PagerView { main: u.main, cache: u.cache, ..t })
        };
    state::law_rollback_restores(v, w, id);
    if state::header_written(t, u) {
        state::lemma_with_slot(t.main, 0, crate::pager::header::header_page(t.header), u.main);
    }
    state::lemma_other_slots(t.main, u.main, 0, id);
}

/// A read transaction: a snapshot of what was committed when it began.
#[derive(Debug)]
pub struct ReadTxn<F: FileBackend> {
    snapshot: ReaderSnapshot<F>,
}

impl<F: FileBackend> View for ReadTxn<F> {
    type V = SnapshotView;

    closed spec fn view(&self) -> SnapshotView {
        self.snapshot@
    }
}

impl<F: FileBackend> ReadTxn<F> {
    /// Begin a transaction on `pager`.
    pub fn begin(pager: &mut Pager<F>) -> (r: Self)
        requires
            old(pager).wf(),
            old(pager)@.next_snapshot < u64::MAX,
        ensures
            final(pager).wf(),
            r@ == state::next_reader(old(pager)@),
            final(pager)@ == (PagerView {
                pins: old(pager)@.pins.insert(old(pager)@.next_snapshot, old(pager)@.end_lsn()),
                next_snapshot: (old(pager)@.next_snapshot + 1) as u64,
                ..old(pager)@
            }),
    {
        ReadTxn { snapshot: pager.reader_snapshot() }
    }

    /// The log position that the transaction holds on to.
    pub fn pinned_lsn(&self) -> (r: Lsn)
        ensures
            r@ == self@.lsn,
    {
        self.snapshot.pinned_lsn()
    }

    /// Page `id` as of the beginning of the transaction.
    pub fn read_page(&self, pager: &Pager<F>, id: PageId) -> (r: Result<Page, Error>)
        requires
            pager.wf(),
        ensures
            match r {
                Ok(p) => state::seen(self@, pager@, id@) == Some(p@),
                Err(e) => {
                    &&& !self@.frozen.contains_key(id@)
                    &&& if id@ >= pager@.header.page_count {
                        e == Error::InvalidArgument("page id out of range")
                    } else {
                        &&& pager@.log is Some
                        &&& e is Io && !state::sure_to_read(pager@, id@) || state::seen(
                            self@,
                            pager@,
                            id@,
                        ) is None && e == Error::Corruption { page_id: id@ }
                    }
                },
            },
    {
        match self.snapshot.read_page(pager, id) {
            Ok(p) => Ok(p.into_page()),
            Err(e) => Err(e),
        }
    }

    /// The snapshot.
    pub fn snapshot(&self) -> (r: &ReaderSnapshot<F>)
        ensures
            r@ == self@,
    {
        &self.snapshot
    }

    /// End the transaction: `pager` need no longer hold on to anything for it.
    pub fn end(self, pager: &mut Pager<F>)
        requires
            old(pager).wf(),
        ensures
            final(pager).wf(),
            final(pager)@ == (PagerView {
                pins: old(pager)@.pins.remove(self@.id),
                ..old(pager)@
            }),
    {
        pager.release_snapshot(self.snapshot);
    }
}

/// A transaction that begins adds one to those that are open, and ending it takes
/// one off again; nothing else of the pager changes.
pub proof fn law_beginning_and_ending(v: PagerView)
    requires
        v.log is Some,
        v.log->0.depth < u32::MAX,
    ensures
        begun(v).log->0.depth == v.log->0.depth + 1,
        ended(begun(v)) == v,
        v.log->0.depth > 0 ==> ended(v).log->0.depth == v.log->0.depth - 1,
        v.log->0.depth == 0 ==> ended(v) == v,
        begun(v) == (PagerView { log: begun(v).log, ..v }),
        begun(v).log->0 == (LogState { depth: begun(v).log->0.depth, ..v.log->0 }),
        ended(v) == (PagerView { log: ended(v).log, ..v }),
        ended(v).log->0 == (LogState { depth: ended(v).log->0.depth, ..v.log->0 }),
{
}

/// Giving a transaction up drops every page that it wrote and forgets that it
/// changed the header; what is committed is not touched, nor is the log.
pub proof fn law_giving_up_drops_everything(
    v: PagerView,
    s: HeaderState,
    failed: bool,
    w: PagerView,
)
    requires
        v.log is Some,
        given_up(v, s, failed, w),
    ensures
        w.log is Some,
        forall|id: u64| !#[trigger] w.log->0.pending.contains_key(id),
        !w.log->0.header_dirty,
        !state::has_changes(w.log->0),
        w.log->0.view == s.view,
        w.log->0.wal == v.log->0.wal,
        w.log->0.committed == v.log->0.committed,
        w.log->0.view_header == v.log->0.view_header,
        w.header.page_count == s.page_count,
        w.header.root_catalog == s.root_catalog,
        w.header.freelist_head == s.freelist_head,
        w.pins == v.pins,
        w.next_snapshot == v.next_snapshot,
{
    let t = state::put_back(state::dropped(v), s);
    let u = choose|u: PagerView|
        {
            &&& w == #[trigger] ended(u)
            &&& if failed {
                &&& v.log is Some
                &&& !file::within(v.main_limit, PAGE_SIZE as int)
                &&& u == (PagerView { main: u.main, ..t })
                &&& state::only_slot_differs(v.main, u.main, 0)
            } else {
                state::header_written(t, u)
            }
        };
}

/// What is noted when a transaction begins: the three counts of the header, and
/// the pages of the log.
pub proof fn law_what_is_noted(v: PagerView)
    ensures
        state::header_state(v).page_count == v.header.page_count,
        state::header_state(v).root_catalog == v.header.root_catalog,
        state::header_state(v).freelist_head == v.header.freelist_head,
        v.log is Some ==> state::header_state(v).view == v.log->0.view,
        v.log is None ==> forall|id: u64| !#[trigger] state::header_state(v).view.contains_key(id),
{
}

/// A writer waits five seconds where a caller does not say, and is granted 64
/// tries beyond one per millisecond.
pub proof fn law_default_waits()
    ensures
        DEFAULT_BUSY_TIMEOUT == 5 * 1000,
        GATE_SPARE_TRIES == 64,
{
}

} // verus!
