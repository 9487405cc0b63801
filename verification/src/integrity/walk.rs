//! The walk over a tree.

use crate::btree;
use crate::btree::{DecodedNode, Node, NodeKind, MAX_BTREE_DEPTH, MAX_RANGE_NODES};
use crate::bytes::bytes_lt;
use crate::error::Error;
use crate::integrity::report;
use crate::integrity::report::{record, Fault, IntegrityFailure};
use crate::pager::checksum;
use crate::pager::checksum::page_trailer_valid;
use crate::pager::page::{Page, PageId};
use crate::pager::state;
use crate::pager::state::PagerView;
use crate::pager::store::Pager;
use crate::platform::file::FileBackend;
use std::collections::HashSet;
use vstd::prelude::*;

verus! {

broadcast use {
    vstd::std_specs::hash::group_hash_axioms,
    crate::pager::page::lemma_page_len,
};

/// A tree to walk.
#[derive(Debug, Clone)]
pub struct TreeContext {
    /// Label of the tree, such as `catalog` or `primary:users`.
    pub label: String,
    /// Root page of the tree.
    pub root: PageId,
}

/// What a walk over one tree has gathered.
#[derive(Debug)]
pub struct WalkVisitState {
    /// Pages that the walk has been to.
    pub visited: HashSet<u64>,
    /// Pages that some root leads to.
    pub reachable: HashSet<u64>,
    /// Number of pages that the walk has been to.
    pub pages_walked: u64,
    /// Violations that were found.
    pub failures: Vec<IntegrityFailure>,
}

/// What to do with a page that a walk comes to.
#[derive(Debug, Clone, Copy, PartialEq, Eq, Structural)]
pub enum VisitStep {
    /// The walk has been there; skip it.
    Cycle,
    /// The walk has been to more pages than it may; stop.
    BudgetExceeded,
    /// Look at the page.
    Walked,
}

/// Mark page `pid` as visited, and count it.
pub fn record_btree_visit(pid: PageId, ctx: &TreeContext, visit: &mut WalkVisitState) -> (r:
    VisitStep)
    ensures
        r is Cycle <==> old(visit).visited@.contains(pid@),
        r is BudgetExceeded <==> !old(visit).visited@.contains(pid@) && old(visit).pages_walked + 1
            > MAX_RANGE_NODES,
        final(visit).visited@ == old(visit).visited@.insert(pid@),
        match r {
            VisitStep::Cycle => {
                &&& final(visit).reachable@ == old(visit).reachable@
                &&& final(visit).pages_walked == old(visit).pages_walked
                &&& report::faults(final(visit).failures@) == report::faults(
                    old(visit).failures@,
                ).push(Fault::Cycle(ctx.label@, pid@))
            },
            VisitStep::BudgetExceeded => {
                &&& final(visit).reachable@ == old(visit).reachable@.insert(pid@)
                &&& final(visit).pages_walked == if old(visit).pages_walked < u64::MAX {
                    old(visit).pages_walked + 1
                } else {
                    u64::MAX as int
                }
                &&& report::faults(final(visit).failures@) == report::faults(
                    old(visit).failures@,
                ).push(Fault::TooLarge(ctx.label@, MAX_RANGE_NODES))
            },
            VisitStep::Walked => {
                &&& final(visit).reachable@ == old(visit).reachable@.insert(pid@)
                &&& final(visit).pages_walked == old(visit).pages_walked + 1
                &&& final(visit).failures == old(visit).failures
            },
        },
{
    let raw: u64 = pid.get();
    if !visit.visited.insert(raw) {
        proof {
            assert(visit.visited@ =~= old(visit).visited@.insert(pid@));
        }
        record(
            &mut visit.failures,
            IntegrityFailure::BTreeSiblingChainBroken { tree: ctx.label.clone(), page_id: raw },
        );
        return VisitStep::Cycle;
    }
    visit.reachable.insert(raw);
    visit.pages_walked = visit.pages_walked.saturating_add(1);
    if visit.pages_walked > MAX_RANGE_NODES as u64 {
        record(
            &mut visit.failures,
            IntegrityFailure::BTreeDepthExceeded {
                tree: ctx.label.clone(),
                limit: MAX_RANGE_NODES,
            },
        );
        return VisitStep::BudgetExceeded;
    }
    VisitStep::Walked
}

/// Report a node whose keys do not go up.
pub fn verify_sort_invariant(
    pid: PageId,
    decoded: &DecodedNode,
    failures: &mut Vec<IntegrityFailure>,
)
    ensures
        report::faults(final(failures)@) == report::faults(old(failures)@) + sort_faults(
            pid@,
            decoded@,
        ),
{
    let n: usize = decoded.key_count();
    let mut i: usize = 1;
    while i < n
        invariant
            n == decoded@.keys.len(),
            1 <= i,
            i <= n || n == 0,
            forall|a: int, b: int|
                0 <= a < b < i && b < n ==> crate::bytes::lex_lt(
                    #[trigger] decoded@.keys[a],
                    #[trigger] decoded@.keys[b],
                ),
            failures@ == old(failures)@,
        decreases n - i,
    {
        if !bytes_lt(decoded.key(i - 1), decoded.key(i)) {
            proof {
                assert(!btree::ascending(decoded@.keys));
                assert(report::faults(old(failures)@).push(Fault::Unsorted(pid@))
                    =~= report::faults(old(failures)@) + sort_faults(pid@, decoded@));
            }
            record(failures, IntegrityFailure::BTreeSortViolation { page_id: pid.get() });
            return ;
        }
        proof {
            assert forall|a: int, b: int| 0 <= a < b < i + 1 && b < n implies crate::bytes::lex_lt(
                #[trigger] decoded@.keys[a],
                #[trigger] decoded@.keys[b],
            ) by {
                if b == i && a < i - 1 {
                    crate::bytes::lemma_lex_trans(
                        decoded@.keys[a],
                        decoded@.keys[i - 1],
                        decoded@.keys[i as int],
                    );
                }
            }
        }
        i = i + 1;
    }
    proof {
        assert(btree::ascending(decoded@.keys));
        assert(report::faults(failures@) =~= report::faults(failures@) + sort_faults(
            pid@,
            decoded@,
        ));
    }
}

/// Report a node whose level does not fit its kind.
pub fn verify_level_invariant(
    pid: PageId,
    decoded: &DecodedNode,
    tree_label: &str,
    failures: &mut Vec<IntegrityFailure>,
)
    ensures
        report::faults(final(failures)@) == report::faults(old(failures)@) + level_faults(
            pid@,
            decoded@,
            tree_label@,
            None,
        ),
{
    let level_ok: bool = match decoded.kind {
        NodeKind::Leaf => decoded.level == 0,
        NodeKind::Internal => decoded.level > 0,
    };
    if !level_ok {
        record(
            failures,
            IntegrityFailure::BTreeLevelInvariantViolated {
                tree: tree_label.to_owned(),
                page_id: pid.get(),
            },
        );
    }
    proof {
        assert(report::faults(failures@) =~= report::faults(old(failures)@) + level_faults(
            pid@,
            decoded@,
            tree_label@,
            None,
        ));
    }
}

/// Report a node whose level does not fit its kind, or is not the one that its
/// parent asks for.
pub fn verify_levels(
    pid: PageId,
    decoded: &DecodedNode,
    tree_label: &str,
    expected: Option<u8>,
    failures: &mut Vec<IntegrityFailure>,
)
    ensures
        report::faults(final(failures)@) == report::faults(old(failures)@) + level_faults(
            pid@,
            decoded@,
            tree_label@,
            asked(expected),
        ),
{
    let fits: bool = match decoded.kind {
        NodeKind::Leaf => decoded.level == 0,
        NodeKind::Internal => decoded.level > 0,
    };
    let below_parent: bool = match expected {
        Some(l) => decoded.level == l,
        None => true,
    };
    if fits && !below_parent {
        record(
            failures,
            IntegrityFailure::BTreeLevelInvariantViolated {
                tree: tree_label.to_owned(),
                page_id: pid.get(),
            },
        );
        proof {
            assert(report::faults(failures@) =~= report::faults(old(failures)@) + level_faults(
                pid@,
                decoded@,
                tree_label@,
                Some(expected->0 as int),
            ));
        }
    } else {
        verify_level_invariant(pid, decoded, tree_label, failures);
    }
}

/// The level that a parent asks for.
pub open spec fn asked(level: Option<u8>) -> Option<int> {
    match level {
        Some(l) => Some(l as int),
        None => None,
    }
}

/// What a node gives away about the order of its keys.
pub open spec fn sort_faults(id: u64, n: Node) -> Seq<Fault> {
    if btree::ascending(n.keys) {
        seq![]
    } else {
        seq![Fault::Unsorted(id)]
    }
}

/// What a node gives away about its level, given the level that its parent
/// asks for.
pub open spec fn level_faults(id: u64, n: Node, tree: Seq<char>, expected: Option<int>) -> Seq<
    Fault,
> {
    if btree::level_fits(n) && (expected is Some ==> expected == Some(n.level)) {
        seq![]
    } else {
        seq![Fault::BadLevel(tree, id)]
    }
}

/// Why a walk ended ahead of its end.
pub enum End {
    /// A violation that leaves nothing to go on with.
    Stopped,
    /// A page that the file does not have.
    Beyond,
}

/// A page that a walk over a tree has yet to look at.
pub struct Queued {
    /// The page.
    pub id: u64,
    /// Distance from the root.
    pub depth: int,
    /// The level that its parent asks for.
    pub level: Option<int>,
}

/// How far a walk over a tree has come.
pub struct Walk {
    /// Pages yet to look at, in order.
    pub queue: Seq<Queued>,
    /// Pages that the walk has been to.
    pub visited: Set<u64>,
    /// Violations that were found.
    pub found: Seq<Fault>,
    /// Number of pages that the walk has been to.
    pub walked: int,
    /// Set where the walk ended early.
    pub end: Option<End>,
}

impl Walk {
    /// Nothing is left to do.
    pub open spec fn over(self) -> bool {
        self.end is Some || self.queue.len() == 0
    }

    /// The next step reads a page.
    pub open spec fn reads(self, page_count: u64) -> bool {
        &&& !self.over()
        &&& self.queue[0].depth <= MAX_BTREE_DEPTH
        &&& !self.visited.contains(self.queue[0].id)
        &&& self.walked + 1 <= MAX_RANGE_NODES
        &&& self.queue[0].id < page_count
    }
}

/// A walk that has not looked at anything yet.
pub open spec fn walk_from(root: u64) -> Walk {
    Walk {
        queue: seq![Queued { id: root, depth: 0, level: None }],
        visited: Set::empty(),
        found: seq![],
        walked: 0,
        end: None,
    }
}

/// The children of a node, as a walk takes them up. A zero stands for no
/// child.
pub open spec fn taken_up(children: Seq<u64>, depth: int, level: Option<int>) -> Seq<Queued>
    decreases children.len(),
{
    if children.len() == 0 {
        seq![]
    } else {
        let ahead = taken_up(children.drop_last(), depth, level);
        if children.last() == 0 {
            ahead
        } else {
            ahead.push(Queued { id: children.last(), depth, level })
        }
    }
}

/// What page `id` gives away: `page` is what a read found, `None` if that
/// failed its check, and `node` what it decodes to.
pub open spec fn page_faults(
    id: u64,
    page: Option<Seq<u8>>,
    node: Option<Node>,
    tree: Seq<char>,
    level: Option<int>,
) -> Seq<Fault> {
    match (page, node) {
        (Some(p), Some(n)) => if checksum::trailer_ok(p) {
            sort_faults(id, n) + level_faults(id, n, tree, level)
        } else {
            seq![Fault::Checksum(id)]
        },
        _ => seq![Fault::Checksum(id)],
    }
}

/// The children that page `id` leads to.
pub open spec fn page_children(page: Option<Seq<u8>>, node: Option<Node>, depth: int) -> Seq<
    Queued,
> {
    match (page, node) {
        (Some(p), Some(n)) => if checksum::trailer_ok(p) && !n.leaf {
            taken_up(n.children, depth + 1, btree::child_level(n))
        } else {
            seq![]
        },
        _ => seq![],
    }
}

/// The walk `w` after the next page in its queue, of a file of `page_count`
/// pages, given what that page reads and decodes as.
pub open spec fn walked_on(
    w: Walk,
    tree: Seq<char>,
    page_count: u64,
    page: Option<Seq<u8>>,
    node: Option<Node>,
) -> Walk {
    let at = w.queue[0];
    let rest = w.queue.skip(1);
    let marked = Walk { queue: rest, visited: w.visited.insert(at.id), walked: w.walked + 1, ..w };
    if at.depth > MAX_BTREE_DEPTH {
        Walk {
            queue: rest,
            found: w.found.push(Fault::TooLarge(tree, MAX_BTREE_DEPTH)),
            end: Some(End::Stopped),
            ..w
        }
    } else if w.visited.contains(at.id) {
        Walk { queue: rest, found: w.found.push(Fault::Cycle(tree, at.id)), ..w }
    } else if w.walked + 1 > MAX_RANGE_NODES {
        Walk {
            found: w.found.push(Fault::TooLarge(tree, MAX_RANGE_NODES)),
            end: Some(End::Stopped),
            ..marked
        }
    } else if at.id >= page_count {
        Walk { end: Some(End::Beyond), ..marked }
    } else {
        Walk {
            queue: rest + page_children(page, node, at.depth),
            found: w.found + page_faults(at.id, page, node, tree, at.level),
            ..marked
        }
    }
}

/// A read of page `id` in state `v` may find `page`; `None` stands for a page
/// that failed its check. The trailer of a page of a memory-backed pager is
/// written when the page leaves the cache, and is open until then.
pub open spec fn may_read(v: PagerView, id: u64, page: Option<Seq<u8>>) -> bool {
    match (v.log, page) {
        (Some(_), _) => v.page_at(id) == page,
        (None, Some(p)) => v.body_at(id) == Some(checksum::body_of(p)),
        (None, None) => false,
    }
}

/// The decoder may make `node` of a page; `None` stands for a refusal.
pub open spec fn may_decode<D: Fn(&Page) -> Result<DecodedNode, Error>>(
    decode: D,
    page: Seq<u8>,
    node: Option<Node>,
) -> bool {
    exists|p: &Page, r: Result<DecodedNode, Error>| #[trigger]
        call_ensures(decode, (p,), r) && p@ == page && node == match r {
            Ok(n) => Some(n@),
            Err(_) => None,
        }
}

/// What a page reads and decodes as, if it is looked at.
pub open spec fn may_look<D: Fn(&Page) -> Result<DecodedNode, Error>>(
    v: PagerView,
    decode: D,
    id: u64,
    page: Option<Seq<u8>>,
    node: Option<Node>,
) -> bool {
    &&& may_read(v, id, page)
    &&& page is Some && checksum::trailer_ok(page->0) ==> may_decode(decode, page->0, node)
}

/// The walk `w` may go on to `x`.
pub open spec fn may_walk_on<D: Fn(&Page) -> Result<DecodedNode, Error>>(
    v: PagerView,
    tree: Seq<char>,
    decode: D,
    w: Walk,
    x: Walk,
) -> bool {
    &&& !w.over()
    &&& exists|page: Option<Seq<u8>>, node: Option<Node>|
        {
            &&& w.reads(v.header.page_count) ==> may_look(v, decode, w.queue[0].id, page, node)
            &&& x == #[trigger] walked_on(w, tree, v.header.page_count, page, node)
        }
}

/// Step `i` of a walk over a tree.
pub open spec fn walk_step<D: Fn(&Page) -> Result<DecodedNode, Error>>(
    v: PagerView,
    tree: Seq<char>,
    decode: D,
    run: Seq<Walk>,
    i: int,
) -> bool {
    may_walk_on(v, tree, decode, run[i], run[i + 1])
}

/// `run` is a walk over the tree at `root`, from its first step on.
pub open spec fn is_walk<D: Fn(&Page) -> Result<DecodedNode, Error>>(
    v: PagerView,
    tree: Seq<char>,
    root: u64,
    decode: D,
    run: Seq<Walk>,
) -> bool {
    &&& run.len() > 0
    &&& run[0] == walk_from(root)
    &&& forall|i: int| 0 <= i < run.len() - 1 ==> #[trigger] walk_step(v, tree, decode, run, i)
}

/// Reading pages that are there changes nothing that a walk can see.
pub proof fn lemma_settled(v: PagerView, w: PagerView, x: PagerView)
    requires
        v.settled(w),
        w.settled(x),
    ensures
        v.settled(x),
{
    assert forall|id: u64| 1 <= id < v.header.page_count implies #[trigger] x.body_at(id)
        == v.body_at(id) by {
        assert(w.body_at(id) == v.body_at(id));
    }
}

/// What a walk may find after some reading, it could have found before.
proof fn lemma_may_look<D: Fn(&Page) -> Result<DecodedNode, Error>>(
    v: PagerView,
    w: PagerView,
    decode: D,
    id: u64,
    page: Option<Seq<u8>>,
    node: Option<Node>,
)
    requires
        v.settled(w),
        1 <= id < v.header.page_count,
        may_look(w, decode, id, page, node),
    ensures
        may_look(v, decode, id, page, node),
{
    lemma_may_read(v, w, id, page);
}

/// What a read may find after some reading, it could have found before.
pub proof fn lemma_may_read(v: PagerView, w: PagerView, id: u64, page: Option<Seq<u8>>)
    requires
        v.settled(w),
        1 <= id < v.header.page_count,
        may_read(w, id, page),
    ensures
        may_read(v, id, page),
{
    assert(w.body_at(id) == v.body_at(id));
}

/// Read page `pid` and look at the node in it. `None` if there is nothing to
/// go on with.
fn read_and_validate_node<F: FileBackend, D: Fn(&Page) -> Result<DecodedNode, Error>>(
    pager: &mut Pager<F>,
    pid: PageId,
    tree_label: &str,
    expected: Option<u8>,
    decode: &D,
    failures: &mut Vec<IntegrityFailure>,
) -> (r: Result<Option<DecodedNode>, Error>)
    requires
        old(pager).wf(),
        forall|p: &Page| #[trigger] call_requires(*decode, (p,)),
    ensures
        final(pager).wf(),
        old(pager)@.settled(final(pager)@),
        match r {
            Ok(n) => {
                &&& pid@ < old(pager)@.header.page_count
                &&& exists|page: Option<Seq<u8>>, node: Option<Node>|
                    {
                        &&& may_look(old(pager)@, *decode, pid@, page, node)
                        &&& n is Some <==> page is Some && checksum::trailer_ok(page->0) && node
                            is Some
                        &&& n matches Some(d) ==> node == Some(d@)
                        &&& report::faults(final(failures)@) == report::faults(old(failures)@)
                            + #[trigger] page_faults(
                            pid@,
                            page,
                            node,
                            tree_label@,
                            asked(expected),
                        )
                    }
            },
            Err(e) => {
                &&& final(failures)@ == old(failures)@
                &&& if pid@ >= old(pager)@.header.page_count {
                    e == Error::InvalidArgument("page id out of range")
                } else {
                    old(pager)@.log is Some && e is Io && !state::sure_to_read(old(pager)@, pid@)
                }
            },
        },
{
    let ghost v = pager@;
    let ghost before = report::faults(failures@);
    let ghost level = asked(expected);
    let page: Page = match pager.read_page(pid) {
        Ok(p) => p.to_owned_page(),
        Err(Error::Corruption { page_id }) => {
            record(failures, IntegrityFailure::ChecksumMismatch { page_id });
            proof {
                let found: Option<Seq<u8>> = None;
                let node: Option<Node> = None;
                assert(before.push(Fault::Checksum(pid@)) =~= before + page_faults(
                    pid@,
                    found,
                    node,
                    tree_label@,
                    level,
                ));
            }
            return Ok(None);
        },
        Err(e) => return Err(e),
    };
    let ghost found = Some(page@);
    proof {
        assert(may_read(v, pid@, found));
    }
    if !page_trailer_valid(&page) {
        record(failures, IntegrityFailure::ChecksumMismatch { page_id: pid.get() });
        proof {
            let node: Option<Node> = None;
            assert(before.push(Fault::Checksum(pid@)) =~= before + page_faults(
                pid@,
                found,
                node,
                tree_label@,
                level,
            ));
        }
        return Ok(None);
    }
    match decode(&page) {
        Ok(decoded) => {
            proof {
                assert(may_decode(*decode, page@, Some(decoded@)));
            }
            verify_sort_invariant(pid, &decoded, failures);
            verify_levels(pid, &decoded, tree_label, expected, failures);
            proof {
                assert(report::faults(failures@) =~= before + page_faults(
                    pid@,
                    found,
                    Some(decoded@),
                    tree_label@,
                    level,
                ));
            }
            Ok(Some(decoded))
        },
        Err(e) => {
            record(failures, IntegrityFailure::ChecksumMismatch { page_id: pid.get() });
            proof {
                let node: Option<Node> = None;
                assert(may_decode(*decode, page@, node));
                assert(before.push(Fault::Checksum(pid@)) =~= before + page_faults(
                    pid@,
                    found,
                    node,
                    tree_label@,
                    level,
                ));
            }
            Ok(None)
        },
    }
}

/// A page that a walk over a tree has yet to look at.
struct QueuedNode {
    id: PageId,
    depth: u32,
    level: Option<u8>,
}

impl QueuedNode {
    spec fn view(&self) -> Queued {
        Queued { id: self.id@, depth: self.depth as int, level: asked(self.level) }
    }
}

/// The pages in a queue.
spec fn queued(s: Seq<QueuedNode>) -> Seq<Queued> {
    Seq::new(s.len(), |i: int| s[i]@)
}

/// Append the children of a node to a queue.
fn take_up(queue: &mut Vec<QueuedNode>, children: &Vec<u64>, depth: u32, level: Option<u8>)
    ensures
        queued(final(queue)@) == queued(old(queue)@) + taken_up(
            children@,
            depth as int,
            asked(level),
        ),
{
    let ghost before = queued(queue@);
    let mut i: usize = 0;
    proof {
        assert(children@.take(0) =~= Seq::<u64>::empty());
        assert(before + taken_up(children@.take(0), depth as int, asked(level)) =~= before);
    }
    while i < children.len()
        invariant
            i <= children.len(),
            queued(queue@) == before + taken_up(
                children@.take(i as int),
                depth as int,
                asked(level),
            ),
        decreases children.len() - i,
    {
        let ghost held = queued(queue@);
        proof {
            assert(children@.take(i + 1).drop_last() =~= children@.take(i as int));
        }
        if let Some(id) = PageId::new(children[i]) {
            queue.push(QueuedNode { id, depth, level });
            proof {
                assert(queued(queue@) =~= held.push(
                    Queued { id: id@, depth: depth as int, level: asked(level) },
                ));
            }
        }
        proof {
            assert(queued(queue@) =~= before + taken_up(
                children@.take(i + 1),
                depth as int,
                asked(level),
            ));
        }
        i = i + 1;
    }
    proof {
        assert(children@.take(children.len() as int) =~= children@);
    }
}

/// Look at the page at the head of a queue, and append its children to the
/// queue.
fn look_at<F: FileBackend, D: Fn(&Page) -> Result<DecodedNode, Error>>(
    pager: &mut Pager<F>,
    ctx: &TreeContext,
    decode: &D,
    at: QueuedNode,
    queue: &mut Vec<QueuedNode>,
    failures: &mut Vec<IntegrityFailure>,
) -> (r: Result<(), Error>)
    requires
        old(pager).wf(),
        at.depth <= MAX_BTREE_DEPTH,
        forall|p: &Page| #[trigger] call_requires(*decode, (p,)),
    ensures
        final(pager).wf(),
        old(pager)@.settled(final(pager)@),
        at.id@ != 0,
        match r {
            Ok(_) => {
                &&& at.id@ < old(pager)@.header.page_count
                &&& exists|page: Option<Seq<u8>>, node: Option<Node>|
                    {
                        &&& #[trigger] may_look(old(pager)@, *decode, at.id@, page, node)
                        &&& queued(final(queue)@) == queued(old(queue)@) + page_children(
                            page,
                            node,
                            at.depth as int,
                        )
                        &&& report::faults(final(failures)@) == report::faults(old(failures)@)
                            + page_faults(at.id@, page, node, ctx.label@, asked(at.level))
                    }
            },
            Err(e) => {
                &&& final(failures)@ == old(failures)@
                &&& final(queue)@ == old(queue)@
                &&& if at.id@ >= old(pager)@.header.page_count {
                    e == Error::InvalidArgument("page id out of range")
                } else {
                    old(pager)@.log is Some && e is Io && !state::sure_to_read(
                        old(pager)@,
                        at.id@,
                    )
                }
            },
        },
{
    let ghost v = pager@;
    let ghost before = queued(queue@);
    let ghost faults_before = report::faults(failures@);
    let raw: u64 = at.id.get();
    let decoded: Option<DecodedNode> = match read_and_validate_node(
        pager,
        at.id,
        ctx.label.as_str(),
        at.level,
        decode,
        failures,
    ) {
        Ok(d) => d,
        Err(e) => return Err(e),
    };
    let ghost (page, node) = choose|page: Option<Seq<u8>>, node: Option<Node>|
        {
            &&& may_look(v, *decode, at.id@, page, node)
            &&& decoded is Some <==> page is Some && checksum::trailer_ok(page->0) && node is Some
            &&& decoded matches Some(d) ==> node == Some(d@)
            &&& report::faults(failures@) == faults_before + #[trigger] page_faults(
                at.id@,
                page,
                node,
                ctx.label@,
                asked(at.level),
            )
        };
    proof {
        assert(before + Seq::<Queued>::empty() =~= before);
    }
    if let Some(d) = &decoded {
        if matches!(d.kind, NodeKind::Internal) {
            let below: Option<u8> = if d.level > 0 {
                Some((d.level - 1) as u8)
            } else {
                None
            };
            take_up(queue, &d.children, at.depth + 1, below);
            proof {
                assert(asked(below) == btree::child_level(d@));
            }
        }
    }
    proof {
        assert(queued(queue@) == before + page_children(page, node, at.depth as int));
        assert(may_look(v, *decode, at.id@, page, node));
    }
    Ok(())
}

/// A walk that ended with `r` after the steps `run`, with what it did to the
/// reachable pages and to the violations.
pub open spec fn walk_ended<D: Fn(&Page) -> Result<DecodedNode, Error>>(
    v: PagerView,
    tree: Seq<char>,
    root: u64,
    decode: D,
    run: Seq<Walk>,
    r: Result<u64, Error>,
    reachable: (Set<u64>, Set<u64>),
    faults: (Seq<Fault>, Seq<Fault>),
) -> bool {
    let w = run.last();
    let reached = reachable.0.union(w.visited);
    &&& is_walk(v, tree, root, decode, run)
    &&& faults.1 == faults.0 + w.found
    &&& match r {
        Ok(n) => {
            &&& w.over()
            &&& w.end != Some(End::Beyond)
            &&& n == w.walked
            &&& reachable.1 == reached
        },
        Err(e) => if w.end == Some(End::Beyond) {
            e == Error::InvalidArgument("page id out of range") && reachable.1 == reached
        } else {
            &&& !w.over()
            &&& v.log is Some && e is Io && !state::sure_to_read(v, w.queue[0].id)
            &&& reachable.1 == reached.insert(w.queue[0].id)
        },
    }
}

/// One more step of a walk.
proof fn lemma_walk_push<D: Fn(&Page) -> Result<DecodedNode, Error>>(
    v: PagerView,
    tree: Seq<char>,
    root: u64,
    decode: D,
    run: Seq<Walk>,
    page: Option<Seq<u8>>,
    node: Option<Node>,
)
    requires
        is_walk(v, tree, root, decode, run),
        !run.last().over(),
        run.last().reads(v.header.page_count) ==> may_look(
            v,
            decode,
            run.last().queue[0].id,
            page,
            node,
        ),
    ensures
        is_walk(
            v,
            tree,
            root,
            decode,
            run.push(walked_on(run.last(), tree, v.header.page_count, page, node)),
        ),
{
    let x = walked_on(run.last(), tree, v.header.page_count, page, node);
    let longer = run.push(x);
    assert(may_walk_on(v, tree, decode, run.last(), x));
    assert forall|i: int| 0 <= i < longer.len() - 1 implies #[trigger] walk_step(
        v,
        tree,
        decode,
        longer,
        i,
    ) by {
        if i < run.len() - 1 {
            assert(walk_step(v, tree, decode, run, i));
        }
    }
}

/// Walk a tree, gathering into `visit`.
fn walk_nodes<F: FileBackend, D: Fn(&Page) -> Result<DecodedNode, Error>>(
    pager: &mut Pager<F>,
    ctx: &TreeContext,
    decode: &D,
    visit: &mut WalkVisitState,
) -> (r: Result<u64, Error>)
    requires
        old(pager).wf(),
        forall|p: &Page| #[trigger] call_requires(*decode, (p,)),
        old(visit).visited@ == Set::<u64>::empty(),
        old(visit).pages_walked == 0,
    ensures
        final(pager).wf(),
        old(pager)@.settled(final(pager)@),
        r matches Ok(n) ==> n <= MAX_RANGE_NODES + 1,
        exists|run: Seq<Walk>| #[trigger]
            walk_ended(
                old(pager)@,
                ctx.label@,
                ctx.root@,
                *decode,
                run,
                r,
                (old(visit).reachable@, final(visit).reachable@),
                (report::faults(old(visit).failures@), report::faults(final(visit).failures@)),
            ),
{
    let ghost v = pager@;
    let ghost tree = ctx.label@;
    let ghost reach0 = visit.reachable@;
    let ghost faults0 = report::faults(visit.failures@);
    let mut queue: Vec<QueuedNode> = Vec::new();
    queue.push(QueuedNode { id: ctx.root, depth: 0, level: None });
    let mut head: usize = 0;
    let ghost mut run: Seq<Walk> = seq![walk_from(ctx.root@)];
    proof {
        assert(queued(queue@).skip(0) =~= walk_from(ctx.root@).queue);
        assert(reach0.union(Set::<u64>::empty()) =~= reach0);
        assert(faults0 + Seq::<Fault>::empty() =~= faults0);
    }
    while head < queue.len()
        invariant
            head <= queue.len(),
            pager.wf(),
            v.settled(pager@),
            tree == ctx.label@,
            forall|p: &Page| #[trigger] call_requires(*decode, (p,)),
            is_walk(v, tree, ctx.root@, *decode, run),
            run.last().end is None,
            run.last().queue == queued(queue@).skip(head as int),
            run.last().visited == visit.visited@,
            run.last().walked == visit.pages_walked,
            visit.pages_walked <= MAX_RANGE_NODES,
            visit.reachable@ == reach0.union(run.last().visited),
            report::faults(visit.failures@) == faults0 + run.last().found,
            v == old(pager)@,
            reach0 == old(visit).reachable@,
            faults0 == report::faults(old(visit).failures@),
        decreases MAX_RANGE_NODES - visit.pages_walked, queue.len() - head,
    {
        let ghost w = run.last();
        let ghost unread: (Option<Seq<u8>>, Option<Node>) = (None, None);
        let id: PageId = queue[head].id;
        let depth: u32 = queue[head].depth;
        let level: Option<u8> = queue[head].level;
        head = head + 1;
        proof {
            assert(w.queue[0] == queue@[head - 1]@);
            assert(w.queue.skip(1) =~= queued(queue@).skip(head as int));
        }
        if depth as usize > MAX_BTREE_DEPTH {
            record(
                &mut visit.failures,
                IntegrityFailure::BTreeDepthExceeded {
                    tree: ctx.label.clone(),
                    limit: MAX_BTREE_DEPTH,
                },
            );
            proof {
                lemma_walk_push(v, tree, ctx.root@, *decode, run, unread.0, unread.1);
                run = run.push(walked_on(w, tree, v.header.page_count, unread.0, unread.1));
                assert(report::faults(visit.failures@) =~= faults0 + run.last().found);
                assert(walk_ended(
                    v,
                    ctx.label@,
                    ctx.root@,
                    *decode,
                    run,
                    Ok(visit.pages_walked),
                    (reach0, visit.reachable@),
                    (faults0, report::faults(visit.failures@)),
                ));
            }
            return Ok(visit.pages_walked);
        }
        match record_btree_visit(id, ctx, visit) {
            VisitStep::Cycle => {
                proof {
                    lemma_walk_push(v, tree, ctx.root@, *decode, run, unread.0, unread.1);
                    run = run.push(walked_on(w, tree, v.header.page_count, unread.0, unread.1));
                    assert(w.visited.insert(id@) =~= w.visited);
                    assert(report::faults(visit.failures@) =~= faults0 + run.last().found);
                }
                continue ;
            },
            VisitStep::BudgetExceeded => {
                proof {
                    lemma_walk_push(v, tree, ctx.root@, *decode, run, unread.0, unread.1);
                    run = run.push(walked_on(w, tree, v.header.page_count, unread.0, unread.1));
                    assert(report::faults(visit.failures@) =~= faults0 + run.last().found);
                    assert(visit.reachable@ =~= reach0.union(run.last().visited));
                    assert(walk_ended(
                        v,
                        ctx.label@,
                        ctx.root@,
                        *decode,
                        run,
                        Ok(visit.pages_walked),
                        (reach0, visit.reachable@),
                        (faults0, report::faults(visit.failures@)),
                    ));
                }
                return Ok(visit.pages_walked);
            },
            VisitStep::Walked => {},
        }
        let ghost pager_was = pager@;
        let ghost faults_were = report::faults(visit.failures@);
        let ghost queue_was = queued(queue@);
        proof {
            assert(visit.reachable@ =~= reach0.union(w.visited.insert(id@)));
            assert(visit.reachable@ =~= reach0.union(w.visited).insert(id@));
        }
        match look_at(
            pager,
            ctx,
            decode,
            QueuedNode { id, depth, level },
            &mut queue,
            &mut visit.failures,
        ) {
            Ok(_) => {},
            Err(e) => {
                proof {
                    lemma_settled(v, pager_was, pager@);
                    if id@ >= v.header.page_count {
                        lemma_walk_push(v, tree, ctx.root@, *decode, run, unread.0, unread.1);
                        run = run.push(walked_on(w, tree, v.header.page_count, unread.0, unread.1));
                    }
                    assert(walk_ended(
                        v,
                        ctx.label@,
                        ctx.root@,
                        *decode,
                        run,
                        Err(e),
                        (reach0, visit.reachable@),
                        (faults0, report::faults(visit.failures@)),
                    ));
                }
                return Err(e);
            },
        }
        let ghost (page, node) = choose|page: Option<Seq<u8>>, node: Option<Node>|
            {
                &&& #[trigger] may_look(pager_was, *decode, id@, page, node)
                &&& queued(queue@) == queue_was + page_children(page, node, depth as int)
                &&& report::faults(visit.failures@) == faults_were + page_faults(
                    id@,
                    page,
                    node,
                    tree,
                    asked(level),
                )
            };
        proof {
            lemma_settled(v, pager_was, pager@);
            lemma_may_look(v, pager_was, *decode, id@, page, node);
            lemma_walk_push(v, tree, ctx.root@, *decode, run, page, node);
            run = run.push(walked_on(w, tree, v.header.page_count, page, node));
            assert(report::faults(visit.failures@) =~= faults0 + run.last().found);
            assert(queued(queue@).skip(head as int) =~= queue_was.skip(head as int)
                + page_children(page, node, depth as int));
        }
    }
    proof {
        assert(walk_ended(
            v,
            ctx.label@,
            ctx.root@,
            *decode,
            run,
            Ok(visit.pages_walked),
            (reach0, visit.reachable@),
            (faults0, report::faults(visit.failures@)),
        ));
    }
    Ok(visit.pages_walked)
}

/// Walk the tree at `ctx.root`, level by level, and append what is found to be
/// wrong to `failures`. Every page of the tree goes to `reachable`. The result
/// is the number of pages that the walk has been to.
pub fn walk_btree<F: FileBackend, D: Fn(&Page) -> Result<DecodedNode, Error>>(
    pager: &mut Pager<F>,
    ctx: &TreeContext,
    decode: &D,
    reachable: &mut HashSet<u64>,
    failures: &mut Vec<IntegrityFailure>,
) -> (r: Result<u64, Error>)
    requires
        old(pager).wf(),
        forall|p: &Page| #[trigger] call_requires(*decode, (p,)),
    ensures
        final(pager).wf(),
        old(pager)@.settled(final(pager)@),
        r matches Ok(n) ==> n <= MAX_RANGE_NODES + 1,
        exists|run: Seq<Walk>| #[trigger]
            walk_ended(
                old(pager)@,
                ctx.label@,
                ctx.root@,
                *decode,
                run,
                r,
                (old(reachable)@, final(reachable)@),
                (report::faults(old(failures)@), report::faults(final(failures)@)),
            ),
{
    let mut visit = WalkVisitState {
        visited: HashSet::new(),
        reachable: HashSet::new(),
        pages_walked: 0,
        failures: Vec::new(),
    };
    std::mem::swap(&mut visit.reachable, reachable);
    std::mem::swap(&mut visit.failures, failures);
    let r = walk_nodes(pager, ctx, decode, &mut visit);
    std::mem::swap(&mut visit.reachable, reachable);
    std::mem::swap(&mut visit.failures, failures);
    r
}

/// A tree of a file-backed pager, and a decoder that makes one thing of one
/// page, give a walk that runs to its end only one result.
pub proof fn law_walk_is_determined<D: Fn(&Page) -> Result<DecodedNode, Error>>(
    v: PagerView,
    tree: Seq<char>,
    root: u64,
    decode: D,
    a: Seq<Walk>,
    b: Seq<Walk>,
)
    requires
        v.log is Some,
        forall|p: Seq<u8>, m: Option<Node>, n: Option<Node>| #[trigger]
            may_decode(decode, p, m) && #[trigger] may_decode(decode, p, n) ==> m == n,
        is_walk(v, tree, root, decode, a),
        is_walk(v, tree, root, decode, b),
        a.last().over(),
        b.last().over(),
    ensures
        a.last() == b.last(),
{
    let n = if a.len() <= b.len() {
        a.len()
    } else {
        b.len()
    };
    lemma_same_steps(v, tree, root, decode, a, b, n - 1);
    if a.len() < b.len() {
        assert(walk_step(v, tree, decode, b, n - 1));
    } else if b.len() < a.len() {
        assert(walk_step(v, tree, decode, a, n - 1));
    }
}

proof fn lemma_same_steps<D: Fn(&Page) -> Result<DecodedNode, Error>>(
    v: PagerView,
    tree: Seq<char>,
    root: u64,
    decode: D,
    a: Seq<Walk>,
    b: Seq<Walk>,
    k: int,
)
    requires
        v.log is Some,
        forall|p: Seq<u8>, m: Option<Node>, n: Option<Node>| #[trigger]
            may_decode(decode, p, m) && #[trigger] may_decode(decode, p, n) ==> m == n,
        is_walk(v, tree, root, decode, a),
        is_walk(v, tree, root, decode, b),
        0 <= k < a.len(),
        k < b.len(),
    ensures
        a[k] == b[k],
    decreases k,
{
    if k > 0 {
        lemma_same_steps(v, tree, root, decode, a, b, k - 1);
        assert(walk_step(v, tree, decode, a, k - 1));
        assert(walk_step(v, tree, decode, b, k - 1));
        let w = a[k - 1];
        let pc = v.header.page_count;
        let (p, m) = choose|p: Option<Seq<u8>>, m: Option<Node>|
            {
                &&& w.reads(pc) ==> may_look(v, decode, w.queue[0].id, p, m)
                &&& a[k] == #[trigger] walked_on(w, tree, pc, p, m)
            };
        let (q, n) = choose|q: Option<Seq<u8>>, n: Option<Node>|
            {
                &&& w.reads(pc) ==> may_look(v, decode, w.queue[0].id, q, n)
                &&& b[k] == #[trigger] walked_on(w, tree, pc, q, n)
            };
        if w.reads(pc) {
            assert(p == q);
        }
    }
}

/// Page `id` is a node in order: it reads, its checksum fits, it decodes, its
/// keys go up, and its level fits its kind. `node` is what it decodes to.
pub open spec fn in_order<D: Fn(&Page) -> Result<DecodedNode, Error>>(
    v: PagerView,
    decode: D,
    id: u64,
    node: Node,
) -> bool {
    exists|page: Seq<u8>|
        {
            &&& #[trigger] may_look(v, decode, id, Some(page), Some(node))
            &&& checksum::trailer_ok(page)
            &&& btree::ascending(node.keys)
            &&& btree::level_fits(node)
        }
}

/// A walk has been to page `id`, or will go there.
pub open spec fn heads_for(w: Walk, id: u64) -> bool {
    w.visited.contains(id) || exists|k: int|
        0 <= k < w.queue.len() && #[trigger] w.queue[k].id == id
}

/// A walk that runs to its end without a finding has been to the root and to
/// every child of every node that it has been to, and each of them is in
/// order.
pub proof fn law_clean_walk_covers_the_tree<D: Fn(&Page) -> Result<DecodedNode, Error>>(
    v: PagerView,
    tree: Seq<char>,
    root: u64,
    decode: D,
    run: Seq<Walk>,
)
    requires
        is_walk(v, tree, root, decode, run),
        run.last().queue.len() == 0,
        run.last().end is None,
        run.last().found.len() == 0,
    ensures
        run.last().visited.contains(root),
        forall|id: u64| #[trigger]
            run.last().visited.contains(id) ==> exists|node: Node|
                {
                    &&& #[trigger] in_order(v, decode, id, node)
                    &&& !node.leaf ==> forall|i: int|
                        0 <= i < node.children.len() && #[trigger] node.children[i] != 0
                            ==> run.last().visited.contains(node.children[i])
                },
{
    lemma_clean_so_far(v, tree, root, decode, run, run.len() - 1);
    let w = run.last();
    assert(heads_for(w, root));
    assert forall|id: u64| #[trigger] w.visited.contains(id) implies exists|node: Node|
        {
            &&& #[trigger] in_order(v, decode, id, node)
            &&& !node.leaf ==> forall|i: int|
                0 <= i < node.children.len() && #[trigger] node.children[i] != 0
                    ==> w.visited.contains(node.children[i])
        } by {
        let node = choose|node: Node| #[trigger] covered(v, decode, w, id, node);
        assert(in_order(v, decode, id, node));
        assert forall|i: int|
            !node.leaf && 0 <= i < node.children.len() && #[trigger] node.children[i]
                != 0 implies w.visited.contains(node.children[i]) by {
            assert(heads_for(w, node.children[i]));
        }
    }
}

/// Page `id` is in order, and the walk has been or will go to its children.
spec fn covered<D: Fn(&Page) -> Result<DecodedNode, Error>>(
    v: PagerView,
    decode: D,
    w: Walk,
    id: u64,
    node: Node,
) -> bool {
    &&& in_order(v, decode, id, node)
    &&& !node.leaf ==> forall|i: int|
        0 <= i < node.children.len() && #[trigger] node.children[i] != 0 ==> heads_for(
            w,
            node.children[i],
        )
}

proof fn lemma_taken_up(children: Seq<u64>, depth: int, level: Option<int>, i: int)
    requires
        0 <= i < children.len(),
        children[i] != 0,
    ensures
        exists|k: int|
            0 <= k < taken_up(children, depth, level).len() && #[trigger] taken_up(
                children,
                depth,
                level,
            )[k].id == children[i],
    decreases children.len(),
{
    let all = taken_up(children, depth, level);
    let ahead = taken_up(children.drop_last(), depth, level);
    if i == children.len() - 1 {
        assert(all[all.len() - 1].id == children[i]);
    } else {
        lemma_taken_up(children.drop_last(), depth, level, i);
        let k = choose|k: int| 0 <= k < ahead.len() && #[trigger] ahead[k].id == children[i];
        assert(all[k] == ahead[k]);
    }
}

/// What a walk heads for, it still heads for one step later.
proof fn lemma_heads_on(w: Walk, x: Walk, more: Seq<Queued>, id: u64)
    requires
        w.queue.len() > 0,
        heads_for(w, id),
        x.queue == w.queue.skip(1) + more,
        x.visited == w.visited.insert(w.queue[0].id),
    ensures
        heads_for(x, id),
{
    if !w.visited.contains(id) {
        let k = choose|k: int| 0 <= k < w.queue.len() && #[trigger] w.queue[k].id == id;
        if k > 0 {
            assert(x.queue[k - 1] == w.queue[k]);
        }
    }
}

proof fn lemma_clean_so_far<D: Fn(&Page) -> Result<DecodedNode, Error>>(
    v: PagerView,
    tree: Seq<char>,
    root: u64,
    decode: D,
    run: Seq<Walk>,
    k: int,
)
    requires
        is_walk(v, tree, root, decode, run),
        0 <= k < run.len(),
        run[k].end is None,
        run[k].found.len() == 0,
    ensures
        heads_for(run[k], root),
        forall|id: u64| #[trigger]
            run[k].visited.contains(id) ==> exists|node: Node| #[trigger]
                covered(v, decode, run[k], id, node),
    decreases k,
{
    if k == 0 {
        assert(run[0].queue[0].id == root);
    } else {
        assert(walk_step(v, tree, decode, run, k - 1));
        let w = run[k - 1];
        let x = run[k];
        let pc = v.header.page_count;
        let (page, node) = choose|page: Option<Seq<u8>>, node: Option<Node>|
            {
                &&& w.reads(pc) ==> may_look(v, decode, w.queue[0].id, page, node)
                &&& x == #[trigger] walked_on(w, tree, pc, page, node)
            };
        let at = w.queue[0];
        assert(w.reads(pc));
        lemma_clean_so_far(v, tree, root, decode, run, k - 1);
        let more = page_children(page, node, at.depth);
        assert(page_faults(at.id, page, node, tree, at.level).len() == 0);
        let n = node->0;
        assert(in_order(v, decode, at.id, n));
        lemma_heads_on(w, x, more, root);
        assert forall|id: u64| #[trigger] x.visited.contains(id) implies exists|m: Node| #[trigger]
            covered(v, decode, x, id, m) by {
            if id == at.id {
                assert forall|i: int|
                    !n.leaf && 0 <= i < n.children.len() && #[trigger] n.children[i]
                        != 0 implies heads_for(x, n.children[i]) by {
                    lemma_taken_up(n.children, at.depth + 1, btree::child_level(n), i);
                    let j = choose|j: int|
                        0 <= j < more.len() && #[trigger] more[j].id == n.children[i];
                    assert(x.queue[w.queue.len() - 1 + j] == more[j]);
                }
                assert(covered(v, decode, x, id, n));
            } else {
                let m = choose|m: Node| #[trigger] covered(v, decode, w, id, m);
                assert forall|i: int|
                    !m.leaf && 0 <= i < m.children.len() && #[trigger] m.children[i]
                        != 0 implies heads_for(x, m.children[i]) by {
                    lemma_heads_on(w, x, more, m.children[i]);
                }
                assert(covered(v, decode, x, id, m));
            }
        }
    }
}

/// A page is reported for its checksum where it does not read, does not fit its
/// checksum or does not decode. Otherwise it is reported for its keys where two
/// neighbours do not go up, and then for its level where that is not zero on a
/// leaf, is zero on an internal node, or is not what its parent asks for.
pub proof fn law_what_a_page_is_reported_for(
    id: u64,
    page: Option<Seq<u8>>,
    node: Option<Node>,
    tree: Seq<char>,
    level: Option<int>,
)
    ensures
        page is None || !checksum::trailer_ok(page->0) || node is None ==> page_faults(
            id,
            page,
            node,
            tree,
            level,
        ) == seq![Fault::Checksum(id)],
        page is Some && checksum::trailer_ok(page->0) && node is Some ==> ({
            let n = node->0;
            let found = page_faults(id, page, node, tree, level);
            let sorted = forall|i: int|
                1 <= i < n.keys.len() ==> crate::bytes::lex_lt(n.keys[i - 1], #[trigger] n.keys[i]);
            let level_bad = n.leaf != (n.level == 0) || (level is Some && level->0 != n.level);
            &&& sorted && !level_bad ==> found.len() == 0
            &&& sorted && level_bad ==> found == seq![Fault::BadLevel(tree, id)]
            &&& !sorted && !level_bad ==> found == seq![Fault::Unsorted(id)]
            &&& !sorted && level_bad ==> found == seq![
                Fault::Unsorted(id),
                Fault::BadLevel(tree, id),
            ]
        }),
{
    if page is Some && checksum::trailer_ok(page->0) && node is Some {
        btree::law_neighbours_decide_the_order(node->0.keys);
        let found = page_faults(id, page, node, tree, level);
        assert(found =~= sort_faults(id, node->0) + level_faults(id, node->0, tree, level));
    }
}

/// A walk takes up the children of a node in order, but for zeros, one further
/// from the root and each to be of the level that the node asks for.
pub proof fn law_children_are_taken_up(children: Seq<u64>, depth: int, level: Option<int>)
    ensures
        taken_up(children, depth, level).map_values(|q: Queued| q.id) == children.filter(
            |c: u64| c != 0,
        ),
        forall|k: int|
            0 <= k < taken_up(children, depth, level).len() ==> (#[trigger] taken_up(
                children,
                depth,
                level,
            )[k]).depth == depth && taken_up(children, depth, level)[k].level == level,
    decreases children.len(),
{
    let f = |c: u64| c != 0;
    let g = |q: Queued| q.id;
    let all = taken_up(children, depth, level);
    reveal(Seq::filter);
    if children.len() > 0 {
        law_children_are_taken_up(children.drop_last(), depth, level);
        let ahead = taken_up(children.drop_last(), depth, level);
        if children.last() != 0 {
            assert(all.map_values(g) =~= ahead.map_values(g).push(children.last()));
        }
    }
    assert(all.map_values(g) =~= children.filter(f));
}

/// Only an internal node that reads, fits its checksum and decodes leads on.
pub proof fn law_where_a_page_leads(page: Option<Seq<u8>>, node: Option<Node>, depth: int)
    ensures
        page is Some && checksum::trailer_ok(page->0) && node is Some && !node->0.leaf
            ==> page_children(page, node, depth).map_values(|q: Queued| q.id)
            == node->0.children.filter(|c: u64| c != 0),
        !(page is Some && checksum::trailer_ok(page->0) && node is Some && !node->0.leaf)
            ==> page_children(page, node, depth).len() == 0,
        forall|k: int|
            0 <= k < page_children(page, node, depth).len() ==> (#[trigger] page_children(
                page,
                node,
                depth,
            )[k]).depth == depth + 1 && page_children(page, node, depth)[k].level
                == if node->0.level > 0 {
                Some(node->0.level - 1)
            } else {
                None
            },
{
    if node is Some {
        law_children_are_taken_up(node->0.children, depth + 1, btree::child_level(node->0));
    }
}

/// How a walk goes on: a page more than 32 below the root ends it, a page that
/// it has been to is reported and skipped, and so is the end where it has been
/// to 1048576 pages. Otherwise the page is looked at, once, and its children are
/// taken up behind all others.
pub proof fn law_how_a_walk_goes_on(
    w: Walk,
    tree: Seq<char>,
    page_count: u64,
    page: Option<Seq<u8>>,
    node: Option<Node>,
)
    requires
        !w.over(),
    ensures
        ({
            let at = w.queue[0];
            let x = walked_on(w, tree, page_count, page, node);
            let fresh = !w.visited.contains(at.id);
            &&& x.queue.take(w.queue.len() - 1) == w.queue.skip(1)
            &&& at.depth > 32 ==> x.found == w.found.push(Fault::TooLarge(tree, 32)) && x.end
                == Some(End::Stopped) && x.walked == w.walked && x.visited == w.visited
            &&& at.depth <= 32 && !fresh ==> x.found == w.found.push(Fault::Cycle(tree, at.id))
                && x.end is None && x.walked == w.walked && x.visited == w.visited
                && x.queue.len() == w.queue.len() - 1
            &&& at.depth <= 32 && fresh ==> x.walked == w.walked + 1 && x.visited
                == w.visited.insert(at.id)
            &&& at.depth <= 32 && fresh && w.walked >= 1_048_576 ==> x.found == w.found.push(
                Fault::TooLarge(tree, 1_048_576),
            ) && x.end == Some(End::Stopped)
            &&& at.depth <= 32 && fresh && w.walked < 1_048_576 && at.id >= page_count ==> x.found
                == w.found && x.end == Some(End::Beyond)
            &&& at.depth <= 32 && fresh && w.walked < 1_048_576 && at.id < page_count ==> x.found
                == w.found + page_faults(at.id, page, node, tree, at.level) && x.end is None
                && x.queue.skip(w.queue.len() - 1) == page_children(page, node, at.depth)
        }),
{
    let x = walked_on(w, tree, page_count, page, node);
    assert(x.queue.take(w.queue.len() - 1) =~= w.queue.skip(1));
    if w.reads(page_count) {
        assert(x.queue.skip(w.queue.len() - 1) =~= page_children(page, node, w.queue[0].depth));
    }
}

/// What was found stays found, in order, and a walk has been to as many pages as
/// it counts.
pub proof fn law_findings_stay<D: Fn(&Page) -> Result<DecodedNode, Error>>(
    v: PagerView,
    tree: Seq<char>,
    root: u64,
    decode: D,
    run: Seq<Walk>,
    i: int,
    j: int,
)
    requires
        is_walk(v, tree, root, decode, run),
        0 <= i <= j < run.len(),
    ensures
        run[i].found.len() <= run[j].found.len(),
        run[j].found.take(run[i].found.len() as int) == run[i].found,
        run[i].visited.subset_of(run[j].visited),
        run[j].visited.finite(),
        run[j].visited.len() == run[j].walked,
    decreases j,
{
    if j == 0 {
        assert(run[0].found.take(0) =~= run[0].found);
    } else {
        assert(walk_step(v, tree, decode, run, j - 1));
        let k = if i < j {
            i
        } else {
            j - 1
        };
        law_findings_stay(v, tree, root, decode, run, k, j - 1);
        let a = run[k].found;
        let b = run[j - 1].found;
        let c = run[j].found;
        assert(b =~= c.take(b.len() as int));
        assert(c.take(a.len() as int) =~= b.take(a.len() as int));
        assert(run[j].found.take(run[j].found.len() as int) =~= run[j].found);
    }
}

/// Every page that a walk has been to and that did not end it was judged by what
/// it reads and decodes as, and all that it is reported for was found.
pub proof fn law_every_page_is_judged<D: Fn(&Page) -> Result<DecodedNode, Error>>(
    v: PagerView,
    tree: Seq<char>,
    root: u64,
    decode: D,
    run: Seq<Walk>,
    id: u64,
)
    requires
        is_walk(v, tree, root, decode, run),
        run.last().end is None,
        run.last().visited.contains(id),
    ensures
        exists|page: Option<Seq<u8>>, node: Option<Node>, level: Option<int>|
            {
                &&& may_look(v, decode, id, page, node)
                &&& forall|i: int|
                    0 <= i < page_faults(id, page, node, tree, level).len()
                        ==> run.last().found.contains(
                        #[trigger] page_faults(id, page, node, tree, level)[i],
                    )
                &&& #[trigger] page_faults(id, page, node, tree, level).len() >= 0
            },
    decreases run.len(),
{
    let n = run.len() - 1;
    if n > 0 {
        assert(walk_step(v, tree, decode, run, n - 1));
        let w = run[n - 1];
        let pc = v.header.page_count;
        let (page, node) = choose|page: Option<Seq<u8>>, node: Option<Node>|
            {
                &&& w.reads(pc) ==> may_look(v, decode, w.queue[0].id, page, node)
                &&& run[n] == #[trigger] walked_on(w, tree, pc, page, node)
            };
        let at = w.queue[0];
        if w.visited.contains(id) {
            let some = run.drop_last();
            assert forall|i: int| 0 <= i < some.len() - 1 implies #[trigger] walk_step(
                v,
                tree,
                decode,
                some,
                i,
            ) by {
                assert(walk_step(v, tree, decode, run, i));
            }
            law_every_page_is_judged(v, tree, root, decode, some, id);
            let (p, m, l) = choose|p: Option<Seq<u8>>, m: Option<Node>, l: Option<int>|
                {
                    &&& may_look(v, decode, id, p, m)
                    &&& forall|i: int|
                        0 <= i < page_faults(id, p, m, tree, l).len()
                            ==> some.last().found.contains(
                            #[trigger] page_faults(id, p, m, tree, l)[i],
                        )
                    &&& #[trigger] page_faults(id, p, m, tree, l).len() >= 0
                };
            let fs = page_faults(id, p, m, tree, l);
            law_findings_stay(v, tree, root, decode, run, n - 1, n);
            assert forall|i: int| 0 <= i < fs.len() implies run.last().found.contains(
                #[trigger] fs[i],
            ) by {
                let k = choose|k: int| 0 <= k < w.found.len() && w.found[k] == fs[i];
                assert(run.last().found.take(w.found.len() as int)[k] == fs[i]);
                assert(run.last().found[k] == fs[i]);
            }
        } else {
            let fs = page_faults(id, page, node, tree, at.level);
            assert(w.reads(pc));
            assert forall|i: int| 0 <= i < fs.len() implies run.last().found.contains(
                #[trigger] fs[i],
            ) by {
                assert(run.last().found[w.found.len() + i] == fs[i]);
            }
            assert(may_look(v, decode, id, page, node));
        }
    }
}

/// What a walk over a tree returns and reports: the number of pages that it has
/// been to, all of which are reachable, and what it found, behind what was found
/// before. It fails only where the tree leads beyond the file or a read fails.
pub proof fn law_what_a_walk_returns<D: Fn(&Page) -> Result<DecodedNode, Error>>(
    v: PagerView,
    tree: Seq<char>,
    root: u64,
    decode: D,
    run: Seq<Walk>,
    r: Result<u64, Error>,
    reachable: (Set<u64>, Set<u64>),
    faults: (Seq<Fault>, Seq<Fault>),
)
    requires
        walk_ended(v, tree, root, decode, run, r, reachable, faults),
    ensures
        is_walk(v, tree, root, decode, run),
        faults.1 == faults.0 + run.last().found,
        r matches Ok(n) ==> {
            &&& n == run.last().visited.len()
            &&& reachable.1 == reachable.0.union(run.last().visited)
            &&& run.last().queue.len() == 0 || run.last().end == Some(End::Stopped)
            &&& run.last().end != Some(End::Beyond)
        },
        run.last().end == Some(End::Beyond) ==> r == Err::<u64, Error>(
            Error::InvalidArgument("page id out of range"),
        ),
        r matches Err(e) && !(e is Io) ==> run.last().end == Some(End::Beyond),
{
    law_findings_stay(v, tree, root, decode, run, run.len() - 1, run.len() - 1);
}

/// A walk begins at the root, with nothing found.
pub proof fn law_where_a_walk_begins(root: u64)
    ensures
        walk_from(root).queue == seq![Queued { id: root, depth: 0, level: None }],
        walk_from(root).found.len() == 0,
        walk_from(root).walked == 0,
        walk_from(root).end is None,
        forall|id: u64| !#[trigger] walk_from(root).visited.contains(id),
{
}

} // verus!
