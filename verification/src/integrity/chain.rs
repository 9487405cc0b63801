//! The walk over the freelist.

use crate::error::Error;
use crate::integrity::report;
use crate::integrity::report::{record, Fault, IntegrityFailure};
use crate::integrity::walk;
use crate::integrity::walk::End;
use crate::pager::checksum;
use crate::pager::checksum::page_trailer_valid;
use crate::pager::freelist;
use crate::pager::page::{Page, PageId};
use crate::pager::state;
use crate::pager::state::PagerView;
use crate::pager::store::Pager;
use crate::platform::file::FileBackend;
use std::collections::HashSet;
use vstd::prelude::*;

verus! {

broadcast use {
    vstd::std_specs::hash::group_hash_axioms,
    crate::pager::page::lemma_page_len,
};

/// How far a walk over the freelist has come.
pub struct Chain {
    /// The page that the chain leads to; zero at its end.
    pub at: u64,
    /// Pages that the walk has been to.
    pub seen: Set<u64>,
    /// Violations that were found.
    pub found: Seq<Fault>,
    /// Number of links that were followed.
    pub steps: int,
    /// Set where the walk ended early.
    pub end: Option<End>,
}

impl Chain {
    /// Nothing is left to do.
    pub open spec fn over(self) -> bool {
        self.end is Some || self.at == 0
    }

    /// The link leads to a page that a walk can look at.
    pub open spec fn leads_on(self, page_count: u64) -> bool {
        self.steps < page_count && self.at < page_count && !self.seen.contains(self.at)
    }
}

/// A walk that has followed no link yet.
pub open spec fn chain_from(head: u64) -> Chain {
    Chain { at: head, seen: Set::empty(), found: seq![], steps: 0, end: None }
}

/// The walk `c` after one more link. `page_count` bounds the pages of the
/// chain, `file_pages` those of the file, and `page` is what a read of the
/// page finds.
pub open spec fn chained_on(
    c: Chain,
    page_count: u64,
    file_pages: u64,
    page: Option<Seq<u8>>,
) -> Chain {
    let next = Chain { steps: c.steps + 1, ..c };
    let marked = Chain { seen: c.seen.insert(c.at), ..next };
    let unsound = Chain {
        found: c.found.push(Fault::Checksum(c.at)),
        end: Some(End::Stopped),
        ..marked
    };
    if !c.leads_on(page_count) {
        Chain {
            found: c.found.push(Fault::ChainBroken(c.at)),
            end: Some(End::Stopped),
            ..next
        }
    } else if c.at >= file_pages {
        Chain { end: Some(End::Beyond), ..marked }
    } else {
        match page {
            None => unsound,
            Some(p) => if !checksum::trailer_ok(p) {
                unsound
            } else {
                match freelist::freelist_entry(p) {
                    None => Chain {
                        found: c.found.push(Fault::ChainBroken(c.at)),
                        end: Some(End::Stopped),
                        ..marked
                    },
                    Some(entry) => Chain { at: entry.next, ..marked },
                }
            },
        }
    }
}

/// The walk `c` may go on to `d`.
pub open spec fn may_chain_on(v: PagerView, page_count: u64, c: Chain, d: Chain) -> bool {
    &&& !c.over()
    &&& exists|page: Option<Seq<u8>>|
        {
            &&& c.leads_on(page_count) && c.at < v.header.page_count ==> walk::may_read(v, c.at, page)
            &&& d == #[trigger] chained_on(c, page_count, v.header.page_count, page)
        }
}

/// Step `i` of a walk over the freelist.
pub open spec fn chain_step(v: PagerView, page_count: u64, run: Seq<Chain>, i: int) -> bool {
    may_chain_on(v, page_count, run[i], run[i + 1])
}

/// `run` is a walk over the chain at `head`, from its first step on.
pub open spec fn is_chain(v: PagerView, head: u64, page_count: u64, run: Seq<Chain>) -> bool {
    &&& run.len() > 0
    &&& run[0] == chain_from(head)
    &&& forall|i: int| 0 <= i < run.len() - 1 ==> #[trigger] chain_step(v, page_count, run, i)
}

/// A walk over the freelist that ended with `r` after the steps `run`, with
/// what it did to the reachable pages and to the violations.
pub open spec fn chain_ended(
    v: PagerView,
    head: u64,
    page_count: u64,
    run: Seq<Chain>,
    r: Result<u64, Error>,
    reachable: (Set<u64>, Set<u64>),
    faults: (Seq<Fault>, Seq<Fault>),
) -> bool {
    let c = run.last();
    let reached = reachable.0.union(c.seen);
    &&& is_chain(v, head, page_count, run)
    &&& faults.1 == faults.0 + c.found
    &&& match r {
        Ok(n) => {
            &&& c.over()
            &&& c.end != Some(End::Beyond)
            &&& n == if c.steps <= u64::MAX {
                c.steps
            } else {
                u64::MAX as int
            }
            &&& reachable.1 == reached
        },
        Err(e) => if c.end == Some(End::Beyond) {
            e == Error::InvalidArgument("page id out of range") && reachable.1 == reached
        } else {
            &&& !c.over()
            &&& v.log is Some && e is Io && !state::sure_to_read(v, c.at)
            &&& reachable.1 == reached.insert(c.at)
        },
    }
}

/// One more step of a walk over the freelist.
proof fn lemma_chain_push(
    v: PagerView,
    head: u64,
    page_count: u64,
    run: Seq<Chain>,
    page: Option<Seq<u8>>,
)
    requires
        is_chain(v, head, page_count, run),
        !run.last().over(),
        run.last().leads_on(page_count) && run.last().at < v.header.page_count ==> walk::may_read(
            v,
            run.last().at,
            page,
        ),
    ensures
        is_chain(
            v,
            head,
            page_count,
            run.push(chained_on(run.last(), page_count, v.header.page_count, page)),
        ),
{
    let d = chained_on(run.last(), page_count, v.header.page_count, page);
    let longer = run.push(d);
    assert(may_chain_on(v, page_count, run.last(), d));
    assert forall|i: int| 0 <= i < longer.len() - 1 implies #[trigger] chain_step(
        v,
        page_count,
        longer,
        i,
    ) by {
        if i < run.len() - 1 {
            assert(chain_step(v, page_count, run, i));
        }
    }
}

/// Page `id`, read as `page`, gave the link `next`, or none and a violation.
#[verifier::opaque]
spec fn link_found(
    page: Option<Seq<u8>>,
    id: u64,
    next: Option<u64>,
    faults: (Seq<Fault>, Seq<Fault>),
) -> bool {
    match next {
        Some(n) => {
            &&& page is Some && checksum::trailer_ok(page->0)
            &&& freelist::freelist_entry(page->0) is Some
            &&& freelist::freelist_entry(page->0)->0.next == n
            &&& faults.1 == faults.0
        },
        None => if page is Some && checksum::trailer_ok(page->0) {
            &&& freelist::freelist_entry(page->0) is None
            &&& faults.1 == faults.0.push(Fault::ChainBroken(id))
        } else {
            faults.1 == faults.0.push(Fault::Checksum(id))
        },
    }
}

/// What a step over a page that can be read does.
proof fn lemma_link(
    c: Chain,
    page_count: u64,
    file_pages: u64,
    page: Option<Seq<u8>>,
    next: Option<u64>,
    faults0: Seq<Fault>,
    faults: Seq<Fault>,
)
    requires
        c.leads_on(page_count),
        c.at < file_pages,
        c.end is None,
        link_found(page, c.at, next, (faults0 + c.found, faults)),
    ensures
        ({
            let d = chained_on(c, page_count, file_pages, page);
            &&& d.seen == c.seen.insert(c.at)
            &&& d.steps == c.steps + 1
            &&& faults == faults0 + d.found
            &&& match next {
                Some(n) => d.at == n && d.end is None,
                None => d.end == Some(End::Stopped),
            }
        }),
{
    reveal(link_found);
    let d = chained_on(c, page_count, file_pages, page);
    assert(faults =~= faults0 + d.found);
}

/// Read the link in freelist page `pid`. `None` if the page is not sound.
fn read_link<F: FileBackend>(
    pager: &mut Pager<F>,
    pid: PageId,
    failures: &mut Vec<IntegrityFailure>,
) -> (r: Result<Option<u64>, Error>)
    requires
        old(pager).wf(),
    ensures
        final(pager).wf(),
        old(pager)@.settled(final(pager)@),
        match r {
            Ok(next) => {
                &&& pid@ < old(pager)@.header.page_count
                &&& exists|page: Option<Seq<u8>>|
                    {
                        &&& #[trigger] walk::may_read(old(pager)@, pid@, page)
                        &&& link_found(
                            page,
                            pid@,
                            next,
                            (report::faults(old(failures)@), report::faults(final(failures)@)),
                        )
                    }
            },
            Err(e) => {
                &&& final(failures)@ == old(failures)@
                &&& if pid@ >= old(pager)@.header.page_count {
                    e == Error::InvalidArgument("page id out of range")
                } else {
                    old(pager)@.log is Some && e is Io && !state::sure_to_read(old(pager)@, pid@)
                }
            },
        },
{
    proof {
        reveal(link_found);
    }
    let ghost v = pager@;
    let page: Page = match pager.read_page(pid) {
        Ok(p) => p.to_owned_page(),
        Err(Error::Corruption { page_id }) => {
            record(failures, IntegrityFailure::ChecksumMismatch { page_id });
            proof {
                let found: Option<Seq<u8>> = None;
                assert(walk::may_read(v, pid@, found));
            }
            return Ok(None);
        },
        Err(e) => return Err(e),
    };
    proof {
        assert(walk::may_read(v, pid@, Some(page@)));
    }
    if !page_trailer_valid(&page) {
        record(failures, IntegrityFailure::ChecksumMismatch { page_id: pid.get() });
        return Ok(None);
    }
    match freelist::decode(&page) {
        Some(entry) => Ok(Some(entry.next)),
        None => {
            record(failures, IntegrityFailure::FreelistChainBroken { page_id: pid.get() });
            Ok(None)
        },
    }
}

/// Follow the freelist from `head_raw` on, through at most `page_count` pages,
/// and append what is found to be wrong to `failures`. Every page of the chain
/// goes to `reachable`. The result is the number of links that were followed.
pub fn walk_freelist<F: FileBackend>(
    pager: &mut Pager<F>,
    head_raw: u64,
    page_count: u64,
    reachable: &mut HashSet<u64>,
    failures: &mut Vec<IntegrityFailure>,
) -> (r: Result<u64, Error>)
    requires
        old(pager).wf(),
    ensures
        final(pager).wf(),
        old(pager)@.settled(final(pager)@),
        exists|run: Seq<Chain>| #[trigger]
            chain_ended(
                old(pager)@,
                head_raw,
                page_count,
                run,
                r,
                (old(reachable)@, final(reachable)@),
                (report::faults(old(failures)@), report::faults(final(failures)@)),
            ),
{
    let ghost v = pager@;
    let ghost reach0 = reachable@;
    let ghost faults0 = report::faults(failures@);
    let ghost unread: Option<Seq<u8>> = None;
    let mut current: u64 = head_raw;
    let mut steps: u64 = 0;
    let mut seen: HashSet<u64> = HashSet::new();
    let ghost mut run: Seq<Chain> = seq![chain_from(head_raw)];
    proof {
        assert(reach0.union(Set::<u64>::empty()) =~= reach0);
        assert(faults0 + Seq::<Fault>::empty() =~= faults0);
    }
    while current != 0
        invariant
            pager.wf(),
            v.settled(pager@),
            is_chain(v, head_raw, page_count, run),
            run.last().end is None,
            run.last().at == current,
            run.last().seen == seen@,
            run.last().steps == steps,
            steps <= page_count,
            reachable@ == reach0.union(run.last().seen),
            report::faults(failures@) == faults0 + run.last().found,
            v == old(pager)@,
            reach0 == old(reachable)@,
            faults0 == report::faults(old(failures)@),
        decreases page_count - steps,
    {
        let ghost c = run.last();
        let counted: u64 = steps.saturating_add(1);
        let leads_on: bool = steps < page_count && current < page_count && !seen.contains(&current);
        if !leads_on {
            record(failures, IntegrityFailure::FreelistChainBroken { page_id: current });
            proof {
                lemma_chain_push(v, head_raw, page_count, run, unread);
                run = run.push(chained_on(c, page_count, v.header.page_count, unread));
                assert(report::faults(failures@) =~= faults0 + run.last().found);
                assert(chain_ended(
                    v,
                    head_raw,
                    page_count,
                    run,
                    Ok(counted),
                    (reach0, reachable@),
                    (faults0, report::faults(failures@)),
                ));
            }
            return Ok(counted);
        }
        steps = counted;
        seen.insert(current);
        reachable.insert(current);
        proof {
            assert(reachable@ =~= reach0.union(c.seen.insert(current)));
            assert(reachable@ =~= reach0.union(c.seen).insert(current));
        }
        let ghost pager_was = pager@;
        let ghost faults_were = report::faults(failures@);
        let link: Option<u64> = match PageId::new(current) {
            None => return Ok(steps),
            Some(pid) => match read_link(pager, pid, failures) {
                Ok(n) => n,
                Err(e) => {
                    proof {
                        walk::lemma_settled(v, pager_was, pager@);
                        if current >= v.header.page_count {
                            lemma_chain_push(v, head_raw, page_count, run, unread);
                            run = run.push(chained_on(c, page_count, v.header.page_count, unread));
                        }
                        assert(chain_ended(
                            v,
                            head_raw,
                            page_count,
                            run,
                            Err(e),
                            (reach0, reachable@),
                            (faults0, report::faults(failures@)),
                        ));
                    }
                    return Err(e);
                },
            },
        };
        let ghost page = choose|page: Option<Seq<u8>>|
            {
                &&& #[trigger] walk::may_read(pager_was, current, page)
                &&& link_found(page, current, link, (faults_were, report::faults(failures@)))
            };
        proof {
            walk::lemma_settled(v, pager_was, pager@);
            walk::lemma_may_read(v, pager_was, current, page);
            lemma_chain_push(v, head_raw, page_count, run, page);
            lemma_link(
                c,
                page_count,
                v.header.page_count,
                page,
                link,
                faults0,
                report::faults(failures@),
            );
            run = run.push(chained_on(c, page_count, v.header.page_count, page));
        }
        match link {
            Some(n) => {
                current = n;
            },
            None => {
                proof {
                    assert(chain_ended(
                        v,
                        head_raw,
                        page_count,
                        run,
                        Ok(steps),
                        (reach0, reachable@),
                        (faults0, report::faults(failures@)),
                    ));
                }
                return Ok(steps);
            },
        }
    }
    proof {
        assert(chain_ended(
            v,
            head_raw,
            page_count,
            run,
            Ok(steps),
            (reach0, reachable@),
            (faults0, report::faults(failures@)),
        ));
    }
    Ok(steps)
}

/// Page `id` is a freelist page with the link `next`: it reads, its checksum
/// fits, and it is tagged as one.
pub open spec fn links(v: PagerView, id: u64, next: u64) -> bool {
    exists|page: Seq<u8>|
        {
            &&& #[trigger] walk::may_read(v, id, Some(page))
            &&& checksum::trailer_ok(page)
            &&& freelist::freelist_entry(page) is Some
            &&& freelist::freelist_entry(page)->0.next == next
        }
}

/// A walk over the freelist that runs to its end without a finding has been to
/// the head and to whatever a page that it has been to links to, and each of
/// them is a freelist page inside the file.
pub proof fn law_clean_walk_covers_the_freelist(
    v: PagerView,
    head: u64,
    page_count: u64,
    run: Seq<Chain>,
)
    requires
        is_chain(v, head, page_count, run),
        run.last().over(),
        run.last().end is None,
        run.last().found.len() == 0,
    ensures
        head == 0 || run.last().seen.contains(head),
        forall|id: u64| #[trigger]
            run.last().seen.contains(id) ==> 0 < id < page_count && exists|next: u64|
                #[trigger] links(v, id, next) && (next == 0 || run.last().seen.contains(next)),
{
    lemma_chain_so_far(v, head, page_count, run, run.len() - 1);
}

proof fn lemma_chain_so_far(v: PagerView, head: u64, page_count: u64, run: Seq<Chain>, k: int)
    requires
        is_chain(v, head, page_count, run),
        0 <= k < run.len(),
        run[k].end is None,
        run[k].found.len() == 0,
    ensures
        head == run[k].at || run[k].seen.contains(head),
        forall|id: u64| #[trigger]
            run[k].seen.contains(id) ==> 0 < id < page_count && exists|next: u64| #[trigger]
                links(v, id, next) && (next == run[k].at || run[k].seen.contains(next)),
    decreases k,
{
    if k > 0 {
        assert(chain_step(v, page_count, run, k - 1));
        let c = run[k - 1];
        let d = run[k];
        let page = choose|page: Option<Seq<u8>>|
            {
                &&& c.leads_on(page_count) && c.at < v.header.page_count ==> walk::may_read(
                    v,
                    c.at,
                    page,
                )
                &&& d == #[trigger] chained_on(c, page_count, v.header.page_count, page)
            };
        lemma_chain_so_far(v, head, page_count, run, k - 1);
        assert(links(v, c.at, d.at));
        assert forall|id: u64| #[trigger] d.seen.contains(id) implies 0 < id < page_count
            && exists|next: u64| #[trigger]
            links(v, id, next) && (next == d.at || d.seen.contains(next)) by {
            if id != c.at {
                assert(c.seen.contains(id));
                let next = choose|next: u64| #[trigger]
                    links(v, id, next) && (next == c.at || c.seen.contains(next));
                assert(links(v, id, next) && (next == d.at || d.seen.contains(next)));
            }
        }
    }
}

/// The freelist of a file-backed pager gives a walk that runs to its end only
/// one result.
pub proof fn law_chain_is_determined(
    v: PagerView,
    head: u64,
    page_count: u64,
    a: Seq<Chain>,
    b: Seq<Chain>,
)
    requires
        v.log is Some,
        is_chain(v, head, page_count, a),
        is_chain(v, head, page_count, b),
        a.last().over(),
        b.last().over(),
    ensures
        a.last() == b.last(),
{
    let n = if a.len() <= b.len() {
        a.len()
    } else {
        b.len()
    };
    lemma_same_links(v, head, page_count, a, b, n - 1);
    if a.len() < b.len() {
        assert(chain_step(v, page_count, b, n - 1));
    } else if b.len() < a.len() {
        assert(chain_step(v, page_count, a, n - 1));
    }
}

proof fn lemma_same_links(
    v: PagerView,
    head: u64,
    page_count: u64,
    a: Seq<Chain>,
    b: Seq<Chain>,
    k: int,
)
    requires
        v.log is Some,
        is_chain(v, head, page_count, a),
        is_chain(v, head, page_count, b),
        0 <= k < a.len(),
        k < b.len(),
    ensures
        a[k] == b[k],
    decreases k,
{
    if k > 0 {
        lemma_same_links(v, head, page_count, a, b, k - 1);
        assert(chain_step(v, page_count, a, k - 1));
        assert(chain_step(v, page_count, b, k - 1));
    }
}

/// Page `id` reads, its checksum fits, it is tagged as a freelist page, and the
/// page that it leads to is `next`.
pub open spec fn sound_link(v: PagerView, id: u64, next: u64) -> bool {
    &&& v.page_at(id) is Some
    &&& checksum::trailer_ok(v.page_at(id)->0)
    &&& v.page_at(id)->0[0] == 5
    &&& crate::bytes::le_nat(v.page_at(id)->0.subrange(8, 16)) == next
}

/// If there is a page number `i` among `ids`, it lies inside the file, is sound,
/// and leads to the next, or to `z` where it is the last.
pub open spec fn sound_at(v: PagerView, page_count: u64, ids: Seq<u64>, z: u64, i: int) -> bool {
    0 <= i < ids.len() ==> {
        &&& 0 < ids[i] < page_count
        &&& ids[i] < v.header.page_count
        &&& sound_link(v, ids[i], ids.push(z)[i + 1])
        &&& v.page_at(ids[i])->0.len() == 4096
    }
}

/// What a walk over the freelist of a file-backed pager finds. `ids` are the
/// sound pages that the chain leads through, and `z` is what the last of them
/// leads to.
///
/// Where that is zero, nothing is found. Where it is a page that the walk has
/// been to or that is out of bounds, the chain is broken there; where its
/// checksum does not fit, that is found; and where it is tagged as something
/// else, the chain is broken there too. Nothing else is found.
pub proof fn law_what_a_freelist_walk_finds(
    v: PagerView,
    head: u64,
    page_count: u64,
    run: Seq<Chain>,
    ids: Seq<u64>,
    z: u64,
)
    requires
        v.log is Some,
        is_chain(v, head, page_count, run),
        run.last().over(),
        ids.no_duplicates(),
        ids.len() < page_count,
        head == ids.push(z)[0],
        forall|i: int| #[trigger] sound_at(v, page_count, ids, z, i),
        z == 0 || z >= page_count || ids.contains(z) || z >= v.header.page_count || v.page_at(
            z,
        ) is None || !checksum::trailer_ok(v.page_at(z)->0) || v.page_at(z)->0[0] != 5,
    ensures
        ({
            let c = run.last();
            let page = v.page_at(z);
            let fresh = 0 < z < page_count && !ids.contains(z);
            &&& z == 0 ==> c.found.len() == 0 && c.end is None && c.steps == ids.len() && c.seen
                == ids.to_set()
            &&& z != 0 ==> c.steps == ids.len() + 1
            &&& z != 0 && !fresh ==> c.found == seq![Fault::ChainBroken(z)] && c.end == Some(
                End::Stopped,
            ) && c.seen == ids.to_set()
            &&& fresh ==> c.seen == ids.to_set().insert(z)
            &&& fresh && z >= v.header.page_count ==> c.end == Some(End::Beyond) && c.found.len()
                == 0
            &&& fresh && z < v.header.page_count ==> c.end == Some(End::Stopped) && c.found
                == if page is None || !checksum::trailer_ok(page->0) {
                seq![Fault::Checksum(z)]
            } else {
                seq![Fault::ChainBroken(z)]
            }
        }),
{
    let n = ids.len() as int;
    lemma_links_followed(v, head, page_count, run, ids, z, n);
    let c = run[n];
    assert(ids.take(n) =~= ids);
    assert(ids.to_set().contains(z) <==> ids.contains(z));
    if z != 0 {
        assert(run.len() > n + 1);
        assert(chain_step(v, page_count, run, n));
        let d = run[n + 1];
        lemma_broken_link(v, page_count, c, d);
        if run.len() > n + 2 {
            assert(chain_step(v, page_count, run, n + 1));
        }
        assert(run.last() == d);
        assert(c.found =~= seq![]);
        assert(c.found.push(Fault::ChainBroken(z)) =~= seq![Fault::ChainBroken(z)]);
        assert(c.found.push(Fault::Checksum(z)) =~= seq![Fault::Checksum(z)]);
    } else {
        if run.len() > n + 1 {
            assert(chain_step(v, page_count, run, n));
        }
        assert(run.last() == run[n]);
    }
}

/// A step over a page that leads nowhere.
proof fn lemma_broken_link(v: PagerView, page_count: u64, c: Chain, d: Chain)
    requires
        v.log is Some,
        may_chain_on(v, page_count, c, d),
        c.leads_on(page_count) && c.at < v.header.page_count ==> v.page_at(c.at) is None
            || !checksum::trailer_ok(v.page_at(c.at)->0) || v.page_at(c.at)->0[0] != 5,
    ensures
        d.over(),
        d.steps == c.steps + 1,
        !c.leads_on(page_count) ==> d.seen == c.seen && d.end == Some(End::Stopped) && d.found
            == c.found.push(Fault::ChainBroken(c.at)),
        c.leads_on(page_count) ==> d.seen == c.seen.insert(c.at),
        c.leads_on(page_count) && c.at >= v.header.page_count ==> d.end == Some(End::Beyond)
            && d.found == c.found,
        c.leads_on(page_count) && c.at < v.header.page_count ==> d.end == Some(End::Stopped)
            && d.found == c.found.push(
            if v.page_at(c.at) is None || !checksum::trailer_ok(v.page_at(c.at)->0) {
                Fault::Checksum(c.at)
            } else {
                Fault::ChainBroken(c.at)
            },
        ),
{
}

/// A step over a page that leads on.
proof fn lemma_sound_link(v: PagerView, page_count: u64, c: Chain, d: Chain, next: u64)
    requires
        v.log is Some,
        may_chain_on(v, page_count, c, d),
        c.leads_on(page_count),
        c.at < v.header.page_count,
        sound_link(v, c.at, next),
        v.page_at(c.at)->0.len() == 4096,
    ensures
        d.at == next,
        d.steps == c.steps + 1,
        d.seen == c.seen.insert(c.at),
        d.found == c.found,
        d.end == c.end,
{
    freelist::law_free_page_layout(freelist::FreeListPage { next: 0 }, v.page_at(c.at)->0);
}

proof fn lemma_links_followed(
    v: PagerView,
    head: u64,
    page_count: u64,
    run: Seq<Chain>,
    ids: Seq<u64>,
    z: u64,
    k: int,
)
    requires
        v.log is Some,
        is_chain(v, head, page_count, run),
        run.last().over(),
        ids.no_duplicates(),
        ids.len() < page_count,
        head == ids.push(z)[0],
        forall|i: int| #[trigger] sound_at(v, page_count, ids, z, i),
        0 <= k <= ids.len(),
    ensures
        run.len() > k,
        run[k].at == ids.push(z)[k],
        run[k].steps == k,
        run[k].seen == ids.take(k).to_set(),
        run[k].found.len() == 0,
        run[k].end is None,
    decreases k,
{
    if k == 0 {
        assert(ids.take(0).to_set() =~= Set::<u64>::empty());
    } else {
        lemma_links_followed(v, head, page_count, run, ids, z, k - 1);
        let c = run[k - 1];
        let id = ids[k - 1];
        assert(sound_at(v, page_count, ids, z, k - 1));
        assert(c.at == id);
        assert(run.len() > k);
        assert(chain_step(v, page_count, run, k - 1));
        crate::ordered::lemma_prefix_members(ids, k - 1);
        lemma_sound_link(v, page_count, c, run[k], ids.push(z)[k]);
        assert forall|x: u64|
            c.seen.insert(id).contains(x) <==> #[trigger] ids.take(k).to_set().contains(x) by {
            assert(ids.take(k - 1 + 1).contains(x) <==> x == id || ids.take(k - 1).contains(x));
        }
        assert(c.seen.insert(id) =~= ids.take(k).to_set());
    }
}

/// What a walk over the freelist of a file-backed pager returns and reports,
/// where no read fails. `ids` are the sound pages that the chain leads through,
/// and `z` is what the last of them leads to.
pub proof fn law_what_a_freelist_walk_returns(
    v: PagerView,
    head: u64,
    page_count: u64,
    run: Seq<Chain>,
    r: Result<u64, Error>,
    reachable: (Set<u64>, Set<u64>),
    faults: (Seq<Fault>, Seq<Fault>),
    ids: Seq<u64>,
    z: u64,
)
    requires
        v.log is Some,
        chain_ended(v, head, page_count, run, r, reachable, faults),
        !(r matches Err(Error::Io(_))),
        ids.no_duplicates(),
        ids.len() < page_count,
        head == ids.push(z)[0],
        forall|i: int| #[trigger] sound_at(v, page_count, ids, z, i),
        z == 0 || z >= page_count || ids.contains(z) || z >= v.header.page_count || v.page_at(
            z,
        ) is None || !checksum::trailer_ok(v.page_at(z)->0) || v.page_at(z)->0[0] != 5,
    ensures
        ({
            let fresh = 0 < z < page_count && !ids.contains(z);
            let page = v.page_at(z);
            &&& z == 0 ==> r == Ok::<u64, Error>(ids.len() as u64) && faults.1 == faults.0
            &&& z != 0 && !fresh ==> r == Ok::<u64, Error>((ids.len() + 1) as u64) && faults.1
                == faults.0.push(Fault::ChainBroken(z))
            &&& fresh && z >= v.header.page_count ==> r == Err::<u64, Error>(
                Error::InvalidArgument("page id out of range"),
            ) && faults.1 == faults.0
            &&& fresh && z < v.header.page_count ==> r == Ok::<u64, Error>((ids.len() + 1) as u64)
                && faults.1 == faults.0.push(
                if page is None || !checksum::trailer_ok(page->0) {
                    Fault::Checksum(z)
                } else {
                    Fault::ChainBroken(z)
                },
            )
            &&& reachable.1 == if fresh {
                reachable.0.union(ids.to_set()).insert(z)
            } else {
                reachable.0.union(ids.to_set())
            }
        }),
{
    law_what_a_freelist_walk_finds(v, head, page_count, run, ids, z);
    let c = run.last();
    if c.found.len() == 0 {
        assert(faults.0 + c.found =~= faults.0);
    } else {
        assert(faults.0 + c.found =~= faults.0.push(c.found[0]));
    }
    assert(reachable.0.union(ids.to_set().insert(z)) =~= reachable.0.union(ids.to_set()).insert(z));
}

} // verus!
