//! Checks of the catalog against the file, and of indexes against documents.

use crate::btree::DecodedNode;
use crate::catalog::{CollectionDescriptor, IndexDescriptor, IndexStatus};
use crate::error::Error;
use crate::id;
use crate::id::Id;
use crate::index::spec::IndexKind;
use crate::integrity::report;
use crate::integrity::report::{record, Fault, IntegrityFailure, IntegrityReport};
use crate::integrity::walk;
use crate::integrity::walk::{walk_btree, TreeContext, Walk};
use crate::ordered;
use crate::ordered::sorted_members;
use crate::pager::page::{Page, PageId};
use crate::pager::store::Pager;
use crate::platform::file::FileBackend;
use std::collections::HashSet;
use std::time::{Duration, Instant};
use vstd::prelude::*;

verus! {

broadcast use vstd::std_specs::hash::group_hash_axioms;

/// A root page that a file of `page_count` pages cannot have.
pub open spec fn dangles(root: u64, page_count: u64) -> bool {
    root == 0 || root >= page_count
}

/// What the indexes of a collection give away: the roots of those in use that
/// dangle.
pub open spec fn index_faults(
    collection: Seq<char>,
    indexes: Seq<IndexDescriptor>,
    page_count: u64,
) -> Seq<Fault>
    decreases indexes.len(),
{
    if indexes.len() == 0 {
        seq![]
    } else {
        let ahead = index_faults(collection, indexes.drop_last(), page_count);
        let d = indexes.last();
        if d.status is Active && dangles(d.root_page_id, page_count) {
            ahead.push(Fault::Dangling(collection, Some(d.name@), d.root_page_id))
        } else {
            ahead
        }
    }
}

/// What a row of the catalog gives away.
pub open spec fn row_faults(
    collection: Seq<char>,
    d: CollectionDescriptor,
    page_count: u64,
) -> Seq<Fault> {
    (if dangles(d.primary_root, page_count) {
        seq![Fault::Dangling(collection, None, d.primary_root)]
    } else {
        seq![]
    }) + index_faults(collection, d.indexes@, page_count)
}

/// Report the roots of a collection and of its indexes in use that lie outside
/// a file of `page_count` pages.
pub fn check_catalog_pointers(
    name: &str,
    descriptor: &CollectionDescriptor,
    page_count: u64,
    failures: &mut Vec<IntegrityFailure>,
)
    ensures
        report::faults(final(failures)@) == report::faults(old(failures)@) + row_faults(
            name@,
            *descriptor,
            page_count,
        ),
{
    let ghost before = report::faults(failures@);
    if descriptor.primary_root == 0 || descriptor.primary_root >= page_count {
        record(
            failures,
            IntegrityFailure::DanglingCatalogPointer {
                collection: name.to_owned(),
                index: None,
                page_id: descriptor.primary_root,
            },
        );
    }
    let ghost mid = report::faults(failures@);
    let mut i: usize = 0;
    proof {
        assert(descriptor.indexes@.take(0) =~= Seq::<IndexDescriptor>::empty());
        assert(mid + Seq::<Fault>::empty() =~= mid);
    }
    while i < descriptor.indexes.len()
        invariant
            i <= descriptor.indexes.len(),
            report::faults(failures@) == mid + index_faults(
                name@,
                descriptor.indexes@.take(i as int),
                page_count,
            ),
        decreases descriptor.indexes.len() - i,
    {
        let index: &IndexDescriptor = &descriptor.indexes[i];
        let ghost were = report::faults(failures@);
        proof {
            assert(descriptor.indexes@.take(i + 1).drop_last() =~= descriptor.indexes@.take(
                i as int,
            ));
        }
        if matches!(index.status, IndexStatus::Active) && (index.root_page_id == 0
            || index.root_page_id >= page_count) {
            record(
                failures,
                IntegrityFailure::DanglingCatalogPointer {
                    collection: name.to_owned(),
                    index: Some(index.name.clone()),
                    page_id: index.root_page_id,
                },
            );
        }
        proof {
            assert(report::faults(failures@) =~= mid + index_faults(
                name@,
                descriptor.indexes@.take(i + 1),
                page_count,
            ));
        }
        i = i + 1;
    }
    proof {
        assert(descriptor.indexes@.take(descriptor.indexes.len() as int) =~= descriptor.indexes@);
        assert(report::faults(failures@) =~= before + row_faults(name@, *descriptor, page_count));
    }
}

/// How a scan over a tree ended.
#[derive(Debug)]
pub enum ScanEnd {
    /// It came to the end of the tree.
    Complete,
    /// It could not begin.
    Refused(Error),
    /// It broke off behind the last entry.
    Broken(Error),
}

/// What a scan over all entries of a tree gave.
#[derive(Debug)]
pub struct TreeScan {
    /// The entries, each a key and a value.
    pub entries: Vec<(Vec<u8>, Vec<u8>)>,
    /// How the scan ended.
    pub end: ScanEnd,
}

/// The document that an index entry refers to: the value of a unique index
/// spells it, and the last eight bytes of the key of any other.
pub open spec fn entry_id(kind: IndexKind, entry: (Vec<u8>, Vec<u8>)) -> Option<u64> {
    match kind {
        IndexKind::Unique => id::id_of(entry.1@),
        _ => if entry.0@.len() < 8 {
            None
        } else {
            id::id_of(entry.0@.skip(entry.0@.len() - 8))
        },
    }
}

/// What the entries of an index give away: those that refer to no document, or
/// to one that does not exist.
pub open spec fn entry_faults(
    collection: Seq<char>,
    index: IndexDescriptor,
    entries: Seq<(Vec<u8>, Vec<u8>)>,
    primary: Set<u64>,
) -> Seq<Fault>
    decreases entries.len(),
{
    if entries.len() == 0 {
        seq![]
    } else {
        let ahead = entry_faults(collection, index, entries.drop_last(), primary);
        match entry_id(index.kind, entries.last()) {
            None => ahead.push(Fault::OrphanEntry(collection, index.name@, 0)),
            Some(x) => if primary.contains(x) {
                ahead
            } else {
                ahead.push(Fault::OrphanEntry(collection, index.name@, x))
            },
        }
    }
}

/// The documents, out of `primary`, that some entry refers to.
pub open spec fn referenced(
    kind: IndexKind,
    entries: Seq<(Vec<u8>, Vec<u8>)>,
    primary: Set<u64>,
) -> Set<u64>
    decreases entries.len(),
{
    if entries.len() == 0 {
        Set::empty()
    } else {
        let ahead = referenced(kind, entries.drop_last(), primary);
        match entry_id(kind, entries.last()) {
            Some(x) => if primary.contains(x) {
                ahead.insert(x)
            } else {
                ahead
            },
            None => ahead,
        }
    }
}

/// The document that an index entry refers to.
pub fn recover_id_from_entry(entry: &(Vec<u8>, Vec<u8>), kind: IndexKind) -> (r: Option<u64>)
    ensures
        r == entry_id(kind, *entry),
{
    let found: Option<Id> = match kind {
        IndexKind::Unique => Id::from_be_bytes(entry.1.as_slice()),
        _ => {
            let key: &[u8] = entry.0.as_slice();
            let n: usize = key.len();
            if n < 8 {
                return None;
            }
            let suffix: &[u8] = vstd::slice::slice_subrange(key, n - 8, n);
            proof {
                assert(suffix@ =~= entry.0@.skip(n - 8));
            }
            Id::from_be_bytes(suffix)
        },
    };
    match found {
        Some(x) => Some(x.get()),
        None => None,
    }
}

/// What a scan that ended in `end` behind `n` entries makes the caller of it
/// return.
pub open spec fn scan_outcome(end: ScanEnd, n: nat, overflow: Error) -> Result<u64, Error> {
    match end {
        ScanEnd::Complete => Ok(n as u64),
        ScanEnd::Refused(e) => if e is Corruption {
            Ok(0)
        } else {
            Err(e)
        },
        ScanEnd::Broken(e) => if n + 1 > u64::MAX {
            Err(overflow)
        } else if e is Corruption {
            Ok((n + 1) as u64)
        } else {
            Err(e)
        },
    }
}

/// The damage that ended a scan behind `n` entries.
pub open spec fn scan_faults(end: ScanEnd, n: nat) -> Seq<Fault> {
    match end {
        ScanEnd::Refused(Error::Corruption { page_id }) => seq![Fault::Checksum(page_id)],
        ScanEnd::Broken(Error::Corruption { page_id }) => if n + 1 > u64::MAX {
            seq![]
        } else {
            seq![Fault::Checksum(page_id)]
        },
        _ => seq![],
    }
}

/// The entries that a scan gave.
pub open spec fn scanned(scan: TreeScan) -> Seq<(Vec<u8>, Vec<u8>)> {
    if scan.end is Refused {
        seq![]
    } else {
        scan.entries@
    }
}

/// Report the entries of an index, of which `scan` is a scan, that refer to no
/// document in `primary_ids`. The documents that they do refer to go to
/// `referenced_ids`. The result is the number of entries that were scanned.
pub fn cross_reference_index(
    collection: &str,
    index: &IndexDescriptor,
    scan: TreeScan,
    primary_ids: &HashSet<u64>,
    referenced_ids: &mut HashSet<u64>,
    failures: &mut Vec<IntegrityFailure>,
) -> (r: Result<u64, Error>)
    ensures
        index.root_page_id == 0 ==> {
            &&& r == Ok::<u64, Error>(0)
            &&& final(referenced_ids)@ == old(referenced_ids)@
            &&& final(failures)@ == old(failures)@
        },
        index.root_page_id != 0 ==> {
            &&& r == scan_outcome(
                scan.end,
                scan.entries@.len(),
                Error::BTreeInvariantViolated { reason: "index entry count overflow" },
            )
            &&& final(referenced_ids)@ == old(referenced_ids)@.union(
                referenced(index.kind, scanned(scan), primary_ids@),
            )
            &&& report::faults(final(failures)@) == report::faults(old(failures)@) + entry_faults(
                collection@,
                *index,
                scanned(scan),
                primary_ids@,
            ) + scan_faults(scan.end, scan.entries@.len())
        },
{
    if index.root_page_id == 0 {
        return Ok(0);
    }
    let ghost reached = referenced_ids@;
    let ghost before = report::faults(failures@);
    proof {
        assert(reached.union(Set::<u64>::empty()) =~= reached);
        assert(before + Seq::<Fault>::empty() =~= before);
    }
    let entries: Vec<(Vec<u8>, Vec<u8>)> = scan.entries;
    if let ScanEnd::Refused(e) = scan.end {
        return match e {
            Error::Corruption { page_id } => {
                record(failures, IntegrityFailure::ChecksumMismatch { page_id });
                proof {
                    assert(report::faults(failures@) =~= before + Seq::<Fault>::empty()
                        + scan_faults(scan.end, entries@.len()));
                }
                Ok(0)
            },
            e => Err(e),
        };
    }
    let mut i: usize = 0;
    proof {
        assert(entries@.take(0) =~= Seq::<(Vec<u8>, Vec<u8>)>::empty());
    }
    while i < entries.len()
        invariant
            i <= entries.len(),
            referenced_ids@ == reached.union(
                referenced(index.kind, entries@.take(i as int), primary_ids@),
            ),
            report::faults(failures@) == before + entry_faults(
                collection@,
                *index,
                entries@.take(i as int),
                primary_ids@,
            ),
        decreases entries.len() - i,
    {
        proof {
            assert(entries@.take(i + 1).drop_last() =~= entries@.take(i as int));
        }
        match recover_id_from_entry(&entries[i], index.kind) {
            None => {
                record(
                    failures,
                    IntegrityFailure::OrphanIndexEntry {
                        collection: collection.to_owned(),
                        index: index.name.clone(),
                        id: 0,
                    },
                );
            },
            Some(raw) => if primary_ids.contains(&raw) {
                referenced_ids.insert(raw);
            } else {
                record(
                    failures,
                    IntegrityFailure::OrphanIndexEntry {
                        collection: collection.to_owned(),
                        index: index.name.clone(),
                        id: raw,
                    },
                );
            },
        }
        proof {
            assert(referenced_ids@ =~= reached.union(
                referenced(index.kind, entries@.take(i + 1), primary_ids@),
            ));
            assert(report::faults(failures@) =~= before + entry_faults(
                collection@,
                *index,
                entries@.take(i + 1),
                primary_ids@,
            ));
        }
        i = i + 1;
    }
    proof {
        assert(entries@.take(entries.len() as int) =~= entries@);
    }
    let ghost were = report::faults(failures@);
    proof {
        assert(were + Seq::<Fault>::empty() =~= were);
    }
    let count: u64 = i as u64;
    match scan.end {
        ScanEnd::Broken(e) => match count.checked_add(1) {
            None => Err(Error::BTreeInvariantViolated { reason: "index entry count overflow" }),
            Some(n) => match e {
                Error::Corruption { page_id } => {
                    record(failures, IntegrityFailure::ChecksumMismatch { page_id });
                    proof {
                        assert(report::faults(failures@) =~= were + scan_faults(
                            scan.end,
                            entries@.len(),
                        ));
                    }
                    Ok(n)
                },
                e => Err(e),
            },
        },
        _ => Ok(count),
    }
}

/// The documents that keys of a tree of documents spell.
pub open spec fn spelled(entries: Seq<(Vec<u8>, Vec<u8>)>) -> Set<u64>
    decreases entries.len(),
{
    if entries.len() == 0 {
        Set::empty()
    } else {
        match id::id_of(entries.last().0@) {
            Some(x) => spelled(entries.drop_last()).insert(x),
            None => spelled(entries.drop_last()),
        }
    }
}

/// Gather the documents of a collection, of whose tree `scan` is a scan, into
/// `primary_ids`. The result is the number of entries that were scanned.
pub fn collect_primary_ids(
    descriptor: &CollectionDescriptor,
    scan: TreeScan,
    primary_ids: &mut HashSet<u64>,
) -> (r: Result<u64, Error>)
    ensures
        descriptor.primary_root == 0 ==> r == Ok::<u64, Error>(0) && final(primary_ids)@ == old(
            primary_ids,
        )@,
        descriptor.primary_root != 0 ==> {
            &&& r == scan_outcome(
                scan.end,
                scan.entries@.len(),
                Error::BTreeInvariantViolated { reason: "primary entry count overflow" },
            )
            &&& final(primary_ids)@ == old(primary_ids)@.union(spelled(scanned(scan)))
        },
{
    if descriptor.primary_root == 0 {
        return Ok(0);
    }
    let ghost before = primary_ids@;
    proof {
        assert(before.union(Set::<u64>::empty()) =~= before);
    }
    let entries: Vec<(Vec<u8>, Vec<u8>)> = scan.entries;
    if let ScanEnd::Refused(e) = scan.end {
        return match e {
            Error::Corruption { page_id } => Ok(0),
            e => Err(e),
        };
    }
    let mut i: usize = 0;
    proof {
        assert(entries@.take(0) =~= Seq::<(Vec<u8>, Vec<u8>)>::empty());
    }
    while i < entries.len()
        invariant
            i <= entries.len(),
            primary_ids@ == before.union(spelled(entries@.take(i as int))),
        decreases entries.len() - i,
    {
        proof {
            assert(entries@.take(i + 1).drop_last() =~= entries@.take(i as int));
        }
        if let Some(x) = Id::from_be_bytes(entries[i].0.as_slice()) {
            primary_ids.insert(x.get());
        }
        proof {
            assert(primary_ids@ =~= before.union(spelled(entries@.take(i + 1))));
        }
        i = i + 1;
    }
    proof {
        assert(entries@.take(entries.len() as int) =~= entries@);
    }
    let count: u64 = i as u64;
    match scan.end {
        ScanEnd::Broken(e) => match count.checked_add(1) {
            None => Err(Error::BTreeInvariantViolated { reason: "primary entry count overflow" }),
            Some(n) => match e {
                Error::Corruption { page_id } => Ok(n),
                e => Err(e),
            },
        },
        _ => Ok(count),
    }
}

/// The documents in `ids` that no entry of an index refers to.
pub open spec fn missing_faults(
    collection: Seq<char>,
    index: Seq<char>,
    ids: Seq<u64>,
    referenced: Set<u64>,
) -> Seq<Fault>
    decreases ids.len(),
{
    if ids.len() == 0 {
        seq![]
    } else {
        let ahead = missing_faults(collection, index, ids.drop_last(), referenced);
        if referenced.contains(ids.last()) {
            ahead
        } else {
            ahead.push(Fault::MissingEntry(collection, index, ids.last()))
        }
    }
}

/// The same over several indexes. An index over the elements of a sequence may
/// lack any document, for a sequence may be empty.
pub open spec fn all_missing_faults(
    collection: Seq<char>,
    indexes: Seq<(String, IndexKind, HashSet<u64>)>,
    ids: Seq<u64>,
) -> Seq<Fault>
    decreases indexes.len(),
{
    if indexes.len() == 0 {
        seq![]
    } else {
        let ahead = all_missing_faults(collection, indexes.drop_last(), ids);
        let (name, kind, referenced) = indexes.last();
        if kind is Each {
            ahead
        } else {
            ahead + missing_faults(collection, name@, ids, referenced@)
        }
    }
}

/// Every index in use of a collection is among those that were gone through.
pub open spec fn all_gone_through(
    descriptor: CollectionDescriptor,
    indexes: Seq<(String, IndexKind, HashSet<u64>)>,
) -> bool {
    forall|i: int|
        0 <= i < descriptor.indexes@.len() && (#[trigger] descriptor.indexes@[i]).status is Active
            ==> exists|j: int|
            0 <= j < indexes.len() && (#[trigger] indexes[j]).0@ == descriptor.indexes@[i].name@
}

/// Report the documents of a collection that an index must have an entry for
/// and has not. For each index, the documents come in increasing order.
pub fn check_primary_to_index(
    collection: &str,
    descriptor: &CollectionDescriptor,
    primary_ids: &HashSet<u64>,
    per_index_referenced: &[(String, IndexKind, HashSet<u64>)],
    failures: &mut Vec<IntegrityFailure>,
)
    requires
        all_gone_through(*descriptor, per_index_referenced@),
    ensures
        exists|ids: Seq<u64>|
            {
                &&& ordered::increasing(ids)
                &&& ids.to_set() == primary_ids@
                &&& report::faults(final(failures)@) == report::faults(old(failures)@)
                    + #[trigger] all_missing_faults(collection@, per_index_referenced@, ids)
            },
{
    let ids: Vec<u64> = sorted_members(primary_ids);
    let ghost before = report::faults(failures@);
    let mut k: usize = 0;
    proof {
        assert(per_index_referenced@.take(0) =~= Seq::<(String, IndexKind, HashSet<u64>)>::empty());
        assert(before + Seq::<Fault>::empty() =~= before);
    }
    while k < per_index_referenced.len()
        invariant
            k <= per_index_referenced@.len(),
            report::faults(failures@) == before + all_missing_faults(
                collection@,
                per_index_referenced@.take(k as int),
                ids@,
            ),
        decreases per_index_referenced.len() - k,
    {
        let (name, kind, referenced) = &per_index_referenced[k];
        let ghost were = report::faults(failures@);
        proof {
            assert(per_index_referenced@.take(k + 1).drop_last() =~= per_index_referenced@.take(
                k as int,
            ));
            assert(per_index_referenced@.take(k + 1).last() == per_index_referenced@[k as int]);
        }
        if !matches!(*kind, IndexKind::Each) {
            report_missing(collection, name.as_str(), &ids, referenced, failures);
        }
        proof {
            assert(report::faults(failures@) =~= before + all_missing_faults(
                collection@,
                per_index_referenced@.take(k + 1),
                ids@,
            ));
        }
        k = k + 1;
    }
    proof {
        assert(per_index_referenced@.take(per_index_referenced@.len() as int)
            =~= per_index_referenced@);
    }
}

/// Report the documents in `ids` that no entry of an index refers to.
fn report_missing(
    collection: &str,
    index: &str,
    ids: &Vec<u64>,
    referenced: &HashSet<u64>,
    failures: &mut Vec<IntegrityFailure>,
)
    ensures
        report::faults(final(failures)@) == report::faults(old(failures)@) + missing_faults(
            collection@,
            index@,
            ids@,
            referenced@,
        ),
{
    let ghost before = report::faults(failures@);
    let mut i: usize = 0;
    proof {
        assert(ids@.take(0) =~= Seq::<u64>::empty());
        assert(before + Seq::<Fault>::empty() =~= before);
    }
    while i < ids.len()
        invariant
            i <= ids.len(),
            report::faults(failures@) == before + missing_faults(
                collection@,
                index@,
                ids@.take(i as int),
                referenced@,
            ),
        decreases ids.len() - i,
    {
        proof {
            assert(ids@.take(i + 1).drop_last() =~= ids@.take(i as int));
        }
        if !referenced.contains(&ids[i]) {
            record(
                failures,
                IntegrityFailure::MissingIndexEntry {
                    collection: collection.to_owned(),
                    index: index.to_owned(),
                    id: ids[i],
                },
            );
        }
        proof {
            assert(report::faults(failures@) =~= before + missing_faults(
                collection@,
                index@,
                ids@.take(i + 1),
                referenced@,
            ));
        }
        i = i + 1;
    }
    proof {
        assert(ids@.take(ids.len() as int) =~= ids@);
    }
}

/// An index that nothing was found to be wrong with, in either direction,
/// refers to the documents of its collection and to nothing else.
pub proof fn law_clean_index_matches_documents(
    collection: Seq<char>,
    index: IndexDescriptor,
    entries: Seq<(Vec<u8>, Vec<u8>)>,
    primary: Set<u64>,
    ids: Seq<u64>,
)
    requires
        ids.to_set() == primary,
        entry_faults(collection, index, entries, primary).len() == 0,
        missing_faults(
            collection,
            index.name@,
            ids,
            referenced(index.kind, entries, primary),
        ).len() == 0,
    ensures
        referenced(index.kind, entries, primary) == primary,
        forall|i: int|
            0 <= i < entries.len() ==> (#[trigger] entry_id(index.kind, entries[i])) is Some
                && primary.contains(entry_id(index.kind, entries[i])->0),
{
    let refs = referenced(index.kind, entries, primary);
    lemma_entries_refer(collection, index, entries, primary);
    lemma_none_missing(collection, index.name@, ids, refs);
    assert(refs =~= primary) by {
        assert forall|x: u64| primary.contains(x) implies refs.contains(x) by {
            assert(ids.to_set().contains(x));
            assert(ids.contains(x));
        }
    }
}

proof fn lemma_entries_refer(
    collection: Seq<char>,
    index: IndexDescriptor,
    entries: Seq<(Vec<u8>, Vec<u8>)>,
    primary: Set<u64>,
)
    ensures
        referenced(index.kind, entries, primary).subset_of(primary),
        entry_faults(collection, index, entries, primary).len() == 0 ==> forall|i: int|
            0 <= i < entries.len() ==> (#[trigger] entry_id(index.kind, entries[i])) is Some
                && primary.contains(entry_id(index.kind, entries[i])->0),
    decreases entries.len(),
{
    if entries.len() > 0 {
        let ahead = entries.drop_last();
        lemma_entries_refer(collection, index, ahead, primary);
        if entry_faults(collection, index, entries, primary).len() == 0 {
            assert forall|i: int| 0 <= i < entries.len() implies (#[trigger] entry_id(
                index.kind,
                entries[i],
            )) is Some && primary.contains(entry_id(index.kind, entries[i])->0) by {
                if i < entries.len() - 1 {
                    assert(ahead[i] == entries[i]);
                    assert(entry_id(index.kind, ahead[i]) is Some);
                }
            }
        }
    }
}

proof fn lemma_none_missing(
    collection: Seq<char>,
    index: Seq<char>,
    ids: Seq<u64>,
    referenced: Set<u64>,
)
    requires
        missing_faults(collection, index, ids, referenced).len() == 0,
    ensures
        forall|x: u64| #[trigger] ids.contains(x) ==> referenced.contains(x),
    decreases ids.len(),
{
    if ids.len() > 0 {
        let ahead = ids.drop_last();
        lemma_none_missing(collection, index, ahead, referenced);
        assert forall|x: u64| #[trigger] ids.contains(x) implies referenced.contains(x) by {
            let i = choose|i: int| 0 <= i < ids.len() && ids[i] == x;
            if i < ids.len() - 1 {
                assert(ahead[i] == x);
                assert(ahead.contains(x));
            }
        }
    }
}

/// A point in time.
#[verifier::external_type_specification]
#[verifier::external_body]
pub struct ExInstant(std::time::Instant);

/// The present time.
///
/// Calls `std::time::Instant::now`; nothing is claimed of the value.
#[verifier::external_body]
fn now() -> (r: Instant) {
    Instant::now()
}

/// The time that has passed since `start`.
///
/// Calls `std::time::Instant::elapsed`; nothing is claimed of the value.
#[verifier::external_body]
fn since(start: &Instant) -> (r: Duration) {
    start.elapsed()
}

/// What the rows of the catalog give away.
pub open spec fn catalog_faults(
    rows: Seq<(String, CollectionDescriptor)>,
    page_count: u64,
) -> Seq<Fault>
    decreases rows.len(),
{
    if rows.len() == 0 {
        seq![]
    } else {
        let (name, d) = rows.last();
        catalog_faults(rows.drop_last(), page_count) + row_faults(name@, d, page_count)
    }
}

/// Check the roots in the rows of the catalog. A catalog too damaged to be
/// listed has none.
pub fn list_catalog_for_pointer_check(
    rows: Result<Vec<(String, CollectionDescriptor)>, Error>,
    page_count: u64,
    failures: &mut Vec<IntegrityFailure>,
) -> (r: Result<(), Error>)
    ensures
        match rows {
            Ok(rows) => {
                &&& r is Ok
                &&& report::faults(final(failures)@) == report::faults(old(failures)@)
                    + catalog_faults(rows@, page_count)
            },
            Err(e) => {
                &&& final(failures)@ == old(failures)@
                &&& r == if e is Corruption {
                    Ok(())
                } else {
                    Err::<(), Error>(e)
                }
            },
        },
{
    let rows: Vec<(String, CollectionDescriptor)> = match rows {
        Ok(rows) => rows,
        Err(Error::Corruption { page_id }) => return Ok(()),
        Err(e) => return Err(e),
    };
    let ghost before = report::faults(failures@);
    let mut i: usize = 0;
    proof {
        assert(rows@.take(0) =~= Seq::<(String, CollectionDescriptor)>::empty());
        assert(before + Seq::<Fault>::empty() =~= before);
    }
    while i < rows.len()
        invariant
            i <= rows.len(),
            report::faults(failures@) == before + catalog_faults(rows@.take(i as int), page_count),
        decreases rows.len() - i,
    {
        proof {
            assert(rows@.take(i + 1).drop_last() =~= rows@.take(i as int));
            assert(rows@.take(i + 1).last() == rows@[i as int]);
        }
        check_catalog_pointers(rows[i].0.as_str(), &rows[i].1, page_count, failures);
        proof {
            assert(report::faults(failures@) =~= before + catalog_faults(
                rows@.take(i + 1),
                page_count,
            ));
        }
        i = i + 1;
    }
    proof {
        assert(rows@.take(rows.len() as int) =~= rows@);
    }
    Ok(())
}

/// Check the catalog alone: walk its tree, and check the roots in its rows.
/// `rows` is what listing the catalog gives, which is read only where the
/// catalog has a root inside the file. How long the check took is left open.
pub fn quick_check<F: FileBackend, D: Fn(&Page) -> Result<DecodedNode, Error>>(
    pager: &mut Pager<F>,
    decode: &D,
    rows: Result<Vec<(String, CollectionDescriptor)>, Error>,
) -> (r: Result<IntegrityReport, Error>)
    requires
        old(pager).wf(),
        forall|p: &Page| #[trigger] call_requires(*decode, (p,)),
    ensures
        final(pager).wf(),
        old(pager)@.settled(final(pager)@),
        ({
            let root = old(pager)@.header.root_catalog;
            let page_count = old(pager)@.header.page_count;
            if root == 0 {
                &&& r is Ok
                &&& r->Ok_0.pages_checked == 1
                &&& report::faults(r->Ok_0.failures@) == Seq::<Fault>::empty()
            } else if root >= page_count {
                &&& r is Ok
                &&& r->Ok_0.pages_checked == 1
                &&& report::faults(r->Ok_0.failures@) == seq![
                    Fault::Dangling("<catalog>"@, None, root),
                ]
            } else {
                exists|run: Seq<Walk>, walked: Result<u64, Error>, found: Seq<Fault>, reached: Set<u64>|
                    {
                        &&& #[trigger] walk::walk_ended(
                            old(pager)@,
                            "catalog"@,
                            root,
                            *decode,
                            run,
                            walked,
                            (Set::empty(), reached),
                            (Seq::empty(), found),
                        )
                        &&& match (walked, rows) {
                            (Err(e), _) => r == Err::<IntegrityReport, Error>(e),
                            (Ok(n), Err(e)) => if e is Corruption {
                                &&& r is Ok
                                &&& r->Ok_0.pages_checked == 1 + n
                                &&& report::faults(r->Ok_0.failures@) == found
                            } else {
                                r == Err::<IntegrityReport, Error>(e)
                            },
                            (Ok(n), Ok(rows)) => {
                                &&& r is Ok
                                &&& r->Ok_0.pages_checked == 1 + n
                                &&& report::faults(r->Ok_0.failures@) == found + catalog_faults(
                                    rows@,
                                    page_count,
                                )
                            },
                        }
                    }
            }
        }),
{
    let ghost v = pager@;
    let start: Instant = now();
    let mut failures: Vec<IntegrityFailure> = Vec::new();
    let mut reachable: HashSet<u64> = HashSet::new();
    let page_count: u64 = pager.page_count();
    let mut pages_checked: u64 = 1;
    proof {
        assert(report::faults(failures@) =~= Seq::<Fault>::empty());
    }
    if let Some(root) = PageId::new(pager.root_catalog()) {
        if root.get() >= page_count {
            record(
                &mut failures,
                IntegrityFailure::DanglingCatalogPointer {
                    collection: "<catalog>".to_owned(),
                    index: None,
                    page_id: root.get(),
                },
            );
            proof {
                assert(report::faults(failures@) =~= seq![
                    Fault::Dangling("<catalog>"@, None, root@),
                ]);
            }
        } else {
            let ctx = TreeContext { label: "catalog".to_owned(), root };
            let walked: Result<u64, Error> = walk_btree(
                pager,
                &ctx,
                decode,
                &mut reachable,
                &mut failures,
            );
            let ghost found = report::faults(failures@);
            proof {
                let run = choose|run: Seq<Walk>| #[trigger]
                    walk::walk_ended(
                        v,
                        ctx.label@,
                        ctx.root@,
                        *decode,
                        run,
                        walked,
                        (Set::empty(), reachable@),
                        (Seq::empty(), found),
                    );
                assert(walk::walk_ended(
                    v,
                    "catalog"@,
                    root@,
                    *decode,
                    run,
                    walked,
                    (Set::empty(), reachable@),
                    (Seq::empty(), found),
                ));
            }
            let walked: u64 = match walked {
                Ok(n) => n,
                Err(e) => return Err(e),
            };
            pages_checked = pages_checked.saturating_add(walked);
            match list_catalog_for_pointer_check(rows, page_count, &mut failures) {
                Ok(_) => {},
                Err(e) => return Err(e),
            }
        }
    }
    Ok(IntegrityReport::new(failures, pages_checked, since(&start)))
}

/// The documents that an index lacks are reported one by one, in the order in
/// which they are listed, and no others are.
pub proof fn law_lacking_documents_are_reported(
    collection: Seq<char>,
    index: Seq<char>,
    ids: Seq<u64>,
    referenced: Set<u64>,
)
    ensures
        missing_faults(collection, index, ids, referenced) == ids.filter(
            |x: u64| !referenced.contains(x),
        ).map_values(|x: u64| Fault::MissingEntry(collection, index, x)),
    decreases ids.len(),
{
    let lacks = |x: u64| !referenced.contains(x);
    let report = |x: u64| Fault::MissingEntry(collection, index, x);
    reveal(Seq::filter);
    if ids.len() > 0 {
        law_lacking_documents_are_reported(collection, index, ids.drop_last(), referenced);
        let ahead = ids.drop_last().filter(lacks);
        if lacks(ids.last()) {
            assert(ids.filter(lacks) == ahead.push(ids.last()));
            assert(ahead.push(ids.last()).map_values(report) =~= ahead.map_values(report).push(
                report(ids.last()),
            ));
        }
    }
    assert(missing_faults(collection, index, ids, referenced) =~= ids.filter(lacks).map_values(
        report,
    ));
}

/// Of every standard, unique and composite index that was gone through, and of
/// every document that it does not refer to, a missing entry is reported, and no
/// other missing entry is. An index on the elements of a sequence need not refer
/// to any document.
pub proof fn law_every_lacking_document_is_reported(
    collection: Seq<char>,
    indexes: Seq<(String, IndexKind, HashSet<u64>)>,
    ids: Seq<u64>,
)
    ensures
        forall|j: int, id: u64|
            0 <= j < indexes.len() && (indexes[j].1 is Standard || indexes[j].1 is Unique
                || indexes[j].1 is Composite) && #[trigger] ids.contains(id) && !(
            #[trigger] indexes[j]).2@.contains(id) ==> all_missing_faults(
                collection,
                indexes,
                ids,
            ).contains(Fault::MissingEntry(collection, indexes[j].0@, id)),
        forall|f: Fault| #[trigger]
            all_missing_faults(collection, indexes, ids).contains(f) ==> exists|j: int, id: u64|
                {
                    &&& 0 <= j < indexes.len()
                    &&& !(indexes[j].1 is Each)
                    &&& #[trigger] ids.contains(id)
                    &&& !(#[trigger] indexes[j]).2@.contains(id)
                    &&& f == Fault::MissingEntry(collection, indexes[j].0@, id)
                },
    decreases indexes.len(),
{
    if indexes.len() > 0 {
        let some = indexes.drop_last();
        let (name, kind, referenced) = indexes.last();
        let n = indexes.len() - 1;
        let ahead = all_missing_faults(collection, some, ids);
        let own = missing_faults(collection, name@, ids, referenced@);
        let all = all_missing_faults(collection, indexes, ids);
        law_every_lacking_document_is_reported(collection, some, ids);
        lemma_lacking(collection, name@, ids, referenced@);
        assert(all == if kind is Each {
            ahead
        } else {
            ahead + own
        });
        assert forall|j: int, id: u64|
            0 <= j < indexes.len() && (indexes[j].1 is Standard || indexes[j].1 is Unique
                || indexes[j].1 is Composite) && #[trigger] ids.contains(id) && !(
            #[trigger] indexes[j]).2@.contains(id) implies all.contains(
            Fault::MissingEntry(collection, indexes[j].0@, id),
        ) by {
            let f = Fault::MissingEntry(collection, indexes[j].0@, id);
            if j < n {
                assert(some[j] == indexes[j]);
                assert(ahead.contains(f));
                let k = ahead.index_of(f);
                assert(all[k] == f);
            } else {
                assert(own.contains(f));
                let k = own.index_of(f);
                assert(all[ahead.len() + k] == f);
            }
        }
        assert forall|f: Fault| #[trigger] all.contains(f) implies exists|j: int, id: u64|
            {
                &&& 0 <= j < indexes.len()
                &&& !(indexes[j].1 is Each)
                &&& #[trigger] ids.contains(id)
                &&& !(#[trigger] indexes[j]).2@.contains(id)
                &&& f == Fault::MissingEntry(collection, indexes[j].0@, id)
            } by {
            let k = all.index_of(f);
            if k < ahead.len() {
                assert(ahead[k] == f);
                assert(ahead.contains(f));
                let (j, id) = choose|j: int, id: u64|
                    {
                        &&& 0 <= j < some.len()
                        &&& !(some[j].1 is Each)
                        &&& #[trigger] ids.contains(id)
                        &&& !(#[trigger] some[j]).2@.contains(id)
                        &&& f == Fault::MissingEntry(collection, some[j].0@, id)
                    };
                assert(indexes[j] == some[j]);
                assert(ids.contains(id));
            } else {
                assert(own[k - ahead.len()] == f);
                assert(own.contains(f));
                let id = choose|id: u64| #[trigger]
                    ids.contains(id) && !referenced@.contains(id) && f == Fault::MissingEntry(
                        collection,
                        name@,
                        id,
                    );
                assert(indexes[n].0@ == name@);
                assert(ids.contains(id));
            }
        }
    }
}

proof fn lemma_lacking(
    collection: Seq<char>,
    index: Seq<char>,
    ids: Seq<u64>,
    referenced: Set<u64>,
)
    ensures
        forall|id: u64| #[trigger]
            ids.contains(id) && !referenced.contains(id) ==> missing_faults(
                collection,
                index,
                ids,
                referenced,
            ).contains(Fault::MissingEntry(collection, index, id)),
        forall|f: Fault| #[trigger]
            missing_faults(collection, index, ids, referenced).contains(f) ==> exists|id: u64|
                #[trigger] ids.contains(id) && !referenced.contains(id) && f
                    == Fault::MissingEntry(collection, index, id),
    decreases ids.len(),
{
    if ids.len() > 0 {
        let some = ids.drop_last();
        let x = ids.last();
        let ahead = missing_faults(collection, index, some, referenced);
        let all = missing_faults(collection, index, ids, referenced);
        lemma_lacking(collection, index, some, referenced);
        assert forall|id: u64| #[trigger]
            ids.contains(id) && !referenced.contains(id) implies all.contains(
            Fault::MissingEntry(collection, index, id),
        ) by {
            let f = Fault::MissingEntry(collection, index, id);
            if id == x {
                assert(all.last() == f);
            } else {
                let i = ids.index_of(id);
                assert(some[i] == id);
                assert(some.contains(id));
                let k = ahead.index_of(f);
                assert(all[k] == f);
            }
        }
        assert forall|f: Fault| #[trigger] all.contains(f) implies exists|id: u64| #[trigger]
            ids.contains(id) && !referenced.contains(id) && f == Fault::MissingEntry(
                collection,
                index,
                id,
            ) by {
            let k = all.index_of(f);
            if k < ahead.len() {
                assert(ahead[k] == f);
                assert(ahead.contains(f));
                let id = choose|id: u64| #[trigger]
                    some.contains(id) && !referenced.contains(id) && f == Fault::MissingEntry(
                        collection,
                        index,
                        id,
                    );
                let i = some.index_of(id);
                assert(ids[i] == id);
                assert(ids.contains(id));
            } else {
                assert(ids[ids.len() - 1] == x);
                assert(ids.contains(x));
            }
        }
    }
}

/// What is reported of several indexes is what is reported of each, one after
/// the other.
pub proof fn law_indexes_are_reported_one_by_one(
    collection: Seq<char>,
    a: Seq<(String, IndexKind, HashSet<u64>)>,
    b: Seq<(String, IndexKind, HashSet<u64>)>,
    ids: Seq<u64>,
)
    ensures
        all_missing_faults(collection, a + b, ids) == all_missing_faults(collection, a, ids)
            + all_missing_faults(collection, b, ids),
    decreases b.len(),
{
    if b.len() == 0 {
        assert(a + b =~= a);
    } else {
        law_indexes_are_reported_one_by_one(collection, a, b.drop_last(), ids);
        assert((a + b).drop_last() =~= a + b.drop_last());
        assert((a + b).last() == b.last());
    }
    assert(all_missing_faults(collection, a + b, ids) =~= all_missing_faults(collection, a, ids)
        + all_missing_faults(collection, b, ids));
}

/// An entry of a unique index refers to the document that its value spells, and
/// one of any other index to the one that the last eight bytes of its key spell;
/// there is no document zero.
pub proof fn law_entries_spell_their_document(
    kind: IndexKind,
    entry: (Vec<u8>, Vec<u8>),
    x: u64,
)
    ensures
        kind is Unique ==> (entry_id(kind, entry) == Some(x) <==> entry.1@.len() == 8 && x != 0
            && crate::bytes::be_nat(entry.1@) == x),
        !(kind is Unique) ==> (entry_id(kind, entry) == Some(x) <==> entry.0@.len() >= 8 && x != 0
            && crate::bytes::be_nat(entry.0@.subrange(entry.0@.len() - 8, entry.0@.len() as int))
            == x),
{
    crate::bytes::lemma_pow256();
    crate::bytes::lemma_be_bound(entry.1@);
    if entry.0@.len() >= 8 {
        let tail = entry.0@.skip(entry.0@.len() - 8);
        crate::bytes::lemma_be_bound(tail);
        assert(tail =~= entry.0@.subrange(entry.0@.len() - 8, entry.0@.len() as int));
    }
}

/// The documents that an index refers to are those of the collection that one
/// of its entries refers to. An entry is reported exactly where it refers to no
/// document of the collection, under the document that it refers to or zero.
pub proof fn law_orphans_are_reported(
    collection: Seq<char>,
    index: IndexDescriptor,
    entries: Seq<(Vec<u8>, Vec<u8>)>,
    primary: Set<u64>,
)
    ensures
        forall|x: u64| #[trigger]
            referenced(index.kind, entries, primary).contains(x) <==> primary.contains(x)
                && exists|i: int|
                0 <= i < entries.len() && #[trigger] entry_id(index.kind, entries[i]) == Some(x),
        forall|i: int|
            0 <= i < entries.len() && (#[trigger] entry_id(index.kind, entries[i]) is None
                || !primary.contains(entry_id(index.kind, entries[i])->0)) ==> entry_faults(
                collection,
                index,
                entries,
                primary,
            ).contains(
                Fault::OrphanEntry(
                    collection,
                    index.name@,
                    match entry_id(index.kind, entries[i]) {
                        Some(x) => x,
                        None => 0,
                    },
                ),
            ),
        forall|f: Fault| #[trigger]
            entry_faults(collection, index, entries, primary).contains(f) ==> exists|i: int|
                {
                    &&& 0 <= i < entries.len()
                    &&& #[trigger] entry_id(index.kind, entries[i]) is None || !primary.contains(
                        entry_id(index.kind, entries[i])->0,
                    )
                    &&& f == Fault::OrphanEntry(
                        collection,
                        index.name@,
                        match entry_id(index.kind, entries[i]) {
                            Some(x) => x,
                            None => 0,
                        },
                    )
                },
        entry_faults(collection, index, entries, primary).len() <= entries.len(),
    decreases entries.len(),
{
    if entries.len() > 0 {
        let some = entries.drop_last();
        let n = entries.len() - 1;
        let ahead = entry_faults(collection, index, some, primary);
        let all = entry_faults(collection, index, entries, primary);
        let last = entry_id(index.kind, entries[n]);
        law_orphans_are_reported(collection, index, some, primary);
        assert forall|i: int| 0 <= i < n implies some[i] == entries[i] by {}
        assert forall|x: u64| #[trigger]
            referenced(index.kind, entries, primary).contains(x) <==> primary.contains(x)
                && exists|i: int|
                0 <= i < entries.len() && #[trigger] entry_id(index.kind, entries[i]) == Some(
                    x,
                ) by {
            if referenced(index.kind, some, primary).contains(x) {
                let i = choose|i: int|
                    0 <= i < some.len() && #[trigger] entry_id(index.kind, some[i]) == Some(x);
                assert(entry_id(index.kind, entries[i]) == Some(x));
            }
            if primary.contains(x) && exists|i: int|
                0 <= i < entries.len() && #[trigger] entry_id(index.kind, entries[i]) == Some(x) {
                let i = choose|i: int|
                    0 <= i < entries.len() && #[trigger] entry_id(index.kind, entries[i]) == Some(
                        x,
                    );
                if i < n {
                    assert(entry_id(index.kind, some[i]) == Some(x));
                }
            }
        }
        assert forall|i: int|
            0 <= i < entries.len() && (#[trigger] entry_id(index.kind, entries[i]) is None
                || !primary.contains(entry_id(index.kind, entries[i])->0)) implies all.contains(
            Fault::OrphanEntry(
                collection,
                index.name@,
                match entry_id(index.kind, entries[i]) {
                    Some(x) => x,
                    None => 0,
                },
            ),
        ) by {
            let f = Fault::OrphanEntry(
                collection,
                index.name@,
                match entry_id(index.kind, entries[i]) {
                    Some(x) => x,
                    None => 0,
                },
            );
            if i < n {
                assert(entry_id(index.kind, some[i]) == entry_id(index.kind, entries[i]));
                assert(ahead.contains(f));
                assert(all[ahead.index_of(f)] == f);
            } else {
                assert(all.last() == f);
            }
        }
        assert forall|f: Fault| #[trigger] all.contains(f) implies exists|i: int|
            {
                &&& 0 <= i < entries.len()
                &&& #[trigger] entry_id(index.kind, entries[i]) is None || !primary.contains(
                    entry_id(index.kind, entries[i])->0,
                )
                &&& f == Fault::OrphanEntry(
                    collection,
                    index.name@,
                    match entry_id(index.kind, entries[i]) {
                        Some(x) => x,
                        None => 0,
                    },
                )
            } by {
            let k = all.index_of(f);
            if k < ahead.len() {
                assert(ahead[k] == f);
                assert(ahead.contains(f));
                let i = choose|i: int|
                    {
                        &&& 0 <= i < some.len()
                        &&& #[trigger] entry_id(index.kind, some[i]) is None || !primary.contains(
                            entry_id(index.kind, some[i])->0,
                        )
                        &&& f == Fault::OrphanEntry(
                            collection,
                            index.name@,
                            match entry_id(index.kind, some[i]) {
                                Some(x) => x,
                                None => 0,
                            },
                        )
                    };
                assert(entry_id(index.kind, entries[i]) == entry_id(index.kind, some[i]));
            } else {
                assert(entry_id(index.kind, entries[n]) == last);
            }
        }
    }
}

/// The documents of a collection are those that the keys of eight bytes of its
/// tree spell; there is no document zero.
pub proof fn law_documents_are_spelled_by_keys(entries: Seq<(Vec<u8>, Vec<u8>)>, x: u64)
    ensures
        spelled(entries).contains(x) <==> x != 0 && exists|i: int|
            0 <= i < entries.len() && (#[trigger] entries[i]).0@.len() == 8
                && crate::bytes::be_nat(entries[i].0@) == x,
    decreases entries.len(),
{
    if entries.len() > 0 {
        let some = entries.drop_last();
        let n = entries.len() - 1;
        law_documents_are_spelled_by_keys(some, x);
        crate::bytes::lemma_pow256();
        crate::bytes::lemma_be_bound(entries[n].0@);
        if spelled(some).contains(x) {
            let i = choose|i: int|
                0 <= i < some.len() && (#[trigger] some[i]).0@.len() == 8 && crate::bytes::be_nat(
                    some[i].0@,
                ) == x;
            assert(entries[i] == some[i]);
        }
        if x != 0 && exists|i: int|
            0 <= i < entries.len() && (#[trigger] entries[i]).0@.len() == 8
                && crate::bytes::be_nat(entries[i].0@) == x {
            let i = choose|i: int|
                0 <= i < entries.len() && (#[trigger] entries[i]).0@.len() == 8
                    && crate::bytes::be_nat(entries[i].0@) == x;
            if i < n {
                assert(some[i] == entries[i]);
            }
        }
    }
}

/// The root of a collection, and of each of its indexes in use, is reported
/// exactly where it is zero or beyond the end of the file.
pub proof fn law_dangling_roots_are_reported(
    collection: Seq<char>,
    d: CollectionDescriptor,
    page_count: u64,
)
    ensures
        row_faults(collection, d, page_count).contains(
            Fault::Dangling(collection, None, d.primary_root),
        ) <==> d.primary_root == 0 || d.primary_root >= page_count,
        forall|i: int|
            0 <= i < d.indexes@.len() && (#[trigger] d.indexes@[i]).status is Active && (
            d.indexes@[i].root_page_id == 0 || d.indexes@[i].root_page_id >= page_count)
                ==> row_faults(collection, d, page_count).contains(
                Fault::Dangling(collection, Some(d.indexes@[i].name@), d.indexes@[i].root_page_id),
            ),
        forall|f: Fault| #[trigger]
            row_faults(collection, d, page_count).contains(f) ==> f == Fault::Dangling(
                collection,
                None,
                d.primary_root,
            ) || exists|i: int|
                {
                    &&& 0 <= i < d.indexes@.len()
                    &&& (#[trigger] d.indexes@[i]).status is Active
                    &&& d.indexes@[i].root_page_id == 0 || d.indexes@[i].root_page_id >= page_count
                    &&& f == Fault::Dangling(
                        collection,
                        Some(d.indexes@[i].name@),
                        d.indexes@[i].root_page_id,
                    )
                },
{
    let own = index_faults(collection, d.indexes@, page_count);
    let all = row_faults(collection, d, page_count);
    let first = Fault::Dangling(collection, None, d.primary_root);
    lemma_dangling_indexes(collection, d.indexes@, page_count);
    let m = all.len() - own.len();
    assert(all.skip(m) =~= own);
    if d.primary_root == 0 || d.primary_root >= page_count {
        assert(all[0] == first);
    } else {
        assert(all =~= own);
    }
    assert forall|f: Fault| own.contains(f) implies all.contains(f) by {
        let k = own.index_of(f);
        assert(all[m + k] == f);
    }
    assert forall|f: Fault| #[trigger] all.contains(f) implies f == first && m == 1
        || own.contains(f) by {
        let k = all.index_of(f);
        if k >= m {
            assert(own[k - m] == f);
        }
    }
}

proof fn lemma_dangling_indexes(
    collection: Seq<char>,
    indexes: Seq<IndexDescriptor>,
    page_count: u64,
)
    ensures
        forall|i: int|
            0 <= i < indexes.len() && (#[trigger] indexes[i]).status is Active && (
            indexes[i].root_page_id == 0 || indexes[i].root_page_id >= page_count)
                ==> index_faults(collection, indexes, page_count).contains(
                Fault::Dangling(collection, Some(indexes[i].name@), indexes[i].root_page_id),
            ),
        forall|f: Fault| #[trigger]
            index_faults(collection, indexes, page_count).contains(f) ==> exists|i: int|
                {
                    &&& 0 <= i < indexes.len()
                    &&& (#[trigger] indexes[i]).status is Active
                    &&& indexes[i].root_page_id == 0 || indexes[i].root_page_id >= page_count
                    &&& f == Fault::Dangling(
                        collection,
                        Some(indexes[i].name@),
                        indexes[i].root_page_id,
                    )
                },
    decreases indexes.len(),
{
    if indexes.len() > 0 {
        let some = indexes.drop_last();
        let n = indexes.len() - 1;
        let ahead = index_faults(collection, some, page_count);
        let all = index_faults(collection, indexes, page_count);
        lemma_dangling_indexes(collection, some, page_count);
        assert forall|i: int|
            0 <= i < indexes.len() && (#[trigger] indexes[i]).status is Active && (
            indexes[i].root_page_id == 0 || indexes[i].root_page_id
                >= page_count) implies all.contains(
            Fault::Dangling(collection, Some(indexes[i].name@), indexes[i].root_page_id),
        ) by {
            let f = Fault::Dangling(
                collection,
                Some(indexes[i].name@),
                indexes[i].root_page_id,
            );
            if i < n {
                assert(some[i] == indexes[i]);
                assert(ahead.contains(f));
                assert(all[ahead.index_of(f)] == f);
            } else {
                assert(all.last() == f);
            }
        }
        assert forall|f: Fault| #[trigger] all.contains(f) implies exists|i: int|
            {
                &&& 0 <= i < indexes.len()
                &&& (#[trigger] indexes[i]).status is Active
                &&& indexes[i].root_page_id == 0 || indexes[i].root_page_id >= page_count
                &&& f == Fault::Dangling(
                    collection,
                    Some(indexes[i].name@),
                    indexes[i].root_page_id,
                )
            } by {
            let k = all.index_of(f);
            if k < ahead.len() {
                assert(ahead[k] == f);
                assert(ahead.contains(f));
                let i = choose|i: int|
                    {
                        &&& 0 <= i < some.len()
                        &&& (#[trigger] some[i]).status is Active
                        &&& some[i].root_page_id == 0 || some[i].root_page_id >= page_count
                        &&& f == Fault::Dangling(
                            collection,
                            Some(some[i].name@),
                            some[i].root_page_id,
                        )
                    };
                assert(indexes[i] == some[i]);
            } else {
                assert(indexes[n] == indexes.last());
            }
        }
    }
}

/// What is reported of the catalog is what is reported of each of its rows, one
/// after the other.
pub proof fn law_rows_are_reported_one_by_one(
    a: Seq<(String, CollectionDescriptor)>,
    b: Seq<(String, CollectionDescriptor)>,
    row: (String, CollectionDescriptor),
    page_count: u64,
)
    ensures
        catalog_faults(a + b, page_count) == catalog_faults(a, page_count) + catalog_faults(
            b,
            page_count,
        ),
        catalog_faults(seq![row], page_count) == row_faults(row.0@, row.1, page_count),
        catalog_faults(Seq::empty(), page_count) == Seq::<Fault>::empty(),
    decreases b.len(),
{
    assert(seq![row].drop_last() =~= Seq::<(String, CollectionDescriptor)>::empty());
    assert(catalog_faults(Seq::empty(), page_count) =~= Seq::<Fault>::empty());
    assert(catalog_faults(seq![row], page_count) =~= row_faults(row.0@, row.1, page_count));
    if b.len() == 0 {
        assert(a + b =~= a);
    } else {
        law_rows_are_reported_one_by_one(a, b.drop_last(), row, page_count);
        assert((a + b).drop_last() =~= a + b.drop_last());
        assert((a + b).last() == b.last());
    }
    assert(catalog_faults(a + b, page_count) =~= catalog_faults(a, page_count) + catalog_faults(
        b,
        page_count,
    ));
}

/// A scan that came to the end of its tree counts its entries. Damage that ends
/// a scan is reported under the page where it is, and leaves a count; any other
/// error is handed on.
pub proof fn law_damage_does_not_stop_a_scan(n: nat, page_id: u64, e: Error, overflow: Error)
    requires
        n < u64::MAX,
        !(e is Corruption),
    ensures
        scan_outcome(ScanEnd::Complete, n, overflow) == Ok::<u64, Error>(n as u64),
        scan_faults(ScanEnd::Complete, n).len() == 0,
        scan_outcome(ScanEnd::Refused(Error::Corruption { page_id }), n, overflow) == Ok::<
            u64,
            Error,
        >(0),
        scan_outcome(ScanEnd::Broken(Error::Corruption { page_id }), n, overflow) == Ok::<
            u64,
            Error,
        >((n + 1) as u64),
        scan_faults(ScanEnd::Refused(Error::Corruption { page_id }), n) == seq![
            Fault::Checksum(page_id),
        ],
        scan_faults(ScanEnd::Broken(Error::Corruption { page_id }), n) == seq![
            Fault::Checksum(page_id),
        ],
        scan_outcome(ScanEnd::Refused(e), n, overflow) == Err::<u64, Error>(e),
        scan_outcome(ScanEnd::Broken(e), n, overflow) == Err::<u64, Error>(e),
{
}

/// What is reported of the entries of an index is what is reported of each, one
/// after the other: one report at most, and none of an entry that refers to a
/// document of the collection.
pub proof fn law_entries_are_reported_one_by_one(
    collection: Seq<char>,
    index: IndexDescriptor,
    a: Seq<(Vec<u8>, Vec<u8>)>,
    b: Seq<(Vec<u8>, Vec<u8>)>,
    entry: (Vec<u8>, Vec<u8>),
    primary: Set<u64>,
)
    ensures
        entry_faults(collection, index, a + b, primary) == entry_faults(
            collection,
            index,
            a,
            primary,
        ) + entry_faults(collection, index, b, primary),
        entry_faults(collection, index, seq![entry], primary).len() == if entry_id(
            index.kind,
            entry,
        ) is Some && primary.contains(entry_id(index.kind, entry)->0) {
            0nat
        } else {
            1nat
        },
    decreases b.len(),
{
    assert(seq![entry].drop_last() =~= Seq::<(Vec<u8>, Vec<u8>)>::empty());
    assert(entry_faults(collection, index, Seq::empty(), primary) =~= Seq::<Fault>::empty());
    if b.len() == 0 {
        assert(a + b =~= a);
    } else {
        law_entries_are_reported_one_by_one(
            collection,
            index,
            a,
            b.drop_last(),
            entry,
            primary,
        );
        assert((a + b).drop_last() =~= a + b.drop_last());
        assert((a + b).last() == b.last());
    }
    assert(entry_faults(collection, index, a + b, primary) =~= entry_faults(
        collection,
        index,
        a,
        primary,
    ) + entry_faults(collection, index, b, primary));
}

/// A scan that was refused gives no entries; any other gives all those that it
/// came to, in order, also where it broke off. Only damage is reported.
pub proof fn law_what_a_scan_gives(scan: TreeScan, e: Error, overflow: Error, n: nat)
    requires
        !(e is Corruption),
    ensures
        scan.end is Refused ==> scanned(scan).len() == 0,
        !(scan.end is Refused) ==> scanned(scan) == scan.entries@,
        scan_faults(ScanEnd::Refused(e), n).len() == 0,
        scan_faults(ScanEnd::Broken(e), n).len() == 0,
        n >= u64::MAX ==> scan_outcome(ScanEnd::Broken(e), n, overflow) == Err::<u64, Error>(
            overflow,
        ),
{
}

} // verus!
