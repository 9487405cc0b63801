//! What an integrity check reports.

use std::time::Duration;
use vstd::prelude::*;

verus! {

/// A violation that the check found, with the place where it was found.
#[derive(Debug, PartialEq, Eq)]
#[non_exhaustive]
#[allow(inconsistent_fields)]
pub enum IntegrityFailure {
    /// The checksum of a page does not fit the page, or the page does not
    /// decode.
    ChecksumMismatch {
        /// The damaged page.
        page_id: u64,
    },
    /// A page that no root leads to.
    OrphanPage {
        /// The page.
        page_id: u64,
    },
    /// An index entry refers to a document that does not exist.
    OrphanIndexEntry {
        /// Owning collection.
        collection: String,
        /// Owning index.
        index: String,
        /// The document that the entry refers to.
        id: u64,
    },
    /// A document has no entry in an index that must have one.
    MissingIndexEntry {
        /// Owning collection.
        collection: String,
        /// Owning index.
        index: String,
        /// The document.
        id: u64,
    },
    /// The keys of a node do not go up.
    BTreeSortViolation {
        /// The node.
        page_id: u64,
    },
    /// A page is the child of two nodes of one tree, or of itself.
    BTreeSiblingChainBroken {
        /// Label of the tree.
        tree: String,
        /// The page.
        page_id: u64,
    },
    /// A tree is deeper, or has more nodes, than a tree may.
    BTreeDepthExceeded {
        /// Label of the tree.
        tree: String,
        /// The bound that was exceeded.
        limit: usize,
    },
    /// The level of a node fits neither its kind nor its parent: a leaf has
    /// level zero, an internal node a higher one, and a child is one level
    /// below its parent.
    BTreeLevelInvariantViolated {
        /// Label of the tree.
        tree: String,
        /// The node.
        page_id: u64,
    },
    /// The catalog refers to a page that the file does not contain.
    DanglingCatalogPointer {
        /// Owning collection.
        collection: String,
        /// Owning index; `None` if the root of the documents dangles.
        index: Option<String>,
        /// The page.
        page_id: u64,
    },
    /// The freelist leads to a page that is no freelist page, to a page that
    /// the file does not contain, or back to itself.
    FreelistChainBroken {
        /// The page.
        page_id: u64,
    },
}

/// A violation, with text as characters.
pub enum Fault {
    /// See [`IntegrityFailure::ChecksumMismatch`].
    Checksum(u64),
    /// See [`IntegrityFailure::OrphanPage`].
    OrphanPage(u64),
    /// See [`IntegrityFailure::OrphanIndexEntry`].
    OrphanEntry(Seq<char>, Seq<char>, u64),
    /// See [`IntegrityFailure::MissingIndexEntry`].
    MissingEntry(Seq<char>, Seq<char>, u64),
    /// See [`IntegrityFailure::BTreeSortViolation`].
    Unsorted(u64),
    /// See [`IntegrityFailure::BTreeSiblingChainBroken`].
    Cycle(Seq<char>, u64),
    /// See [`IntegrityFailure::BTreeDepthExceeded`].
    TooLarge(Seq<char>, usize),
    /// See [`IntegrityFailure::BTreeLevelInvariantViolated`].
    BadLevel(Seq<char>, u64),
    /// See [`IntegrityFailure::DanglingCatalogPointer`].
    Dangling(Seq<char>, Option<Seq<char>>, u64),
    /// See [`IntegrityFailure::FreelistChainBroken`].
    ChainBroken(u64),
}

impl View for IntegrityFailure {
    type V = Fault;

    open spec fn view(&self) -> Fault {
        match *self {
            IntegrityFailure::ChecksumMismatch { page_id } => Fault::Checksum(page_id),
            IntegrityFailure::OrphanPage { page_id } => Fault::OrphanPage(page_id),
            IntegrityFailure::OrphanIndexEntry { collection, index, id } => Fault::OrphanEntry(
                collection@,
                index@,
                id,
            ),
            IntegrityFailure::MissingIndexEntry { collection, index, id } => Fault::MissingEntry(
                collection@,
                index@,
                id,
            ),
            IntegrityFailure::BTreeSortViolation { page_id } => Fault::Unsorted(page_id),
            IntegrityFailure::BTreeSiblingChainBroken { tree, page_id } => Fault::Cycle(
                tree@,
                page_id,
            ),
            IntegrityFailure::BTreeDepthExceeded { tree, limit } => Fault::TooLarge(tree@, limit),
            IntegrityFailure::BTreeLevelInvariantViolated { tree, page_id } => Fault::BadLevel(
                tree@,
                page_id,
            ),
            IntegrityFailure::DanglingCatalogPointer { collection, index, page_id } =>
                Fault::Dangling(
                collection@,
                match index {
                    Some(name) => Some(name@),
                    None => None,
                },
                page_id,
            ),
            IntegrityFailure::FreelistChainBroken { page_id } => Fault::ChainBroken(page_id),
        }
    }
}

impl Clone for IntegrityFailure {
    fn clone(&self) -> (r: Self)
        ensures
            r@ == self@,
    {
        match self {
            IntegrityFailure::ChecksumMismatch { page_id } => IntegrityFailure::ChecksumMismatch {
                page_id: *page_id,
            },
            IntegrityFailure::OrphanPage { page_id } => IntegrityFailure::OrphanPage {
                page_id: *page_id,
            },
            IntegrityFailure::OrphanIndexEntry { collection, index, id } =>
                IntegrityFailure::OrphanIndexEntry {
                collection: collection.clone(),
                index: index.clone(),
                id: *id,
            },
            IntegrityFailure::MissingIndexEntry { collection, index, id } =>
                IntegrityFailure::MissingIndexEntry {
                collection: collection.clone(),
                index: index.clone(),
                id: *id,
            },
            IntegrityFailure::BTreeSortViolation { page_id } =>
                IntegrityFailure::BTreeSortViolation { page_id: *page_id },
            IntegrityFailure::BTreeSiblingChainBroken { tree, page_id } =>
                IntegrityFailure::BTreeSiblingChainBroken { tree: tree.clone(), page_id: *page_id },
            IntegrityFailure::BTreeDepthExceeded { tree, limit } =>
                IntegrityFailure::BTreeDepthExceeded { tree: tree.clone(), limit: *limit },
            IntegrityFailure::BTreeLevelInvariantViolated { tree, page_id } =>
                IntegrityFailure::BTreeLevelInvariantViolated {
                tree: tree.clone(),
                page_id: *page_id,
            },
            IntegrityFailure::DanglingCatalogPointer { collection, index, page_id } =>
                IntegrityFailure::DanglingCatalogPointer {
                collection: collection.clone(),
                index: match index {
                    Some(name) => Some(name.clone()),
                    None => None,
                },
                page_id: *page_id,
            },
            IntegrityFailure::FreelistChainBroken { page_id } =>
                IntegrityFailure::FreelistChainBroken { page_id: *page_id },
        }
    }
}

/// The violations in a list.
pub open spec fn faults(s: Seq<IntegrityFailure>) -> Seq<Fault> {
    Seq::new(s.len(), |i: int| s[i]@)
}

/// Append one violation to a list.
pub fn record(failures: &mut Vec<IntegrityFailure>, failure: IntegrityFailure)
    ensures
        faults(final(failures)@) == faults(old(failures)@).push(failure@),
{
    failures.push(failure);
    proof {
        assert(faults(failures@) =~= faults(old(failures)@).push(failure@));
    }
}

/// The result of an integrity check that came to its end.
#[derive(Debug)]
#[non_exhaustive]
pub struct IntegrityReport {
    /// The violations, in the order in which they were found.
    pub failures: Vec<IntegrityFailure>,
    /// Number of pages that were looked at.
    pub pages_checked: u64,
    /// How long the check took.
    pub elapsed: Duration,
}

impl Clone for IntegrityReport {
    fn clone(&self) -> (r: Self)
        ensures
            faults(r.failures@) == faults(self.failures@),
            r.pages_checked == self.pages_checked,
            r.elapsed == self.elapsed,
    {
        let mut failures: Vec<IntegrityFailure> = Vec::new();
        let mut i: usize = 0;
        while i < self.failures.len()
            invariant
                i <= self.failures.len(),
                faults(failures@) == faults(self.failures@).take(i as int),
            decreases self.failures.len() - i,
        {
            record(&mut failures, self.failures[i].clone());
            proof {
                assert(faults(self.failures@).take(i + 1) =~= faults(self.failures@).take(
                    i as int,
                ).push(self.failures@[i as int]@));
            }
            i = i + 1;
        }
        proof {
            assert(faults(failures@) =~= faults(self.failures@));
        }
        IntegrityReport { failures, pages_checked: self.pages_checked, elapsed: self.elapsed }
    }
}

impl IntegrityReport {
    /// A report of the given parts.
    pub fn new(failures: Vec<IntegrityFailure>, pages_checked: u64, elapsed: Duration) -> (r: Self)
        ensures
            r.failures == failures,
            r.pages_checked == pages_checked,
            r.elapsed == elapsed,
    {
        IntegrityReport { failures, pages_checked, elapsed }
    }

    /// `true` iff nothing was found.
    pub fn is_ok(&self) -> (r: bool)
        ensures
            r == (self.failures@.len() == 0),
    {
        self.failures.is_empty()
    }
}

/// Every kind of violation is told apart from the others, with the place where it
/// was found.
pub proof fn law_violations_are_told_apart(
    page_id: u64,
    id: u64,
    collection: String,
    index: String,
    tree: String,
    limit: usize,
)
    ensures
        (IntegrityFailure::ChecksumMismatch { page_id })@ == Fault::Checksum(page_id),
        (IntegrityFailure::OrphanPage { page_id })@ == Fault::OrphanPage(page_id),
        (IntegrityFailure::OrphanIndexEntry { collection, index, id })@ == Fault::OrphanEntry(
            collection@,
            index@,
            id,
        ),
        (IntegrityFailure::MissingIndexEntry { collection, index, id })@ == Fault::MissingEntry(
            collection@,
            index@,
            id,
        ),
        (IntegrityFailure::BTreeSortViolation { page_id })@ == Fault::Unsorted(page_id),
        (IntegrityFailure::BTreeSiblingChainBroken { tree, page_id })@ == Fault::Cycle(
            tree@,
            page_id,
        ),
        (IntegrityFailure::BTreeDepthExceeded { tree, limit })@ == Fault::TooLarge(tree@, limit),
        (IntegrityFailure::BTreeLevelInvariantViolated { tree, page_id })@ == Fault::BadLevel(
            tree@,
            page_id,
        ),
        (IntegrityFailure::DanglingCatalogPointer { collection, index: None, page_id })@
            == Fault::Dangling(collection@, None, page_id),
        (IntegrityFailure::DanglingCatalogPointer { collection, index: Some(index), page_id })@
            == Fault::Dangling(collection@, Some(index@), page_id),
        (IntegrityFailure::FreelistChainBroken { page_id })@ == Fault::ChainBroken(page_id),
{
}

/// A list of violations is read one by one and in order.
pub proof fn law_violations_are_listed_in_order(s: Seq<IntegrityFailure>, i: int)
    requires
        0 <= i < s.len(),
    ensures
        faults(s).len() == s.len(),
        faults(s)[i] == s[i]@,
{
}

} // verus!
