//! The integrity walk.

use obj_core::btree::{
    DecodedNode, InternalEntry, LeafEntry, NodeKind, MAX_BTREE_DEPTH, MAX_RANGE_NODES,
};
use obj_core::catalog::{CollectionDescriptor, IndexDescriptor, IndexStatus};
use obj_core::error::Error;
use obj_core::id::Id;
use obj_core::index::IndexKind;
use obj_core::integrity::crossref::{recover_id_from_entry, ScanEnd, TreeScan};
use obj_core::integrity::walk::{
    record_btree_visit, verify_level_invariant, verify_levels, verify_sort_invariant, VisitStep,
    WalkVisitState,
};
use obj_core::integrity::{
    check_catalog_pointers, check_primary_to_index, collect_primary_ids, cross_reference_index,
    fresh_descent_stack, quick_check, walk_btree, walk_freelist, IntegrityFailure,
    IntegrityReport, TreeContext,
};
use obj_core::pager::checksum::write_page_trailer;
use obj_core::pager::page::{Page, PageId};
use obj_core::pager::{wal_path_for, Config, Pager};
use obj_core::platform::{FileBackend, OsEntropy, SyncMode};
use std::cell::RefCell;
use std::collections::HashSet;
use std::rc::Rc;
use std::time::Duration;

fn test_ctx() -> TreeContext {
    TreeContext {
        label: "primary:widgets".to_owned(),
        root: PageId::new(1).expect("non-zero page id"),
    }
}

fn empty_node(kind: NodeKind, level: u8) -> DecodedNode {
    DecodedNode {
        kind,
        level,
        next_sibling: 0,
        children: Vec::new(),
        leaves: Vec::new(),
        internals: Vec::new(),
    }
}

fn budget() -> u64 {
    u64::try_from(MAX_RANGE_NODES).expect("MAX_RANGE_NODES fits in u64")
}

#[test]
fn record_btree_visit_walks_a_fresh_page() {
    let visited: HashSet<u64> = HashSet::new();
    let reachable: HashSet<u64> = HashSet::new();
    let pages_walked: u64 = 0;
    let failures: Vec<IntegrityFailure> = Vec::new();
    let pid = PageId::new(7).expect("non-zero page id");
    let mut visit = WalkVisitState {
        visited,
        reachable,
        pages_walked,
        failures,
    };
    let step = record_btree_visit(pid, &test_ctx(), &mut visit);
    let WalkVisitState {
        reachable,
        pages_walked,
        failures,
        ..
    } = visit;
    assert!(matches!(step, VisitStep::Walked));
    assert!(failures.is_empty(), "no failure expected: {failures:?}");
    assert!(reachable.contains(&pid.get()));
    assert_eq!(pages_walked, 1);
}

#[test]
fn record_btree_visit_reports_cycle_on_revisit() {
    let mut visited: HashSet<u64> = HashSet::new();
    let reachable: HashSet<u64> = HashSet::new();
    let pages_walked: u64 = 1;
    let failures: Vec<IntegrityFailure> = Vec::new();
    let pid = PageId::new(7).expect("non-zero page id");
    visited.insert(pid.get());
    let mut visit = WalkVisitState {
        visited,
        reachable,
        pages_walked,
        failures,
    };
    let step = record_btree_visit(pid, &test_ctx(), &mut visit);
    let WalkVisitState {
        reachable,
        pages_walked,
        failures,
        ..
    } = visit;
    assert!(matches!(step, VisitStep::Cycle));
    assert_eq!(pages_walked, 1, "a revisited page is not re-counted");
    assert!(
        matches!(
            failures.as_slice(),
            [IntegrityFailure::BTreeSiblingChainBroken { tree, page_id }]
                if tree == "primary:widgets" && *page_id == pid.get()
        ),
        "expected BTreeSiblingChainBroken; got {failures:?}",
    );
}

#[test]
fn record_btree_visit_reports_exceeded_node_budget() {
    let visited: HashSet<u64> = HashSet::new();
    let reachable: HashSet<u64> = HashSet::new();
    let pages_walked: u64 = budget();
    let failures: Vec<IntegrityFailure> = Vec::new();
    let pid = PageId::new(42).expect("non-zero page id");
    let mut visit = WalkVisitState {
        visited,
        reachable,
        pages_walked,
        failures,
    };
    let step = record_btree_visit(pid, &test_ctx(), &mut visit);
    let WalkVisitState {
        reachable,
        pages_walked,
        failures,
        ..
    } = visit;
    assert!(matches!(step, VisitStep::BudgetExceeded));
    assert_eq!(pages_walked, budget() + 1);
    assert!(reachable.contains(&pid.get()), "page is still marked reachable");
    assert!(
        matches!(
            failures.as_slice(),
            [IntegrityFailure::BTreeDepthExceeded { tree, limit }]
                if tree == "primary:widgets" && *limit == MAX_RANGE_NODES
        ),
        "expected BTreeDepthExceeded at the node budget; got {failures:?}",
    );
}

#[test]
fn verify_level_invariant_flags_nonzero_leaf_level() {
    let node = empty_node(NodeKind::Leaf, 3);
    let mut failures: Vec<IntegrityFailure> = Vec::new();
    let pid = PageId::new(9).expect("non-zero page id");
    verify_level_invariant(pid, &node, "index:users.by_email", &mut failures);
    assert!(
        matches!(
            failures.as_slice(),
            [IntegrityFailure::BTreeLevelInvariantViolated { tree, page_id }]
                if tree == "index:users.by_email" && *page_id == pid.get()
        ),
        "expected BTreeLevelInvariantViolated; got {failures:?}",
    );
}

#[test]
fn verify_level_invariant_flags_zero_internal_level() {
    let mut node = empty_node(NodeKind::Internal, 0);
    node.children.push(2);
    let mut failures: Vec<IntegrityFailure> = Vec::new();
    let pid = PageId::new(5).expect("non-zero page id");
    verify_level_invariant(pid, &node, "catalog", &mut failures);
    assert!(
        matches!(
            failures.as_slice(),
            [IntegrityFailure::BTreeLevelInvariantViolated { tree, page_id }]
                if tree == "catalog" && *page_id == pid.get()
        ),
        "expected BTreeLevelInvariantViolated; got {failures:?}",
    );
}

#[test]
fn verify_level_invariant_accepts_consistent_levels() {
    let pid = PageId::new(5).expect("non-zero page id");
    let mut failures: Vec<IntegrityFailure> = Vec::new();
    verify_level_invariant(pid, &empty_node(NodeKind::Leaf, 0), "catalog", &mut failures);
    let mut internal = empty_node(NodeKind::Internal, 1);
    internal.children.push(2);
    verify_level_invariant(pid, &internal, "catalog", &mut failures);
    assert!(failures.is_empty(), "no failure expected: {failures:?}");
}

fn leaf_with_keys(keys: &[&[u8]]) -> DecodedNode {
    let mut node = empty_node(NodeKind::Leaf, 0);
    for key in keys {
        node.leaves.push(LeafEntry {
            key: key.to_vec(),
            value: Vec::new(),
        });
    }
    node
}

fn internal_with_pivots(pivots: &[&[u8]]) -> DecodedNode {
    let mut node = empty_node(NodeKind::Internal, 1);
    node.children.push(2);
    for key in pivots {
        node.internals.push(InternalEntry { key: key.to_vec() });
        node.children.push(3);
    }
    node
}

#[test]
fn verify_sort_invariant_flags_descending_leaf_keys() {
    let node = leaf_with_keys(&[b"b", b"a"]);
    let mut failures: Vec<IntegrityFailure> = Vec::new();
    let pid = PageId::new(4).expect("non-zero page id");
    verify_sort_invariant(pid, &node, &mut failures);
    assert!(
        matches!(
            failures.as_slice(),
            [IntegrityFailure::BTreeSortViolation { page_id }] if *page_id == pid.get()
        ),
        "expected BTreeSortViolation; got {failures:?}",
    );
}

#[test]
fn verify_sort_invariant_flags_duplicate_internal_pivots() {
    let node = internal_with_pivots(&[b"k", b"k"]);
    let mut failures: Vec<IntegrityFailure> = Vec::new();
    let pid = PageId::new(6).expect("non-zero page id");
    verify_sort_invariant(pid, &node, &mut failures);
    assert!(
        matches!(
            failures.as_slice(),
            [IntegrityFailure::BTreeSortViolation { page_id }] if *page_id == pid.get()
        ),
        "expected BTreeSortViolation; got {failures:?}",
    );
}

#[test]
fn verify_sort_invariant_accepts_sorted_keys() {
    let mut failures: Vec<IntegrityFailure> = Vec::new();
    let pid = PageId::new(4).expect("non-zero page id");
    verify_sort_invariant(pid, &leaf_with_keys(&[b"a", b"b"]), &mut failures);
    verify_sort_invariant(pid, &internal_with_pivots(&[b"d", b"m"]), &mut failures);
    assert!(failures.is_empty(), "no failure expected: {failures:?}");
}

/// What goes wrong with a file.
enum Fault {
    Nothing,
    /// Every operation that changes something fails once the count is used up.
    After(Rc<RefCell<u64>>),
}

/// A file that outlives its handle.
struct SharedFile {
    bytes: Rc<RefCell<Vec<u8>>>,
    syncs: Rc<RefCell<u64>>,
    fault: Fault,
}

impl SharedFile {
    fn spend(&self) -> Result<(), Error> {
        if let Fault::After(left) = &self.fault {
            let mut left = left.borrow_mut();
            if *left == 0 {
                return Err(Error::Io(std::io::Error::other("out of luck")));
            }
            *left -= 1;
        }
        Ok(())
    }

    fn put(&self, buf: &[u8], offset: u64) {
        let start = offset as usize;
        let mut bytes = self.bytes.borrow_mut();
        if bytes.len() < start + buf.len() {
            bytes.resize(start + buf.len(), 0);
        }
        bytes[start..start + buf.len()].copy_from_slice(buf);
    }
}

impl FileBackend for SharedFile {
    fn len(&self) -> Result<u64, Error> {
        Ok(self.bytes.borrow().len() as u64)
    }

    fn read_exact_at(&self, buf: &mut [u8], offset: u64) -> Result<(), Error> {
        let bytes = self.bytes.borrow();
        let start = offset as usize;
        if start + buf.len() > bytes.len() {
            return Err(Error::Io(std::io::Error::from(
                std::io::ErrorKind::UnexpectedEof,
            )));
        }
        buf.copy_from_slice(&bytes[start..start + buf.len()]);
        Ok(())
    }

    fn write_all_at(&mut self, buf: &[u8], offset: u64) -> Result<(), Error> {
        self.spend()?;
        self.put(buf, offset);
        Ok(())
    }

    fn set_len(&mut self, new_len: u64) -> Result<(), Error> {
        self.spend()?;
        self.bytes.borrow_mut().resize(new_len as usize, 0);
        Ok(())
    }

    fn sync_data(&mut self, _mode: SyncMode) -> Result<(), Error> {
        self.spend()?;
        *self.syncs.borrow_mut() += 1;
        Ok(())
    }

    fn sync_all(&mut self) -> Result<(), Error> {
        self.spend()
    }
}

/// The files of a database.
struct Disk {
    main: Rc<RefCell<Vec<u8>>>,
    log: Rc<RefCell<Vec<u8>>>,
    main_syncs: Rc<RefCell<u64>>,
    log_syncs: Rc<RefCell<u64>>,
}

impl Disk {
    fn new() -> Self {
        Disk {
            main: Rc::new(RefCell::new(Vec::new())),
            log: Rc::new(RefCell::new(Vec::new())),
            main_syncs: Rc::new(RefCell::new(0)),
            log_syncs: Rc::new(RefCell::new(0)),
        }
    }

    fn try_open(
        &self,
        config: Config,
        main_fault: Fault,
        log_fault: Fault,
    ) -> Result<Pager<SharedFile>, Error> {
        let main = SharedFile {
            bytes: Rc::clone(&self.main),
            syncs: Rc::clone(&self.main_syncs),
            fault: main_fault,
        };
        let log = SharedFile {
            bytes: Rc::clone(&self.log),
            syncs: Rc::clone(&self.log_syncs),
            fault: log_fault,
        };
        let path = wal_path_for("test.obj");
        Pager::open_with_backends(main, log, path, config, Box::new(OsEntropy))
    }

    fn open(&self, config: Config) -> Pager<SharedFile> {
        match self.try_open(config, Fault::Nothing, Fault::Nothing) {
            Ok(p) => p,
            Err(e) => panic!("open: {e:?}"),
        }
    }
}

/// A page that holds a node: the level, then the children, or the keys of a
/// leaf.
fn node_page(level: u8, items: &[u8]) -> Page {
    let mut p = Page::zeroed();
    let b = p.as_bytes_mut();
    b[0] = 0x77;
    b[1] = level;
    b[2] = items.len() as u8;
    b[3..3 + items.len()].copy_from_slice(items);
    write_page_trailer(&mut p);
    p
}

/// Reads what [`node_page`] writes.
fn decode(page: &Page) -> Result<DecodedNode, Error> {
    let b = page.as_bytes();
    if b[0] != 0x77 {
        return Err(Error::InvalidFormat { reason: "no node" });
    }
    let items = &b[3..3 + b[2] as usize];
    let kind = if b[1] == 0 {
        NodeKind::Leaf
    } else {
        NodeKind::Internal
    };
    let mut node = empty_node(kind, b[1]);
    match kind {
        NodeKind::Leaf => {
            for k in items {
                node.leaves.push(LeafEntry {
                    key: vec![*k],
                    value: vec![],
                });
            }
        }
        NodeKind::Internal => node.children = items.iter().map(|c| u64::from(*c)).collect(),
    }
    Ok(node)
}

/// A committed database whose pages, from the first on, are the given ones.
fn pager_of(disk: &Disk, pages: &[Page]) -> Pager<SharedFile> {
    let mut p = disk.open(Config::default());
    p.begin_txn();
    for page in pages {
        let a = p.alloc_page().expect("alloc");
        p.write_page(a, page).expect("write");
    }
    let _ = p.commit().expect("commit");
    p.end_txn();
    p
}

fn walk(pages: &[Page]) -> (Result<u64, Error>, Vec<u64>, Vec<IntegrityFailure>) {
    let disk = Disk::new();
    let mut p = pager_of(&disk, pages);
    let mut reachable = HashSet::new();
    let mut failures = Vec::new();
    let r = walk_btree(
        &mut p,
        &test_ctx(),
        &decode,
        &mut reachable,
        &mut failures,
    );
    let mut reached: Vec<u64> = reachable.into_iter().collect();
    reached.sort_unstable();
    (r, reached, failures)
}

fn bad_level(page_id: u64) -> IntegrityFailure {
    IntegrityFailure::BTreeLevelInvariantViolated {
        tree: "primary:widgets".to_owned(),
        page_id,
    }
}

#[test]
fn a_sound_tree_has_no_failures_and_is_covered() {
    let pages = [
        node_page(1, &[2, 3]),
        node_page(0, &[10, 11]),
        node_page(0, &[20]),
        node_page(0, &[99]),
    ];
    let (r, reached, failures) = walk(&pages);
    assert_eq!(r.expect("walk"), 3);
    assert_eq!(reached, vec![1, 2, 3]);
    assert_eq!(failures, vec![]);
}

#[test]
fn failures_come_level_by_level() {
    let mut damaged = node_page(0, &[1]);
    damaged.as_bytes_mut()[3000] = 1;
    let pages = [
        node_page(2, &[2, 3]),
        node_page(1, &[4]),
        node_page(1, &[5]),
        node_page(0, &[9, 8]),
        damaged,
    ];
    let (r, reached, failures) = walk(&pages);
    assert_eq!(r.expect("walk"), 5);
    assert_eq!(reached, vec![1, 2, 3, 4, 5]);
    assert_eq!(
        failures,
        vec![
            IntegrityFailure::BTreeSortViolation { page_id: 4 },
            IntegrityFailure::ChecksumMismatch { page_id: 5 },
        ]
    );
}

#[test]
fn a_child_that_is_not_one_level_down_is_reported() {
    let pages = [node_page(3, &[2]), node_page(1, &[3]), node_page(0, &[1])];
    let (r, _, failures) = walk(&pages);
    assert_eq!(r.expect("walk"), 3);
    assert_eq!(failures, vec![bad_level(2)]);
    let mut failures = Vec::new();
    let pid = PageId::new(9).expect("non-zero page id");
    let leaf = empty_node(NodeKind::Leaf, 3);
    verify_levels(pid, &leaf, "primary:widgets", Some(3), &mut failures);
    verify_levels(pid, &leaf, "primary:widgets", Some(2), &mut failures);
    assert_eq!(failures, vec![bad_level(9), bad_level(9)]);
}

#[test]
fn a_cycle_is_reported_and_not_followed() {
    let pages = [node_page(2, &[2, 2]), node_page(1, &[1])];
    let (r, reached, failures) = walk(&pages);
    assert_eq!(r.expect("walk"), 2);
    assert_eq!(reached, vec![1, 2]);
    let broken = |page_id: u64| IntegrityFailure::BTreeSiblingChainBroken {
        tree: "primary:widgets".to_owned(),
        page_id,
    };
    assert_eq!(failures, vec![broken(2), broken(1)]);
}

#[test]
fn a_tree_that_is_too_deep_stops_the_walk() {
    let n = MAX_BTREE_DEPTH + 3;
    let pages: Vec<Page> = (1..=n)
        .map(|k| node_page((n + 1 - k) as u8, &[(k + 1) as u8]))
        .collect();
    let (r, _, failures) = walk(&pages);
    assert_eq!(r.expect("walk"), MAX_BTREE_DEPTH as u64 + 1);
    assert_eq!(
        failures,
        vec![IntegrityFailure::BTreeDepthExceeded {
            tree: "primary:widgets".to_owned(),
            limit: MAX_BTREE_DEPTH,
        }]
    );
}

#[test]
fn a_page_that_does_not_decode_is_reported() {
    let mut blank = Page::zeroed();
    write_page_trailer(&mut blank);
    let (r, _, failures) = walk(&[blank]);
    assert_eq!(r.expect("walk"), 1);
    assert_eq!(
        failures,
        vec![IntegrityFailure::ChecksumMismatch { page_id: 1 }]
    );
}

#[test]
fn a_child_outside_the_file_ends_the_walk() {
    let (r, reached, failures) = walk(&[node_page(1, &[0, 50])]);
    assert!(matches!(
        r,
        Err(Error::InvalidArgument("page id out of range"))
    ));
    assert_eq!(reached, vec![1, 50]);
    assert_eq!(failures, vec![]);
}

#[test]
fn a_read_that_fails_is_an_error_and_not_a_failure() {
    let disk = Disk::new();
    {
        let mut p = pager_of(&disk, &[node_page(0, &[1])]);
        p.checkpoint().expect("checkpoint");
    }
    let mut p = disk.open(Config::default());
    disk.main.borrow_mut().truncate(5000);
    let mut failures = Vec::new();
    let r = walk_btree(
        &mut p,
        &test_ctx(),
        &decode,
        &mut HashSet::new(),
        &mut failures,
    );
    assert!(matches!(r, Err(Error::Io(_))));
    assert_eq!(failures, vec![]);
}

fn freelist(frees: &[u64], head: u64, page_count: u64) -> (u64, Vec<u64>, Vec<IntegrityFailure>) {
    let disk = Disk::new();
    let mut p = pager_of(
        &disk,
        &[Page::zeroed(), Page::zeroed(), Page::zeroed()],
    );
    for n in frees {
        p.free_page(PageId::new(*n).expect("non-zero page id"))
            .expect("free");
    }
    p.flush().expect("flush");
    let mut reachable = HashSet::new();
    let mut failures = Vec::new();
    let steps = walk_freelist(&mut p, head, page_count, &mut reachable, &mut failures)
        .expect("walk");
    let mut reached: Vec<u64> = reachable.into_iter().collect();
    reached.sort_unstable();
    (steps, reached, failures)
}

#[test]
fn a_sound_freelist_is_followed_to_its_end() {
    assert_eq!(freelist(&[1, 3], 3, 4), (2, vec![1, 3], vec![]));
    assert_eq!(freelist(&[], 0, 4), (0, vec![], vec![]));
}

#[test]
fn a_broken_freelist_is_reported() {
    let broken = |page_id: u64| vec![IntegrityFailure::FreelistChainBroken { page_id }];
    assert_eq!(freelist(&[1, 3], 3, 3), (1, vec![], broken(3)));
    assert_eq!(freelist(&[1, 3], 9, 4), (1, vec![], broken(9)));
    assert_eq!(freelist(&[1], 2, 4).2, broken(2));
    assert_eq!(freelist(&[], 1, 0), (1, vec![], broken(1)));
}

fn descriptor(primary_root: u64, roots: &[(u64, IndexStatus)]) -> CollectionDescriptor {
    CollectionDescriptor {
        primary_root,
        indexes: roots
            .iter()
            .enumerate()
            .map(|(i, (root, status))| IndexDescriptor {
                name: format!("ix{i}"),
                kind: IndexKind::Standard,
                key_paths: vec!["x".to_owned()],
                root_page_id: *root,
                status: *status,
            })
            .collect(),
    }
}

fn dangling(index: Option<&str>, page_id: u64) -> IntegrityFailure {
    IntegrityFailure::DanglingCatalogPointer {
        collection: "users".to_owned(),
        index: index.map(|s| s.to_owned()),
        page_id,
    }
}

#[test]
fn dangling_roots_in_the_catalog_are_reported() {
    let d = descriptor(
        7,
        &[
            (3, IndexStatus::Active),
            (0, IndexStatus::Active),
            (99, IndexStatus::Dropped),
            (5, IndexStatus::Active),
        ],
    );
    let mut failures = Vec::new();
    check_catalog_pointers("users", &d, 5, &mut failures);
    assert_eq!(
        failures,
        vec![
            dangling(None, 7),
            dangling(Some("ix1"), 0),
            dangling(Some("ix3"), 5),
        ]
    );
    let mut none = Vec::new();
    check_catalog_pointers("users", &d, 100, &mut none);
    assert_eq!(none, vec![dangling(Some("ix1"), 0)]);
}

fn entry(key: &[u8], value: &[u8]) -> (Vec<u8>, Vec<u8>) {
    (key.to_vec(), value.to_vec())
}

fn key_for(id: u64) -> Vec<u8> {
    let mut k = vec![1, 2, 3];
    k.extend_from_slice(&id.to_be_bytes());
    k
}

#[test]
fn ids_are_recovered_from_index_entries() {
    let e = entry(&key_for(7), &9u64.to_be_bytes());
    assert_eq!(recover_id_from_entry(&e, IndexKind::Standard), Some(7));
    assert_eq!(recover_id_from_entry(&e, IndexKind::Each), Some(7));
    assert_eq!(recover_id_from_entry(&e, IndexKind::Composite), Some(7));
    assert_eq!(recover_id_from_entry(&e, IndexKind::Unique), Some(9));
    let short = entry(&[1, 2, 3], &[]);
    assert_eq!(recover_id_from_entry(&short, IndexKind::Standard), None);
    assert_eq!(recover_id_from_entry(&short, IndexKind::Unique), None);
    assert!(Id::from_be_bytes(&[0; 8]).is_none());
    assert_eq!(Id::new(5).expect("non-zero").get(), 5);
}

#[test]
fn index_entries_are_held_against_the_documents() {
    let d = descriptor(1, &[(2, IndexStatus::Active)]);
    let index = &d.indexes[0];
    let primary: HashSet<u64> = [1, 2].into_iter().collect();
    let scan = TreeScan {
        entries: vec![
            entry(&key_for(1), &[]),
            entry(&key_for(5), &[]),
            entry(&[1], &[]),
        ],
        end: ScanEnd::Broken(Error::Corruption { page_id: 40 }),
    };
    let mut referenced = HashSet::new();
    let mut failures = Vec::new();
    let n = cross_reference_index("users", index, scan, &primary, &mut referenced, &mut failures)
        .expect("scan");
    assert_eq!(n, 4);
    assert_eq!(referenced, [1].into_iter().collect());
    let orphan = |id: u64| IntegrityFailure::OrphanIndexEntry {
        collection: "users".to_owned(),
        index: "ix0".to_owned(),
        id,
    };
    assert_eq!(
        failures,
        vec![
            orphan(5),
            orphan(0),
            IntegrityFailure::ChecksumMismatch { page_id: 40 },
        ]
    );
    let refused = TreeScan {
        entries: vec![],
        end: ScanEnd::Refused(Error::Corruption { page_id: 41 }),
    };
    let mut failures = Vec::new();
    let n = cross_reference_index(
        "users",
        index,
        refused,
        &primary,
        &mut referenced,
        &mut failures,
    )
    .expect("scan");
    assert_eq!(n, 0);
    assert_eq!(
        failures,
        vec![IntegrityFailure::ChecksumMismatch { page_id: 41 }]
    );
    let failed = TreeScan {
        entries: vec![],
        end: ScanEnd::Broken(Error::InvalidArgument("stop")),
    };
    let r = cross_reference_index(
        "users",
        index,
        failed,
        &primary,
        &mut referenced,
        &mut failures,
    );
    assert!(matches!(r, Err(Error::InvalidArgument("stop"))));
}

#[test]
fn documents_are_collected_from_the_primary_tree() {
    let d = descriptor(1, &[]);
    let entries = || vec![entry(&3u64.to_be_bytes(), b"x"), entry(b"odd", b"y")];
    let mut ids = HashSet::new();
    let complete = TreeScan {
        entries: entries(),
        end: ScanEnd::Complete,
    };
    assert_eq!(collect_primary_ids(&d, complete, &mut ids).expect("scan"), 2);
    assert_eq!(ids, [3].into_iter().collect());
    let broken = TreeScan {
        entries: entries(),
        end: ScanEnd::Broken(Error::Corruption { page_id: 4 }),
    };
    assert_eq!(collect_primary_ids(&d, broken, &mut ids).expect("scan"), 3);
    let rootless = TreeScan {
        entries: entries(),
        end: ScanEnd::Complete,
    };
    let none = descriptor(0, &[]);
    assert_eq!(
        collect_primary_ids(&none, rootless, &mut HashSet::new()).expect("scan"),
        0
    );
}

#[test]
fn documents_without_an_index_entry_are_reported_in_order() {
    let d = descriptor(1, &[(2, IndexStatus::Active)]);
    let primary: HashSet<u64> = [9, 4, 6, 1].into_iter().collect();
    let per_index = vec![
        ("tags".to_owned(), IndexKind::Each, HashSet::new()),
        (
            "ix0".to_owned(),
            IndexKind::Standard,
            [4].into_iter().collect(),
        ),
    ];
    let mut failures = Vec::new();
    check_primary_to_index("users", &d, &primary, &per_index, &mut failures);
    let missing = |id: u64| IntegrityFailure::MissingIndexEntry {
        collection: "users".to_owned(),
        index: "ix0".to_owned(),
        id,
    };
    assert_eq!(failures, vec![missing(1), missing(6), missing(9)]);
}

fn quick(root: u64, rows: Result<Vec<(String, CollectionDescriptor)>, Error>) -> IntegrityReport {
    let disk = Disk::new();
    let mut p = pager_of(&disk, &[node_page(0, &[1, 2])]);
    p.begin_txn();
    p.set_root_catalog(root).expect("root");
    let _ = p.commit().expect("commit");
    p.end_txn();
    quick_check(&mut p, &decode, rows).expect("check")
}

#[test]
fn a_quick_check_looks_at_the_catalog() {
    let empty = quick(0, Ok(vec![]));
    assert!(empty.is_ok());
    assert_eq!(empty.pages_checked, 1);
    let sound = quick(1, Ok(vec![("users".to_owned(), descriptor(1, &[]))]));
    assert!(sound.is_ok());
    assert_eq!(sound.pages_checked, 2);
    let rows = vec![("users".to_owned(), descriptor(30, &[]))];
    let astray = quick(1, Ok(rows));
    assert_eq!(astray.failures, vec![dangling(None, 30)]);
    let unlisted = quick(1, Err(Error::Corruption { page_id: 1 }));
    assert!(unlisted.is_ok());
    let outside = quick(77, Ok(vec![]));
    assert_eq!(
        outside.failures,
        vec![IntegrityFailure::DanglingCatalogPointer {
            collection: "<catalog>".to_owned(),
            index: None,
            page_id: 77,
        }]
    );
    assert!(!outside.is_ok());
}

#[test]
fn a_report_keeps_its_parts() {
    let r = IntegrityReport::new(
        vec![IntegrityFailure::OrphanPage { page_id: 3 }],
        8,
        Duration::from_millis(5),
    );
    let c = r.clone();
    assert_eq!(c.failures, r.failures);
    assert_eq!(c.pages_checked, 8);
    assert_eq!(c.elapsed, Duration::from_millis(5));
}

#[test]
fn a_fresh_stack_is_empty_and_holds_a_way_down() {
    let mut stack = fresh_descent_stack();
    assert!(stack.is_empty());
    for n in 0..MAX_BTREE_DEPTH {
        stack
            .push(PageId::new(n as u64 + 1).expect("non-zero page id"))
            .expect("room");
    }
    assert!(stack.is_full());
}
