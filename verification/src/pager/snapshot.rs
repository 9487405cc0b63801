//! What readers hold: borrowed pages, owned pages, and frozen views.

use crate::pager::page::{Page, PageId, PAGE_SIZE};
use crate::platform::file::FileBackend;
use crate::wal::Lsn;
use std::collections::HashMap;
use std::marker::PhantomData;
use std::sync::Arc;
use vstd::prelude::*;

verus! {

broadcast use {
    vstd::std_specs::hash::group_hash_axioms,
    crate::pager::page::lemma_page_len,
};

/// Shared pages by id, as their bytes.
pub open spec fn shared_bytes(m: Map<u64, Arc<Page>>) -> Map<u64, Seq<u8>> {
    m.map_values(|p: Arc<Page>| p@)
}

/// A page that is borrowed from the pager it was read from.
#[derive(Debug)]
pub struct PageRef<'a> {
    page_id: PageId,
    bytes: &'a Page,
}

impl<'a> PageRef<'a> {
    /// The page id.
    pub closed spec fn spec_id(&self) -> PageId {
        self.page_id
    }

    /// The bytes of the page.
    pub closed spec fn spec_bytes(&self) -> Seq<u8> {
        self.bytes@
    }

    /// A borrow of `bytes`, read as page `page_id`.
    pub fn new(page_id: PageId, bytes: &'a Page) -> (r: Self)
        ensures
            r.spec_id() == page_id,
            r.spec_bytes() == bytes@,
    {
        PageRef { page_id, bytes }
    }

    /// The page id.
    pub fn page_id(&self) -> (r: PageId)
        ensures
            r == self.spec_id(),
    {
        self.page_id
    }

    /// The bytes of the page, trailer and all.
    pub fn as_bytes(&self) -> (r: &'a [u8; PAGE_SIZE])
        ensures
            r@ == self.spec_bytes(),
    {
        self.bytes.as_bytes()
    }

    /// A copy of the page.
    pub fn to_owned_page(&self) -> (r: Page)
        ensures
            r@ == self.spec_bytes(),
    {
        self.bytes.clone()
    }
}

/// Identifier of a reader snapshot.
#[derive(Debug, Clone, Copy, PartialEq, Eq, Structural, Hash, PartialOrd, Ord)]
pub struct SnapshotId {
    raw: u64,
}

impl View for SnapshotId {
    type V = u64;

    closed spec fn view(&self) -> u64 {
        self.raw
    }
}

impl SnapshotId {
    /// The id `raw`. Any number will do.
    pub fn new(raw: u64) -> (r: Self)
        ensures
            r@ == raw,
    {
        SnapshotId { raw }
    }

    /// The number.
    pub fn get(self) -> (r: u64)
        ensures
            r == self@,
    {
        self.raw
    }
}

/// A page that a snapshot handed out.
#[derive(Debug)]
pub enum PageHandle {
    /// Shared with the frozen view.
    Shared(Arc<Page>),
    /// Read for this handle.
    Owned(Page),
}

impl View for PageHandle {
    type V = Seq<u8>;

    open spec fn view(&self) -> Seq<u8> {
        match self {
            PageHandle::Shared(page) => page@,
            PageHandle::Owned(page) => page@,
        }
    }
}

impl PageHandle {
    /// The bytes of the page.
    pub fn as_bytes(&self) -> (r: &[u8; PAGE_SIZE])
        ensures
            r@ == self@,
    {
        match self {
            PageHandle::Shared(page) => page.as_bytes(),
            PageHandle::Owned(page) => page.as_bytes(),
        }
    }

    /// The page itself, copied where it is shared.
    pub fn into_page(self) -> (r: Page)
        ensures
            r@ == self@,
    {
        match self {
            PageHandle::Shared(page) => (*page).clone(),
            PageHandle::Owned(page) => page,
        }
    }
}

/// What a transaction must put back if it is rolled back.
#[derive(Debug)]
pub struct HeaderSnapshot {
    /// Root page of the catalog.
    pub root_catalog: u64,
    /// First free page.
    pub freelist_head: u64,
    /// Number of pages.
    pub page_count: u64,
    /// The pages that were committed to the log and not yet rolled forward.
    pub view: HashMap<u64, Arc<Page>>,
}

/// A header snapshot, as contracts speak of it.
pub struct HeaderState {
    /// Root page of the catalog.
    pub root_catalog: u64,
    /// First free page.
    pub freelist_head: u64,
    /// Number of pages.
    pub page_count: u64,
    /// The pages that the log held.
    pub view: Map<u64, Seq<u8>>,
}

impl HeaderSnapshot {
    /// What was noted.
    pub open spec fn state(self) -> HeaderState {
        HeaderState {
            root_catalog: self.root_catalog,
            freelist_head: self.freelist_head,
            page_count: self.page_count,
            view: shared_bytes(self.view@),
        }
    }
}

/// The database as of one moment, for a reader.
///
/// A page that the log held at that moment is frozen with its bytes; every
/// other page is read from the main file. The pager it was taken from keeps
/// the main file as it is for as long as that matters to the snapshot.
#[derive(Debug)]
pub struct ReaderSnapshot<F: FileBackend> {
    pinned_lsn: Lsn,
    frozen_view: HashMap<u64, Arc<Page>>,
    frozen_header: Option<Page>,
    root_catalog: u64,
    id: SnapshotId,
    backend: PhantomData<F>,
}

/// A snapshot, as contracts speak of it.
pub struct SnapshotView {
    /// The last frame of the log that the snapshot sees.
    pub lsn: u64,
    /// The frozen pages.
    pub frozen: Map<u64, Seq<u8>>,
    /// The frozen file header, if the log held one.
    pub header: Option<Seq<u8>>,
    /// Root page of the catalog.
    pub root_catalog: u64,
    /// Identifier of the snapshot.
    pub id: u64,
}

impl<F: FileBackend> View for ReaderSnapshot<F> {
    type V = SnapshotView;

    closed spec fn view(&self) -> SnapshotView {
        SnapshotView {
            lsn: self.pinned_lsn@,
            frozen: shared_bytes(self.frozen_view@),
            header: match self.frozen_header {
                Some(p) => Some(p@),
                None => None,
            },
            root_catalog: self.root_catalog,
            id: self.id@,
        }
    }
}

impl<F: FileBackend> ReaderSnapshot<F> {
    pub(crate) fn freeze(
        pinned_lsn: Lsn,
        frozen_view: HashMap<u64, Arc<Page>>,
        frozen_header: Option<Page>,
        root_catalog: u64,
        id: SnapshotId,
    ) -> (r: Self)
        ensures
            r@ == (SnapshotView {
                lsn: pinned_lsn@,
                frozen: shared_bytes(frozen_view@),
                header: match frozen_header {
                    Some(p) => Some(p@),
                    None => None,
                },
                root_catalog,
                id: id@,
            }),
    {
        ReaderSnapshot {
            pinned_lsn,
            frozen_view,
            frozen_header,
            root_catalog,
            id,
            backend: PhantomData,
        }
    }

    /// The last frame of the log that this snapshot sees.
    pub fn pinned_lsn(&self) -> (r: Lsn)
        ensures
            r@ == self@.lsn,
    {
        self.pinned_lsn
    }

    /// The frozen page `id`, if there is one.
    pub(crate) fn frozen_page(&self, id: PageId) -> (r: Option<&Arc<Page>>)
        ensures
            r is Some <==> self@.frozen.contains_key(id@),
            r matches Some(p) ==> p@ == self@.frozen[id@],
    {
        self.frozen_view.get(&id.get())
    }

    /// Every frozen page with its id, smallest id first.
    pub fn frozen_pages(&self) -> (r: Vec<(u64, &Page)>)
        ensures
            forall|i: int, j: int| 0 <= i < j < r@.len() ==> (#[trigger] r@[i]).0 < (
            #[trigger] r@[j]).0,
            forall|i: int|
                0 <= i < r@.len() ==> self@.frozen.contains_key((#[trigger] r@[i]).0)
                    && self@.frozen[r@[i].0] == r@[i].1@,
            forall|id: u64| #[trigger]
                self@.frozen.contains_key(id) ==> exists|i: int|
                    0 <= i < r@.len() && (#[trigger] r@[i]).0 == id,
    {
        let ids: Vec<u64> = crate::ordered::sorted_keys(&self.frozen_view);
        let mut out: Vec<(u64, &Page)> = Vec::new();
        let mut i: usize = 0;
        while i < ids.len()
            invariant
                i <= ids@.len(),
                out@.len() == i,
                forall|k: u64| #[trigger] ids@.contains(k) <==> self.frozen_view@.contains_key(k),
                forall|j: int|
                    0 <= j < i ==> (#[trigger] out@[j]).0 == ids@[j] && self@.frozen.contains_key(
                        ids@[j],
                    ) && self@.frozen[ids@[j]] == out@[j].1@,
            decreases ids.len() - i,
        {
            let id: u64 = ids[i];
            proof {
                assert(ids@.contains(ids@[i as int]));
            }
            if let Some(p) = self.frozen_view.get(&id) {
                let page: &Page = &**p;
                proof {
                    assert(self.frozen_view@.contains_key(id));
                    assert(self@.frozen[id] == self.frozen_view@[id]@);
                    assert(page@ == self@.frozen[id]);
                }
                out.push((id, page));
            }
            i = i + 1;
        }
        proof {
            assert forall|id: u64| #[trigger] self@.frozen.contains_key(id) implies exists|i: int|
                0 <= i < out@.len() && (#[trigger] out@[i]).0 == id by {
                assert(ids@.contains(id));
                let j = choose|j: int| 0 <= j < ids@.len() && ids@[j] == id;
                assert(out@[j].0 == id);
            }
        }
        out
    }

    /// The frozen file header, if the log held one.
    pub fn frozen_header(&self) -> (r: Option<&Page>)
        ensures
            match r {
                Some(p) => self@.header == Some(p@),
                None => self@.header is None,
            },
    {
        match &self.frozen_header {
            Some(p) => Some(p),
            None => None,
        }
    }

    /// Identifier of the snapshot.
    pub fn id(&self) -> (r: SnapshotId)
        ensures
            r@ == self@.id,
    {
        self.id
    }

    /// Root page of the catalog as of the snapshot.
    pub fn root_catalog(&self) -> (r: u64)
        ensures
            r == self@.root_catalog,
    {
        self.root_catalog
    }
}

} // verus!
