//! The pager.

use crate::bytes;
use crate::error::Error;
use crate::ordered::sorted_keys;
use crate::pager::backend::Backend;
use crate::pager::cache;
use crate::pager::cache::{Cache, CacheEntry, Evicted};
use crate::pager::checksum;
use crate::pager::checksum::{page_trailer_valid, write_page_trailer};
use crate::pager::config;
use crate::pager::config::Config;
use crate::pager::disk::{decode_page_v1, encode_page_v1};
use crate::pager::freelist;
use crate::pager::freelist::FreeListPage;
use crate::pager::header;
use crate::pager::header::{
    decode_header, encode_header, FileHeader, FEATURE_FLAG_COMPRESSION, FEATURE_FLAG_ENCRYPTION,
};
use crate::pager::page::{physical_offset_for, physical_page_stride, Page, PageId, PAGE_SIZE};
use crate::pager::snapshot;
use crate::pager::snapshot::{
    HeaderSnapshot, PageHandle, PageRef, ReaderSnapshot, SnapshotId,
};
use crate::pager::state;
use crate::pager::state::{LogState, PagerView};
use crate::platform::env;
use crate::platform::env::{Entropy, Kept, OsEntropy};
use crate::platform::file;
use crate::platform::file::{FileBackend, MemoryFile, SyncMode};
use crate::wal;
use crate::wal::{Lsn, Recovered, Wal};
use std::collections::HashMap;
use std::sync::Arc;
use vstd::prelude::*;

verus! {

broadcast use {
    vstd::std_specs::hash::group_hash_axioms,
    crate::pager::page::lemma_page_len,
};

struct WalState<F: FileBackend> {
    wal: Wal<F>,
    pending: HashMap<u64, Page>,
    view: HashMap<u64, Arc<Page>>,
    header_dirty: bool,
    view_header: Option<Page>,
    committed: FileHeader,
    txn_depth: u32,
    owed: Option<Page>,
}

/// The pager: the storage, the file header, a cache of pages, and for a
/// file-backed database the log with what it holds.
pub struct Pager<F: FileBackend> {
    backend: Backend<F>,
    header: FileHeader,
    cache: Cache,
    wal: Option<WalState<F>>,
    config: Config,
    snapshots: HashMap<u64, u64>,
    next_snapshot_id: u64,
    main_high_water: u64,
}

spec fn opt_bytes(p: Option<Page>) -> Option<Seq<u8>> {
    match p {
        Some(p) => Some(p@),
        None => None,
    }
}

spec fn left_entry(evicted: Option<Evicted>) -> Option<CacheEntry> {
    match evicted {
        Some(ev) => Some(CacheEntry { id: ev.page_id@, page: ev.buffer@, dirty: ev.dirty }),
        None => None,
    }
}

impl<F: FileBackend> WalState<F> {
    spec fn state(self) -> LogState {
        LogState {
            wal: self.wal@,
            pending: wal::page_bytes(self.pending@),
            view: snapshot::shared_bytes(self.view@),
            header_dirty: self.header_dirty,
            view_header: opt_bytes(self.view_header),
            committed: self.committed,
            depth: self.txn_depth,
            owed: opt_bytes(self.owed),
        }
    }
}

impl<F: FileBackend> View for Pager<F> {
    type V = PagerView;

    closed spec fn view(&self) -> PagerView {
        PagerView {
            main: self.backend.contents(),
            header: self.header,
            cache: self.cache@,
            log: match self.wal {
                Some(s) => Some(s.state()),
                None => None,
            },
            config: self.config,
            pins: self.snapshots@,
            next_snapshot: self.next_snapshot_id,
            high_water: self.main_high_water,
            main_syncs: self.backend.syncs(),
            main_limit: self.backend.limit(),
        }
    }
}

impl<F: FileBackend> Pager<F> {
    /// The parts hold together.
    pub closed spec fn wf(&self) -> bool {
        &&& self@.wf()
        &&& self.cache.wf()
        &&& self.cache.spec_capacity() == self.config.cache_frames
        &&& match self.wal {
            Some(s) => self.backend is File && s.wal.wf(),
            None => self.backend is Memory,
        }
    }

    /// What every pager satisfies.
    pub proof fn lemma_wf(&self)
        requires
            self.wf(),
        ensures
            self@.wf(),
            self.cache_capacity() == self@.config.cache_frames,
    {
    }

    /// Number of pages that the cache has room for.
    pub closed spec fn cache_capacity(&self) -> nat {
        self.cache.spec_capacity()
    }

    /// Byte offset of page `id` in the main file.
    fn physical_offset(&self, id: u64) -> (r: u64)
        requires
            self.header.feature_flags & FEATURE_FLAG_ENCRYPTION == 0,
        ensures
            id * PAGE_SIZE <= u64::MAX ==> r == id * PAGE_SIZE,
            id * PAGE_SIZE > u64::MAX ==> r == u64::MAX,
    {
        proof {
            let stride = crate::pager::page::stride_of(self.header.feature_flags);
            assert(stride == PAGE_SIZE);
            assert((id - 1) * stride == (id - 1) * PAGE_SIZE) by (nonlinear_arith)
                requires
                    stride == PAGE_SIZE,
            ;
        }
        physical_offset_for(id, self.header.feature_flags)
    }

    /// `true` iff pages of this file may be compressed.
    pub fn is_compression_capable(&self) -> (r: bool)
        ensures
            r == (self@.flags() & FEATURE_FLAG_COMPRESSION != 0),
    {
        self.header.feature_flags & FEATURE_FLAG_COMPRESSION != 0
    }

    /// `true` iff pages of this file are encrypted.
    pub fn is_encryption_capable(&self) -> (r: bool)
        ensures
            r == (self@.flags() & FEATURE_FLAG_ENCRYPTION != 0),
    {
        self.header.feature_flags & FEATURE_FLAG_ENCRYPTION != 0
    }

    /// Read page `id` from the storage, past the log and the cache. Its
    /// checksum is verified before anything else is made of it.
    fn read_through(&self, id: PageId) -> (r: Result<Page, Error>)
        requires
            self.header.feature_flags & FEATURE_FLAG_ENCRYPTION == 0,
        ensures
            match r {
                Ok(p) => state::on_main(self@.flags(), self@.main, id@) == Some(p@),
                Err(e) => {
                    ||| self.backend is File && e is Io && !state::sure_to_read(self@, id@)
                    ||| {
                        &&& state::on_main(self@.flags(), self@.main, id@) is None
                        &&& e == Error::Corruption { page_id: id@ } || self.backend is Memory && e
                            == Error::InvalidArgument("offset overflow")
                    }
                },
            },
    {
        let raw: u64 = id.get();
        let mut p = Page::zeroed();
        let off: u64 = self.physical_offset(raw);
        match self.backend.read_plain_into(raw, off, &mut p) {
            Ok(_) => {},
            Err(e) => return Err(e),
        }
        proof {
            assert(self@.main.subrange(off as int, off + PAGE_SIZE) == state::slot(self@.main, raw));
        }
        if self.is_compression_capable() {
            decode_page_v1(&p, raw)
        } else {
            if !page_trailer_valid(&p) {
                return Err(Error::Corruption { page_id: raw });
            }
            Ok(p)
        }
    }

    /// The form of `page` on disk.
    fn encode_page_for_disk(&self, page: &Page) -> (r: Page)
        ensures
            state::encodes(self@.flags(), page@, r@),
    {
        if !self.is_compression_capable() {
            let mut stamped = page.clone();
            write_page_trailer(&mut stamped);
            return stamped;
        }
        encode_page_v1(page)
    }

    /// Write `page` into the place of page `id`, past the log and the cache.
    fn write_back_page(&mut self, id: PageId, page: &Page) -> (r: Result<(), Error>)
        requires
            old(self).header.feature_flags & FEATURE_FLAG_ENCRYPTION == 0,
            state::has_slot(old(self)@.main, id@),
            old(self)@.main.len() <= u64::MAX,
            old(self).backend is Memory ==> old(self)@.main.len() <= usize::MAX,
        ensures
            *final(self) == (Pager { backend: final(self).backend, ..*old(self) }),
            final(self).backend is File == old(self).backend is File,
            final(self)@.main_syncs == old(self)@.main_syncs,
            final(self)@.main_limit == old(self)@.main_limit,
            match r {
                Ok(_) => exists|s: Seq<u8>| #[trigger]
                    state::encodes(old(self)@.flags(), page@, s) && state::with_slot(
                        old(self)@.main,
                        id@,
                        s,
                        final(self)@.main,
                    ),
                Err(e) => e is Io && old(self).backend is File && !file::within(
                    old(self)@.main_limit,
                    (id@ + 1) * PAGE_SIZE,
                ) && state::only_slot_differs(old(self)@.main, final(self)@.main, id@),
            },
    {
        let off: u64 = self.physical_offset(id.get());
        let stamped = self.encode_page_for_disk(page);
        let ghost before = self@.main;
        let r = self.backend.write_phys_4096(off, &stamped);
        proof {
            if r is Ok {
                assert(self@.main =~= crate::pager::page::overwrite(
                    before,
                    id@ * PAGE_SIZE,
                    stamped@,
                ));
                assert(state::with_slot(before, id@, stamped@, self@.main));
            }
        }
        r
    }

    /// Write page 0.
    fn write_header(&mut self) -> (r: Result<(), Error>)
        requires
            old(self).header.encodable(),
            old(self)@.main.len() >= PAGE_SIZE,
        ensures
            *final(self) == (Pager { backend: final(self).backend, ..*old(self) }),
            final(self).backend is File == old(self).backend is File,
            final(self)@.main_syncs == old(self)@.main_syncs,
            final(self)@.main_limit == old(self)@.main_limit,
            match r {
                Ok(_) => state::with_slot(
                    old(self)@.main,
                    0,
                    header::header_page(old(self)@.header),
                    final(self)@.main,
                ),
                Err(e) => e is Io && old(self).backend is File && !file::within(
                    old(self)@.main_limit,
                    PAGE_SIZE as int,
                ) && state::only_slot_differs(old(self)@.main, final(self)@.main, 0),
            },
    {
        let mut p = Page::zeroed();
        encode_header(&self.header, &mut p);
        let ghost before = self@.main;
        let r = self.backend.write_phys_4096(0, &p);
        proof {
            if r is Ok {
                assert(self@.main =~= crate::pager::page::overwrite(before, 0, p@));
            }
        }
        r
    }

    /// Write back a page that left the cache dirty.
    fn handle_eviction(&mut self, evicted: Option<Evicted>) -> (r: Result<(), Error>)
        requires
            old(self).header.feature_flags & FEATURE_FLAG_ENCRYPTION == 0,
            old(self)@.main.len() <= u64::MAX,
            old(self).backend is Memory ==> old(self)@.main.len() <= usize::MAX,
            evicted matches Some(ev) ==> ev.dirty ==> old(self).backend is Memory
                && state::has_slot(old(self)@.main, ev.page_id@),
        ensures
            *final(self) == (Pager { backend: final(self).backend, ..*old(self) }),
            final(self).backend is File == old(self).backend is File,
            final(self)@.main_syncs == old(self)@.main_syncs,
            final(self)@.main_limit == old(self)@.main_limit,
            r is Ok,
            match evicted {
                Some(ev) => if ev.dirty {
                    exists|s: Seq<u8>| #[trigger]
                        state::encodes(old(self)@.flags(), ev.buffer@, s) && state::with_slot(
                            old(self)@.main,
                            ev.page_id@,
                            s,
                            final(self)@.main,
                        )
                } else {
                    *final(self) == *old(self)
                },
                None => *final(self) == *old(self),
            },
    {
        if let Some(ev) = evicted {
            if ev.dirty {
                return self.write_back_page(ev.page_id, &ev.buffer);
            }
        }
        Ok(())
    }

    /// Take a page into the cache.
    fn take_in(&mut self, id: PageId, page: Page, dirty: bool) -> (r: Result<(), Error>)
        requires
            old(self).wf(),
            !cache::holds(old(self)@.cache, id@),
            state::has_slot(old(self)@.main, id@),
            !dirty ==> state::on_main(old(self)@.flags(), old(self)@.main, id@) == Some(page@),
            old(self)@.log is Some ==> !dirty,
        ensures
            final(self).wf(),
            r is Ok,
            old(self)@.same_but_cache_and_main(final(self)@),
            final(self)@.main.len() == old(self)@.main.len(),
            state::slot(final(self)@.main, 0) == state::slot(old(self)@.main, 0),
            old(self)@.log is Some ==> final(self)@.main == old(self)@.main,
            cache::holds(final(self)@.cache, id@),
            cache::entry(final(self)@.cache, id@).page == page@,
            old(self)@.others_kept(id@, final(self)@),
            old(self)@.log is None ==> final(self)@.page_at(id@) == Some(page@),
    {
        let ghost v = self@;
        let ghost e = CacheEntry { id: id@, page: page@, dirty };
        proof {
            self.cache.lemma_wf();
        }
        let raw: u64 = id.get();
        let evicted = self.cache.insert(id, page, dirty);
        let ghost left = left_entry(evicted);
        proof {
            if evicted is Some {
                cache::lemma_drop_last(v.cache);
                assert(cache::holds(v.cache, left->0.id));
            }
        }
        let r = self.handle_eviction(evicted);
        proof {
            assert(state::taken_in(v, e, left, self@));
            state::lemma_taken_in(v, e, left, self@);
            let kept = match left {
                None => v.cache,
                Some(ev) => v.cache.drop_last(),
            };
            if left is Some {
                cache::lemma_drop_last(v.cache);
                cache::lemma_without(v.cache, left->0.id);
            }
            cache::lemma_in_front(kept, e);
        }
        r
    }

    /// The log holds page `id`, committed or not.
    fn wal_lookup_some(&self, id: PageId) -> (r: bool)
        ensures
            r == (self@.log matches Some(l) && (l.pending.contains_key(id@) || l.view.contains_key(
                id@,
            ))),
    {
        let raw: u64 = id.get();
        match &self.wal {
            Some(s) => s.pending.contains_key(&raw) || s.view.contains_key(&raw),
            None => false,
        }
    }

    /// Page `id` as the log holds it.
    fn lookup_in_wal(&self, id: PageId) -> (r: Option<&Page>)
        ensures
            r is Some <==> (self@.log matches Some(l) && (l.pending.contains_key(id@)
                || l.view.contains_key(id@))),
            r matches Some(p) ==> self@.page_at(id@) == Some(p@),
    {
        let raw: u64 = id.get();
        match &self.wal {
            Some(s) => {
                if let Some(p) = s.pending.get(&raw) {
                    return Some(p);
                }
                match s.view.get(&raw) {
                    Some(p) => Some(&**p),
                    None => None,
                }
            },
            None => None,
        }
    }

    /// Read page `id`: from the open transaction, the log, the cache, or the
    /// storage.
    pub fn read_page(&mut self, id: PageId) -> (r: Result<PageRef<'_>, Error>)
        requires
            old(self).wf(),
        ensures
            final(self).wf(),
            old(self)@.settled(final(self)@),
            match r {
                Ok(p) => {
                    &&& id@ < old(self)@.header.page_count
                    &&& p.spec_id() == id
                    &&& old(self)@.page_at(id@) == Some(p.spec_bytes())
                    &&& final(self)@.page_at(id@) == Some(p.spec_bytes())
                },
                Err(e) => if id@ >= old(self)@.header.page_count {
                    e == Error::InvalidArgument("page id out of range")
                } else {
                    &&& old(self)@.log is Some
                    &&& !old(self)@.in_log(id@)
                    &&& !cache::holds(old(self)@.cache, id@)
                    &&& e is Io && !state::sure_to_read(old(self)@, id@) || old(self)@.page_at(
                        id@,
                    ) is None && e == Error::Corruption { page_id: id@ }
                },
            },
    {
        let ghost v = self@;
        let raw: u64 = id.get();
        if raw >= self.header.page_count {
            return Err(Error::InvalidArgument("page id out of range"));
        }
        if self.wal_lookup_some(id) {
            return match self.lookup_in_wal(id) {
                Some(p) => Ok(PageRef::new(id, p)),
                None => Err(Error::InvalidArgument("page id out of range")),
            };
        }
        if self.cache.get(id).is_none() {
            let buf: Page = match self.read_through(id) {
                Ok(p) => p,
                Err(e) => return Err(e),
            };
            match self.take_in(id, buf, false) {
                Ok(_) => {},
                Err(e) => return Err(e),
            }
        } else {
            proof {
                state::lemma_touched(v, id@, self@);
            }
        }
        match self.cache.peek(id) {
            Some(p) => Ok(PageRef::new(id, p)),
            None => Err(Error::InvalidArgument("page id out of range")),
        }
    }

    /// Write `page` as page `id`: into the open transaction, or into the cache
    /// where there is no log.
    pub fn write_page(&mut self, id: PageId, page: &Page) -> (r: Result<(), Error>)
        requires
            old(self).wf(),
        ensures
            final(self).wf(),
            match r {
                Ok(_) => id@ < old(self)@.header.page_count && state::wrote(
                    old(self)@,
                    id@,
                    page@,
                    final(self)@,
                ),
                Err(e) => {
                    &&& id@ >= old(self)@.header.page_count
                    &&& e == Error::InvalidArgument("page id out of range")
                    &&& final(self)@ == old(self)@
                },
            },
    {
        let ghost v = self@;
        let raw: u64 = id.get();
        if raw >= self.header.page_count {
            return Err(Error::InvalidArgument("page id out of range"));
        }
        if let Some(s) = &mut self.wal {
            s.pending.insert(raw, page.clone());
            proof {
                assert(wal::page_bytes(s.pending@) =~= v.log->0.pending.insert(raw, page@));
            }
            proof {
                state::lemma_staged(v, self@);
            }
            return Ok(());
        }
        let copy: Page = page.clone();
        if let Some(held) = self.cache.get_mut(id) {
            *held = copy;
            proof {
                state::lemma_rewritten(v, raw, page@, self@);
            }
            return Ok(());
        }
        proof {
            assert(state::on_main(v.flags(), v.main, raw) is Some);
        }
        self.take_in(id, copy, true)
    }

    /// Note that the header changed: for the next commit, or on page 0 where
    /// there is no log.
    fn stage_or_write_header(&mut self) -> (r: Result<(), Error>)
        requires
            old(self).header.encodable(),
            old(self)@.main.len() >= PAGE_SIZE,
            old(self).wal is Some <==> old(self).backend is File,
        ensures
            r is Ok,
            state::reheaded(old(self)@, old(self)@.header, final(self)@),
            final(self).cache == old(self).cache,
            final(self).backend is File == old(self).backend is File,
            match (old(self).wal, final(self).wal) {
                (Some(a), Some(b)) => b == (WalState { header_dirty: true, ..a }),
                (None, None) => true,
                _ => false,
            },
    {
        match &mut self.wal {
            Some(s) => {
                s.header_dirty = true;
                Ok(())
            },
            None => self.write_header(),
        }
    }

    /// Set the root page of the catalog.
    pub fn set_root_catalog(&mut self, root: u64) -> (r: Result<(), Error>)
        requires
            old(self).wf(),
        ensures
            final(self).wf(),
            r is Ok,
            state::reheaded(
                old(self)@,
                (FileHeader { root_catalog: root, ..old(self)@.header }),
                final(self)@,
            ),
    {
        let ghost v = self@;
        self.header.root_catalog = root;
        let r = self.stage_or_write_header();
        proof {
            if v.log is None {
                state::lemma_page0_written(v, self@);
            } else {
                state::lemma_staged(v, self@);
            }
        }
        r
    }

    /// Page `id` as the freelist finds it.
    fn read_freelist_page(&self, id: PageId) -> (r: Result<Page, Error>)
        requires
            self.wf(),
        ensures
            match r {
                Ok(p) => self@.link_at(id@) == Some(p@),
                Err(e) => {
                    ||| self@.log is Some && !self@.in_log(id@) && e is Io && !state::sure_to_read(
                        self@,
                        id@,
                    )
                    ||| self@.link_at(id@) is None && (e == Error::Corruption { page_id: id@ }
                        || self@.log is None && e == Error::InvalidArgument("offset overflow"))
                },
            },
    {
        if let Some(p) = self.lookup_in_wal(id) {
            return Ok(p.clone());
        }
        self.read_through(id)
    }

    /// Take the freelist head off the list.
    fn alloc_from_freelist(&mut self, head: PageId) -> (r: Result<PageId, Error>)
        requires
            old(self).wf(),
            head@ == old(self)@.header.freelist_head,
        ensures
            final(self).wf(),
            match r {
                Ok(id) => id == head && state::recycled(old(self)@, head@, final(self)@),
                Err(e) => {
                    &&& final(self)@ == old(self)@
                    &&& {
                        ||| old(self)@.log is Some && !old(self)@.in_log(head@) && e is Io
                            && !state::sure_to_read(old(self)@, head@)
                        ||| state::next_free(old(self)@, head@) is None && (e == Error::Corruption {
                            page_id: head@,
                        } || old(self)@.log is None && e == Error::InvalidArgument(
                            "offset overflow",
                        ))
                    }
                },
            },
    {
        let ghost v = self@;
        let raw: u64 = head.get();
        let head_page: Page = match self.read_freelist_page(head) {
            Ok(p) => p,
            Err(e) => return Err(e),
        };
        let entry: FreeListPage = match freelist::decode(&head_page) {
            Some(entry) => entry,
            None => return Err(Error::Corruption { page_id: raw }),
        };
        if entry.next != 0 && (entry.next == raw || entry.next >= self.header.page_count) {
            return Err(Error::Corruption { page_id: raw });
        }
        let _ = self.cache.evict(head);
        let ghost u = self@;
        proof {
            if cache::holds(v.cache, raw) {
                state::lemma_dropped(v, raw, u);
            }
        }
        self.header.freelist_head = entry.next;
        if let Some(s) = &mut self.wal {
            s.pending.remove(&raw);
            proof {
                assert(wal::page_bytes(s.pending@) =~= v.log->0.pending.remove(raw));
            }
        }
        match self.stage_or_write_header() {
            Ok(_) => {},
            Err(e) => return Err(e),
        }
        proof {
            if v.log is None {
                state::lemma_page0_written(u, self@);
            } else {
                state::lemma_staged(u, self@);
            }
        }
        Ok(head)
    }

    /// Put page `id` in front of the freelist.
    pub fn free_page(&mut self, id: PageId) -> (r: Result<(), Error>)
        requires
            old(self).wf(),
        ensures
            final(self).wf(),
            match r {
                Ok(_) => id@ < old(self)@.header.page_count && state::freed(
                    old(self)@,
                    id@,
                    final(self)@,
                ),
                Err(e) => {
                    &&& id@ >= old(self)@.header.page_count
                    &&& e == Error::InvalidArgument("page id out of range")
                    &&& final(self)@ == old(self)@
                },
            },
    {
        let ghost v = self@;
        let raw: u64 = id.get();
        if raw >= self.header.page_count {
            return Err(Error::InvalidArgument("page id out of range"));
        }
        let _ = self.cache.evict(id);
        let ghost u = self@;
        proof {
            if cache::holds(v.cache, raw) {
                state::lemma_dropped(v, raw, u);
            }
        }
        let next: u64 = self.header.freelist_head;
        let mut buf = Page::zeroed();
        freelist::encode(FreeListPage::new(next), &mut buf);
        proof {
            freelist::law_freelist_round_trip(FreeListPage { next });
        }
        write_page_trailer(&mut buf);
        proof {
            checksum::law_stamped_is_valid(freelist::freelist_bytes(FreeListPage { next }));
            if v.log is None {
                assert(state::on_main(v.flags(), v.main, raw) is Some);
            }
        }
        if self.wal.is_some() {
            if let Some(s) = &mut self.wal {
                let ghost link = buf@;
                s.pending.insert(raw, buf);
                proof {
                    assert(wal::page_bytes(s.pending@) =~= v.log->0.pending.insert(raw, link));
                }
            }
        } else {
            match self.write_back_page(id, &buf) {
                Ok(_) => {},
                Err(e) => return Err(e),
            }
            proof {
                let s = choose|s: Seq<u8>| #[trigger]
                    state::encodes(u.flags(), buf@, s) && state::with_slot(
                        u.main,
                        raw,
                        s,
                        self@.main,
                    );
                state::lemma_slot_written(u, raw, buf@, s, self@);
            }
        }
        let ghost t = self@;
        self.header.freelist_head = raw;
        let r = self.stage_or_write_header();
        proof {
            if v.log is None {
                state::lemma_page0_written(t, self@);
                state::lemma_with_slot(t.main, 0, header::header_page(self@.header), self@.main);
            } else {
                state::lemma_staged(u, self@);
            }
        }
        r
    }

    /// Append a page to a file-backed database. It lives in the log until the
    /// next checkpoint; the main file is not touched.
    fn alloc_fresh_wal(&mut self, new_id: PageId) -> (r: Result<PageId, Error>)
        requires
            old(self).wf(),
            old(self)@.log is Some,
            new_id@ == old(self)@.header.page_count,
            new_id@ != 0,
        ensures
            final(self).wf(),
            match r {
                Ok(id) => id == new_id && state::appended(old(self)@, id@, final(self)@),
                Err(e) => {
                    &&& new_id@ == u64::MAX
                    &&& e == Error::InvalidArgument("page_count overflow")
                    &&& final(self)@ == old(self)@
                },
            },
    {
        let ghost v = self@;
        let raw: u64 = new_id.get();
        let mut blank = Page::zeroed();
        write_page_trailer(&mut blank);
        proof {
            checksum::law_stamped_is_valid(crate::pager::page::zero_page());
        }
        self.header.page_count = match raw.checked_add(1) {
            Some(n) => n,
            None => return Err(Error::InvalidArgument("page_count overflow")),
        };
        if let Some(s) = &mut self.wal {
            let ghost page = blank@;
            s.pending.insert(raw, blank);
            proof {
                assert(wal::page_bytes(s.pending@) =~= v.log->0.pending.insert(raw, page));
            }
        }
        match self.stage_or_write_header() {
            Ok(_) => {},
            Err(e) => return Err(e),
        }
        proof {
            state::lemma_staged(v, self@);
        }
        Ok(new_id)
    }

    /// Lengthen the backing store of a memory-backed database by one page.
    fn extend_main(&mut self)
        requires
            old(self).wf(),
            old(self)@.log is None,
            old(self)@.has_room(),
        ensures
            final(self).wf(),
            final(self)@ == (PagerView { main: final(self)@.main, ..old(self)@ }),
            final(self)@.main.len() == old(self)@.main.len() + PAGE_SIZE,
            forall|k: u64|
                state::has_slot(old(self)@.main, k) ==> #[trigger] final(self)@.page_at(k)
                    == old(self)@.page_at(k),
    {
        let ghost v = self@;
        let stride: usize = PAGE_SIZE;
        if let Backend::Memory(bytes) = &mut self.backend {
            let n: usize = bytes.len() + stride;
            bytes.resize(n, 0);
        }
        proof {
            assert(self@.main.take(v.main.len() as int) =~= v.main);
            state::lemma_lengthened(v, self@);
        }
    }

    /// Append a page to a memory-backed database.
    fn alloc_fresh_memory(&mut self, new_id: PageId) -> (r: Result<PageId, Error>)
        requires
            old(self).wf(),
            old(self)@.log is None,
            old(self)@.has_room(),
            new_id@ == old(self)@.header.page_count,
            new_id@ != 0,
        ensures
            final(self).wf(),
            r == Ok::<PageId, Error>(new_id),
            state::appended(old(self)@, new_id@, final(self)@),
    {
        let ghost v = self@;
        let raw: u64 = new_id.get();
        // A page that an earlier rollback took back may still be cached.
        let _ = self.cache.evict(new_id);
        let ghost u = self@;
        proof {
            if cache::holds(v.cache, raw) {
                state::lemma_dropped(v, raw, u);
            }
        }
        self.extend_main();
        let ghost t = self@;
        let blank = Page::zeroed();
        match self.write_back_page(new_id, &blank) {
            Ok(_) => {},
            Err(e) => return Err(e),
        }
        let ghost b = self@;
        proof {
            let s = choose|s: Seq<u8>| #[trigger]
                state::encodes(t.flags(), blank@, s) && state::with_slot(
                    t.main,
                    raw,
                    s,
                    self@.main,
                );
            state::lemma_slot_written(t, raw, blank@, s, b);
        }
        self.header.page_count = raw + 1;
        match self.stage_or_write_header() {
            Ok(_) => {},
            Err(e) => return Err(e),
        }
        let ghost c = self@;
        proof {
            state::lemma_page0_written(b, c);
            state::lemma_with_slot(b.main, 0, header::header_page(c.header), c.main);
            assert forall|k: u64| 1 <= k < v.header.page_count implies #[trigger] c.body_at(k)
                == v.body_at(k) by {
                assert(state::on_main(v.flags(), v.main, k) is Some);
                assert(c.page_at(k) == b.page_at(k));
                assert(b.page_at(k) == t.page_at(k));
                assert(t.page_at(k) == u.page_at(k));
                assert(u.page_at(k) == v.page_at(k));
            }
        }
        match self.take_in(new_id, blank, true) {
            Ok(_) => {},
            Err(e) => return Err(e),
        }
        proof {
            assert forall|k: u64| k != raw && 1 <= k < v.header.page_count implies #[trigger] self@.body_at(
                k,
            ) == v.body_at(k) by {
                assert(c.body_at(k) == v.body_at(k));
            }
        }
        Ok(new_id)
    }

    /// Append a page.
    fn alloc_fresh(&mut self) -> (r: Result<PageId, Error>)
        requires
            old(self).wf(),
            old(self)@.has_room(),
        ensures
            final(self).wf(),
            match r {
                Ok(id) => state::appended(old(self)@, id@, final(self)@),
                Err(e) => {
                    &&& old(self)@.header.page_count == 0 || old(self)@.header.page_count
                        == u64::MAX
                    &&& e == Error::InvalidArgument("page_count overflow")
                    &&& final(self)@ == old(self)@
                },
            },
    {
        let new_id: PageId = match PageId::new(self.header.page_count) {
            Some(id) => id,
            None => return Err(Error::InvalidArgument("page_count overflow")),
        };
        if self.wal.is_some() {
            self.alloc_fresh_wal(new_id)
        } else {
            self.alloc_fresh_memory(new_id)
        }
    }

    /// Allocate a page: the freelist head if there is one, else a new page at
    /// the end.
    pub fn alloc_page(&mut self) -> (r: Result<PageId, Error>)
        requires
            old(self).wf(),
            old(self)@.has_room(),
        ensures
            final(self).wf(),
            match r {
                Ok(id) => if old(self)@.header.freelist_head != 0 {
                    id@ == old(self)@.header.freelist_head && state::recycled(
                        old(self)@,
                        id@,
                        final(self)@,
                    )
                } else {
                    state::appended(old(self)@, id@, final(self)@)
                },
                Err(e) => {
                    &&& final(self)@ == old(self)@
                    &&& if old(self)@.header.freelist_head != 0 {
                        let head = old(self)@.header.freelist_head;
                        ||| old(self)@.log is Some && !old(self)@.in_log(head) && e is Io
                            && !state::sure_to_read(old(self)@, head)
                        ||| state::next_free(old(self)@, head) is None && (e == Error::Corruption {
                            page_id: head,
                        } || old(self)@.log is None && e == Error::InvalidArgument(
                            "offset overflow",
                        ))
                    } else {
                        &&& old(self)@.header.page_count == 0 || old(self)@.header.page_count
                            == u64::MAX
                        &&& e == Error::InvalidArgument("page_count overflow")
                    }
                },
            },
    {
        if let Some(head) = PageId::new(self.header.freelist_head) {
            self.alloc_from_freelist(head)
        } else {
            self.alloc_fresh()
        }
    }

    /// Throw page `id` out of the cache of a file-backed pager.
    fn forget(&mut self, id: PageId)
        requires
            old(self).wf(),
            old(self)@.log is Some,
        ensures
            final(self).wf(),
            !cache::holds(final(self)@.cache, id@),
            *final(self) == (Pager { cache: final(self).cache, ..*old(self) }),
    {
        let ghost v = self@;
        let _ = self.cache.evict(id);
        proof {
            if cache::holds(v.cache, id@) {
                state::lemma_dropped(v, id@, self@);
            }
        }
    }

    /// Publish the pages `ids` of the open transaction as committed.
    fn publish(&mut self, ids: &Vec<u64>)
        requires
            old(self).wf(),
            old(self).wal is Some,
            old(self)@.log->0.owed is None,
            ids@.no_duplicates(),
            forall|k: u64| #[trigger]
                ids@.contains(k) <==> old(self).wal->0.pending@.contains_key(k),
        ensures
            final(self).wf(),
            final(self).wal is Some,
            final(self).backend == old(self).backend,
            final(self).wal->0.wal == old(self).wal->0.wal,
            final(self)@ == (PagerView {
                cache: final(self)@.cache,
                log: Some(
                    LogState {
                        pending: Map::empty(),
                        view: old(self)@.log->0.view.union_prefer_right(old(self)@.log->0.pending),
                        ..old(self)@.log->0
                    },
                ),
                ..old(self)@
            }),
    {
        let ghost v = self@;
        let ghost l = v.log->0;
        let mut i: usize = 0;
        proof {
            assert(l.view.union_prefer_right(Map::empty()) =~= l.view);
        }
        while i < ids.len()
            invariant
                i <= ids@.len(),
                self.wf(),
                self.wal is Some,
                self.backend == old(self).backend,
                self.wal->0.wal == old(self).wal->0.wal,
                v.wf(),
                v.log == Some(l),
                l.owed is None,
                ids@.no_duplicates(),
                forall|k: u64| #[trigger] ids@.contains(k) <==> l.pending.contains_key(k),
                self@ == (PagerView { cache: self@.cache, log: self@.log, ..v }),
                self@.log->0 == (LogState {
                    pending: self@.log->0.pending,
                    view: self@.log->0.view,
                    ..l
                }),
                forall|k: u64| #[trigger]
                    self@.log->0.pending.contains_key(k) <==> l.pending.contains_key(k)
                        && !ids@.take(i as int).contains(k),
                forall|k: u64| #[trigger]
                    self@.log->0.pending.contains_key(k) ==> self@.log->0.pending[k]
                        == l.pending[k],
                forall|k: u64| #[trigger]
                    self@.log->0.view.contains_key(k) <==> l.view.contains_key(k) || ids@.take(
                        i as int,
                    ).contains(k),
                forall|k: u64| #[trigger]
                    self@.log->0.view.contains_key(k) ==> self@.log->0.view[k] == if ids@.take(
                        i as int,
                    ).contains(k) {
                        l.pending[k]
                    } else {
                        l.view[k]
                    },
            decreases ids.len() - i,
        {
            let raw: u64 = ids[i];
            let ghost before = self@;
            proof {
                assert(ids@.contains(raw));
                crate::ordered::lemma_prefix_members(ids@, i as int);
                assert(before.log->0.pending.contains_key(raw));
            }
            if let Some(s) = &mut self.wal {
                if let Some(page) = s.pending.remove(&raw) {
                    let ghost bytes = page@;
                    s.view.insert(raw, Arc::new(page));
                    proof {
                        assert(wal::page_bytes(s.pending@) =~= before.log->0.pending.remove(raw));
                        assert(snapshot::shared_bytes(s.view@) =~= before.log->0.view.insert(
                            raw,
                            bytes,
                        ));
                    }
                }
            }
            proof {
                state::lemma_published(before, raw, self@);
            }
            if let Some(id) = PageId::new(raw) {
                self.forget(id);
            }
            i = i + 1;
        }
        proof {
            assert(ids@.take(ids@.len() as int) =~= ids@);
            assert(self@.log->0.pending =~= Map::empty());
            assert(self@.log->0.view =~= l.view.union_prefer_right(l.pending));
        }
    }

    /// Finish a checkpoint that emptied the log and then failed to write page
    /// 0: write that page, make it durable, and drop what the log held.
    fn finish_checkpoint(&mut self) -> (r: Result<(), Error>)
        requires
            old(self).wf(),
            old(self).wal is Some,
        ensures
            final(self).wf(),
            final(self).wal is Some,
            final(self).log_path() == old(self).log_path(),
            old(self)@.log->0.owed is None ==> r is Ok && *final(self) == *old(self),
            match r {
                Ok(_) => {
                    &&& final(self)@ == state::finished(old(self)@)
                    &&& final(self).wal->0.pending == old(self).wal->0.pending
                },
                Err(e) => {
                    &&& e is Io
                    &&& !file::within(old(self)@.main_limit, PAGE_SIZE as int)
                    &&& final(self)@ == (PagerView { main: final(self)@.main, ..old(self)@ })
                    &&& state::only_slot_differs(old(self)@.main, final(self)@.main, 0)
                },
            },
    {
        let ghost v = self@;
        let page: Page = match &self.wal {
            Some(s) => match &s.owed {
                Some(p) => p.clone(),
                None => return Ok(()),
            },
            None => return Ok(()),
        };
        let r = self.backend.write_phys_4096(0, &page);
        proof {
            if r is Ok {
                assert(self@.main =~= crate::pager::page::overwrite(v.main, 0, page@));
                assert(state::with_slot(v.main, 0, page@, self@.main));
                state::lemma_with_slot(v.main, 0, page@, self@.main);
            }
            assert(state::only_slot_differs(v.main, self@.main, 0));
            state::lemma_file_slot_changed(v, 0, self@);
        }
        match r {
            Ok(_) => {},
            Err(e) => return Err(e),
        }
        let mode: SyncMode = self.config.sync_mode;
        match self.backend.sync(mode) {
            Ok(_) => {},
            Err(e) => return Err(e),
        }
        if let Some(s) = &mut self.wal {
            s.view.clear();
            s.view_header = None;
            s.owed = None;
            proof {
                assert(snapshot::shared_bytes(s.view@) =~= Map::empty());
            }
        }
        proof {
            state::lemma_finished(v, state::finished(v));
            assert(self@ == state::finished(v));
        }
        Ok(())
    }

    /// Commit the open transaction to the log. A checkpoint that could not
    /// finish is finished first, so that the log carries the salt that page 0
    /// names.
    fn commit_inner(&mut self) -> (r: Result<Lsn, Error>)
        requires
            old(self).wf(),
        ensures
            final(self).wf(),
            final(self).log_path() == old(self).log_path(),
            match r {
                Ok(lsn) => state::commit_step(old(self)@, lsn@, final(self)@),
                Err(e) => {
                    &&& state::commit_failed(old(self)@, final(self)@)
                    &&& state::has_changes(old(self)@.log->0)
                    &&& state::commit_error(old(self)@, e)
                },
            },
    {
        let ghost v = self@;
        let mut header_page = Page::zeroed();
        encode_header(&self.header, &mut header_page);
        let ids: Vec<u64>;
        let lsn: Lsn;
        let dirty: bool;
        match &self.wal {
            None => {
                return Ok(Lsn::new(0));
            },
            Some(s) => {
                dirty = s.header_dirty;
                ids = sorted_keys(&s.pending);
                proof {
                    assert(wal::page_bytes(s.pending@).dom() =~= s.pending@.dom());
                    assert(state::lists_keys(ids@, v.log->0.pending));
                    ids@.unique_seq_to_set();
                    assert(ids@.len() == v.log->0.pending.dom().len());
                    assert forall|i: int| 0 <= i < ids@.len() implies s.pending@.contains_key(
                        #[trigger] ids@[i],
                    ) by {
                        assert(ids@.contains(ids@[i]));
                    }
                }
                if ids.len() == 0 && !dirty {
                    proof {
                        assert forall|id: u64| !v.log->0.pending.contains_key(id) by {
                            assert(!ids@.contains(id));
                        }
                    }
                    return Ok(Lsn::new(0));
                }
            },
        }
        proof {
            if ids@.len() > 0 {
                assert(v.log->0.pending.contains_key(ids@[0]));
            }
            assert(state::has_changes(v.log->0));
        }
        match self.finish_checkpoint() {
            Ok(_) => {},
            Err(e) => {
                proof {
                    self.wal->0.wal.lemma_wf();
                }
                return Err(e);
            },
        }
        let ghost t = self@;
        match &mut self.wal {
            None => {
                return Ok(Lsn::new(0));
            },
            Some(s) => {
                let logged = if dirty {
                    s.wal.commit_pages(&ids, &s.pending, Some(&header_page))
                } else {
                    s.wal.commit_pages(&ids, &s.pending, None)
                };
                match logged {
                    Ok(n) => {
                        lsn = n;
                    },
                    Err(e) => {
                        proof {
                            s.wal.lemma_wf();
                        }
                        proof {
                            state::lemma_log_grew(t, self@);
                        }
                        return Err(e);
                    },
                }
                proof {
                    s.wal.lemma_wf();
                }
            },
        }
        let ghost u = self@;
        proof {
            state::lemma_log_grew(t, u);
        }
        self.publish(&ids);
        let header: FileHeader = self.header;
        if dirty {
            if let Some(s) = &mut self.wal {
                s.view_header = Some(header_page);
                s.header_dirty = false;
                s.committed = header;
            }
        }
        proof {
            assert(state::lists_keys(ids@, t.log->0.pending));
            assert(state::logged_on(t, self@));
            state::lemma_logged(t, self@);
        }
        Ok(lsn)
    }

    /// The lowest log position that a live snapshot holds on to.
    pub fn min_pinned_lsn(&self) -> (r: Option<Lsn>)
        ensures
            match r {
                Some(lsn) => {
                    &&& exists|id: u64| #[trigger]
                        self@.pins.contains_key(id) && self@.pins[id] == lsn@
                    &&& forall|id: u64| #[trigger]
                        self@.pins.contains_key(id) ==> lsn@ <= self@.pins[id]
                },
                None => forall|id: u64| !#[trigger] self@.pins.contains_key(id),
            },
    {
        let ids: Vec<u64> = sorted_keys(&self.snapshots);
        let mut least: Option<u64> = None;
        let mut i: usize = 0;
        while i < ids.len()
            invariant
                i <= ids@.len(),
                forall|k: u64| #[trigger] ids@.contains(k) <==> self@.pins.contains_key(k),
                match least {
                    Some(n) => {
                        &&& exists|id: u64| #[trigger]
                            self@.pins.contains_key(id) && self@.pins[id] == n
                        &&& forall|j: int| 0 <= j < i ==> n <= self@.pins[#[trigger] ids@[j]]
                    },
                    None => i == 0,
                },
            decreases ids.len() - i,
        {
            let id: u64 = ids[i];
            proof {
                assert(ids@.contains(ids@[i as int]));
            }
            if let Some(lsn) = self.snapshots.get(&id) {
                let n: u64 = *lsn;
                match least {
                    Some(m) => {
                        if n < m {
                            least = Some(n);
                        }
                    },
                    None => {
                        least = Some(n);
                    },
                }
            }
            i = i + 1;
        }
        proof {
            assert forall|id: u64| #[trigger] self@.pins.contains_key(id) implies (least matches Some(
                n,
            ) && n <= self@.pins[id]) by {
                assert(ids@.contains(id));
                let j = choose|j: int| 0 <= j < ids@.len() && ids@[j] == id;
                assert(ids@[j] == id);
            }
        }
        match least {
            Some(n) => Some(Lsn::new(n)),
            None => None,
        }
    }

    /// The number of the last frame in the log.
    fn end_of_log(&self) -> (r: u64)
        requires
            self.wf(),
        ensures
            r == self@.end_lsn(),
    {
        match &self.wal {
            Some(s) => s.wal.next_lsn().get() - 1,
            None => 0,
        }
    }

    /// A live snapshot holds the checkpoint back.
    fn checkpoint_deferred_for_pinned_reader(&self) -> (r: bool)
        requires
            self.wf(),
        ensures
            r == self@.held_back(),
    {
        match self.min_pinned_lsn() {
            Some(lsn) => {
                proof {
                    if self@.held_back() {
                        let id = choose|id: u64| #[trigger]
                            self@.pins.contains_key(id) && self@.pins[id] < self@.end_lsn();
                        assert(lsn@ <= self@.pins[id]);
                    }
                }
                lsn.get() < self.end_of_log()
            },
            None => false,
        }
    }

    /// Length of a main file whose last page is `top`.
    fn file_length_for(&self, top: u64) -> (r: Result<u64, Error>)
        requires
            self.header.feature_flags & FEATURE_FLAG_ENCRYPTION == 0,
        ensures
            match r {
                Ok(n) => n == (top + 1) * PAGE_SIZE,
                Err(e) => (top + 1) * PAGE_SIZE > u64::MAX && e == Error::InvalidArgument(
                    "file too large",
                ),
            },
    {
        let stride: u64 = physical_page_stride(self.header.feature_flags) as u64;
        proof {
            assert(top * stride == top * PAGE_SIZE) by (nonlinear_arith)
                requires
                    stride == PAGE_SIZE,
            ;
        }
        match top.checked_mul(stride) {
            Some(n) => match n.checked_add(PAGE_SIZE as u64) {
                Some(n) => Ok(n),
                None => Err(Error::InvalidArgument("file too large")),
            },
            None => Err(Error::InvalidArgument("file too large")),
        }
    }

    /// Number of pages that a main file of `len` bytes has room for.
    fn main_pages_for_len(&self, len: u64) -> (r: u64)
        requires
            self.header.feature_flags & FEATURE_FLAG_ENCRYPTION == 0,
        ensures
            r == state::pages_for_len(len as nat),
    {
        let stride: u64 = physical_page_stride(self.header.feature_flags) as u64;
        if len < PAGE_SIZE as u64 {
            return 0;
        }
        1 + (len - PAGE_SIZE as u64) / stride
    }

    /// Number of pages that the main file really has room for.
    pub fn main_physical_page_count(&self) -> (r: Result<u64, Error>)
        requires
            self.wf(),
        ensures
            match r {
                Ok(n) => n == match self@.log {
                    Some(_) => state::pages_for_len(self@.main.len()),
                    None => self@.header.page_count as nat,
                },
                Err(e) => self@.log is Some && e is Io && self@.main_limit is None,
            },
    {
        match &self.backend {
            Backend::File(f) => match f.len() {
                Ok(n) => Ok(self.main_pages_for_len(n)),
                Err(e) => Err(e),
            },
            Backend::Memory(_) => Ok(self.header.page_count),
        }
    }

    /// Make the main file long enough for the pages `ids`, which are in
    /// increasing order, with one change of its length.
    fn grow_main_to_cover(&mut self, ids: &Vec<u64>) -> (r: Result<(), Error>)
        requires
            old(self).wf(),
            old(self)@.log is Some,
            old(self)@.log->0.owed is None,
            crate::ordered::increasing(ids@),
        ensures
            final(self).wf(),
            final(self).backend is File,
            final(self)@.main_syncs == old(self)@.main_syncs,
            final(self)@.main_limit == old(self)@.main_limit,
            *final(self) == (Pager {
                backend: final(self).backend,
                main_high_water: final(self).main_high_water,
                ..*old(self)
            }),
            final(self)@.main.len() >= old(self)@.main.len(),
            final(self)@.main == file::resized(old(self)@.main, final(self)@.main.len()),
            match r {
                Ok(_) => {
                    &&& forall|i: int|
                        0 <= i < ids@.len() ==> state::has_slot(
                            final(self)@.main,
                            #[trigger] ids@[i],
                        )
                    &&& final(self)@.main.len() == old(self)@.main.len() || ids@.len() > 0
                        && final(self)@.main.len() == (ids@.last() + 1) * PAGE_SIZE
                },
                Err(e) => {
                    &&& final(self)@ == old(self)@
                    &&& ids@.len() > 0
                    &&& e is Io && !file::within(
                        old(self)@.main_limit,
                        (ids@.last() + 1) * PAGE_SIZE,
                    ) || (ids@.last() + 1) * PAGE_SIZE > u64::MAX && e == Error::InvalidArgument("file too large")
                },
            },
    {
        let ghost v = self@;
        proof {
            assert(v.main =~= file::resized(v.main, v.main.len()));
        }
        if ids.len() == 0 {
            return Ok(());
        }
        let max_id: u64 = ids[ids.len() - 1];
        proof {
            assert forall|i: int| 0 <= i < ids@.len() implies #[trigger] ids@[i] <= max_id by {
                if i < ids@.len() - 1 {
                    assert(ids@[i] < ids@[ids@.len() - 1]);
                }
            }
        }
        if max_id < self.main_high_water {
            return Ok(());
        }
        let new_len: u64 = match self.file_length_for(max_id) {
            Ok(n) => n,
            Err(e) => return Err(e),
        };
        if let Backend::File(f) = &mut self.backend {
            match f.set_len(new_len) {
                Ok(_) => {},
                Err(e) => return Err(e),
            }
        }
        self.main_high_water = self.main_pages_for_len(new_len);
        proof {
            assert(self@.main.take(v.main.len() as int) =~= v.main);
            state::lemma_file_grew(v, self@);
        }
        Ok(())
    }

    /// Write the pages `ids` of the log into the main file, then the header
    /// that the log holds, and make both survive even a loss of power,
    /// whatever the configured mode.
    fn apply_checkpoint_view(&mut self, ids: &Vec<u64>) -> (r: Result<(), Error>)
        requires
            old(self).wf(),
            old(self).wal is Some,
            old(self)@.log->0.owed is None,
            crate::ordered::increasing(ids@),
            forall|k: u64| #[trigger] ids@.contains(k) <==> old(self).wal->0.view@.contains_key(k),
        ensures
            final(self).wf(),
            final(self).wal == old(self).wal,
            final(self).header == old(self).header,
            state::outside_kept(old(self)@.log->0.view, old(self)@.main, final(self)@.main),
            final(self)@ == (PagerView {
                main: final(self)@.main,
                cache: final(self)@.cache,
                high_water: final(self)@.high_water,
                main_syncs: final(self)@.main_syncs,
                ..old(self)@
            }),
            match r {
                Ok(_) => {
                    &&& final(self)@.main_syncs == old(self)@.main_syncs.push(
                        (SyncMode::Full, final(self)@.main),
                    )
                    &&& state::rolled_main(
                        old(self)@.flags(),
                        old(self)@.log->0.view,
                        old(self)@.main,
                        final(self)@.main,
                    )
                    &&& ids@.len() == 0 && old(self)@.log->0.view_header is None ==> final(self)@
                        == state::resynced(old(self)@)
                },
                Err(e) => {
                    &&& final(self)@.main_syncs == old(self)@.main_syncs
                    &&& e is Io && !state::sure_to_roll(old(self)@) || e == Error::InvalidArgument(
                        "file too large",
                    ) && state::page_too_far(old(self)@)
                },
            },
    {
        let ghost v = self@;
        let ghost view = v.log->0.view;
        proof {
            assert(state::outside_kept(view, v.main, v.main));
            if ids@.len() > 0 {
                assert(ids@.contains(ids@.last()));
                assert(view.contains_key(ids@.last()));
            }
        }
        match self.grow_main_to_cover(ids) {
            Ok(_) => {},
            Err(e) => return Err(e),
        }
        let ghost g = self@;
        proof {
            if g.main.len() == v.main.len() {
                assert(g.main =~= v.main);
            }
        }
        let mut i: usize = 0;
        while i < ids.len()
            invariant
                i <= ids@.len(),
                self.wf(),
                self.wal is Some,
                self.wal == old(self).wal,
                self.header == old(self).header,
                v == old(self)@,
                v.wf(),
                v.log is Some,
                view == v.log->0.view,
                crate::ordered::increasing(ids@),
                forall|k: u64| #[trigger] ids@.contains(k) <==> view.contains_key(k),
                g.main.len() == self@.main.len(),
                forall|j: int|
                    0 <= j < ids@.len() ==> state::has_slot(self@.main, #[trigger] ids@[j]),
                state::outside_kept(view, v.main, self@.main),
                self@ == (PagerView {
                    main: self@.main,
                    cache: self@.cache,
                    high_water: self@.high_water,
                    ..v
                }),
                v.log->0.owed is None,
                ids@.len() == 0 ==> self@ == v,
                forall|j: int|
                    0 <= j < i ==> state::encodes(
                        v.flags(),
                        view[#[trigger] ids@[j]],
                        state::slot(self@.main, ids@[j]),
                    ),
            decreases ids.len() - i,
        {
            let raw: u64 = ids[i];
            proof {
                assert(ids@.contains(raw));
                assert(view.contains_key(raw));
                assert(state::has_slot(self@.main, ids@[i as int]));
            }
            let page: Option<Page> = match &self.wal {
                Some(s) => match s.view.get(&raw) {
                    Some(p) => Some((**p).clone()),
                    None => None,
                },
                None => None,
            };
            if let Some(id) = PageId::new(raw) {
                if let Some(page) = page {
                    proof {
                        assert(page@ == view[raw]);
                    }
                    self.forget(id);
                    let ghost before = self@;
                    let r = self.write_back_page(id, &page);
                    proof {
                        if r is Ok {
                            let s = choose|s: Seq<u8>| #[trigger]
                                state::encodes(before.flags(), page@, s) && state::with_slot(
                                    before.main,
                                    raw,
                                    s,
                                    self@.main,
                                );
                            state::lemma_with_slot(before.main, raw, s, self@.main);
                        }
                        state::lemma_file_slot_changed(before, raw, self@);
                        state::lemma_rolled_one(view, v.main, before.main, self@.main, raw);
                        assert forall|j: int| 0 <= j < i implies state::encodes(
                            v.flags(),
                            view[#[trigger] ids@[j]],
                            state::slot(self@.main, ids@[j]),
                        ) by {
                            assert(ids@[j] < ids@[i as int]);
                            assert(state::has_slot(before.main, ids@[j]));
                            state::lemma_other_slots(before.main, self@.main, raw, ids@[j]);
                        }
                    }
                    match r {
                        Ok(_) => {},
                        Err(e) => return Err(e),
                    }
                }
            }
            i = i + 1;
        }
        let ghost u = self@;
        proof {
            assert forall|id: u64| #[trigger] view.contains_key(id) implies state::encodes(
                v.flags(),
                view[id],
                state::slot(u.main, id),
            ) && (id + 1) * PAGE_SIZE <= u.main.len() by {
                assert(ids@.contains(id));
                let j = choose|j: int| 0 <= j < ids@.len() && ids@[j] == id;
                assert(state::has_slot(u.main, ids@[j]));
            }
            if ids@.len() > 0 {
                assert(view.contains_key(ids@.last()));
            }
            assert(state::rolled_main(v.flags(), view, v.main, u.main));
        }
        let staged: Option<Page> = match &self.wal {
            Some(s) => match &s.view_header {
                Some(p) => Some(p.clone()),
                None => None,
            },
            None => None,
        };
        if let Some(hp) = staged {
            let r = self.backend.write_phys_4096(0, &hp);
            proof {
                if r is Ok {
                    assert(self@.main =~= crate::pager::page::overwrite(u.main, 0, hp@));
                    assert(state::with_slot(u.main, 0, hp@, self@.main));
                    state::lemma_with_slot(u.main, 0, hp@, self@.main);
                }
                assert(state::only_slot_differs(u.main, self@.main, 0));
                state::lemma_file_slot_changed(u, 0, self@);
                state::lemma_rolled_one(view, v.main, u.main, self@.main, 0);
                assert forall|id: u64| #[trigger] view.contains_key(id) implies state::encodes(
                    v.flags(),
                    view[id],
                    state::slot(self@.main, id),
                ) by {
                    state::lemma_other_slots(u.main, self@.main, 0, id);
                }
            }
            match r {
                Ok(_) => {},
                Err(e) => return Err(e),
            }
        }
        self.backend.sync(SyncMode::Full)
    }

    /// Start the log anew, note its salt on page 0, and drop what the log
    /// held. Where that fails after the log was emptied, page 0 is owed its
    /// salt.
    fn rotate_wal_salt_and_persist(&mut self) -> (r: Result<(), Error>)
        requires
            old(self).wf(),
            old(self).wal is Some,
            old(self)@.log->0.owed is None,
            old(self)@.main_syncs.len() > 0,
            old(self)@.main_syncs.last() == (SyncMode::Full, old(self)@.main),
            state::view_on_main(
                old(self)@.flags(),
                old(self)@.main,
                old(self)@.log->0.view,
            ),
        ensures
            final(self).wf(),
            final(self).log_path() == old(self).log_path(),
            final(self)@.log is Some,
            state::only_slot_differs(old(self)@.main, final(self)@.main, 0),
            match r {
                Ok(_) => {
                    let m = final(self)@.log->0;
                    &&& old(self)@.log->0.wal.restarted(m.wal)
                    &&& state::salted(old(self)@.header, m.wal.salt, final(self)@.header)
                    &&& state::salted(old(self)@.log->0.committed, m.wal.salt, m.committed)
                    &&& state::slot(final(self)@.main, 0) == header::header_page(m.committed)
                    &&& final(self)@ == (PagerView {
                        main: final(self)@.main,
                        header: final(self)@.header,
                        log: Some(
                            LogState {
                                wal: m.wal,
                                committed: m.committed,
                                view: Map::empty(),
                                view_header: None,
                                ..old(self)@.log->0
                            },
                        ),
                        main_syncs: old(self)@.main_syncs.push(
                            (old(self)@.config.sync_mode, final(self)@.main),
                        ),
                        ..old(self)@
                    })
                },
                Err(e) => {
                    let m = final(self)@.log->0;
                    &&& e is Io
                    &&& !state::sure_to_roll(old(self)@)
                    &&& final(self)@ == old(self)@ || {
                        &&& old(self)@.log->0.wal.emptied(m.wal)
                        &&& state::salted(old(self)@.header, m.wal.salt, final(self)@.header)
                        &&& state::salted(old(self)@.log->0.committed, m.wal.salt, m.committed)
                        &&& m.owed == Some(header::header_page(m.committed))
                        &&& final(self)@ == (PagerView {
                            main: final(self)@.main,
                            header: final(self)@.header,
                            log: Some(
                                LogState {
                                    wal: m.wal,
                                    committed: m.committed,
                                    owed: m.owed,
                                    ..old(self)@.log->0
                                },
                            ),
                            ..old(self)@
                        })
                    }
                },
            },
    {
        let ghost v = self@;
        let mut failed: Option<Error> = None;
        if let Some(s) = &mut self.wal {
            let r = s.wal.reset_after_checkpoint();
            proof {
                s.wal.lemma_wf();
            }
            match r {
                Ok(_) => {},
                Err(e) => {
                    if s.wal.has_header() {
                        return Err(e);
                    }
                    failed = Some(e);
                },
            }
            let salt: u32 = s.wal.salt();
            stamp_salt_into_header(&mut self.header, salt);
            stamp_salt_into_header(&mut s.committed, salt);
            let mut page = Page::zeroed();
            encode_header(&s.committed, &mut page);
            s.owed = Some(page);
        }
        let ghost u = self@;
        proof {
            header::lemma_header_page_fields(u.log->0.committed);
            lemma_rotated(v, u);
        }
        if let Some(e) = failed {
            return Err(e);
        }
        let r = self.finish_checkpoint();
        proof {
            if r is Ok {
                let p = header::header_page(u.log->0.committed);
                assert(state::with_slot(u.main, 0, p, self@.main));
                state::lemma_with_slot(u.main, 0, p, self@.main);
            }
        }
        r
    }

    /// Write everything that the log holds into the main file and start the
    /// log anew, whatever snapshots hold on to. Where an earlier attempt came
    /// as far as page 0, finish it.
    fn roll_forward(&mut self) -> (r: Result<(), Error>)
        requires
            old(self).wf(),
        ensures
            final(self).wf(),
            final(self).log_path() == old(self).log_path(),
            old(self)@.log is None ==> r is Ok && *final(self) == *old(self),
            r is Ok && old(self)@.log is Some ==> state::main_synced(final(self)@),
            match r {
                Ok(_) => if old(self)@.log is None {
                    final(self)@ == old(self)@
                } else if state::nothing_to_roll(old(self)@.log->0) {
                    final(self)@ == state::resynced(old(self)@)
                } else {
                    state::rolled(old(self)@, final(self)@)
                },
                Err(e) => {
                    &&& old(self)@.log is Some
                    &&& state::roll_failed(old(self)@, final(self)@)
                    &&& e is Io && !state::sure_to_roll(old(self)@) || e == Error::InvalidArgument(
                        "file too large",
                    ) && state::page_too_far(old(self)@)
                },
            },
    {
        let ghost v = self@;
        let ids: Vec<u64>;
        let nothing_to_do: bool;
        let unfinished: bool;
        match &self.wal {
            Some(s) => {
                ids = sorted_keys(&s.view);
                nothing_to_do = ids.len() == 0 && s.view_header.is_none();
                unfinished = s.owed.is_some();
            },
            None => {
                return Ok(());
            },
        }
        if unfinished {
            return self.finish_checkpoint();
        }
        proof {
            if ids@.len() == 0 {
                assert forall|id: u64| !#[trigger] v.log->0.view.contains_key(id) by {
                    assert(!ids@.contains(id));
                }
            } else {
                assert(ids@.contains(ids@[0]));
                assert(v.log->0.view.contains_key(ids@[0]));
            }
        }
        match self.apply_checkpoint_view(&ids) {
            Ok(_) => {},
            Err(e) => return Err(e),
        }
        if nothing_to_do {
            return Ok(());
        }
        let ghost u = self@;
        proof {
            assert forall|id: u64| #[trigger] u.log->0.view.contains_key(id) implies state::on_main(
                u.flags(),
                u.main,
                id,
            ) == Some(checksum::stamped(u.log->0.view[id])) by {
                state::law_main_round_trip(
                    v.flags(),
                    v.log->0.view[id],
                    state::slot(u.main, id),
                );
            }
        }
        let r = self.rotate_wal_salt_and_persist();
        proof {
            state::lemma_rolled_one(v.log->0.view, v.main, u.main, self@.main, 0);
            assert forall|id: u64| #[trigger] v.log->0.view.contains_key(id) implies state::encodes(
                v.flags(),
                v.log->0.view[id],
                state::slot(self@.main, id),
            ) by {
                assert(id != 0);
                state::lemma_other_slots(u.main, self@.main, 0, id);
            }
            assert(state::rolled_main(v.flags(), v.log->0.view, v.main, self@.main));
            let n = v.main_syncs.len() as int;
            assert(self@.main_syncs.take(n) =~= v.main_syncs);
            assert(self@.main_syncs[n] == (SyncMode::Full, u.main));
            assert(state::synced_in_full(v, self@));
        }
        r
    }

    /// Write everything that the log holds into the main file and start the
    /// log anew.
    ///
    /// Nothing is done while a live snapshot holds on to a position of the log
    /// before its end. What the log holds stays readable until everything has
    /// succeeded. The log is emptied only once the main file survives a loss
    /// of power, whatever the configured sync mode.
    pub fn checkpoint(&mut self) -> (r: Result<(), Error>)
        requires
            old(self).wf(),
        ensures
            final(self).wf(),
            final(self).log_path() == old(self).log_path(),
            old(self)@.log is None || old(self)@.held_back() ==> r is Ok && *final(self)
                == *old(self),
            r is Ok && old(self)@.log is Some && !old(self)@.held_back() ==> state::main_synced(
                final(self)@,
            ),
            match r {
                Ok(_) => state::checkpointed(old(self)@, final(self)@),
                Err(e) => {
                    &&& old(self)@.log is Some
                    &&& !old(self)@.held_back()
                    &&& state::roll_failed(old(self)@, final(self)@)
                    &&& e is Io && !state::sure_to_roll(old(self)@) || e == Error::InvalidArgument(
                        "file too large",
                    ) && state::page_too_far(old(self)@)
                },
            },
    {
        if self.checkpoint_deferred_for_pinned_reader() {
            return Ok(());
        }
        self.roll_forward()
    }

    /// Commit the open transaction: every page it wrote goes to the log with
    /// one write and one sync, and the number of the last frame is returned,
    /// or zero where there was nothing to commit.
    ///
    /// Where the log has grown to the threshold it is rolled forward. If that
    /// fails the commit has still succeeded. Where it has not, nothing is done
    /// to the main file, unless an earlier checkpoint is left to finish.
    pub fn commit(&mut self) -> (r: Result<Lsn, Error>)
        requires
            old(self).wf(),
        ensures
            final(self).wf(),
            final(self).log_path() == old(self).log_path(),
            match r {
                Ok(lsn) => state::committed(old(self)@, lsn@, final(self)@),
                Err(e) => {
                    &&& state::commit_failed(old(self)@, final(self)@)
                    &&& state::has_changes(old(self)@.log->0)
                    &&& state::commit_error(old(self)@, e)
                },
            },
    {
        let lsn: Lsn = match self.commit_inner() {
            Ok(lsn) => lsn,
            Err(e) => return Err(e),
        };
        let ghost u = self@;
        let needs_checkpoint: bool = match &self.wal {
            Some(s) => s.wal.committed_frames() >= self.config.checkpoint_threshold,
            None => false,
        };
        if needs_checkpoint {
            let _ = self.checkpoint();
        }
        proof {
            assert(state::commit_step(old(self)@, lsn@, u));
            assert(state::auto_checkpointed(u, self@));
        }
        Ok(lsn)
    }

    /// Write every dirty page of a memory-backed pager to the backing store.
    fn write_back_dirty(&mut self) -> (r: Result<(), Error>)
        requires
            old(self).wf(),
        ensures
            final(self).wf(),
            r is Ok,
            old(self)@.log is Some ==> final(self)@ == (PagerView {
                cache: final(self)@.cache,
                ..old(self)@
            }),
            old(self)@.settled(final(self)@),
            forall|id: u64| #[trigger]
                cache::holds(final(self)@.cache, id) ==> !cache::entry(
                    final(self)@.cache,
                    id,
                ).dirty,
    {
        let ghost v = self@;
        let pages: Vec<(PageId, Page)> = self.cache.drain_dirty();
        let ghost u = self@;
        proof {
            self.cache.lemma_wf();
            assert forall|id: u64|
                #![trigger cache::holds(u.cache, id)]
                #![trigger cache::entry(u.cache, id)]
                (cache::holds(u.cache, id) <==> cache::holds(v.cache, id) && !cache::entry(
                    v.cache,
                    id,
                ).dirty) && (cache::holds(u.cache, id) ==> cache::entry(u.cache, id)
                    == cache::entry(v.cache, id)) by {
                cache::lemma_clean_part(v.cache, id);
            }
            state::lemma_only_clean_left(v, u);
            if v.log is Some && pages@.len() > 0 {
                assert(cache::holds(v.cache, pages@[0].0@));
            }
        }
        let mut i: usize = 0;
        while i < pages.len()
            invariant
                i <= pages@.len(),
                self.wf(),
                v.wf(),
                v.log is Some ==> pages@.len() == 0 && self@ == u,
                self@ == (PagerView { main: self@.main, ..u }),
                self@.main.len() == v.main.len(),
                u == (PagerView { cache: u.cache, ..v }),
                forall|j: int|
                    0 <= j < pages@.len() ==> cache::holds(v.cache, (#[trigger] pages@[j]).0@)
                        && cache::entry(v.cache, pages@[j].0@) == (CacheEntry {
                        id: pages@[j].0@,
                        page: pages@[j].1@,
                        dirty: true,
                    }) && !cache::holds(u.cache, pages@[j].0@),
                forall|i: int, j: int|
                    0 <= i < j < pages@.len() ==> (#[trigger] pages@[i]).0@ != (
                    #[trigger] pages@[j]).0@,
                forall|id: u64|
                    (forall|j: int| 0 <= j < i ==> (#[trigger] pages@[j]).0@ != id)
                        ==> #[trigger] self@.page_at(id) == u.page_at(id),
                forall|j: int|
                    0 <= j < i ==> self@.page_at((#[trigger] pages@[j]).0@) == Some(
                        checksum::stamped(pages@[j].1@),
                    ),
            decreases pages.len() - i,
        {
            let id: PageId = pages[i].0;
            let raw: u64 = id.get();
            let page: &Page = &pages[i].1;
            let ghost before = self@;
            proof {
                assert(cache::holds(v.cache, pages@[i as int].0@));
                assert(state::has_slot(v.main, raw));
            }
            match self.write_back_page(id, page) {
                Ok(_) => {},
                Err(e) => return Err(e),
            }
            proof {
                let s = choose|s: Seq<u8>| #[trigger]
                    state::encodes(before.flags(), page@, s) && state::with_slot(
                        before.main,
                        raw,
                        s,
                        self@.main,
                    );
                state::lemma_slot_written(before, raw, page@, s, self@);
                assert forall|k: u64|
                    (forall|j: int| 0 <= j < i + 1 ==> (#[trigger] pages@[j]).0@ != k)
                        implies #[trigger] self@.page_at(k) == u.page_at(k) by {
                    assert(pages@[i as int].0@ != k);
                    assert(before.page_at(k) == u.page_at(k));
                }
                assert forall|j: int| 0 <= j < i + 1 implies self@.page_at(
                    (#[trigger] pages@[j]).0@,
                ) == Some(checksum::stamped(pages@[j].1@)) by {
                    if j < i {
                        assert(pages@[j].0@ != pages@[i as int].0@);
                        assert(before.page_at(pages@[j].0@) == Some(
                            checksum::stamped(pages@[j].1@),
                        ));
                    }
                }
            }
            i = i + 1;
        }
        proof {
            if v.log is None {
                assert forall|id: u64| 1 <= id < v.header.page_count implies #[trigger] self@.body_at(
                    id,
                ) == v.body_at(id) by {
                    if cache::drained(pages@, id) {
                        let j = choose|j: int|
                            0 <= j < pages@.len() && (#[trigger] pages@[j]).0@ == id;
                        checksum::law_stamped_is_valid(pages@[j].1@);
                    } else {
                        assert(self@.page_at(id) == u.page_at(id));
                        assert(u.page_at(id) == v.page_at(id)) by {
                            assert(cache::holds(u.cache, id) || !cache::holds(u.cache, id));
                            assert(cache::holds(v.cache, id) ==> !cache::entry(v.cache, id).dirty);
                        }
                    }
                }
            }
        }
        Ok(())
    }

    /// Commit, roll the log forward, and write page 0 and every dirty page.
    pub fn flush(&mut self) -> (r: Result<(), Error>)
        requires
            old(self).wf(),
        ensures
            final(self).wf(),
            r is Ok && old(self)@.log is Some ==> state::main_synced(final(self)@),
            match r {
                Ok(_) => state::flushed(old(self)@, final(self)@),
                Err(e) => {
                    &&& old(self)@.log is Some
                    &&& state::flush_failed(old(self)@, final(self)@)
                    &&& {
                        ||| state::has_changes(old(self)@.log->0) && state::commit_error(
                            old(self)@,
                            e,
                        )
                        ||| exists|lsn: u64, c: PagerView| #[trigger]
                            state::committed(old(self)@, lsn, c) && (e is Io
                                && !state::sure_to_roll(c) || e == Error::InvalidArgument(
                                "file too large",
                            ) && state::page_too_far(c))
                        ||| e is Io && !file::within(old(self)@.main_limit, PAGE_SIZE as int)
                    }
                },
            },
    {
        let ghost v = self@;
        let lsn: Lsn = match self.commit() {
            Ok(lsn) => lsn,
            Err(e) => return Err(e),
        };
        let ghost c = self@;
        match self.checkpoint() {
            Ok(_) => {},
            Err(e) => {
                proof {
                    assert(state::committed(v, lsn@, c));
                }
                return Err(e);
            },
        }
        let ghost t = self@;
        proof {
            if v.log is None {
                assert(c == v);
                assert(t == v);
            }
        }
        match self.write_back_dirty() {
            Ok(_) => {},
            Err(e) => return Err(e),
        }
        let ghost d = self@;
        let r = self.write_header();
        proof {
            if r is Ok {
                state::lemma_with_slot(d.main, 0, header::header_page(d.header), self@.main);
            }
            if v.log is Some {
                state::lemma_file_slot_changed(d, 0, self@);
                assert(state::committed(v, lsn@, c) && state::checkpointed(c, t));
            } else {
                state::lemma_page0_written(d, self@);
                assert forall|id: u64| 1 <= id < v.header.page_count implies #[trigger] self@.body_at(
                    id,
                ) == v.body_at(id) by {
                    assert(self@.page_at(id) == d.page_at(id));
                    assert(d.body_at(id) == v.body_at(id));
                }
            }
        }
        match r {
            Ok(_) => {},
            Err(e) => return Err(e),
        }
        let mode: SyncMode = self.config.sync_mode;
        self.backend.sync(mode)
    }

    /// Drop the open transaction, roll the log forward, and say which log file
    /// is no longer needed.
    ///
    /// The pager is about to go, so a snapshot that holds on to a position of
    /// the log does not hold this back.
    pub fn prepare_close(&mut self) -> (r: Result<Option<String>, Error>)
        requires
            old(self).wf(),
        ensures
            final(self).wf(),
            old(self)@.log is None ==> r is Ok,
            r is Ok && old(self)@.log is Some ==> state::main_synced(final(self)@),
            match r {
                Ok(path) => {
                    &&& path is Some <==> old(self)@.log is Some
                    &&& path matches Some(p) ==> p@ == old(self).log_path()
                    &&& state::closed_down(old(self)@, final(self)@)
                },
                Err(e) => {
                    &&& old(self)@.log is Some
                    &&& state::roll_failed(state::unwritten(old(self)@), final(self)@)
                    &&& e is Io && !state::sure_to_roll(old(self)@) || e == Error::InvalidArgument(
                        "file too large",
                    ) && state::page_too_far(old(self)@)
                },
            },
    {
        let ghost v = self@;
        if let Some(s) = &mut self.wal {
            s.pending.clear();
            proof {
                assert(wal::page_bytes(s.pending@) =~= Map::empty());
            }
        }
        proof {
            if v.log is Some {
                state::lemma_staged(v, self@);
            }
            assert(self@ == state::unwritten(v));
        }
        match self.roll_forward() {
            Ok(_) => {},
            Err(e) => return Err(e),
        }
        match &self.wal {
            Some(s) => Ok(Some(s.wal.path().clone())),
            None => Ok(None),
        }
    }

    /// Where the log file lives.
    pub closed spec fn log_path(&self) -> Seq<char> {
        match self.wal {
            Some(s) => s.wal.spec_path(),
            None => Seq::empty(),
        }
    }

    /// What is left of the main file: `f` holds what `w` says, and was synced
    /// as `w` says.
    pub open spec fn left_behind(f: F, w: PagerView) -> bool {
        &&& w.wf()
        &&& f.contents() == w.main
        &&& f.syncs() == w.main_syncs
        &&& state::main_synced(w)
    }

    /// Close the pager: [`Pager::prepare_close`], after which nothing is left
    /// to do but to remove the log file. Writes that were not committed are
    /// lost.
    pub fn close(self) -> (r: Result<Option<String>, Error>)
        requires
            self.wf(),
        ensures
            match r {
                Ok(path) => {
                    &&& path is Some <==> self@.log is Some
                    &&& path matches Some(p) ==> p@ == self.log_path()
                    &&& self@.log is Some ==> exists|f: F, w: PagerView| #[trigger]
                        Self::left_behind(f, w) && state::closed_down(self@, w)
                },
                Err(e) => self@.log is Some && (e is Io && !state::sure_to_roll(self@) || e
                    == Error::InvalidArgument("file too large") && state::page_too_far(self@)),
            },
    {
        let mut pager = self;
        let r = pager.prepare_close();
        proof {
            if r is Ok && pager@.log is Some {
                assert(Self::left_behind(pager.backend->File_0, pager@));
            }
        }
        r
    }

    /// A snapshot of what is committed, for a reader. It holds checkpoints
    /// back from the next commit on, until it is released.
    pub fn reader_snapshot(&mut self) -> (r: ReaderSnapshot<F>)
        requires
            old(self).wf(),
            old(self)@.next_snapshot < u64::MAX,
        ensures
            final(self).wf(),
            r@ == state::next_reader(old(self)@),
            final(self)@ == (PagerView {
                pins: old(self)@.pins.insert(old(self)@.next_snapshot, old(self)@.end_lsn()),
                next_snapshot: (old(self)@.next_snapshot + 1) as u64,
                ..old(self)@
            }),
    {
        let ghost v = self@;
        let lsn: u64 = self.end_of_log();
        let frozen_view: HashMap<u64, Arc<Page>>;
        let frozen_header: Option<Page>;
        let root_catalog: u64;
        match &self.wal {
            Some(s) => {
                frozen_view = s.view.clone();
                frozen_header = match &s.view_header {
                    Some(p) => Some(p.clone()),
                    None => None,
                };
                root_catalog = s.committed.root_catalog;
            },
            None => {
                frozen_view = HashMap::new();
                frozen_header = None;
                root_catalog = self.header.root_catalog;
                proof {
                    assert(snapshot::shared_bytes(frozen_view@) =~= Map::empty());
                }
            },
        }
        let id: u64 = self.next_snapshot_id;
        self.next_snapshot_id = id + 1;
        self.snapshots.insert(id, lsn);
        proof {
            state::lemma_pins_changed(v, self@);
        }
        ReaderSnapshot::freeze(
            Lsn::new(lsn),
            frozen_view,
            frozen_header,
            root_catalog,
            SnapshotId::new(id),
        )
    }

    /// Let go of a snapshot.
    pub fn release_snapshot(&mut self, snap: ReaderSnapshot<F>)
        requires
            old(self).wf(),
        ensures
            final(self).wf(),
            final(self)@ == (PagerView {
                pins: old(self)@.pins.remove(snap@.id),
                ..old(self)@
            }),
    {
        let ghost v = self@;
        let id: u64 = snap.id().get();
        self.snapshots.remove(&id);
        proof {
            assert forall|k: u64| #[trigger] self@.pins.contains_key(k) implies k
                < self@.next_snapshot && self@.pins[k] <= v.end_lsn() by {
                assert(v.pins.contains_key(k));
            }
            state::lemma_pins_changed(v, self@);
        }
    }

    /// `true` iff there is an id left for another snapshot.
    pub fn can_take_snapshot(&self) -> (r: bool)
        ensures
            r == (self@.next_snapshot < u64::MAX),
    {
        self.next_snapshot_id < u64::MAX
    }

    /// `true` iff the storage can take one more page. That of a file is not
    /// limited by memory.
    pub fn can_grow(&self) -> (r: bool)
        requires
            self.wf(),
        ensures
            r == self@.has_room(),
    {
        match &self.backend {
            Backend::File(_) => true,
            Backend::Memory(b) => b.len() <= usize::MAX - PAGE_SIZE,
        }
    }

    /// Number of live snapshots.
    pub fn live_snapshot_count(&self) -> (r: usize)
        ensures
            r == self@.pins.dom().len(),
    {
        self.snapshots.len()
    }

    /// What a transaction that begins now must put back if it is rolled back.
    pub fn header_snapshot(&self) -> (r: HeaderSnapshot)
        ensures
            r.state() == state::header_state(self@),
    {
        let view: HashMap<u64, Arc<Page>> = match &self.wal {
            Some(s) => s.view.clone(),
            None => HashMap::new(),
        };
        proof {
            if self.wal is None {
                assert(snapshot::shared_bytes(view@) =~= Map::empty());
            }
        }
        HeaderSnapshot {
            root_catalog: self.header.root_catalog,
            freelist_head: self.header.freelist_head,
            page_count: self.header.page_count,
            view,
        }
    }

    /// Put back what [`Pager::header_snapshot`] noted, and write page 0.
    pub fn restore_header_snapshot(&mut self, snap: HeaderSnapshot) -> (r: Result<(), Error>)
        requires
            old(self).wf(),
            state::can_put_back(old(self)@, snap.state()),
        ensures
            final(self).wf(),
            match r {
                Ok(_) => state::header_written(
                    state::put_back(old(self)@, snap.state()),
                    final(self)@,
                ),
                Err(e) => {
                    &&& old(self)@.log is Some
                    &&& e is Io
                    &&& !file::within(old(self)@.main_limit, PAGE_SIZE as int)
                    &&& final(self)@ == (PagerView {
                        main: final(self)@.main,
                        ..state::put_back(old(self)@, snap.state())
                    })
                    &&& state::only_slot_differs(old(self)@.main, final(self)@.main, 0)
                },
            },
    {
        let ghost v = self@;
        let ghost noted = snap.state();
        self.header.root_catalog = snap.root_catalog;
        self.header.freelist_head = snap.freelist_head;
        self.header.page_count = snap.page_count;
        if let Some(s) = &mut self.wal {
            s.view = snap.view;
        }
        let ghost u = self@;
        proof {
            assert(u == state::put_back(v, noted));
            if v.log is Some {
                state::lemma_put_back(v, noted);
            }
        }
        let r = self.write_header();
        proof {
            if v.log is Some {
                if r is Ok {
                    state::lemma_with_slot(u.main, 0, header::header_page(u.header), self@.main);
                }
                state::lemma_file_slot_changed(u, 0, self@);
            } else {
                state::lemma_page0_written(v, self@);
            }
        }
        r
    }

    /// Drop the open transaction.
    pub fn rollback_pending_writes(&mut self)
        requires
            old(self).wf(),
        ensures
            final(self).wf(),
            final(self)@ == state::dropped(old(self)@),
    {
        let ghost v = self@;
        if let Some(s) = &mut self.wal {
            s.pending.clear();
            s.header_dirty = false;
            proof {
                assert(wal::page_bytes(s.pending@) =~= Map::empty());
            }
        }
        proof {
            if v.log is Some {
                state::lemma_staged(v, self@);
            }
        }
    }

    /// Note that a transaction begins.
    pub fn begin_txn(&mut self)
        requires
            old(self).wf(),
        ensures
            final(self).wf(),
            final(self)@ == (PagerView {
                log: match old(self)@.log {
                    Some(l) => Some(
                        LogState {
                            depth: if l.depth < u32::MAX {
                                (l.depth + 1) as u32
                            } else {
                                l.depth
                            },
                            ..l
                        },
                    ),
                    None => None,
                },
                ..old(self)@
            }),
    {
        let ghost v = self@;
        if let Some(s) = &mut self.wal {
            s.txn_depth = s.txn_depth.saturating_add(1);
        }
        proof {
            if v.log is Some {
                state::lemma_staged(v, self@);
            }
        }
    }

    /// Note that a transaction ends.
    pub fn end_txn(&mut self)
        requires
            old(self).wf(),
        ensures
            final(self).wf(),
            final(self)@ == (PagerView {
                log: match old(self)@.log {
                    Some(l) => Some(
                        LogState {
                            depth: if l.depth > 0 {
                                (l.depth - 1) as u32
                            } else {
                                0
                            },
                            ..l
                        },
                    ),
                    None => None,
                },
                ..old(self)@
            }),
    {
        let ghost v = self@;
        if let Some(s) = &mut self.wal {
            s.txn_depth = s.txn_depth.saturating_sub(1);
        }
        proof {
            if v.log is Some {
                state::lemma_staged(v, self@);
            }
        }
    }

    /// `true` iff a transaction is open; always so where there is no log.
    pub fn in_txn(&self) -> (r: bool)
        ensures
            r == (self@.log matches Some(l) ==> l.depth > 0),
    {
        match &self.wal {
            Some(s) => s.txn_depth > 0,
            None => true,
        }
    }

    /// Number of pages, page 0 counted.
    pub fn page_count(&self) -> (r: u64)
        ensures
            r == self@.header.page_count,
    {
        self.header.page_count
    }

    /// Page size in bytes.
    pub fn page_size(&self) -> (r: u16)
        ensures
            r == self@.header.page_size,
    {
        self.header.page_size
    }

    /// Format major and minor of the file.
    pub fn format_version(&self) -> (r: (u16, u16))
        ensures
            r == (self@.header.format_major, self@.header.format_minor),
    {
        (self.header.format_major, self.header.format_minor)
    }

    /// First free page, or `0`.
    pub fn freelist_head(&self) -> (r: u64)
        ensures
            r == self@.header.freelist_head,
    {
        self.header.freelist_head
    }

    /// Root page of the catalog, or `0`.
    pub fn root_catalog(&self) -> (r: u64)
        ensures
            r == self@.header.root_catalog,
    {
        self.header.root_catalog
    }

    /// `true` iff there is no log.
    pub fn is_memory_backed(&self) -> (r: bool)
        ensures
            r == (self@.log is None),
    {
        self.wal.is_none()
    }

    /// Page `id` from the cache or the storage, past the log.
    pub(crate) fn read_cache_or_main(&self, id: PageId) -> (r: Result<Page, Error>)
        requires
            self.wf(),
            self@.log is None,
        ensures
            match r {
                Ok(p) => id@ < self@.header.page_count && self@.page_at(id@) == Some(p@),
                Err(e) => id@ >= self@.header.page_count && e == Error::InvalidArgument(
                    "page id out of range",
                ),
            },
    {
        if id.get() >= self.header.page_count {
            return Err(Error::InvalidArgument("page id out of range"));
        }
        if let Some(p) = self.cache.peek(id) {
            return Ok(p.clone());
        }
        self.read_through(id)
    }

    /// Page 0 of the main file, past everything else.
    pub fn read_main_file_page_zero(&self, buf: &mut [u8; PAGE_SIZE]) -> (r: Result<(), Error>)
        requires
            self.wf(),
        ensures
            match r {
                Ok(_) => self@.log is Some && final(buf)@ == state::slot(self@.main, 0),
                Err(e) => if self@.log is Some {
                    e is Io && !file::within(self@.main_limit, PAGE_SIZE as int)
                } else {
                    e == Error::BackupNotSupportedForMemoryPager
                },
            },
    {
        match &self.backend {
            Backend::File(f) => f.read_exact_at(
                vstd::array::ref_mut_array_unsizing_coercion(buf),
                0,
            ),
            Backend::Memory(_) => Err(Error::BackupNotSupportedForMemoryPager),
        }
    }

    /// Page `id` of the main file, past the log and the cache.
    pub fn read_main_file_page(&self, id: PageId) -> (r: Result<Page, Error>)
        requires
            self.wf(),
        ensures
            match r {
                Ok(p) => id@ < self@.header.page_count && state::on_main(
                    self@.flags(),
                    self@.main,
                    id@,
                ) == Some(p@),
                Err(e) => if id@ >= self@.header.page_count {
                    e == Error::InvalidArgument("page id out of range")
                } else {
                    &&& self@.log is Some
                    &&& e is Io && !state::sure_to_read(self@, id@) || state::on_main(
                        self@.flags(),
                        self@.main,
                        id@,
                    ) is None && e == Error::Corruption { page_id: id@ }
                },
            },
    {
        if id.get() >= self.header.page_count {
            return Err(Error::InvalidArgument("page id out of range"));
        }
        self.read_through(id)
    }
}

impl<F: FileBackend> ReaderSnapshot<F> {
    /// Page `id` as of the snapshot: the frozen page, or else what the main
    /// file holds. A page of the database that neither has is all zeros.
    pub fn read_page(&self, pager: &Pager<F>, id: PageId) -> (r: Result<PageHandle, Error>)
        requires
            pager.wf(),
        ensures
            match r {
                Ok(p) => state::seen(self@, pager@, id@) == Some(p@),
                Err(e) => {
                    &&& !self@.frozen.contains_key(id@)
                    &&& if id@ >= pager@.header.page_count {
                        e == Error::InvalidArgument("page id out of range")
                    } else {
                        &&& pager@.log is Some
                        &&& e is Io && !state::sure_to_read(pager@, id@) || state::seen(
                            self@,
                            pager@,
                            id@,
                        ) is None && e == Error::Corruption { page_id: id@ }
                    }
                },
            },
            self@.frozen.contains_key(id@) ==> r matches Ok(PageHandle::Shared(_)),
            !self@.frozen.contains_key(id@) && r is Ok ==> r matches Ok(PageHandle::Owned(_)),
    {
        if let Some(p) = self.frozen_page(id) {
            return Ok(PageHandle::Shared(Arc::clone(p)));
        }
        if id.get() >= pager.page_count() {
            return Err(Error::InvalidArgument("page id out of range"));
        }
        if pager.is_memory_backed() {
            return match pager.read_cache_or_main(id) {
                Ok(p) => Ok(PageHandle::Owned(p)),
                Err(e) => Err(e),
            };
        }
        let physical: u64 = match pager.main_physical_page_count() {
            Ok(n) => n,
            Err(e) => return Err(e),
        };
        if id.get() >= physical {
            return Ok(PageHandle::Owned(Page::zeroed()));
        }
        match pager.read_main_file_page(id) {
            Ok(p) => Ok(PageHandle::Owned(p)),
            Err(e) => Err(e),
        }
    }
}

/// Starting the log anew, salting the headers, and owing page 0 leave the state
/// well-formed.
proof fn lemma_rotated(v: PagerView, w: PagerView)
    requires
        v.wf(),
        v.log is Some,
        w.log is Some,
        w == (PagerView {
            header: w.header,
            log: Some(
                LogState {
                    wal: w.log->0.wal,
                    owed: w.log->0.owed,
                    committed: w.log->0.committed,
                    ..v.log->0
                },
            ),
            ..v
        }),
        w.header == (FileHeader { wal_salt: w.header.wal_salt, ..v.header }),
        w.log->0.committed == (FileHeader {
            wal_salt: w.log->0.committed.wal_salt,
            ..v.log->0.committed
        }),
        w.log->0.wal.wf(),
        w.log->0.wal.config == v.log->0.wal.config,
        w.log->0.wal.next_lsn == v.log->0.wal.next_lsn,
        w.log->0.owed matches Some(p) ==> p.len() == PAGE_SIZE && state::view_on_main(
            w.flags(),
            w.main,
            w.log->0.view,
        ),
    ensures
        w.wf(),
{
    let x = PagerView { log: Some(LogState { wal: w.log->0.wal, ..v.log->0 }), ..v };
    state::lemma_log_grew(v, x);
    let y = PagerView { header: w.header, ..x };
    state::lemma_staged(x, y);
    assert(w.end_lsn() == y.end_lsn());
}

/// The salt that a header carries.
pub fn salt_from_header(header: &FileHeader) -> (r: u32)
    ensures
        r == state::header_salt(*header),
{
    let s: &[u8] = vstd::slice::slice_subrange(header.wal_salt.as_slice(), 0, 4);
    proof {
        assert(s@.take(4) =~= s@);
        assert(s@ =~= header.wal_salt@.take(4));
        bytes::lemma_le_round_trip_bytes(s@);
        bytes::lemma_pow256();
    }
    bytes::get_le(s, 4) as u32
}

/// Put `salt` into a header.
pub fn stamp_salt_into_header(header: &mut FileHeader, salt: u32)
    ensures
        state::salted(*old(header), salt, *final(header)),
{
    let mut word: Vec<u8> = Vec::new();
    bytes::push_le(&mut word, salt as u64, 4);
    proof {
        bytes::lemma_le_seq_len(salt as nat, 4);
    }
    let mut stamp: [u8; 16] = [0u8; 16];
    let mut i: usize = 0;
    while i < 4
        invariant
            i <= 4,
            word@.len() == 4,
            forall|j: int|
                0 <= j < 16 ==> #[trigger] stamp@[j] == if j < i {
                    word@[j]
                } else {
                    0u8
                },
        decreases 4 - i,
    {
        stamp[i] = word[i];
        i = i + 1;
    }
    proof {
        assert(stamp@ =~= bytes::le_seq(salt as nat, 4) + Seq::new(12, |i: int| 0u8));
    }
    header.wal_salt = stamp;
}

/// Make an empty file a database that holds nothing.
fn initialise_file<F: FileBackend>(
    main: &mut F,
    config: &Config,
    entropy: &mut Box<dyn Entropy>,
) -> (r: Result<FileHeader, Error>)
    requires
        old(main).contents().len() == 0,
    ensures
        *final(entropy) == *old(entropy),
        final(main).limit() == old(main).limit(),
        match r {
            Ok(h) => {
                &&& state::found_header(Seq::empty(), *config, h)
                &&& h.well_formed()
                &&& final(main).contents() == header::header_page(h)
                &&& final(main).syncs() == old(main).syncs().push(
                    (SyncMode::Normal, header::header_page(h)),
                )
            },
            Err(e) => e is Io && !file::within(old(main).limit(), PAGE_SIZE as int),
        },
{
    let h: FileHeader = config::build_new_file_header(config.compression_mode, false, entropy);
    let mut p = Page::zeroed();
    encode_header(&h, &mut p);
    match main.set_len(PAGE_SIZE as u64) {
        Ok(_) => {},
        Err(e) => return Err(e),
    }
    match main.write_all_at(p.as_bytes().as_slice(), 0) {
        Ok(_) => {},
        Err(e) => return Err(e),
    }
    match main.sync_all() {
        Ok(_) => {},
        Err(e) => return Err(e),
    }
    proof {
        assert(main.contents() =~= header::header_page(h));
    }
    Ok(h)
}

/// Read the header of an existing file.
fn load_header<F: FileBackend>(main: &F) -> (r: Result<FileHeader, Error>)
    requires
        main.contents().len() > 0,
    ensures
        match r {
            Ok(h) => {
                &&& main.contents().len() >= PAGE_SIZE
                &&& header::header_error(main.contents().take(PAGE_SIZE as int)) is None
                &&& header::header_fields(main.contents().take(PAGE_SIZE as int), h)
            },
            Err(e) => {
                ||| e is Io && !file::within(main.limit(), PAGE_SIZE as int)
                ||| main.contents().len() < PAGE_SIZE && e == Error::InvalidFormat {
                    reason: "file is shorter than one page",
                }
                ||| main.contents().len() >= PAGE_SIZE && header::header_error(
                    main.contents().take(PAGE_SIZE as int),
                ) == Some(e)
            },
        },
{
    let len: u64 = match main.len() {
        Ok(n) => n,
        Err(e) => return Err(e),
    };
    if len < PAGE_SIZE as u64 {
        return Err(Error::InvalidFormat { reason: "file is shorter than one page" });
    }
    let mut p = Page::zeroed();
    match main.read_exact_at(
        vstd::array::ref_mut_array_unsizing_coercion(p.as_bytes_mut()),
        0,
    ) {
        Ok(_) => {},
        Err(e) => return Err(e),
    }
    proof {
        assert(main.contents().subrange(0, PAGE_SIZE as int) =~= main.contents().take(
            PAGE_SIZE as int,
        ));
    }
    decode_header(&p)
}

/// Write page 0 of a file.
fn write_header_to_backend<F: FileBackend>(main: &mut F, header: &FileHeader) -> (r: Result<
    (),
    Error,
>)
    requires
        header.encodable(),
        old(main).contents().len() >= PAGE_SIZE,
    ensures
        final(main).syncs() == old(main).syncs(),
        final(main).limit() == old(main).limit(),
        match r {
            Ok(_) => state::with_slot(
                old(main).contents(),
                0,
                header::header_page(*header),
                final(main).contents(),
            ),
            Err(e) => e is Io && !file::within(old(main).limit(), PAGE_SIZE as int),
        },
{
    let mut p = Page::zeroed();
    encode_header(header, &mut p);
    let ghost before = main.contents();
    let r = main.write_all_at(p.as_bytes().as_slice(), 0);
    proof {
        if r is Ok {
            assert(main.contents() =~= crate::pager::page::overwrite(before, 0, p@));
        }
    }
    r
}

/// What opening made of the log.
struct OpenedLog<F: FileBackend> {
    wal: Wal<F>,
    pages: HashMap<u64, Page>,
    header: Option<Page>,
}

/// Take over what the log holds, or start it anew.
fn recover_or_create_wal<F: FileBackend>(
    main: &mut F,
    log: F,
    log_path: String,
    header: &mut FileHeader,
    config: &Config,
    entropy: Kept<Box<dyn Entropy>>,
) -> (r: Result<OpenedLog<F>, Error>)
    requires
        old(header).well_formed(),
        old(main).contents().len() >= PAGE_SIZE,
    ensures
        final(main).limit() == old(main).limit(),
        match r {
            Ok(o) => {
                &&& o.wal@.limit == log.limit()
                &&& if wal::counted(log.contents(), state::header_salt(*old(header))).len() > 0 {
                    &&& final(main).syncs() == old(main).syncs()
                    &&& o.wal@.syncs == log.syncs()
                    &&& o.wal@.source == entropy
                } else {
                    &&& final(main).syncs() == old(main).syncs().push(
                        (config.sync_mode, final(main).contents()),
                    )
                    &&& o.wal@.syncs == log.syncs().push((SyncMode::Normal, o.wal@.file))
                    &&& env::may_draw(&*entropy.source, o.wal@.salt)
                }
                &&& wal::log_error(log.contents(), state::header_salt(*old(header))) is None
                &&& wal::latest(
                    wal::counted(log.contents(), state::header_salt(*old(header))),
                    0,
                ) matches Some(hp) ==> header::header_error(hp) is None
                &&& o.wal.wf()
                &&& o.wal.spec_path() == log_path@
                &&& o.wal@.config == config.spec_wal_config()
                &&& final(header).well_formed()
                &&& final(header).feature_flags == old(header).feature_flags
                &&& state::opened_log(
                    old(main).contents(),
                    log.contents(),
                    *old(header),
                    *final(header),
                    final(main).contents(),
                    o.wal@,
                    wal::page_bytes(o.pages@),
                    opt_bytes(o.header),
                )
            },
            Err(e) => {
                let salt = state::header_salt(*old(header));
                ||| e is Io && !state::sure_to_open(
                    old(main).limit(),
                    log.contents(),
                    log.limit(),
                )
                ||| log.contents().len() > usize::MAX && e == Error::InvalidArgument(
                    "log too large for memory",
                )
                ||| wal::log_error(log.contents(), salt) == Some(e)
                ||| wal::log_error(log.contents(), salt) is None && (wal::latest(
                    wal::counted(log.contents(), salt),
                    0,
                ) matches Some(hp) && header::header_error(hp) == Some(e))
            },
        },
{
    let salt: u32 = salt_from_header(header);
    let rec: Recovered = match Wal::<F>::open_for_recovery(&log, salt) {
        Ok(rec) => rec,
        Err(e) => return Err(e),
    };
    if rec.committed_frames > 0 {
        let wal = Wal::<F>::from_recovered_meta(
            log,
            log_path,
            salt,
            &rec,
            config.wal_config(),
            entropy,
        );
        if let Some(hp) = &rec.header {
            let decoded: FileHeader = match decode_header(hp) {
                Ok(h) => h,
                Err(e) => return Err(e),
            };
            header.root_catalog = decoded.root_catalog;
            header.freelist_head = decoded.freelist_head;
            header.page_count = decoded.page_count;
        }
        Ok(OpenedLog { wal, pages: rec.pages, header: rec.header })
    } else {
        let wal = match Wal::<F>::create_fresh_with(log, log_path, config.wal_config(), entropy) {
            Ok(wal) => wal,
            Err(e) => return Err(e),
        };
        stamp_salt_into_header(header, wal.salt());
        match write_header_to_backend(main, header) {
            Ok(_) => {},
            Err(e) => return Err(e),
        }
        match main.sync_data(config.sync_mode) {
            Ok(_) => {},
            Err(e) => return Err(e),
        }
        let pages: HashMap<u64, Page> = HashMap::new();
        proof {
            assert(wal::page_bytes(pages@) =~= Map::empty());
        }
        Ok(OpenedLog { wal, pages, header: None })
    }
}

/// Make every page of `m` shareable.
fn share_pages(m: HashMap<u64, Page>) -> (r: HashMap<u64, Arc<Page>>)
    ensures
        snapshot::shared_bytes(r@) == wal::page_bytes(m@),
{
    let ids: Vec<u64> = sorted_keys(&m);
    let mut m = m;
    let ghost all = m@;
    let mut out: HashMap<u64, Arc<Page>> = HashMap::new();
    let mut i: usize = 0;
    while i < ids.len()
        invariant
            i <= ids@.len(),
            ids@.no_duplicates(),
            forall|k: u64| #[trigger] ids@.contains(k) <==> all.contains_key(k),
            forall|k: u64| #[trigger]
                m@.contains_key(k) <==> all.contains_key(k) && !ids@.take(i as int).contains(k),
            forall|k: u64| #[trigger] m@.contains_key(k) ==> m@[k] == all[k],
            forall|k: u64| #[trigger] out@.contains_key(k) <==> ids@.take(i as int).contains(k),
            forall|k: u64| #[trigger] out@.contains_key(k) ==> out@[k]@ == all[k]@,
        decreases ids.len() - i,
    {
        let id: u64 = ids[i];
        proof {
            assert(ids@.contains(id));
            crate::ordered::lemma_prefix_members(ids@, i as int);
            assert(m@.contains_key(id));
        }
        if let Some(p) = m.remove(&id) {
            out.insert(id, Arc::new(p));
        }
        i = i + 1;
    }
    proof {
        assert(ids@.take(ids@.len() as int) =~= ids@);
        assert(snapshot::shared_bytes(out@) =~= wal::page_bytes(all));
    }
    out
}

impl<F: FileBackend> Pager<F> {
    /// Open a database on a main file and a log file. An empty main file is
    /// made a database first. What the log holds is taken over before
    /// anything can be read.
    pub fn open_with_backends(
        main: F,
        log: F,
        log_path: String,
        config: Config,
        entropy: Box<dyn Entropy>,
    ) -> (r: Result<Self, Error>)
        requires
            config.cache_frames < usize::MAX,
        ensures
            match r {
                Ok(p) => {
                    &&& p.wf()
                    &&& p.log_path() == log_path@
                    &&& state::open_error(main.contents(), log.contents(), config) is None
                    &&& state::opened(main.contents(), log.contents(), config, p@)
                    &&& state::opened_syncs(main.contents(), main.syncs(), log.contents(), p@)
                    &&& p@.main_limit == main.limit()
                    &&& p@.log->0.wal.limit == log.limit()
                    &&& p.cache_capacity() == config.cache_frames
                    &&& if wal::counted(
                        log.contents(),
                        state::found_salt(main.contents()),
                    ).len() > 0 {
                        &&& p@.log->0.wal.syncs == log.syncs()
                        &&& p@.log->0.wal.source.source == entropy
                    } else {
                        &&& p@.log->0.wal.syncs == log.syncs().push(
                            (SyncMode::Normal, p@.log->0.wal.file),
                        )
                        &&& env::may_draw(&*entropy, p@.log->0.wal.salt)
                    }
                },
                Err(e) => {
                    ||| e is Io && !state::sure_to_open(
                        main.limit(),
                        log.contents(),
                        log.limit(),
                    )
                    ||| log.contents().len() > usize::MAX && e == Error::InvalidArgument(
                        "log too large for memory",
                    )
                    ||| state::open_error(main.contents(), log.contents(), config) == Some(e)
                },
            },
            config::config_error(config) matches Some(e) ==> r == Err::<Self, Error>(e),
    {
        let ghost main0 = main.contents();
        let ghost syncs0 = main.syncs();
        match config::check_config(&config) {
            Ok(_) => {},
            Err(e) => return Err(e),
        }
        let mut main = main;
        let mut entropy = entropy;
        let empty: bool = match main.is_empty() {
            Ok(b) => b,
            Err(e) => return Err(e),
        };
        let mut header: FileHeader = if empty {
            match initialise_file(&mut main, &config, &mut entropy) {
                Ok(h) => h,
                Err(e) => return Err(e),
            }
        } else {
            match load_header(&main) {
                Ok(h) => h,
                Err(e) => return Err(e),
            }
        };
        let ghost h0 = header;
        let ghost main1 = main.contents();
        proof {
            if main0.len() == 0 {
                assert(main0 =~= Seq::<u8>::empty());
                header::lemma_header_page_fields(h0);
                assert(0u32 & 2u32 == 0 && 1u32 & 2u32 == 0) by (bit_vector);
            } else {
                state::lemma_page0(main0, h0);
                header::law_decoded_header_is_well_formed(main0.take(PAGE_SIZE as int), h0);
            }
            assert(state::found_header(main0, config, h0));
            state::lemma_found_salt(main0, config, h0);
        }
        match config::check_existing(&config, &header) {
            Ok(_) => {},
            Err(e) => {
                proof {
                    if main0.len() == 0 {
                        assert(0u32 & 1u32 == 0 && 1u32 & 2u32 == 0 && 0u32 & 2u32 == 0)
                            by (bit_vector);
                    }
                }
                return Err(e);
            },
        }
        let ghost log0 = log.contents();
        let kept = Kept { source: entropy };
        let opened = match recover_or_create_wal(
            &mut main,
            log,
            log_path,
            &mut header,
            &config,
            kept,
        ) {
            Ok(o) => o,
            Err(e) => return Err(e),
        };
        let len: u64 = match main.len() {
            Ok(n) => n,
            Err(e) => return Err(e),
        };
        let view: HashMap<u64, Arc<Page>> = share_pages(opened.pages);
        let mut pager = Pager {
            backend: Backend::File(main),
            header,
            cache: Cache::new(config.cache_frames),
            wal: Some(
                WalState {
                    wal: opened.wal,
                    pending: HashMap::new(),
                    view,
                    header_dirty: false,
                    view_header: opened.header,
                    committed: header,
                    txn_depth: 0,
                    owed: None,
                },
            ),
            config,
            snapshots: HashMap::new(),
            next_snapshot_id: 1,
            main_high_water: 0,
        };
        pager.main_high_water = pager.main_pages_for_len(len);
        proof {
            pager.wal->0.wal.lemma_wf();
            let l = pager@.log->0;
            assert(l.pending =~= Map::empty());
            assert(pager@.pins =~= Map::empty());
            assert forall|id: u64| !cache::holds(pager@.cache, id) by {}
            wal::lemma_counted(log0, state::header_salt(h0));
            lemma_shared_lens(pager.wal->0.view@);
            assert(state::opened_syncs(main0, syncs0, log0, pager@)) by {
                if main0.len() == 0 {
                    assert(pager@.main_syncs[syncs0.len() as int].1 == header::header_page(h0));
                }
            }
        }
        Ok(pager)
    }
}

/// Shared pages hold one page of bytes each.
proof fn lemma_shared_lens(m: Map<u64, Arc<Page>>)
    ensures
        forall|id: u64| #[trigger]
            snapshot::shared_bytes(m).contains_key(id) ==> snapshot::shared_bytes(m)[id].len()
                == PAGE_SIZE,
{
}

impl Pager<MemoryFile> {
    /// A database that lives in memory and holds nothing.
    pub fn memory(config: Config) -> (r: Result<Self, Error>)
        requires
            config.cache_frames < usize::MAX,
        ensures
            match config::config_error(config) {
                Some(e) => r == Err::<Self, Error>(e),
                None => r matches Ok(p) && {
                    &&& p.wf()
                    &&& p@.log is None
                    &&& p@.header.is_fresh(config::new_file_flags(config.compression_mode, false))
                    &&& p@.main == header::header_page(p@.header)
                    &&& p@.cache.len() == 0
                    &&& p@.config == config
                    &&& p@.pins == Map::<u64, u64>::empty()
                    &&& p@.next_snapshot == 1
                    &&& p@.has_room()
                    &&& p.cache_capacity() == config.cache_frames
                },
            },
    {
        match config::check_config(&config) {
            Ok(_) => {},
            Err(e) => return Err(e),
        }
        let mut entropy: Box<dyn Entropy> = Box::new(OsEntropy);
        let header: FileHeader = config::build_new_file_header(
            config.compression_mode,
            false,
            &mut entropy,
        );
        match config::check_existing(&config, &header) {
            Ok(_) => {},
            Err(e) => {
                proof {
                    assert(0u32 & 1u32 == 0 && 1u32 & 2u32 == 0 && 0u32 & 2u32 == 0)
                        by (bit_vector);
                }
                return Err(e);
            },
        }
        let mut p = Page::zeroed();
        encode_header(&header, &mut p);
        let mut bytes: Vec<u8> = Vec::new();
        bytes.extend_from_slice(p.as_bytes().as_slice());
        let pager = Pager {
            backend: Backend::Memory(bytes),
            header,
            cache: Cache::new(config.cache_frames),
            wal: None,
            config,
            snapshots: HashMap::new(),
            next_snapshot_id: 1,
            main_high_water: 0,
        };
        proof {
            assert(pager@.main =~= header::header_page(header));
            assert(pager@.pins =~= Map::empty());
            assert(0u32 & 2u32 == 0 && 1u32 & 2u32 == 0) by (bit_vector);
            assert forall|id: u64| !cache::holds(pager@.cache, id) by {}
        }
        Ok(pager)
    }
}

} // verus!
