//! Where the bytes of a database live.

use crate::error::Error;
use crate::pager::page::{Page, PAGE_SIZE};
use crate::platform::file;
use crate::platform::file::{write_over, FileBackend, SyncMode};
use vstd::prelude::*;

verus! {

broadcast use crate::pager::page::lemma_page_len;

/// The storage behind a pager.
pub enum Backend<F: FileBackend> {
    /// A file.
    File(F),
    /// A buffer.
    Memory(Vec<u8>),
}

impl<F: FileBackend> Backend<F> {
    /// The bytes.
    pub open spec fn contents(&self) -> Seq<u8> {
        match self {
            Backend::File(f) => f.contents(),
            Backend::Memory(b) => b@,
        }
    }

    /// The syncs of a file that succeeded, one after the other. A buffer has
    /// none.
    pub open spec fn syncs(&self) -> Seq<(SyncMode, Seq<u8>)> {
        match self {
            Backend::File(f) => f.syncs(),
            Backend::Memory(_) => Seq::empty(),
        }
    }

    /// No operation that stays within this many bytes fails. `None` where any
    /// operation may.
    pub open spec fn limit(&self) -> Option<nat> {
        match self {
            Backend::File(f) => f.limit(),
            Backend::Memory(_) => Some(usize::MAX as nat),
        }
    }

    /// Read the page of bytes at `off` into `page`, for page `id`.
    pub fn read_plain_into(&self, id: u64, off: u64, page: &mut Page) -> (r: Result<(), Error>)
        ensures
            match r {
                Ok(_) => off + PAGE_SIZE <= self.contents().len() <= u64::MAX && final(page)@
                    == self.contents().subrange(off as int, off + PAGE_SIZE),
                Err(e) => match self {
                    Backend::File(_) => e is Io && (off + PAGE_SIZE > self.contents().len()
                        || !file::within(self.limit(), off + PAGE_SIZE)),
                    Backend::Memory(_) => off + PAGE_SIZE > self.contents().len() && e == if off
                        + PAGE_SIZE > usize::MAX {
                        Error::InvalidArgument("offset overflow")
                    } else {
                        Error::Corruption { page_id: id }
                    },
                },
            },
    {
        match self {
            Backend::File(f) => f.read_exact_at(
                vstd::array::ref_mut_array_unsizing_coercion(page.as_bytes_mut()),
                off,
            ),
            Backend::Memory(bytes) => {
                let len: usize = bytes.len();
                if off > (usize::MAX - PAGE_SIZE) as u64 {
                    return Err(Error::InvalidArgument("offset overflow"));
                }
                let start: usize = off as usize;
                let end: usize = start + PAGE_SIZE;
                if end > len {
                    return Err(Error::Corruption { page_id: id });
                }
                let src: &[u8] = vstd::slice::slice_subrange(bytes.as_slice(), start, end);
                page.put(0, src);
                proof {
                    assert(page@ =~= bytes@.subrange(start as int, end as int));
                }
                Ok(())
            },
        }
    }

    /// Write a page of bytes at `off`.
    pub fn write_phys_4096(&mut self, off: u64, page: &Page) -> (r: Result<(), Error>)
        ensures
            (*final(self) is File) == (*old(self) is File),
            final(self).syncs() == old(self).syncs(),
            final(self).limit() == old(self).limit(),
            r is Err ==> !file::within(old(self).limit(), off + PAGE_SIZE),
            match r {
                Ok(_) => final(self).contents() == file::written(
                    old(self).contents(),
                    off as nat,
                    page@,
                ),
                Err(e) => match *old(self) {
                    Backend::File(_) => e is Io && file::same_outside(
                        old(self).contents(),
                        final(self).contents(),
                        off as nat,
                        PAGE_SIZE as nat,
                    ),
                    Backend::Memory(_) => off + PAGE_SIZE > usize::MAX && e
                        == Error::InvalidArgument("offset overflow") && final(self).contents()
                        == old(self).contents(),
                },
            },
    {
        match self {
            Backend::File(f) => f.write_all_at(page.as_bytes().as_slice(), off),
            Backend::Memory(bytes) => {
                if off > (usize::MAX - PAGE_SIZE) as u64 {
                    return Err(Error::InvalidArgument("offset overflow"));
                }
                write_over(bytes, off as usize, page.as_bytes().as_slice());
                Ok(())
            },
        }
    }

    /// Make what was written durable, as far as `mode` asks for it. A buffer
    /// has nothing to do.
    pub fn sync(&mut self, mode: SyncMode) -> (r: Result<(), Error>)
        ensures
            (*final(self) is File) == (*old(self) is File),
            final(self).contents() == old(self).contents(),
            final(self).limit() == old(self).limit(),
            *old(self) is Memory ==> *final(self) == *old(self),
            match r {
                Ok(_) => *old(self) is File ==> final(self).syncs() == old(self).syncs().push(
                    (mode, old(self).contents()),
                ),
                Err(e) => e is Io && *old(self) is File && old(self).limit() is None
                    && final(self).syncs() == old(self).syncs(),
            },
    {
        match self {
            Backend::File(f) => f.sync_data(mode),
            Backend::Memory(_) => Ok(()),
        }
    }
}

} // verus!
