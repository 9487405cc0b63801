//! Files as the page store sees them.

use crate::error::Error;
use vstd::prelude::*;

verus! {

/// How hard a sync tries.
#[derive(Debug, Clone, Copy, PartialEq, Eq, Structural)]
pub enum SyncMode {
    /// Survives a loss of power.
    Full,
    /// Survives a crash of the process; a loss of power may undo it.
    Normal,
    /// No sync at all.
    Off,
}

impl Default for SyncMode {
    fn default() -> (r: Self)
        ensures
            r == SyncMode::Full,
    {
        SyncMode::Full
    }
}

/// `s` with `b` written at `off`; a gap ahead of `off` is filled with zeros.
pub open spec fn written(s: Seq<u8>, off: nat, b: Seq<u8>) -> Seq<u8> {
    let n = if off + b.len() > s.len() {
        off + b.len()
    } else {
        s.len()
    };
    Seq::new(
        n,
        |i: int|
            if off <= i < off + b.len() {
                b[i - off]
            } else if i < s.len() {
                s[i]
            } else {
                0u8
            },
    )
}

/// `s` cut or filled up with zeros to `n` bytes.
pub open spec fn resized(s: Seq<u8>, n: nat) -> Seq<u8> {
    Seq::new(
        n,
        |i: int|
            if i < s.len() {
                s[i]
            } else {
                0u8
            },
    )
}

/// `b` is `a` but for bytes `off..off + n`, which may be anything; it is no
/// shorter, and longer only where those bytes reach beyond the end of `a`.
pub open spec fn same_outside(a: Seq<u8>, b: Seq<u8>, off: nat, n: nat) -> bool {
    &&& a.len() <= b.len()
    &&& b.len() <= a.len() || b.len() <= off + n
    &&& forall|i: int| 0 <= i < a.len() && !(off <= i < off + n) ==> #[trigger] b[i] == a[i]
}

/// A file.
///
/// Nothing but this value changes the bytes behind it while it is in use. An
/// operation may fail at any time, unless [`FileBackend::limit`] says
/// otherwise, and always with [`Error::Io`]; what a failed write leaves behind
/// is then confined to the bytes it was asked to write. A file is never so long
/// that its length does not fit `u64`.
///
/// Nothing runs the three functions that speak of the state of a file; an
/// implementation that is not itself verified need not give them.
pub trait FileBackend: Sized {
    /// The bytes of the file.
    open spec fn contents(&self) -> Seq<u8> {
        vstd::pervasive::arbitrary()
    }

    /// The syncs that succeeded, one after the other: the mode of each, and the
    /// bytes of the file by then.
    open spec fn syncs(&self) -> Seq<(SyncMode, Seq<u8>)> {
        vstd::pervasive::arbitrary()
    }

    /// No operation that stays within this many bytes fails. `None` where any
    /// operation may.
    open spec fn limit(&self) -> Option<nat> {
        None
    }

    /// Length of the file.
    fn len(&self) -> (r: Result<u64, Error>)
        ensures
            match r {
                Ok(n) => n == self.contents().len(),
                Err(e) => e is Io && self.limit() is None,
            },
    ;

    /// `true` iff the file has no bytes.
    fn is_empty(&self) -> (r: Result<bool, Error>)
        ensures
            match r {
                Ok(b) => b == (self.contents().len() == 0),
                Err(e) => e is Io && self.limit() is None,
            },
    {
        match self.len() {
            Ok(n) => Ok(n == 0),
            Err(e) => Err(e),
        }
    }

    /// Fill `buf` from `offset` on.
    fn read_exact_at(&self, buf: &mut [u8], offset: u64) -> (r: Result<(), Error>)
        ensures
            final(buf)@.len() == old(buf)@.len(),
            match r {
                Ok(_) => offset + old(buf)@.len() <= self.contents().len() <= u64::MAX && final(buf)@
                    == self.contents().subrange(offset as int, offset + old(buf)@.len()),
                Err(e) => e is Io && (offset + old(buf)@.len() > self.contents().len() || !within(
                    self.limit(),
                    offset + old(buf)@.len(),
                )),
            },
    ;

    /// Write `buf` at `offset`.
    fn write_all_at(&mut self, buf: &[u8], offset: u64) -> (r: Result<(), Error>)
        ensures
            final(self).syncs() == old(self).syncs(),
            final(self).limit() == old(self).limit(),
            match r {
                Ok(_) => final(self).contents() == written(
                    old(self).contents(),
                    offset as nat,
                    buf@,
                ),
                Err(e) => e is Io && !within(old(self).limit(), offset + buf@.len())
                    && same_outside(
                    old(self).contents(),
                    final(self).contents(),
                    offset as nat,
                    buf@.len(),
                ),
            },
    ;

    /// Cut the file, or fill it up with zeros, to `new_len` bytes.
    fn set_len(&mut self, new_len: u64) -> (r: Result<(), Error>)
        ensures
            final(self).syncs() == old(self).syncs(),
            final(self).limit() == old(self).limit(),
            match r {
                Ok(_) => final(self).contents() == resized(old(self).contents(), new_len as nat),
                Err(e) => e is Io && !within(old(self).limit(), new_len as int)
                    && final(self).contents() == old(self).contents(),
            },
    ;

    /// Make what was written durable, as far as `mode` asks for it.
    fn sync_data(&mut self, mode: SyncMode) -> (r: Result<(), Error>)
        ensures
            final(self).contents() == old(self).contents(),
            final(self).limit() == old(self).limit(),
            match r {
                Ok(_) => final(self).syncs() == old(self).syncs().push(
                    (mode, old(self).contents()),
                ),
                Err(e) => e is Io && old(self).limit() is None && final(self).syncs()
                    == old(self).syncs(),
            },
    ;

    /// Make what was written durable, and the length too: what a sync in
    /// [`SyncMode::Normal`] does.
    fn sync_all(&mut self) -> (r: Result<(), Error>)
        ensures
            final(self).contents() == old(self).contents(),
            final(self).limit() == old(self).limit(),
            match r {
                Ok(_) => final(self).syncs() == old(self).syncs().push(
                    (SyncMode::Normal, old(self).contents()),
                ),
                Err(e) => e is Io && old(self).limit() is None && final(self).syncs()
                    == old(self).syncs(),
            },
    ;
}

/// `n` bytes are within `limit`.
pub open spec fn within(limit: Option<nat>, n: int) -> bool {
    limit matches Some(m) && n <= m
}

/// An end-of-file error.
///
/// Calls `std::io::Error::from` on `ErrorKind::UnexpectedEof`; nothing is
/// claimed of the value.
#[verifier::external_body]
fn unexpected_eof() -> (r: std::io::Error) {
    std::io::Error::from(std::io::ErrorKind::UnexpectedEof)
}

/// A file that lives in memory.
pub struct MemoryFile {
    bytes: Vec<u8>,
    syncs: Ghost<Seq<(SyncMode, Seq<u8>)>>,
}

impl View for MemoryFile {
    type V = Seq<u8>;

    closed spec fn view(&self) -> Seq<u8> {
        self.bytes@
    }
}

impl MemoryFile {
    /// A file that holds `bytes`.
    pub fn new(bytes: Vec<u8>) -> (r: Self)
        ensures
            r@ == bytes@,
            r.syncs() == Seq::<(SyncMode, Seq<u8>)>::empty(),
    {
        MemoryFile { bytes, syncs: Ghost(Seq::empty()) }
    }

    /// The bytes of the file.
    pub fn into_bytes(self) -> (r: Vec<u8>)
        ensures
            r@ == self@,
    {
        self.bytes
    }
}

/// Write `buf` over `bytes` from `start` on, making room where there is none.
pub fn write_over(bytes: &mut Vec<u8>, start: usize, buf: &[u8])
    requires
        start + buf@.len() <= usize::MAX,
    ensures
        final(bytes)@ == written(old(bytes)@, start as nat, buf@),
{
    let end: usize = start + buf.len();
    let ghost before = bytes@;
    if end > bytes.len() {
        bytes.resize(end, 0);
    }
    let ghost grown = bytes@;
    let mut i: usize = 0;
    while i < buf.len()
        invariant
            i <= buf.len(),
            end == start + buf@.len(),
            bytes@.len() == grown.len(),
            end <= bytes@.len(),
            forall|j: int|
                0 <= j < bytes@.len() ==> #[trigger] bytes@[j] == if start <= j < start + i {
                    buf@[j - start]
                } else {
                    grown[j]
                },
        decreases buf.len() - i,
    {
        bytes[start + i] = buf[i];
        i = i + 1;
    }
    proof {
        assert(bytes@ =~= written(before, start as nat, buf@));
    }
}

impl FileBackend for MemoryFile {
    open spec fn contents(&self) -> Seq<u8> {
        self@
    }

    closed spec fn syncs(&self) -> Seq<(SyncMode, Seq<u8>)> {
        self.syncs@
    }

    open spec fn limit(&self) -> Option<nat> {
        Some(usize::MAX as nat)
    }

    fn len(&self) -> (r: Result<u64, Error>) {
        Ok(self.bytes.len() as u64)
    }

    fn read_exact_at(&self, buf: &mut [u8], offset: u64) -> (r: Result<(), Error>)
        ensures
            r is Ok <==> offset + old(buf)@.len() <= self@.len(),
    {
        let n: usize = buf.len();
        if n > self.bytes.len() || offset > (self.bytes.len() - n) as u64 {
            return Err(Error::Io(unexpected_eof()));
        }
        let start: usize = offset as usize;
        let mut i: usize = 0;
        while i < n
            invariant
                i <= n,
                start == offset,
                n == buf@.len(),
                start + n <= self.bytes.len(),
                forall|j: int| 0 <= j < i ==> #[trigger] buf@[j] == self.bytes@[start + j],
            decreases n - i,
        {
            buf[i] = self.bytes[start + i];
            i = i + 1;
        }
        proof {
            assert(buf@ =~= self.contents().subrange(offset as int, offset + n));
        }
        Ok(())
    }

    fn write_all_at(&mut self, buf: &[u8], offset: u64) -> (r: Result<(), Error>)
        ensures
            offset + buf@.len() <= usize::MAX ==> r is Ok,
    {
        if offset > (usize::MAX - buf.len()) as u64 {
            return Err(Error::Io(unexpected_eof()));
        }
        write_over(&mut self.bytes, offset as usize, buf);
        Ok(())
    }

    fn set_len(&mut self, new_len: u64) -> (r: Result<(), Error>)
        ensures
            new_len <= usize::MAX ==> r is Ok,
    {
        if new_len > usize::MAX as u64 {
            return Err(Error::Io(unexpected_eof()));
        }
        let n: usize = new_len as usize;
        if n <= self.bytes.len() {
            self.bytes.truncate(n);
        } else {
            self.bytes.resize(n, 0);
        }
        proof {
            assert(self.contents() =~= resized(old(self).contents(), new_len as nat));
        }
        Ok(())
    }

    fn sync_data(&mut self, mode: SyncMode) -> (r: Result<(), Error>)
        ensures
            r is Ok,
    {
        self.syncs = Ghost(self.syncs@.push((mode, self.bytes@)));
        Ok(())
    }

    fn sync_all(&mut self) -> (r: Result<(), Error>)
        ensures
            r is Ok,
    {
        self.syncs = Ghost(self.syncs@.push((SyncMode::Normal, self.bytes@)));
        Ok(())
    }
}

/// A write puts every byte in its place, fills a gap ahead of it with zeros and
/// leaves the other bytes; a file of another length keeps what there is room for
/// and is filled up with zeros.
pub proof fn law_bytes_of_a_file(s: Seq<u8>, off: nat, b: Seq<u8>, n: nat, i: int)
    requires
        0 <= i,
    ensures
        written(s, off, b).len() == if off + b.len() > s.len() {
            off + b.len()
        } else {
            s.len()
        },
        off <= i < off + b.len() ==> written(s, off, b)[i] == b[i - off],
        !(off <= i < off + b.len()) && i < s.len() ==> written(s, off, b)[i] == s[i],
        s.len() <= i < off ==> (i < written(s, off, b).len() ==> written(s, off, b)[i] == 0),
        written(s, off, b).subrange(off as int, (off + b.len()) as int) == b,
        resized(s, n).len() == n,
        i < n && i < s.len() ==> resized(s, n)[i] == s[i],
        s.len() <= i < n ==> resized(s, n)[i] == 0,
{
    assert(written(s, off, b).subrange(off as int, (off + b.len()) as int) =~= b);
}

/// What a failed write may leave: the bytes outside of it are as they were, and
/// the file ends where it did, or within the write.
pub proof fn law_what_a_failed_write_leaves(a: Seq<u8>, b: Seq<u8>, off: nat, n: nat, i: int)
    requires
        same_outside(a, b, off, n),
        0 <= i < a.len(),
    ensures
        b.len() >= a.len(),
        b.len() > a.len() ==> b.len() <= off + n,
        i < off || i >= off + n ==> b[i] == a[i],
{
}

} // verus!
