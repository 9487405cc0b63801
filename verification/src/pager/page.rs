//! Page primitives: the fixed page size, the page id, the owned page buffer
//! and the place of a page in the file.

use vstd::prelude::*;

verus! {

/// Page size in bytes.
pub const PAGE_SIZE: usize = 4096;

/// Bytes that the checksum trailer takes at the end of a page.
pub const PAGE_TRAILER_SIZE: usize = 4;

/// Bytes that encryption adds to a page on disk: a 24-byte nonce and a
/// 16-byte tag.
pub const ENCRYPTION_OVERHEAD: usize = 40;

/// The feature bit that marks an encrypted file.
const ENCRYPTION_BIT: u32 = 2;

/// On-disk size of a page other than page 0.
pub open spec fn stride_of(feature_flags: u32) -> nat {
    if feature_flags & 2 != 0 {
        (PAGE_SIZE + ENCRYPTION_OVERHEAD) as nat
    } else {
        PAGE_SIZE as nat
    }
}

/// Byte offset of page `raw_id`: page 0 is at the start and takes one page,
/// every later page takes one stride.
pub open spec fn offset_of(raw_id: nat, feature_flags: u32) -> nat {
    if raw_id == 0 {
        0
    } else {
        (PAGE_SIZE + (raw_id - 1) * stride_of(feature_flags)) as nat
    }
}

/// On-disk size of a page other than page 0 in a file with the given feature
/// bits: 4096 bytes, or 4136 where the encryption bit is set.
pub fn physical_page_stride(feature_flags: u32) -> (r: usize)
    ensures
        r == stride_of(feature_flags),
{
    if feature_flags & ENCRYPTION_BIT != 0 {
        PAGE_SIZE + ENCRYPTION_OVERHEAD
    } else {
        PAGE_SIZE
    }
}

/// Byte offset at which page `raw_id` begins; `u64::MAX` where that offset is
/// too large to write down.
pub fn physical_offset_for(raw_id: u64, feature_flags: u32) -> (r: u64)
    ensures
        r == if offset_of(raw_id as nat, feature_flags) <= u64::MAX {
            offset_of(raw_id as nat, feature_flags)
        } else {
            u64::MAX as nat
        },
{
    if raw_id == 0 {
        return 0;
    }
    let stride: u64 = physical_page_stride(feature_flags) as u64;
    match (raw_id - 1).checked_mul(stride) {
        None => u64::MAX,
        Some(rel) => (PAGE_SIZE as u64).saturating_add(rel),
    }
}

/// Identifier of a page. Never zero, so that zero can stand for "no page".
#[derive(Debug, Clone, Copy, PartialEq, Eq, Structural, Hash, PartialOrd, Ord)]
pub struct PageId {
    raw: u64,
}

impl View for PageId {
    type V = u64;

    closed spec fn view(&self) -> u64 {
        self.raw
    }
}

impl PageId {
    #[verifier::type_invariant]
    spec fn nonzero(self) -> bool {
        self.raw != 0
    }

    /// The page id `raw`, or `None` if `raw` is zero.
    pub fn new(raw: u64) -> (r: Option<Self>)
        ensures
            r is None <==> raw == 0,
            r matches Some(id) ==> id@ == raw,
    {
        if raw == 0 {
            None
        } else {
            Some(PageId { raw })
        }
    }

    /// The underlying number. Never zero.
    pub fn get(self) -> (r: u64)
        ensures
            r == self@,
            r != 0,
    {
        proof {
            use_type_invariant(&self);
        }
        self.raw
    }

    /// Byte offset at which this page begins in a file with the given feature
    /// bits.
    pub fn byte_offset(self, feature_flags: u32) -> (r: u64)
        ensures
            r == if offset_of(self@ as nat, feature_flags) <= u64::MAX {
                offset_of(self@ as nat, feature_flags)
            } else {
                u64::MAX as nat
            },
    {
        physical_offset_for(self.raw, feature_flags)
    }
}

/// An owned buffer of one page.
#[derive(Debug)]
pub struct Page {
    bytes: Box<[u8; PAGE_SIZE]>,
}

impl View for Page {
    type V = Seq<u8>;

    closed spec fn view(&self) -> Seq<u8> {
        self.bytes@
    }
}

/// A page of zeros.
pub open spec fn zero_page() -> Seq<u8> {
    Seq::new(PAGE_SIZE as nat, |i: int| 0u8)
}

/// `s` with `v` written over it from position `off` on.
pub open spec fn overwrite(s: Seq<u8>, off: int, v: Seq<u8>) -> Seq<u8> {
    s.take(off) + v + s.skip(off + v.len())
}

impl Page {
    /// A page of zeros.
    pub fn zeroed() -> (r: Self)
        ensures
            r@ == zero_page(),
    {
        let r = Page { bytes: Box::new([0u8; PAGE_SIZE]) };
        proof {
            assert(r@ =~= zero_page());
        }
        r
    }

    /// The bytes of the page.
    pub fn as_bytes(&self) -> (r: &[u8; PAGE_SIZE])
        ensures
            r@ == self@,
            r@.len() == PAGE_SIZE,
    {
        &self.bytes
    }

    /// The bytes of the page, for writing.
    pub fn as_bytes_mut(&mut self) -> (r: &mut [u8; PAGE_SIZE])
        ensures
            r@ == old(self)@,
            final(self)@ == final(r)@,
    {
        &mut self.bytes
    }

    /// Write zero over the whole page.
    pub fn zero(&mut self)
        ensures
            final(self)@ == zero_page(),
    {
        self.bytes = Box::new([0u8; PAGE_SIZE]);
        proof {
            assert(self@ =~= zero_page());
        }
    }

    /// Write `src` over the page from byte `off` on.
    pub fn put(&mut self, off: usize, src: &[u8])
        requires
            off + src@.len() <= PAGE_SIZE,
        ensures
            final(self)@ == overwrite(old(self)@, off as int, src@),
    {
        let mut i: usize = 0;
        let ghost before = self@;
        while i < src.len()
            invariant
                i <= src.len(),
                off + src@.len() <= PAGE_SIZE,
                before.len() == PAGE_SIZE,
                self@ == overwrite(before, off as int, src@.take(i as int)),
            decreases src.len() - i,
        {
            self.bytes[off + i] = src[i];
            proof {
                assert(self@ =~= overwrite(before, off as int, src@.take(i + 1)));
            }
            i = i + 1;
        }
        proof {
            assert(src@.take(src.len() as int) =~= src@);
        }
    }
}

impl Default for Page {
    fn default() -> (r: Self)
        ensures
            r@ == zero_page(),
    {
        Page::zeroed()
    }
}

impl Clone for Page {
    fn clone(&self) -> (r: Self)
        ensures
            r == *self,
    {
        let bytes: [u8; PAGE_SIZE] = *self.bytes;
        Page { bytes: Box::new(bytes) }
    }
}

/// Every page holds one page of bytes.
pub broadcast proof fn lemma_page_len(p: Page)
    ensures
        #[trigger] p@.len() == PAGE_SIZE,
{
}

/// Pages stand one behind the other without a gap: page 0 takes 4096 bytes, and
/// every later page 4096, or 4136 in an encrypted file.
pub proof fn law_pages_stand_without_gaps(id: nat, feature_flags: u32)
    ensures
        offset_of(0, feature_flags) == 0,
        offset_of(1, feature_flags) == 4096,
        id > 0 ==> offset_of(id + 1, feature_flags) == offset_of(id, feature_flags) + if (
        feature_flags / 2) % 2 == 1 {
            4136int
        } else {
            4096int
        },
        stride_of(feature_flags) == if (feature_flags / 2) % 2 == 1 {
            4136int
        } else {
            4096int
        },
{
    assert((feature_flags & 2 != 0) == ((feature_flags / 2) % 2 == 1)) by (bit_vector);
    let s = stride_of(feature_flags);
    assert((1 - 1) * s == 0) by (nonlinear_arith);
    if id > 0 {
        assert(id * s == (id - 1) * s + s) by (nonlinear_arith)
            requires
                id > 0,
        ;
    }
}

/// Writing over a part of some bytes puts every byte in its place and leaves all
/// others.
pub proof fn law_overwriting(s: Seq<u8>, off: int, v: Seq<u8>, i: int)
    requires
        0 <= off,
        off + v.len() <= s.len(),
        0 <= i < s.len(),
    ensures
        overwrite(s, off, v).len() == s.len(),
        overwrite(s, off, v)[i] == if off <= i < off + v.len() {
            v[i - off]
        } else {
            s[i]
        },
        zero_page().len() == 4096,
        i < 4096 ==> zero_page()[i] == 0,
{
}

} // verus!
