//! The file header on page 0.
//!
//! | bytes        | field                              |
//! |--------------|------------------------------------|
//! | 0..4         | magic `OBJF`                       |
//! | 4..6         | format major                       |
//! | 6..8         | format minor                       |
//! | 8..10        | page size                          |
//! | 10..14       | feature flags                      |
//! | 14..16       | reserved, zero                     |
//! | 16..24       | page count                         |
//! | 24..32       | root catalog page                  |
//! | 32..40       | freelist head                      |
//! | 40..56       | log salt                           |
//! | 56..72       | file UUID                          |
//! | 72..104      | key-derivation salt                |
//! | 104..4092    | zero                               |
//! | 4092..4096   | CRC32C of everything ahead of it   |
//!
//! Integers are little-endian.

use crate::bytes;
use crate::bytes::{get_le, push_le};
use crate::error::Error;
use crate::pager::checksum;
use crate::pager::checksum::{crc32c, write_page_trailer};
use crate::pager::page::{Page, PAGE_SIZE};
use vstd::prelude::*;

verus! {

broadcast use crate::pager::page::lemma_page_len;

/// File magic, `OBJF`.
pub const MAGIC: [u8; 4] = [0x4F, 0x42, 0x4A, 0x46];

/// The format major that new files carry.
pub const FORMAT_MAJOR: u16 = 1;

/// The format minor that new files carry.
pub const FORMAT_MINOR: u16 = 2;

/// Feature bit: pages are compressed with LZ4 where that helps.
pub const FEATURE_FLAG_COMPRESSION: u32 = 1;

/// Feature bit: pages are encrypted.
pub const FEATURE_FLAG_ENCRYPTION: u32 = 2;

/// Every feature bit that is understood.
pub const FEATURE_FLAGS_KNOWN: u32 = 3;

const PAGE_SIZE_U16: u16 = 4096;

const OFF_FORMAT_MAJOR: usize = 4;

const OFF_FORMAT_MINOR: usize = 6;

const OFF_PAGE_SIZE: usize = 8;

const OFF_FEATURE_FLAGS: usize = 10;

const OFF_RESERVED: usize = 14;

const OFF_PAGE_COUNT: usize = 16;

const OFF_ROOT_CATALOG: usize = 24;

const OFF_FREELIST_HEAD: usize = 32;

const OFF_WAL_SALT: usize = 40;

const OFF_FILE_UUID: usize = 56;

const OFF_KDF_SALT: usize = 72;

const OFF_HEADER_CRC: usize = 4092;

/// The file header.
#[derive(Debug, Clone, Copy, PartialEq, Eq)]
pub struct FileHeader {
    /// Format major version.
    pub format_major: u16,
    /// Format minor version.
    pub format_minor: u16,
    /// Page size in bytes.
    pub page_size: u16,
    /// Feature bits.
    pub feature_flags: u32,
    /// Number of pages, page 0 counted.
    pub page_count: u64,
    /// Root page of the catalog, or `0` if there is none.
    pub root_catalog: u64,
    /// First free page, or `0` if there is none.
    pub freelist_head: u64,
    /// Salt of the current log generation, in the first four bytes.
    pub wal_salt: [u8; 16],
    /// Stable identity of the file.
    pub file_uuid: [u8; 16],
    /// Salt for deriving the page-encryption key.
    pub kdf_salt: [u8; 32],
}

/// `s` is all zeros.
pub open spec fn all_zero(s: Seq<u8>) -> bool {
    forall|i: int| 0 <= i < s.len() ==> s[i] == 0
}

impl FileHeader {
    /// A header as of a file that holds nothing but page 0, with the given
    /// feature bits.
    pub open spec fn is_fresh(self, feature_flags: u32) -> bool {
        &&& self.format_major == FORMAT_MAJOR
        &&& self.format_minor == FORMAT_MINOR
        &&& self.page_size == PAGE_SIZE
        &&& self.feature_flags == feature_flags
        &&& self.page_count == 1
        &&& self.root_catalog == 0
        &&& self.freelist_head == 0
        &&& all_zero(self.wal_salt@)
        &&& all_zero(self.file_uuid@)
    }

    /// A header that the encoder takes: the page size is the only one there
    /// is, and the major version is one that can be read.
    pub open spec fn encodable(self) -> bool {
        &&& self.page_size == PAGE_SIZE
        &&& major_supported(self.format_major)
    }

    /// A header that comes back from its own encoding.
    pub open spec fn well_formed(self) -> bool {
        &&& self.encodable()
        &&& minor_supported(self.format_major, self.format_minor)
        &&& self.feature_flags & !FEATURE_FLAGS_KNOWN == 0
    }

    fn fresh(feature_flags: u32, kdf_salt: [u8; 32]) -> (r: Self)
        ensures
            r.is_fresh(feature_flags),
            r.kdf_salt == kdf_salt,
    {
        FileHeader {
            format_major: FORMAT_MAJOR,
            format_minor: FORMAT_MINOR,
            page_size: PAGE_SIZE_U16,
            feature_flags,
            page_count: 1,
            root_catalog: 0,
            freelist_head: 0,
            wal_salt: [0u8; 16],
            file_uuid: [0u8; 16],
            kdf_salt,
        }
    }

    /// Header of a new plain file.
    pub fn new_empty() -> (r: Self)
        ensures
            r.is_fresh(0),
            all_zero(r.kdf_salt@),
            r.well_formed(),
    {
        proof {
            assert(0u32 & !3u32 == 0) by (bit_vector);
        }
        Self::fresh(0, [0u8; 32])
    }

    /// Header of a new file with compression.
    pub fn new_empty_with_compression() -> (r: Self)
        ensures
            r.is_fresh(FEATURE_FLAG_COMPRESSION),
            all_zero(r.kdf_salt@),
            r.well_formed(),
    {
        proof {
            assert(1u32 & !3u32 == 0) by (bit_vector);
        }
        Self::fresh(FEATURE_FLAG_COMPRESSION, [0u8; 32])
    }

    /// Header of a new file with encryption.
    pub fn new_empty_with_encryption(kdf_salt: [u8; 32]) -> (r: Self)
        ensures
            r.is_fresh(FEATURE_FLAG_ENCRYPTION),
            r.kdf_salt == kdf_salt,
            r.well_formed(),
    {
        proof {
            assert(2u32 & !3u32 == 0) by (bit_vector);
        }
        Self::fresh(FEATURE_FLAG_ENCRYPTION, kdf_salt)
    }

    /// Header of a new file with both.
    pub fn new_empty_with_encryption_and_compression(kdf_salt: [u8; 32]) -> (r: Self)
        ensures
            r.is_fresh(FEATURE_FLAGS_KNOWN),
            r.kdf_salt == kdf_salt,
            r.well_formed(),
    {
        proof {
            assert(3u32 & !3u32 == 0) by (bit_vector);
            assert(1u32 | 2u32 == 3u32) by (bit_vector);
        }
        Self::fresh(FEATURE_FLAG_COMPRESSION | FEATURE_FLAG_ENCRYPTION, kdf_salt)
    }
}

/// The majors that can be read.
pub open spec fn major_supported(format_major: u16) -> bool {
    format_major == 0 || format_major == 1
}

/// The minors that a file of the given major may carry.
pub open spec fn minor_supported(format_major: u16, format_minor: u16) -> bool {
    ||| format_major == 0 && format_minor <= 2
    ||| format_major == 1 && format_minor == FORMAT_MINOR
}

/// `true` iff files of this major can be read.
pub fn is_supported_format_major(format_major: u16) -> (r: bool)
    ensures
        r == major_supported(format_major),
{
    format_major == 0 || format_major == 1
}

/// `true` iff `format_minor` goes with `format_major`.
pub fn is_supported_minor(format_major: u16, format_minor: u16) -> (r: bool)
    ensures
        r == minor_supported(format_major, format_minor),
{
    match format_major {
        0 => format_minor <= 2,
        1 => format_minor == FORMAT_MINOR,
        _ => false,
    }
}

/// The fields of a header, one after the other.
pub open spec fn header_prefix(h: FileHeader) -> Seq<u8> {
    MAGIC@ + bytes::le_seq(h.format_major as nat, 2) + bytes::le_seq(h.format_minor as nat, 2) + bytes::le_seq(
        h.page_size as nat,
        2,
    ) + bytes::le_seq(h.feature_flags as nat, 4) + seq![0u8, 0u8] + bytes::le_seq(h.page_count as nat, 8)
        + bytes::le_seq(h.root_catalog as nat, 8) + bytes::le_seq(h.freelist_head as nat, 8) + h.wal_salt@
        + h.file_uuid@ + h.kdf_salt@
}

/// Page 0 of a file with header `h`.
pub open spec fn header_page(h: FileHeader) -> Seq<u8> {
    checksum::stamped(crate::pager::page::overwrite(crate::pager::page::zero_page(), 0, header_prefix(h)))
}

/// The number in bytes `off..off + n` of `page`.
pub open spec fn field(page: Seq<u8>, off: int, n: int) -> nat {
    bytes::le_nat(page.subrange(off, off + n))
}

/// What is wrong with page 0 of a file, if anything is.
pub open spec fn header_error(page: Seq<u8>) -> Option<Error> {
    if page.take(4) != MAGIC@ {
        Some(Error::InvalidFormat { reason: "magic bytes are not OBJF" })
    } else if !major_supported(field(page, 4, 2) as u16) {
        Some(Error::InvalidFormat { reason: "format-major version not supported" })
    } else if !minor_supported(field(page, 4, 2) as u16, field(page, 6, 2) as u16) {
        Some(
            Error::InvalidFormat {
                reason: "format-minor not valid for the file's format-major",
            },
        )
    } else if field(page, 8, 2) != PAGE_SIZE {
        Some(Error::InvalidFormat { reason: "page size does not match this build" })
    } else if checksum::trailer_of(page) != checksum::crc32c_of(checksum::body_of(page)) {
        Some(Error::Corruption { page_id: 0 })
    } else if field(page, 10, 4) as u32 & !FEATURE_FLAGS_KNOWN != 0 {
        Some(Error::InvalidFormat { reason: "unknown feature_flags bit set on page-0 header" })
    } else if field(page, 14, 2) != 0 {
        Some(Error::InvalidFormat { reason: "reserved bytes after feature_flags must be zero" })
    } else {
        None
    }
}

/// The fields of `h` are those that `page` holds.
pub open spec fn header_fields(page: Seq<u8>, h: FileHeader) -> bool {
    &&& h.format_major == field(page, 4, 2)
    &&& h.format_minor == field(page, 6, 2)
    &&& h.page_size == field(page, 8, 2)
    &&& h.feature_flags == field(page, 10, 4)
    &&& h.page_count == field(page, 16, 8)
    &&& h.root_catalog == field(page, 24, 8)
    &&& h.freelist_head == field(page, 32, 8)
    &&& h.wal_salt@ == page.subrange(40, 56)
    &&& h.file_uuid@ == page.subrange(56, 72)
    &&& h.kdf_salt@ == page.subrange(72, 104)
}

proof fn lemma_prefix_layout(h: FileHeader)
    ensures
        header_prefix(h).len() == 104,
        header_prefix(h).subrange(0, 4) == MAGIC@,
        header_prefix(h).subrange(4, 6) == bytes::le_seq(h.format_major as nat, 2),
        header_prefix(h).subrange(6, 8) == bytes::le_seq(h.format_minor as nat, 2),
        header_prefix(h).subrange(8, 10) == bytes::le_seq(h.page_size as nat, 2),
        header_prefix(h).subrange(10, 14) == bytes::le_seq(h.feature_flags as nat, 4),
        header_prefix(h).subrange(14, 16) == seq![0u8, 0u8],
        header_prefix(h).subrange(16, 24) == bytes::le_seq(h.page_count as nat, 8),
        header_prefix(h).subrange(24, 32) == bytes::le_seq(h.root_catalog as nat, 8),
        header_prefix(h).subrange(32, 40) == bytes::le_seq(h.freelist_head as nat, 8),
        header_prefix(h).subrange(40, 56) == h.wal_salt@,
        header_prefix(h).subrange(56, 72) == h.file_uuid@,
        header_prefix(h).subrange(72, 104) == h.kdf_salt@,
{
    bytes::lemma_le_seq_len(h.format_major as nat, 2);
    bytes::lemma_le_seq_len(h.format_minor as nat, 2);
    bytes::lemma_le_seq_len(h.page_size as nat, 2);
    bytes::lemma_le_seq_len(h.feature_flags as nat, 4);
    bytes::lemma_le_seq_len(h.page_count as nat, 8);
    bytes::lemma_le_seq_len(h.root_catalog as nat, 8);
    bytes::lemma_le_seq_len(h.freelist_head as nat, 8);
    let p = header_prefix(h);
    assert(p.subrange(0, 4) =~= MAGIC@);
    assert(p.subrange(4, 6) =~= bytes::le_seq(h.format_major as nat, 2));
    assert(p.subrange(6, 8) =~= bytes::le_seq(h.format_minor as nat, 2));
    assert(p.subrange(8, 10) =~= bytes::le_seq(h.page_size as nat, 2));
    assert(p.subrange(10, 14) =~= bytes::le_seq(h.feature_flags as nat, 4));
    assert(p.subrange(14, 16) =~= seq![0u8, 0u8]);
    assert(p.subrange(16, 24) =~= bytes::le_seq(h.page_count as nat, 8));
    assert(p.subrange(24, 32) =~= bytes::le_seq(h.root_catalog as nat, 8));
    assert(p.subrange(32, 40) =~= bytes::le_seq(h.freelist_head as nat, 8));
    assert(p.subrange(40, 56) =~= h.wal_salt@);
    assert(p.subrange(56, 72) =~= h.file_uuid@);
    assert(p.subrange(72, 104) =~= h.kdf_salt@);
}

proof fn lemma_page_field(h: FileHeader, a: int, b: int)
    requires
        0 <= a <= b <= 104,
    ensures
        header_page(h).len() == PAGE_SIZE,
        header_page(h).subrange(a, b) == header_prefix(h).subrange(a, b),
{
    lemma_prefix_layout(h);
    let raw = crate::pager::page::overwrite(crate::pager::page::zero_page(), 0, header_prefix(h));
    assert(raw.len() == PAGE_SIZE);
    checksum::law_stamped_is_valid(raw);
    bytes::lemma_le_seq_len(checksum::crc32c_of(checksum::body_of(raw)) as nat, 4);
    assert(header_page(h).subrange(a, b) =~= header_prefix(h).subrange(a, b));
}

/// The fields that a header page was made of stand in it.
pub proof fn lemma_header_page_fields(h: FileHeader)
    ensures
        header_page(h).len() == PAGE_SIZE,
        header_page(h).take(4) == MAGIC@,
        header_fields(header_page(h), h),
        field(header_page(h), 14, 2) == 0,
        checksum::trailer_of(header_page(h)) == checksum::crc32c_of(checksum::body_of(header_page(h))),
{
    lemma_prefix_layout(h);
    lemma_page_field(h, 0, 4);
    lemma_page_field(h, 4, 6);
    lemma_page_field(h, 6, 8);
    lemma_page_field(h, 8, 10);
    lemma_page_field(h, 10, 14);
    lemma_page_field(h, 14, 16);
    lemma_page_field(h, 16, 24);
    lemma_page_field(h, 24, 32);
    lemma_page_field(h, 32, 40);
    lemma_page_field(h, 40, 56);
    lemma_page_field(h, 56, 72);
    lemma_page_field(h, 72, 104);
    bytes::lemma_pow256();
    bytes::lemma_le_round_trip(h.format_major as nat, 2);
    bytes::lemma_le_round_trip(h.format_minor as nat, 2);
    bytes::lemma_le_round_trip(h.page_size as nat, 2);
    bytes::lemma_le_round_trip(h.feature_flags as nat, 4);
    bytes::lemma_le_round_trip(h.page_count as nat, 8);
    bytes::lemma_le_round_trip(h.root_catalog as nat, 8);
    bytes::lemma_le_round_trip(h.freelist_head as nat, 8);
    reveal_with_fuel(bytes::le_nat, 3);
    assert(bytes::le_nat(seq![0u8, 0u8]) == 0);
    assert(header_page(h).subrange(0, 4) =~= header_page(h).take(4));
    checksum::law_stamped_is_valid(crate::pager::page::overwrite(crate::pager::page::zero_page(), 0, header_prefix(h)));
}

/// A well-formed header comes back from its own encoding, field by field.
pub proof fn law_header_round_trip(h: FileHeader)
    requires
        h.well_formed(),
    ensures
        header_error(header_page(h)) is None,
        header_fields(header_page(h), h),
{
    lemma_header_page_fields(h);
}

/// What a page 0 decodes to is well-formed.
pub proof fn law_decoded_header_is_well_formed(page: Seq<u8>, h: FileHeader)
    requires
        page.len() == PAGE_SIZE,
        header_error(page) is None,
        header_fields(page, h),
    ensures
        h.well_formed(),
{
}

/// A header is determined by the page that holds it.
pub proof fn law_header_fields_determine(page: Seq<u8>, a: FileHeader, b: FileHeader)
    requires
        header_fields(page, a),
        header_fields(page, b),
    ensures
        a == b,
{
    assert(a.wal_salt =~= b.wal_salt);
    assert(a.file_uuid =~= b.file_uuid);
    assert(a.kdf_salt =~= b.kdf_salt);
}

/// Write `header` over `page`.
pub fn encode_header(header: &FileHeader, page: &mut Page)
    requires
        header.encodable(),
    ensures
        final(page)@ == header_page(*header),
{
    let mut buf: Vec<u8> = Vec::new();
    let magic: [u8; 4] = MAGIC;
    buf.extend_from_slice(magic.as_slice());
    push_le(&mut buf, header.format_major as u64, 2);
    push_le(&mut buf, header.format_minor as u64, 2);
    push_le(&mut buf, header.page_size as u64, 2);
    push_le(&mut buf, header.feature_flags as u64, 4);
    buf.push(0);
    buf.push(0);
    push_le(&mut buf, header.page_count, 8);
    push_le(&mut buf, header.root_catalog, 8);
    push_le(&mut buf, header.freelist_head, 8);
    buf.extend_from_slice(header.wal_salt.as_slice());
    buf.extend_from_slice(header.file_uuid.as_slice());
    buf.extend_from_slice(header.kdf_salt.as_slice());
    proof {
        lemma_prefix_layout(*header);
        assert(buf@ =~= header_prefix(*header));
    }
    page.zero();
    page.put(0, buf.as_slice());
    write_page_trailer(page);
}

/// The number in bytes `off..off + n` of `buf`.
fn read_field(buf: &[u8; PAGE_SIZE], off: usize, n: usize) -> (r: u64)
    requires
        n <= 8,
        off + n <= PAGE_SIZE,
    ensures
        r == field(buf@, off as int, n as int),
        r < bytes::pow256(n as nat),
{
    let s: &[u8] = vstd::slice::slice_subrange(buf.as_slice(), off, off + n);
    proof {
        assert(s@.take(n as int) =~= s@);
        bytes::lemma_le_round_trip_bytes(s@);
    }
    get_le(s, n)
}

/// Copy bytes `off..off + 16` of `buf`.
fn read_array_16(buf: &[u8; PAGE_SIZE], off: usize) -> (r: [u8; 16])
    requires
        off + 16 <= PAGE_SIZE,
    ensures
        r@ == buf@.subrange(off as int, off + 16),
{
    let mut out: [u8; 16] = [0u8; 16];
    let mut i: usize = 0;
    while i < 16
        invariant
            i <= 16,
            off + 16 <= PAGE_SIZE,
            forall|j: int| 0 <= j < i ==> out@[j] == buf@[off + j],
        decreases 16 - i,
    {
        out[i] = buf[off + i];
        i = i + 1;
    }
    proof {
        assert(out@ =~= buf@.subrange(off as int, off + 16));
    }
    out
}

/// Copy bytes `off..off + 32` of `buf`.
fn read_array_32(buf: &[u8; PAGE_SIZE], off: usize) -> (r: [u8; 32])
    requires
        off + 32 <= PAGE_SIZE,
    ensures
        r@ == buf@.subrange(off as int, off + 32),
{
    let mut out: [u8; 32] = [0u8; 32];
    let mut i: usize = 0;
    while i < 32
        invariant
            i <= 32,
            off + 32 <= PAGE_SIZE,
            forall|j: int| 0 <= j < i ==> out@[j] == buf@[off + j],
        decreases 32 - i,
    {
        out[i] = buf[off + i];
        i = i + 1;
    }
    proof {
        assert(out@ =~= buf@.subrange(off as int, off + 32));
    }
    out
}

/// Read the header from page 0.
///
/// The checks are made in a fixed order, and the first that fails decides the
/// error: the magic, the major, the minor for that major, the page size, the
/// checksum, the feature bits, and the reserved bytes behind them.
pub fn decode_header(page: &Page) -> (r: Result<FileHeader, Error>)
    ensures
        match header_error(page@) {
            Some(e) => r == Err::<FileHeader, Error>(e),
            None => r matches Ok(h) && header_fields(page@, h),
        },
{
    let buf = page.as_bytes();
    proof {
        bytes::lemma_pow256();
        assert(buf@.take(4) =~= MAGIC@ <==> (buf[0] == MAGIC[0] && buf[1] == MAGIC[1] && buf[2]
            == MAGIC[2] && buf[3] == MAGIC[3]));
    }
    let magic: [u8; 4] = MAGIC;
    if buf[0] != magic[0] || buf[1] != magic[1] || buf[2] != magic[2] || buf[3] != magic[3] {
        return Err(Error::InvalidFormat { reason: "magic bytes are not OBJF" });
    }
    let format_major: u16 = read_field(buf, OFF_FORMAT_MAJOR, 2) as u16;
    if !is_supported_format_major(format_major) {
        return Err(Error::InvalidFormat { reason: "format-major version not supported" });
    }
    let format_minor: u16 = read_field(buf, OFF_FORMAT_MINOR, 2) as u16;
    if !is_supported_minor(format_major, format_minor) {
        return Err(
            Error::InvalidFormat {
                reason: "format-minor not valid for the file's format-major",
            },
        );
    }
    let page_size: u16 = read_field(buf, OFF_PAGE_SIZE, 2) as u16;
    if page_size as usize != PAGE_SIZE {
        return Err(Error::InvalidFormat { reason: "page size does not match this build" });
    }
    let stored_crc: u32 = read_field(buf, OFF_HEADER_CRC, 4) as u32;
    let body: &[u8] = vstd::slice::slice_subrange(buf.as_slice(), 0, OFF_HEADER_CRC);
    proof {
        assert(body@ =~= checksum::body_of(page@));
        assert(page@.subrange(4092, 4096) =~= page@.skip(4092));
    }
    if stored_crc != crc32c(body) {
        return Err(Error::Corruption { page_id: 0 });
    }
    let feature_flags: u32 = read_field(buf, OFF_FEATURE_FLAGS, 4) as u32;
    if feature_flags & !FEATURE_FLAGS_KNOWN != 0 {
        return Err(
            Error::InvalidFormat { reason: "unknown feature_flags bit set on page-0 header" },
        );
    }
    if read_field(buf, OFF_RESERVED, 2) != 0 {
        return Err(
            Error::InvalidFormat { reason: "reserved bytes after feature_flags must be zero" },
        );
    }
    Ok(
        FileHeader {
            format_major,
            format_minor,
            page_size,
            feature_flags,
            page_count: read_field(buf, OFF_PAGE_COUNT, 8),
            root_catalog: read_field(buf, OFF_ROOT_CATALOG, 8),
            freelist_head: read_field(buf, OFF_FREELIST_HEAD, 8),
            wal_salt: read_array_16(buf, OFF_WAL_SALT),
            file_uuid: read_array_16(buf, OFF_FILE_UUID),
            kdf_salt: read_array_32(buf, OFF_KDF_SALT),
        },
    )
}

/// Where the fields of a header stand on page 0, and what stands between and
/// behind them.
pub proof fn law_header_layout(h: FileHeader)
    ensures
        ({
            let p = header_page(h);
            &&& p.len() == 4096
            &&& p.take(4) == seq![0x4Fu8, 0x42u8, 0x4Au8, 0x46u8]
            &&& bytes::le_nat(p.subrange(4, 6)) == h.format_major
            &&& bytes::le_nat(p.subrange(6, 8)) == h.format_minor
            &&& bytes::le_nat(p.subrange(8, 10)) == h.page_size
            &&& bytes::le_nat(p.subrange(10, 14)) == h.feature_flags
            &&& p[14] == 0 && p[15] == 0
            &&& bytes::le_nat(p.subrange(16, 24)) == h.page_count
            &&& bytes::le_nat(p.subrange(24, 32)) == h.root_catalog
            &&& bytes::le_nat(p.subrange(32, 40)) == h.freelist_head
            &&& p.subrange(40, 56) == h.wal_salt@
            &&& p.subrange(56, 72) == h.file_uuid@
            &&& p.subrange(72, 104) == h.kdf_salt@
            &&& forall|i: int| 104 <= i < 4092 ==> #[trigger] p[i] == 0
            &&& bytes::le_nat(p.subrange(4092, 4096)) == checksum::crc32c_of(p.subrange(0, 4092))
        }),
{
    lemma_header_page_fields(h);
    lemma_prefix_layout(h);
    lemma_page_field(h, 14, 16);
    let p = header_page(h);
    assert(MAGIC@ =~= seq![0x4Fu8, 0x42u8, 0x4Au8, 0x46u8]);
    assert(p[14] == p.subrange(14, 16)[0] && p[15] == p.subrange(14, 16)[1]);
    let raw = crate::pager::page::overwrite(crate::pager::page::zero_page(), 0, header_prefix(h));
    checksum::law_stamped_is_valid(raw);
    assert forall|i: int| 104 <= i < 4092 implies #[trigger] p[i] == 0 by {
        assert(checksum::body_of(p)[i] == checksum::body_of(raw)[i]);
        assert(raw[i] == 0);
    }
    assert(p.subrange(4092, 4096) =~= p.skip(4092));
    assert(p.subrange(0, 4092) =~= checksum::body_of(p));
    bytes::lemma_le_round_trip_bytes(p.skip(4092));
    bytes::lemma_pow256();
}

/// Where the fields of a header are read from.
pub proof fn law_header_is_read_from_its_places(page: Seq<u8>, h: FileHeader)
    requires
        header_fields(page, h),
    ensures
        h.format_major == bytes::le_nat(page.subrange(4, 6)),
        h.format_minor == bytes::le_nat(page.subrange(6, 8)),
        h.page_size == bytes::le_nat(page.subrange(8, 10)),
        h.feature_flags == bytes::le_nat(page.subrange(10, 14)),
        h.page_count == bytes::le_nat(page.subrange(16, 24)),
        h.root_catalog == bytes::le_nat(page.subrange(24, 32)),
        h.freelist_head == bytes::le_nat(page.subrange(32, 40)),
        h.wal_salt@ == page.subrange(40, 56),
        h.file_uuid@ == page.subrange(56, 72),
        h.kdf_salt@ == page.subrange(72, 104),
{
}

/// The versions that can be read: minors up to two of major zero, and minor two
/// of major one.
pub proof fn law_versions_that_are_read(major: u16, minor: u16)
    ensures
        major_supported(major) <==> major <= 1,
        minor_supported(major, minor) <==> (major == 0 && minor <= 2) || (major == 1 && minor
            == 2),
        minor_supported(major, minor) ==> major_supported(major),
{
}

/// A page 0 can be read exactly where it begins with the magic, has a version
/// that can be read, the one page size, a checksum that fits, no unknown feature
/// and zeros behind the features.
pub proof fn law_headers_that_are_read(page: Seq<u8>)
    requires
        page.len() == 4096,
    ensures
        ({
            let major = bytes::le_nat(page.subrange(4, 6));
            let minor = bytes::le_nat(page.subrange(6, 8));
            let magic = page.take(4) == seq![0x4Fu8, 0x42u8, 0x4Au8, 0x46u8];
            let version = (major == 0 && minor <= 2) || (major == 1 && minor == 2);
            let size = bytes::le_nat(page.subrange(8, 10)) == 4096;
            let crc = bytes::le_nat(page.subrange(4092, 4096)) == checksum::crc32c_of(
                page.subrange(0, 4092),
            );
            let features = bytes::le_nat(page.subrange(10, 14)) < 4;
            let zeros = page[14] == 0 && page[15] == 0;
            &&& header_error(page) is None <==> magic && version && size && crc && features
                && zeros
            &&& header_error(page) == Some(Error::Corruption { page_id: 0 }) <==> magic && version
                && size && !crc
            &&& header_error(page) matches Some(e) ==> e is InvalidFormat || e
                == (Error::Corruption { page_id: 0 })
            &&& !magic ==> header_error(page) == Some(
                Error::InvalidFormat { reason: "magic bytes are not OBJF" },
            )
            &&& magic && major > 1 ==> header_error(page) == Some(
                Error::InvalidFormat { reason: "format-major version not supported" },
            )
            &&& magic && major <= 1 && !version ==> header_error(page) == Some(
                Error::InvalidFormat {
                    reason: "format-minor not valid for the file's format-major",
                },
            )
            &&& magic && version && !size ==> header_error(page) == Some(
                Error::InvalidFormat { reason: "page size does not match this build" },
            )
            &&& magic && version && size && crc && !features ==> header_error(page) == Some(
                Error::InvalidFormat { reason: "unknown feature_flags bit set on page-0 header" },
            )
            &&& magic && version && size && crc && features && !zeros ==> header_error(page)
                == Some(
                Error::InvalidFormat { reason: "reserved bytes after feature_flags must be zero" },
            )
        }),
{
    assert(MAGIC@ =~= seq![0x4Fu8, 0x42u8, 0x4Au8, 0x46u8]);
    bytes::lemma_pow256();
    bytes::lemma_le_round_trip_bytes(page.subrange(4, 6));
    bytes::lemma_le_round_trip_bytes(page.subrange(6, 8));
    bytes::lemma_le_round_trip_bytes(page.subrange(10, 14));
    bytes::lemma_le_round_trip_bytes(page.skip(4092));
    assert(page.subrange(4092, 4096) =~= page.skip(4092));
    assert(page.subrange(0, 4092) =~= checksum::body_of(page));
    let flags = bytes::le_nat(page.subrange(10, 14)) as u32;
    assert(flags & !3u32 == 0 <==> flags < 4) by (bit_vector);
    let z = page.subrange(14, 16);
    reveal_with_fuel(bytes::le_nat, 3);
    assert(z[0] == page[14] && z[1] == page[15]);
    assert(z.drop_first()[0] == z[1]);
    assert(z.drop_first().drop_first().len() == 0);
}

/// The header of a new file: the newest version, one page of 4096 bytes, no
/// catalog, nothing free, and zeros for the salt of the log and the identity.
pub proof fn law_new_header(h: FileHeader, flags: u32)
    requires
        h.is_fresh(flags),
    ensures
        h.format_major == 1,
        h.format_minor == 2,
        h.page_size == 4096,
        h.feature_flags == flags,
        h.page_count == 1,
        h.root_catalog == 0,
        h.freelist_head == 0,
        forall|i: int| 0 <= i < 16 ==> #[trigger] h.wal_salt@[i] == 0,
        forall|i: int| 0 <= i < 16 ==> #[trigger] h.file_uuid@[i] == 0,
        flags < 4 ==> header_error(header_page(h)) is None,
{
    assert(flags < 4 ==> flags & !3u32 == 0) by (bit_vector);
    if flags < 4 {
        law_header_round_trip(h);
    }
}

} // verus!
