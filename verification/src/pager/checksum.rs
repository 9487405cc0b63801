//! CRC32C checksums, and the two forms of the trailer that ends a page.
//!
//! The plain trailer is the CRC32C of the 4092 bytes ahead of it. The flagged
//! trailer gives its top bit to a compression flag and keeps the low 31 bits
//! of the checksum.

use crate::bytes::{get_le, push_le};
use crate::pager::page::{Page, PAGE_SIZE, PAGE_TRAILER_SIZE};
use vstd::prelude::*;

verus! {

broadcast use crate::pager::page::lemma_page_len;

/// Byte offset of the trailer inside a page.
pub const TRAILER_OFFSET: usize = 4092;

/// The checksum bits of a flagged trailer.
pub const V1_CRC_MASK: u32 = 0x7FFF_FFFF;

/// The flag bit of a flagged trailer.
pub const V1_FLAG_MASK: u32 = 0x8000_0000;

/// One bit of a CRC32C computation: shift the lowest bit out, and fold the
/// reversed polynomial in where it was set.
pub open spec fn crc_bit(c: u32) -> u32 {
    if c & 1 == 1 {
        (c >> 1) ^ 0x82F6_3B78
    } else {
        c >> 1
    }
}

/// One byte of a CRC32C computation.
pub open spec fn crc_byte(c: u32, b: u8) -> u32 {
    crc_bit(crc_bit(crc_bit(crc_bit(crc_bit(crc_bit(crc_bit(crc_bit(c ^ (b as u32)))))))))
}

/// A CRC32C computation that stood at `c`, after the bytes `data`.
#[verifier::opaque]
pub open spec fn crc_after(c: u32, data: Seq<u8>) -> u32
    decreases data.len(),
{
    if data.len() == 0 {
        c
    } else {
        crc_byte(crc_after(c, data.drop_last()), data.last())
    }
}

/// The checksum `crc` of some bytes, continued with `data`.
pub open spec fn crc32c_folded(crc: u32, data: Seq<u8>) -> u32 {
    !crc_after(!crc, data)
}

/// The CRC32C of `data`.
pub open spec fn crc32c_of(data: Seq<u8>) -> u32 {
    crc32c_folded(0, data)
}

/// The CRC32C of `bytes`.
///
/// Calls `crc32c::crc32c`, which is documented to be `crc32c_append` from a
/// running checksum of zero.
#[verifier::external_body]
pub fn crc32c(bytes: &[u8]) -> (r: u32)
    ensures
        r == crc32c_of(bytes@),
{
    crc32c::crc32c(bytes)
}

/// Continue a CRC32C computation with more bytes.
///
/// Calls `crc32c::crc32c_append`. Claimed of it: the result is the CRC with
/// the Castagnoli polynomial, bit by bit from the lowest, with the register
/// turned over before and after.
#[verifier::external_body]
pub fn crc32c_append(crc: u32, bytes: &[u8]) -> (r: u32)
    ensures
        r == crc32c_folded(crc, bytes@),
{
    crc32c::crc32c_append(crc, bytes)
}

/// A computation over two runs of bytes is one over the first, continued with
/// the second.
pub proof fn lemma_crc_append(a: Seq<u8>, b: Seq<u8>)
    ensures
        crc32c_folded(crc32c_of(a), b) == crc32c_of(a + b),
{
    let c = crc_after(!0u32, a);
    assert(!(!c) == c) by (bit_vector);
    lemma_crc_runs(!0u32, a, b);
}

proof fn lemma_crc_runs(c: u32, a: Seq<u8>, b: Seq<u8>)
    ensures
        crc_after(c, a + b) == crc_after(crc_after(c, a), b),
    decreases b.len(),
{
    reveal_with_fuel(crc_after, 2);
    if b.len() == 0 {
        assert(a + b =~= a);
    } else {
        lemma_crc_runs(c, a, b.drop_last());
        assert((a + b).drop_last() =~= a + b.drop_last());
    }
}

proof fn lemma_crc_bit(x: u32, y: u32)
    by (bit_vector)
    requires
        x != y,
    ensures
        crc_bit(x) != crc_bit(y),
{
}

/// Computations that stand apart before the same byte, or that stand together
/// before different bytes, stand apart after it.
proof fn lemma_crc_byte(x: u32, a: u8, y: u32, b: u8)
    requires
        x != y && a == b || x == y && a != b,
    ensures
        crc_byte(x, a) != crc_byte(y, b),
{
    let p = x ^ (a as u32);
    let q = y ^ (b as u32);
    assert(x != y ==> x ^ (a as u32) != y ^ (a as u32)) by (bit_vector);
    assert(a != b ==> x ^ (a as u32) != x ^ (b as u32)) by (bit_vector);
    lemma_crc_bit(p, q);
    let (p1, q1) = (crc_bit(p), crc_bit(q));
    lemma_crc_bit(p1, q1);
    let (p2, q2) = (crc_bit(p1), crc_bit(q1));
    lemma_crc_bit(p2, q2);
    let (p3, q3) = (crc_bit(p2), crc_bit(q2));
    lemma_crc_bit(p3, q3);
    let (p4, q4) = (crc_bit(p3), crc_bit(q3));
    lemma_crc_bit(p4, q4);
    let (p5, q5) = (crc_bit(p4), crc_bit(q4));
    lemma_crc_bit(p5, q5);
    let (p6, q6) = (crc_bit(p5), crc_bit(q5));
    lemma_crc_bit(p6, q6);
    lemma_crc_bit(crc_bit(p6), crc_bit(q6));
}

/// Bytes that differ in exactly one place have different checksums.
pub proof fn law_checksum_finds_one_byte(a: Seq<u8>, b: Seq<u8>, at: int)
    requires
        a.len() == b.len(),
        0 <= at < a.len(),
        a[at] != b[at],
        forall|i: int| 0 <= i < a.len() && i != at ==> #[trigger] a[i] == b[i],
    ensures
        crc32c_of(a) != crc32c_of(b),
{
    lemma_crc_apart(!0u32, a, b, at);
    let x = crc_after(!0u32, a);
    let y = crc_after(!0u32, b);
    assert(x != y ==> !x != !y) by (bit_vector);
}

proof fn lemma_crc_apart(c: u32, a: Seq<u8>, b: Seq<u8>, at: int)
    requires
        a.len() == b.len(),
        0 <= at < a.len(),
        a[at] != b[at],
        forall|i: int| 0 <= i < a.len() && i != at ==> #[trigger] a[i] == b[i],
    ensures
        crc_after(c, a) != crc_after(c, b),
    decreases a.len(),
{
    reveal_with_fuel(crc_after, 2);
    let x = a.drop_last();
    let y = b.drop_last();
    if at == a.len() - 1 {
        assert(x =~= y);
    } else {
        assert forall|i: int| 0 <= i < x.len() && i != at implies #[trigger] x[i] == y[i] by {
            assert(a[i] == b[i]);
        }
        lemma_crc_apart(c, x, y, at);
    }
    lemma_crc_byte(crc_after(c, x), a.last(), crc_after(c, y), b.last());
}

/// The part of a page ahead of its trailer.
pub open spec fn body_of(page: Seq<u8>) -> Seq<u8> {
    page.take(TRAILER_OFFSET as int)
}

/// The trailer of a page, as a number.
pub open spec fn trailer_of(page: Seq<u8>) -> u32 {
    crate::bytes::le_nat(page.skip(TRAILER_OFFSET as int)) as u32
}

/// A page with the given body and trailer.
pub open spec fn with_trailer(body: Seq<u8>, trailer: u32) -> Seq<u8> {
    body + crate::bytes::le_seq(trailer as nat, 4)
}

/// `page` with its plain trailer written.
pub open spec fn stamped(page: Seq<u8>) -> Seq<u8> {
    with_trailer(body_of(page), crc32c_of(body_of(page)))
}

/// The plain trailer of `page` matches its body.
pub open spec fn trailer_ok(page: Seq<u8>) -> bool {
    trailer_of(page) == crc32c_of(body_of(page))
}

/// The flagged trailer for a body.
pub open spec fn v1_word(body: Seq<u8>, compressed: bool) -> u32 {
    (crc32c_of(body) & V1_CRC_MASK) | (if compressed {
        V1_FLAG_MASK
    } else {
        0u32
    })
}

/// `page` with its flagged trailer written.
pub open spec fn stamped_v1(page: Seq<u8>, compressed: bool) -> Seq<u8> {
    with_trailer(body_of(page), v1_word(body_of(page), compressed))
}

/// The checksum bits of the flagged trailer of `page` match its body.
pub open spec fn trailer_ok_v1(page: Seq<u8>) -> bool {
    trailer_of(page) & V1_CRC_MASK == crc32c_of(body_of(page)) & V1_CRC_MASK
}

/// The flag of the flagged trailer of `page`.
pub open spec fn flag_of_v1(page: Seq<u8>) -> bool {
    trailer_of(page) & V1_FLAG_MASK != 0
}

/// The body and the trailer of a page put together from them.
pub proof fn lemma_with_trailer(body: Seq<u8>, trailer: u32)
    requires
        body.len() == TRAILER_OFFSET,
    ensures
        with_trailer(body, trailer).len() == PAGE_SIZE,
        body_of(with_trailer(body, trailer)) == body,
        trailer_of(with_trailer(body, trailer)) == trailer,
{
    let t = crate::bytes::le_seq(trailer as nat, 4);
    crate::bytes::lemma_le_seq_len(trailer as nat, 4);
    crate::bytes::lemma_pow256();
    crate::bytes::lemma_le_round_trip(trailer as nat, 4);
    assert(body_of(body + t) =~= body);
    assert((body + t).skip(TRAILER_OFFSET as int) =~= t);
}

/// A page whose plain trailer was just written passes the check, and its body
/// is the one it had.
pub proof fn law_stamped_is_valid(page: Seq<u8>)
    requires
        page.len() == PAGE_SIZE,
    ensures
        stamped(page).len() == PAGE_SIZE,
        trailer_ok(stamped(page)),
        body_of(stamped(page)) == body_of(page),
        stamped(stamped(page)) == stamped(page),
{
    lemma_with_trailer(body_of(page), crc32c_of(body_of(page)));
}

/// A page passes the plain check exactly where writing its trailer would
/// change nothing.
pub proof fn law_valid_iff_stamped(page: Seq<u8>)
    requires
        page.len() == PAGE_SIZE,
    ensures
        trailer_ok(page) <==> stamped(page) == page,
{
    law_stamped_is_valid(page);
    let t = page.skip(TRAILER_OFFSET as int);
    crate::bytes::lemma_le_round_trip_bytes(t);
    crate::bytes::lemma_pow256();
    assert(page =~= body_of(page) + t);
}

/// A change of any one byte of a page that passes the plain check makes it
/// fail.
pub proof fn law_one_byte_invalidates(p: Seq<u8>, q: Seq<u8>, at: int)
    requires
        p.len() == PAGE_SIZE,
        q.len() == PAGE_SIZE,
        0 <= at < PAGE_SIZE,
        p[at] != q[at],
        forall|i: int| 0 <= i < PAGE_SIZE && i != at ==> #[trigger] p[i] == q[i],
        trailer_ok(p),
    ensures
        !trailer_ok(q),
{
    let n = TRAILER_OFFSET as int;
    if at < n {
        assert(p.skip(n) =~= q.skip(n));
        assert(body_of(p)[at] != body_of(q)[at]);
        assert forall|i: int| 0 <= i < n && i != at implies #[trigger] body_of(p)[i] == body_of(
            q,
        )[i] by {
            assert(p[i] == q[i]);
        }
        law_checksum_finds_one_byte(body_of(p), body_of(q), at);
    } else {
        assert(body_of(p) =~= body_of(q));
        crate::bytes::lemma_le_round_trip_bytes(p.skip(n));
        crate::bytes::lemma_le_round_trip_bytes(q.skip(n));
        crate::bytes::lemma_pow256();
        assert(p.skip(n)[at - n] != q.skip(n)[at - n]);
    }
}

/// A page whose flagged trailer was just written passes the check, carries the
/// flag it was given, and keeps its body.
pub proof fn law_stamped_v1_is_valid(page: Seq<u8>, compressed: bool)
    requires
        page.len() == PAGE_SIZE,
    ensures
        stamped_v1(page, compressed).len() == PAGE_SIZE,
        trailer_ok_v1(stamped_v1(page, compressed)),
        flag_of_v1(stamped_v1(page, compressed)) == compressed,
        body_of(stamped_v1(page, compressed)) == body_of(page),
{
    let crc = crc32c_of(body_of(page));
    lemma_with_trailer(body_of(page), v1_word(body_of(page), compressed));
    assert(((crc & 0x7FFF_FFFFu32) | 0x8000_0000u32) & 0x7FFF_FFFFu32 == crc & 0x7FFF_FFFFu32)
        by (bit_vector);
    assert(((crc & 0x7FFF_FFFFu32) | 0x8000_0000u32) & 0x8000_0000u32 != 0) by (bit_vector);
    assert(((crc & 0x7FFF_FFFFu32) | 0u32) & 0x7FFF_FFFFu32 == crc & 0x7FFF_FFFFu32)
        by (bit_vector);
    assert(((crc & 0x7FFF_FFFFu32) | 0u32) & 0x8000_0000u32 == 0) by (bit_vector);
}

/// Flipping the flag bit of a flagged trailer leaves the check as it was and
/// turns the flag over.
pub proof fn law_v1_flag_is_outside_the_checksum(body: Seq<u8>, trailer: u32)
    requires
        body.len() == TRAILER_OFFSET,
    ensures
        trailer_ok_v1(with_trailer(body, trailer)) == trailer_ok_v1(
            with_trailer(body, trailer ^ V1_FLAG_MASK),
        ),
        flag_of_v1(with_trailer(body, trailer)) != flag_of_v1(
            with_trailer(body, trailer ^ V1_FLAG_MASK),
        ),
{
    lemma_with_trailer(body, trailer);
    lemma_with_trailer(body, trailer ^ V1_FLAG_MASK);
    assert((trailer ^ 0x8000_0000u32) & 0x7FFF_FFFFu32 == trailer & 0x7FFF_FFFFu32)
        by (bit_vector);
    assert(((trailer ^ 0x8000_0000u32) & 0x8000_0000u32 != 0) == (trailer & 0x8000_0000u32 == 0))
        by (bit_vector);
}

/// Read the trailer of `page`.
fn read_trailer_u32(page: &Page) -> (r: u32)
    ensures
        r == trailer_of(page@),
{
    let t: &[u8] = vstd::slice::slice_subrange(
        page.as_bytes().as_slice(),
        TRAILER_OFFSET,
        PAGE_SIZE,
    );
    proof {
        assert(t@ =~= page@.skip(TRAILER_OFFSET as int));
        assert(t@.take(4) =~= t@);
        crate::bytes::lemma_le_round_trip_bytes(t@);
        crate::bytes::lemma_pow256();
    }
    get_le(t, PAGE_TRAILER_SIZE) as u32
}

/// The checksum of the body of `page`.
fn body_crc(page: &Page) -> (r: u32)
    ensures
        r == crc32c_of(body_of(page@)),
{
    let body: &[u8] = vstd::slice::slice_subrange(page.as_bytes().as_slice(), 0, TRAILER_OFFSET);
    proof {
        assert(body@ =~= body_of(page@));
    }
    crc32c(body)
}

/// Write `trailer` over the trailer of `page`.
fn put_trailer(page: &mut Page, trailer: u32)
    ensures
        final(page)@ == with_trailer(body_of(old(page)@), trailer),
{
    let mut word: Vec<u8> = Vec::new();
    push_le(&mut word, trailer as u64, PAGE_TRAILER_SIZE);
    proof {
        crate::bytes::lemma_le_seq_len(trailer as nat, 4);
    }
    page.put(TRAILER_OFFSET, word.as_slice());
    proof {
        assert(page@ =~= with_trailer(body_of(old(page)@), trailer));
    }
}

/// Write the plain trailer of `page`.
pub fn write_page_trailer(page: &mut Page)
    ensures
        final(page)@ == stamped(old(page)@),
{
    let crc: u32 = body_crc(page);
    put_trailer(page, crc);
}

/// `true` iff the plain trailer of `page` matches its body.
pub fn page_trailer_valid(page: &Page) -> (r: bool)
    ensures
        r == trailer_ok(page@),
{
    read_trailer_u32(page) == body_crc(page)
}

/// Write the flagged trailer of `page`.
pub fn write_page_trailer_v1(page: &mut Page, compressed: bool)
    ensures
        final(page)@ == stamped_v1(old(page)@, compressed),
{
    let crc: u32 = body_crc(page) & V1_CRC_MASK;
    let flag: u32 = if compressed {
        V1_FLAG_MASK
    } else {
        0
    };
    put_trailer(page, crc | flag);
}

/// `true` iff the checksum bits of the flagged trailer match the body. The
/// flag is not part of the checksum.
pub fn page_trailer_valid_v1(page: &Page) -> (r: bool)
    ensures
        r == trailer_ok_v1(page@),
{
    read_trailer_u32(page) & V1_CRC_MASK == body_crc(page) & V1_CRC_MASK
}

/// The flag of the flagged trailer. It means something only on a page that
/// passed [`page_trailer_valid_v1`].
pub fn page_trailer_flag_v1(page: &Page) -> (r: bool)
    ensures
        r == flag_of_v1(page@),
{
    read_trailer_u32(page) & V1_FLAG_MASK != 0
}

/// A plain trailer is the last four bytes of a page and fits where it is the
/// checksum of the others. A flagged trailer keeps its top bit for the flag and
/// fits where the other bits are those of the checksum.
pub proof fn law_trailers(page: Seq<u8>)
    requires
        page.len() == 4096,
    ensures
        ({
            let word = crate::bytes::le_nat(page.subrange(4092, 4096));
            let crc = crc32c_of(page.subrange(0, 4092));
            &&& trailer_ok(page) <==> word == crc
            &&& trailer_ok_v1(page) <==> word % 0x8000_0000 == crc as nat % 0x8000_0000
            &&& flag_of_v1(page) <==> word >= 0x8000_0000
        }),
{
    let t = page.skip(4092);
    assert(page.subrange(4092, 4096) =~= t);
    assert(page.subrange(0, 4092) =~= body_of(page));
    crate::bytes::lemma_le_round_trip_bytes(t);
    crate::bytes::lemma_pow256();
    let w = trailer_of(page);
    let c = crc32c_of(body_of(page));
    assert(w & 0x7FFF_FFFFu32 == w % 0x8000_0000u32) by (bit_vector);
    assert(c & 0x7FFF_FFFFu32 == c % 0x8000_0000u32) by (bit_vector);
    assert((w & 0x8000_0000u32 != 0) == (w >= 0x8000_0000u32)) by (bit_vector);
}

/// Writing a trailer, plain or flagged, changes none of the bytes ahead of it,
/// and the trailer that it writes fits and carries the flag.
pub proof fn law_written_trailers(page: Seq<u8>, compressed: bool, i: int)
    requires
        page.len() == 4096,
        0 <= i < 4092,
    ensures
        stamped(page).len() == 4096,
        stamped(page)[i] == page[i],
        trailer_ok(stamped(page)),
        stamped_v1(page, compressed).len() == 4096,
        stamped_v1(page, compressed)[i] == page[i],
        trailer_ok_v1(stamped_v1(page, compressed)),
        flag_of_v1(stamped_v1(page, compressed)) == compressed,
{
    law_stamped_is_valid(page);
    law_stamped_v1_is_valid(page, compressed);
    assert(body_of(stamped(page))[i] == body_of(page)[i]);
    assert(body_of(stamped_v1(page, compressed))[i] == body_of(page)[i]);
}

} // verus!
