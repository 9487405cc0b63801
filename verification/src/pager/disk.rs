//! The on-disk form of a page in a file with compression.
//!
//! A compressed page is the length of its LZ4 block (two bytes,
//! little-endian), the block, zeros up to the trailer, and a flagged trailer
//! with the flag set. Where compression does not help, the body is stored as
//! it is and the flag is clear.

use crate::bytes;
use crate::bytes::{get_le, push_le};
use crate::error::Error;
use crate::pager::checksum;
use crate::pager::checksum::{
    page_trailer_flag_v1, page_trailer_valid_v1, write_page_trailer, write_page_trailer_v1,
    TRAILER_OFFSET,
};
use crate::pager::page::{Page, PAGE_SIZE};
use vstd::prelude::*;

verus! {

broadcast use crate::pager::page::lemma_page_len;

/// Longest LZ4 block that fits a page beside its length.
pub const V1_MAX_COMPRESSED_LEN: usize = 4090;

/// The error of `lz4_flex::block::compress_into`, carried unread.
#[verifier::external_type_specification]
#[verifier::external_body]
pub struct ExCompressError(lz4_flex::block::CompressError);

/// The error of `lz4_flex::block::decompress_into`, carried unread.
#[verifier::external_type_specification]
#[verifier::external_body]
pub struct ExDecompressError(lz4_flex::block::DecompressError);

/// What `lz4_flex::block::decompress_into` leaves in an output buffer of
/// `capacity` bytes for the block `input`; `None` where it reports an error.
pub uninterp spec fn lz4_decoded(input: Seq<u8>, capacity: nat) -> Option<Seq<u8>>;

/// Output size that the compressor asks for.
pub open spec fn lz4_bound(input_len: nat) -> nat {
    20 + input_len * 110 / 100
}

/// `lz4_flex::block::get_maximum_output_size`: twenty bytes more than the
/// input and a tenth.
pub assume_specification[ lz4_flex::block::get_maximum_output_size ](input_len: usize) -> (r: usize)
    requires
        input_len <= 0xFFFF,
    ensures
        r == lz4_bound(input_len as nat),
;

/// `lz4_flex::block::compress_into`: fails exactly where the output is smaller
/// than the size it asks for; otherwise the bytes it wrote are not empty and
/// decompress to the input. Which of the possible blocks it writes is left
/// unsaid: the matches it finds depend on the byte order of the machine.
pub assume_specification[ lz4_flex::block::compress_into ](
    input: &[u8],
    output: &mut [u8],
) -> (r: Result<usize, lz4_flex::block::CompressError>)
    requires
        input@.len() <= 0xFFFF,
    ensures
        final(output)@.len() == old(output)@.len(),
        r is Err <==> old(output)@.len() < lz4_bound(input@.len()),
        r matches Ok(n) ==> 0 < n <= final(output)@.len() && lz4_decoded(
            final(output)@.take(n as int),
            input@.len(),
        ) == Some(input@),
;

/// `lz4_flex::block::decompress_into`: what it writes, and whether it fails,
/// is a function of the input and the size of the output.
pub assume_specification[ lz4_flex::block::decompress_into ](
    input: &[u8],
    output: &mut [u8],
) -> (r: Result<usize, lz4_flex::block::DecompressError>)
    requires
        input@.len() <= 0xFFFF,
        old(output)@.len() <= 0xFFFF,
    ensures
        final(output)@.len() == old(output)@.len(),
        r is Err <==> lz4_decoded(input@, old(output)@.len()) is None,
        r matches Ok(n) ==> n <= final(output)@.len() && lz4_decoded(input@, old(output)@.len())
            == Some(final(output)@.take(n as int)),
;

/// A page that holds the LZ4 block `block`.
pub open spec fn compressed_page(block: Seq<u8>) -> Seq<u8> {
    checksum::stamped_v1(
        crate::pager::page::overwrite(
            crate::pager::page::zero_page(),
            0,
            bytes::le_seq(block.len(), 2) + block,
        ),
        true,
    )
}

/// The form that a page takes on disk, given what the compressor made of its
/// body: the block if it is there and fits, else the body as it is.
pub open spec fn laid_out(page: Seq<u8>, block: Option<Seq<u8>>) -> Seq<u8> {
    if block is Some && 0 < block->0.len() <= V1_MAX_COMPRESSED_LEN {
        compressed_page(block->0)
    } else {
        checksum::stamped_v1(page, false)
    }
}

/// `disk` is a form that `page` takes on disk: it is laid out with a block that
/// decompresses to its body, so that it is compressed wherever that block fits.
pub open spec fn encodes_v1(page: Seq<u8>, disk: Seq<u8>) -> bool {
    exists|block: Seq<u8>|
        {
            &&& block.len() > 0
            &&& #[trigger] lz4_decoded(block, TRAILER_OFFSET as nat) == Some(
                checksum::body_of(page),
            )
            &&& disk == laid_out(page, Some(block))
        }
}

/// Length of the LZ4 block that a flagged page says it holds.
pub open spec fn block_len(disk: Seq<u8>) -> nat {
    bytes::le_nat(disk.take(2))
}

/// The body that `disk` holds; `None` where it is damaged.
pub open spec fn decoded_body_v1(disk: Seq<u8>) -> Option<Seq<u8>> {
    if !checksum::trailer_ok_v1(disk) {
        None
    } else if !checksum::flag_of_v1(disk) {
        Some(checksum::body_of(disk))
    } else if block_len(disk) == 0 || block_len(disk) > V1_MAX_COMPRESSED_LEN {
        None
    } else {
        match lz4_decoded(disk.subrange(2, 2 + block_len(disk) as int), TRAILER_OFFSET as nat) {
            Some(body) => if body.len() == TRAILER_OFFSET {
                Some(body)
            } else {
                None
            },
            None => None,
        }
    }
}

/// A page with the given body and its plain trailer.
pub open spec fn stamped_body(body: Seq<u8>) -> Seq<u8> {
    checksum::with_trailer(body, checksum::crc32c_of(body))
}

/// What is read back of a page that was written out is the page with its plain
/// trailer, whichever form it took on disk.
pub proof fn law_disk_round_trip(page: Seq<u8>, disk: Seq<u8>)
    requires
        page.len() == PAGE_SIZE,
        encodes_v1(page, disk),
    ensures
        disk.len() == PAGE_SIZE,
        decoded_body_v1(disk) == Some(checksum::body_of(page)),
        stamped_body(checksum::body_of(page)) == checksum::stamped(page),
{
    let block = choose|block: Seq<u8>|
        {
            &&& block.len() > 0
            &&& #[trigger] lz4_decoded(block, TRAILER_OFFSET as nat) == Some(
                checksum::body_of(page),
            )
            &&& disk == laid_out(page, Some(block))
        };
    if block.len() <= V1_MAX_COMPRESSED_LEN {
        lemma_compressed_page(block);
    } else {
        checksum::law_stamped_v1_is_valid(page, false);
    }
}

proof fn lemma_compressed_page(block: Seq<u8>)
    requires
        0 < block.len() <= V1_MAX_COMPRESSED_LEN,
    ensures
        compressed_page(block).len() == PAGE_SIZE,
        checksum::trailer_ok_v1(compressed_page(block)),
        checksum::flag_of_v1(compressed_page(block)),
        block_len(compressed_page(block)) == block.len(),
        compressed_page(block).subrange(2, 2 + block.len() as int) == block,
{
    let z = crate::pager::page::zero_page();
    let len = bytes::le_seq(block.len(), 2);
    bytes::lemma_le_seq_len(block.len(), 2);
    bytes::lemma_pow256();
    bytes::lemma_le_round_trip(block.len(), 2);
    let raw = crate::pager::page::overwrite(z, 0, len + block);
    assert(raw.len() == PAGE_SIZE);
    checksum::law_stamped_v1_is_valid(raw, true);
    let disk = compressed_page(block);
    let word = checksum::v1_word(checksum::body_of(raw), true);
    bytes::lemma_le_seq_len(word as nat, 4);
    assert(disk.take(2) =~= len);
    assert(disk.subrange(2, 2 + block.len() as int) =~= block);
}

/// Lay `page` out for disk, given what the compressor made of its body.
pub fn lay_out_page_v1(page: &Page, block: Option<&[u8]>) -> (r: Page)
    ensures
        r@ == laid_out(
            page@,
            match block {
                Some(b) => Some(b@),
                None => None,
            },
        ),
{
    if let Some(b) = block {
        if b.len() > 0 && b.len() <= V1_MAX_COMPRESSED_LEN {
            let mut buf: Vec<u8> = Vec::new();
            push_le(&mut buf, b.len() as u64, 2);
            buf.extend_from_slice(b);
            let mut out = Page::zeroed();
            proof {
                bytes::lemma_le_seq_len(b@.len(), 2);
                assert(buf@ =~= bytes::le_seq(b@.len(), 2) + b@);
            }
            out.put(0, buf.as_slice());
            write_page_trailer_v1(&mut out, true);
            return out;
        }
    }
    let mut out = page.clone();
    write_page_trailer_v1(&mut out, false);
    out
}

/// The form of `page` on disk in a file with compression.
pub fn encode_page_v1(page: &Page) -> (r: Page)
    ensures
        encodes_v1(page@, r@),
{
    let raw: &[u8] = vstd::slice::slice_subrange(page.as_bytes().as_slice(), 0, TRAILER_OFFSET);
    proof {
        assert(raw@ =~= checksum::body_of(page@));
    }
    let max_out: usize = lz4_flex::block::get_maximum_output_size(TRAILER_OFFSET);
    let mut scratch: Vec<u8> = vec![0u8; max_out];
    match lz4_flex::block::compress_into(raw, scratch.as_mut_slice()) {
        Ok(n) => {
            let block: &[u8] = vstd::slice::slice_subrange(scratch.as_slice(), 0, n);
            proof {
                assert(block@ =~= scratch@.take(n as int));
            }
            lay_out_page_v1(page, Some(block))
        },
        Err(_) => lay_out_page_v1(page, None),
    }
}

/// A page from a decompressed body, which must be of the one right length.
pub fn page_from_body(body: &[u8], page_id: u64) -> (r: Result<Page, Error>)
    ensures
        body@.len() != TRAILER_OFFSET ==> r == Err::<Page, Error>(Error::Corruption { page_id }),
        body@.len() == TRAILER_OFFSET ==> (r matches Ok(p) && p@ == stamped_body(body@)),
{
    if body.len() != TRAILER_OFFSET {
        return Err(Error::Corruption { page_id });
    }
    let mut out = Page::zeroed();
    out.put(0, body);
    proof {
        assert(checksum::body_of(out@) =~= body@);
    }
    write_page_trailer(&mut out);
    Ok(out)
}

/// Decompress the block that a flagged page holds.
fn decode_compressed_page_v1(disk: &Page, page_id: u64) -> (r: Result<Page, Error>)
    requires
        checksum::trailer_ok_v1(disk@),
        checksum::flag_of_v1(disk@),
    ensures
        match decoded_body_v1(disk@) {
            Some(body) => r matches Ok(p) && p@ == stamped_body(body),
            None => r == Err::<Page, Error>(Error::Corruption { page_id }),
        },
{
    let buf: &[u8] = disk.as_bytes().as_slice();
    let len: usize = get_le(buf, 2) as usize;
    proof {
        bytes::lemma_le_round_trip_bytes(disk@.take(2));
        bytes::lemma_pow256();
    }
    if len == 0 || len > V1_MAX_COMPRESSED_LEN {
        return Err(Error::Corruption { page_id });
    }
    let input: &[u8] = vstd::slice::slice_subrange(buf, 2, 2 + len);
    let mut dest: Vec<u8> = vec![0u8; TRAILER_OFFSET];
    match lz4_flex::block::decompress_into(input, dest.as_mut_slice()) {
        Ok(n) => {
            let body: &[u8] = vstd::slice::slice_subrange(dest.as_slice(), 0, n);
            proof {
                assert(body@ =~= dest@.take(n as int));
            }
            page_from_body(body, page_id)
        },
        Err(_) => Err(Error::Corruption { page_id }),
    }
}

/// Read a page of a file with compression: its body, with its plain trailer.
///
/// The checksum is verified before anything is decompressed.
pub fn decode_page_v1(disk: &Page, page_id: u64) -> (r: Result<Page, Error>)
    ensures
        match decoded_body_v1(disk@) {
            Some(body) => r matches Ok(p) && p@ == stamped_body(body),
            None => r == Err::<Page, Error>(Error::Corruption { page_id }),
        },
{
    if !page_trailer_valid_v1(disk) {
        return Err(Error::Corruption { page_id });
    }
    if !page_trailer_flag_v1(disk) {
        let body: &[u8] = vstd::slice::slice_subrange(
            disk.as_bytes().as_slice(),
            0,
            TRAILER_OFFSET,
        );
        proof {
            assert(body@ =~= checksum::body_of(disk@));
        }
        return page_from_body(body, page_id);
    }
    decode_compressed_page_v1(disk, page_id)
}

/// On disk, a block of one to 4090 bytes stands behind its length, with zeros up
/// to a trailer whose flag is set. Without such a block the body stands as it
/// is, and the flag is clear.
pub proof fn law_disk_layout(page: Seq<u8>, block: Option<Seq<u8>>, i: int)
    requires
        page.len() == 4096,
        0 <= i < 4092,
    ensures
        ({
            let disk = laid_out(page, block);
            &&& disk.len() == 4096
            &&& checksum::trailer_ok_v1(disk)
            &&& checksum::flag_of_v1(disk) <==> block is Some && 1 <= block->0.len() <= 4090
            &&& block is Some && 1 <= block->0.len() <= 4090 ==> {
                &&& bytes::le_nat(disk.take(2)) == block->0.len()
                &&& i >= 2 ==> disk[i] == if i - 2 < block->0.len() {
                    block->0[i - 2]
                } else {
                    0
                }
            }
            &&& !(block is Some && 1 <= block->0.len() <= 4090) ==> disk[i] == page[i]
        }),
{
    if block is Some && 1 <= block->0.len() <= 4090 {
        let b = block->0;
        lemma_compressed_page(b);
        let z = crate::pager::page::zero_page();
        let len = bytes::le_seq(b.len(), 2);
        bytes::lemma_le_seq_len(b.len(), 2);
        let raw = crate::pager::page::overwrite(z, 0, len + b);
        checksum::law_written_trailers(raw, true, i);
    } else {
        checksum::law_written_trailers(page, false, i);
    }
}

/// A page of a compressed file is damaged where its trailer does not fit, and
/// where its flag is set but there is no block of one to 4090 bytes that gives
/// 4092 bytes. Otherwise those are its body, or the body stands as it is.
pub proof fn law_what_is_read_of_disk(disk: Seq<u8>)
    requires
        disk.len() == 4096,
    ensures
        ({
            let n = bytes::le_nat(disk.take(2)) as int;
            let block = lz4_decoded(disk.subrange(2, 2 + n), 4092);
            &&& !checksum::trailer_ok_v1(disk) ==> decoded_body_v1(disk) is None
            &&& checksum::trailer_ok_v1(disk) && !checksum::flag_of_v1(disk) ==> decoded_body_v1(
                disk,
            ) == Some(disk.subrange(0, 4092))
            &&& checksum::trailer_ok_v1(disk) && checksum::flag_of_v1(disk) ==> decoded_body_v1(disk)
                == if 1 <= n <= 4090 && block is Some && block->0.len() == 4092 {
                block
            } else {
                None
            }
        }),
{
    assert(disk.subrange(0, 4092) =~= checksum::body_of(disk));
}

/// What is read has its plain trailer, and 4092 bytes ahead of it.
pub proof fn law_read_pages_have_their_trailer(body: Seq<u8>, i: int)
    requires
        body.len() == 4092,
        0 <= i < 4092,
    ensures
        stamped_body(body).len() == 4096,
        stamped_body(body)[i] == body[i],
        checksum::trailer_ok(stamped_body(body)),
{
    checksum::lemma_with_trailer(body, checksum::crc32c_of(body));
}

/// A page takes the form on disk that any block gives it that unpacks to its
/// body, and no other form.
pub proof fn law_forms_on_disk(page: Seq<u8>, block: Seq<u8>, disk: Seq<u8>)
    requires
        page.len() == 4096,
    ensures
        block.len() > 0 && lz4_decoded(block, 4092) == Some(page.subrange(0, 4092)) ==> encodes_v1(
            page,
            laid_out(page, Some(block)),
        ),
        encodes_v1(page, disk) ==> exists|b: Seq<u8>|
            b.len() > 0 && #[trigger] lz4_decoded(b, 4092) == Some(page.subrange(0, 4092)) && disk
                == laid_out(page, Some(b)),
{
    assert(page.subrange(0, 4092) =~= checksum::body_of(page));
}

} // verus!
