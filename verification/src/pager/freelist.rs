//! Freelist pages: each holds the id of the next free page.

use crate::bytes::{get_le, push_le};
use crate::pager::page::{Page, PAGE_SIZE};
use vstd::prelude::*;

verus! {

broadcast use crate::pager::page::lemma_page_len;

/// Type tag of a freelist page.
pub const TYPE_FREE_LIST: u8 = 0x05;

/// Offset of the link inside a freelist page.
const OFF_NEXT: usize = 8;

/// A freelist page.
#[derive(Debug, Clone, Copy, PartialEq, Eq, Structural)]
pub struct FreeListPage {
    /// The next free page, or `0` at the end of the list.
    pub next: u64,
}

impl FreeListPage {
    /// A freelist page that points at `next`.
    pub fn new(next: u64) -> (r: Self)
        ensures
            r.next == next,
    {
        FreeListPage { next }
    }
}

/// The bytes of a freelist page: the tag, seven zeros, the link, and zeros up
/// to the end.
pub open spec fn freelist_bytes(entry: FreeListPage) -> Seq<u8> {
    seq![TYPE_FREE_LIST] + Seq::new(7, |i: int| 0u8) + crate::bytes::le_seq(entry.next as nat, 8)
        + Seq::new((PAGE_SIZE - 16) as nat, |i: int| 0u8)
}

/// The freelist page that `page` holds, if its tag says it is one.
pub open spec fn freelist_entry(page: Seq<u8>) -> Option<FreeListPage> {
    if page[0] != TYPE_FREE_LIST {
        None
    } else {
        Some(FreeListPage { next: crate::bytes::le_nat(page.subrange(8, 16)) as u64 })
    }
}

/// Write `entry` over `page`. The trailer is left zero.
pub fn encode(entry: FreeListPage, page: &mut Page)
    ensures
        final(page)@ == freelist_bytes(entry),
{
    page.zero();
    let mut tag: Vec<u8> = Vec::new();
    tag.push(TYPE_FREE_LIST);
    page.put(0, tag.as_slice());
    let mut link: Vec<u8> = Vec::new();
    push_le(&mut link, entry.next, 8);
    proof {
        crate::bytes::lemma_le_seq_len(entry.next as nat, 8);
    }
    page.put(OFF_NEXT, link.as_slice());
    proof {
        assert(page@ =~= freelist_bytes(entry));
    }
}

/// Read a freelist page; `None` if the tag is wrong. The trailer is not looked
/// at.
pub fn decode(page: &Page) -> (r: Option<FreeListPage>)
    ensures
        r == freelist_entry(page@),
{
    let buf = page.as_bytes();
    if buf[0] != TYPE_FREE_LIST {
        return None;
    }
    let link: &[u8] = vstd::slice::slice_subrange(buf.as_slice(), OFF_NEXT, OFF_NEXT + 8);
    proof {
        assert(link@.take(8) =~= link@);
    }
    Some(FreeListPage { next: get_le(link, 8) })
}

/// Reading a freelist page gives back the link that was written.
pub proof fn law_freelist_round_trip(entry: FreeListPage)
    ensures
        freelist_bytes(entry).len() == PAGE_SIZE,
        freelist_entry(freelist_bytes(entry)) == Some(entry),
{
    crate::bytes::lemma_le_seq_len(entry.next as nat, 8);
    crate::bytes::lemma_pow256();
    crate::bytes::lemma_le_round_trip(entry.next as nat, 8);
    assert(freelist_bytes(entry).subrange(8, 16) =~= crate::bytes::le_seq(entry.next as nat, 8));
}

/// Writing a trailer does not disturb the link.
pub proof fn law_stamped_freelist_round_trip(entry: FreeListPage)
    ensures
        freelist_entry(crate::pager::checksum::stamped(freelist_bytes(entry))) == Some(entry),
{
    let page = freelist_bytes(entry);
    law_freelist_round_trip(entry);
    crate::pager::checksum::law_stamped_is_valid(page);
    let s = crate::pager::checksum::stamped(page);
    assert(s[0] == page[0]);
    assert(s.subrange(8, 16) =~= page.subrange(8, 16));
}

/// A free page is a tag, seven zeros, the id of the next free page, and zeros. A
/// page is taken for a free one exactly where it begins with the tag, and the
/// next one is read from behind the zeros.
pub proof fn law_free_page_layout(entry: FreeListPage, page: Seq<u8>)
    ensures
        freelist_bytes(entry).len() == 4096,
        freelist_bytes(entry)[0] == 5,
        crate::bytes::le_nat(freelist_bytes(entry).subrange(8, 16)) == entry.next,
        forall|i: int|
            1 <= i < 4096 && !(8 <= i < 16) ==> #[trigger] freelist_bytes(entry)[i] == 0,
        freelist_entry(page) is Some <==> page[0] == 5,
        page.len() == 4096 && page[0] == 5 ==> freelist_entry(page)->0.next
            == crate::bytes::le_nat(page.subrange(8, 16)),
{
    crate::bytes::lemma_le_seq_len(entry.next as nat, 8);
    crate::bytes::lemma_pow256();
    crate::bytes::lemma_le_round_trip(entry.next as nat, 8);
    assert(freelist_bytes(entry).subrange(8, 16) =~= crate::bytes::le_seq(entry.next as nat, 8));
    if page.len() == 4096 {
        crate::bytes::lemma_le_round_trip_bytes(page.subrange(8, 16));
    }
}

} // verus!
