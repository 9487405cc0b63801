//! Pages and their places in a file.

use obj_core::pager::page::{
    physical_offset_for, physical_page_stride, Page, PageId, ENCRYPTION_OVERHEAD, PAGE_SIZE,
};

#[test]
fn page_id_rejects_zero() {
    assert!(PageId::new(0).is_none());
    assert_eq!(PageId::new(1).map(PageId::get), Some(1));
}

#[test]
fn page_id_byte_offset() {
    let id = PageId::new(3).expect("non-zero");
    assert_eq!(id.byte_offset(0), 3 * PAGE_SIZE as u64);
    let enc_flags = 1u32 << 1;
    assert_eq!(
        id.byte_offset(enc_flags),
        physical_offset_for(3, enc_flags)
    );
    assert_eq!(
        id.byte_offset(enc_flags),
        PAGE_SIZE as u64 + 2 * (PAGE_SIZE + ENCRYPTION_OVERHEAD) as u64
    );
}

#[test]
fn page_zeroed_and_zero() {
    let mut p = Page::zeroed();
    assert!(p.as_bytes().iter().all(|&b| b == 0));
    p.as_bytes_mut()[0] = 0xAB;
    p.zero();
    assert!(p.as_bytes().iter().all(|&b| b == 0));
}

#[test]
fn physical_page_stride_picks_4096_or_4136() {
    assert_eq!(physical_page_stride(0), PAGE_SIZE);
    assert_eq!(physical_page_stride(0b01), PAGE_SIZE);
    assert_eq!(
        physical_page_stride(0b10),
        PAGE_SIZE + ENCRYPTION_OVERHEAD
    );
    assert_eq!(
        physical_page_stride(0b11),
        PAGE_SIZE + ENCRYPTION_OVERHEAD
    );
}

#[test]
fn physical_offset_for_page_zero_is_zero() {
    assert_eq!(physical_offset_for(0, 0), 0);
    assert_eq!(physical_offset_for(0, 0b10), 0);
}

#[test]
fn physical_offset_for_unencrypted_matches_legacy() {
    for raw in 1..32u64 {
        assert_eq!(
            physical_offset_for(raw, 0),
            raw * PAGE_SIZE as u64
        );
    }
}

#[test]
fn physical_offset_for_encrypted_uses_4136_stride() {
    assert_eq!(physical_offset_for(1, 0b10), PAGE_SIZE as u64);
    assert_eq!(
        physical_offset_for(2, 0b10),
        (PAGE_SIZE + PAGE_SIZE + ENCRYPTION_OVERHEAD) as u64
    );
    assert_eq!(
        physical_offset_for(3, 0b10),
        (PAGE_SIZE + 2 * (PAGE_SIZE + ENCRYPTION_OVERHEAD)) as u64
    );
}
