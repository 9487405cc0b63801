//! Page trailers.

use obj_core::pager::checksum::{
    page_trailer_flag_v1, page_trailer_valid, page_trailer_valid_v1, write_page_trailer,
    write_page_trailer_v1, V1_FLAG_MASK,
};
use obj_core::pager::page::Page;

#[test]
fn trailer_round_trip() {
    let mut p = Page::zeroed();
    for (i, b) in p.as_bytes_mut().iter_mut().enumerate().take(64) {
        *b = u8::try_from(i).expect("i < 64");
    }
    write_page_trailer(&mut p);
    assert!(page_trailer_valid(&p));
}

#[test]
fn flipping_any_body_byte_invalidates_trailer() {
    let mut p = Page::zeroed();
    p.as_bytes_mut()[100] = 0xAA;
    write_page_trailer(&mut p);
    assert!(page_trailer_valid(&p));
    p.as_bytes_mut()[42] ^= 0x01;
    assert!(!page_trailer_valid(&p));
}

#[test]
fn flipping_trailer_byte_invalidates_trailer() {
    let mut p = Page::zeroed();
    write_page_trailer(&mut p);
    assert!(page_trailer_valid(&p));
    let len = p.as_bytes().len();
    p.as_bytes_mut()[len - 1] ^= 0x80;
    assert!(!page_trailer_valid(&p));
}

#[test]
fn v1_trailer_round_trip_uncompressed() {
    let mut p = Page::zeroed();
    p.as_bytes_mut()[10] = 0xAB;
    write_page_trailer_v1(&mut p, false);
    assert!(page_trailer_valid_v1(&p));
    assert!(!page_trailer_flag_v1(&p));
}

#[test]
fn v1_trailer_round_trip_compressed() {
    let mut p = Page::zeroed();
    p.as_bytes_mut()[10] = 0xCD;
    write_page_trailer_v1(&mut p, true);
    assert!(page_trailer_valid_v1(&p));
    assert!(page_trailer_flag_v1(&p));
}

#[test]
fn v1_trailer_flag_independent_of_crc() {
    let mut p = Page::zeroed();
    p.as_bytes_mut()[10] = 0xAB;
    write_page_trailer_v1(&mut p, false);
    assert!(page_trailer_valid_v1(&p));
    assert!(!page_trailer_flag_v1(&p));
    let len = p.as_bytes().len();
    let trailer_off = len - 4;
    let mut t = [0u8; 4];
    t.copy_from_slice(&p.as_bytes()[trailer_off..]);
    let mut trailer = u32::from_le_bytes(t);
    trailer ^= V1_FLAG_MASK;
    p.as_bytes_mut()[trailer_off..].copy_from_slice(&trailer.to_le_bytes());
    assert!(page_trailer_valid_v1(&p));
    assert!(page_trailer_flag_v1(&p));
}

#[test]
fn v1_trailer_flipping_body_invalidates() {
    let mut p = Page::zeroed();
    write_page_trailer_v1(&mut p, true);
    assert!(page_trailer_valid_v1(&p));
    p.as_bytes_mut()[42] ^= 0x01;
    assert!(!page_trailer_valid_v1(&p));
}
