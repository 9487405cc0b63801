//! The file header.

use obj_core::error::Error;
use obj_core::pager::checksum::crc32c;
use obj_core::pager::header::{
    decode_header, encode_header, FileHeader, FEATURE_FLAG_COMPRESSION, FEATURE_FLAG_ENCRYPTION,
    FORMAT_MAJOR, FORMAT_MINOR,
};
use obj_core::pager::page::Page;

const OFF_FORMAT_MAJOR: usize = 4;
const OFF_FORMAT_MINOR: usize = 6;
const OFF_HEADER_CRC: usize = 4092;

#[test]
fn round_trip_default_header() {
    let h = FileHeader::new_empty();
    let mut p = Page::zeroed();
    encode_header(&h, &mut p);
    let decoded = decode_header(&p).expect("encode/decode round-trip");
    assert_eq!(decoded, h);
}

#[test]
fn round_trip_non_default_header() {
    let h = FileHeader {
        format_major: FORMAT_MAJOR,
        format_minor: FORMAT_MINOR,
        page_size: 4096,
        feature_flags: 0,
        page_count: 17,
        root_catalog: 2,
        freelist_head: 3,
        wal_salt: [0xAA; 16],
        file_uuid: [0xCC; 16],
        kdf_salt: [0; 32],
    };
    let mut p = Page::zeroed();
    encode_header(&h, &mut p);
    assert_eq!(decode_header(&p).expect("round-trip"), h);
}

#[test]
fn round_trip_compression_header() {
    let h = FileHeader {
        format_major: FORMAT_MAJOR,
        format_minor: FORMAT_MINOR,
        page_size: 4096,
        feature_flags: FEATURE_FLAG_COMPRESSION,
        page_count: 5,
        root_catalog: 0,
        freelist_head: 0,
        wal_salt: [0; 16],
        file_uuid: [0; 16],
        kdf_salt: [0; 32],
    };
    let mut p = Page::zeroed();
    encode_header(&h, &mut p);
    assert_eq!(decode_header(&p).expect("round-trip"), h);
}

#[test]
fn round_trip_encryption_header() {
    let mut salt = [0u8; 32];
    for (i, b) in salt.iter_mut().enumerate() {
        *b = u8::try_from(i & 0xFF).unwrap_or(0);
    }
    let h = FileHeader {
        format_major: FORMAT_MAJOR,
        format_minor: FORMAT_MINOR,
        page_size: 4096,
        feature_flags: FEATURE_FLAG_ENCRYPTION,
        page_count: 5,
        root_catalog: 0,
        freelist_head: 0,
        wal_salt: [0; 16],
        file_uuid: [0; 16],
        kdf_salt: salt,
    };
    let mut p = Page::zeroed();
    encode_header(&h, &mut p);
    assert_eq!(decode_header(&p).expect("round-trip"), h);
}

#[test]
fn round_trip_encryption_and_compression_header() {
    let h = FileHeader {
        format_major: FORMAT_MAJOR,
        format_minor: FORMAT_MINOR,
        page_size: 4096,
        feature_flags: FEATURE_FLAG_COMPRESSION | FEATURE_FLAG_ENCRYPTION,
        page_count: 5,
        root_catalog: 0,
        freelist_head: 0,
        wal_salt: [0; 16],
        file_uuid: [0; 16],
        kdf_salt: [0x77; 32],
    };
    let mut p = Page::zeroed();
    encode_header(&h, &mut p);
    assert_eq!(decode_header(&p).expect("round-trip"), h);
}

#[test]
fn rejects_unknown_feature_flag() {
    let mut h = FileHeader::new_empty();
    h.feature_flags = 0b100;
    let mut p = Page::zeroed();
    encode_header(&h, &mut p);
    let err = decode_header(&p).expect_err("unknown flag must fail");
    assert!(matches!(err, Error::InvalidFormat { .. }));
}
#[test]
fn decodes_legacy_format_major_zero_minor_zero() {
    let h = FileHeader {
        format_major: 0,
        format_minor: 0,
        page_size: 4096,
        feature_flags: 0,
        page_count: 7,
        root_catalog: 0,
        freelist_head: 0,
        wal_salt: [0x11; 16],
        file_uuid: [0x22; 16],
        kdf_salt: [0; 32],
    };
    let mut p = Page::zeroed();
    encode_header(&h, &mut p);
    let decoded = decode_header(&p).expect("legacy 0.x file must decode");
    assert_eq!(decoded, h);
    assert_eq!(decoded.format_major, 0);
    assert_eq!(decoded.format_minor, 0);
}
#[test]
fn decodes_legacy_format_major_zero_minor_one() {
    let h = FileHeader {
        format_major: 0,
        format_minor: 1,
        page_size: 4096,
        feature_flags: FEATURE_FLAG_COMPRESSION,
        page_count: 3,
        root_catalog: 0,
        freelist_head: 0,
        wal_salt: [0; 16],
        file_uuid: [0; 16],
        kdf_salt: [0; 32],
    };
    let mut p = Page::zeroed();
    encode_header(&h, &mut p);
    let decoded = decode_header(&p).expect("0.x compression-capable must decode");
    assert_eq!(decoded, h);
}
#[test]
fn rejects_unsupported_format_major_two() {
    let h = FileHeader::new_empty();
    let mut p = Page::zeroed();
    encode_header(&h, &mut p);
    p.as_bytes_mut()[OFF_FORMAT_MAJOR..OFF_FORMAT_MAJOR + 2]
        .copy_from_slice(&2u16.to_le_bytes());
    let crc = crc32c(&p.as_bytes()[..OFF_HEADER_CRC]);
    p.as_bytes_mut()[OFF_HEADER_CRC..OFF_HEADER_CRC + 4]
        .copy_from_slice(&crc.to_le_bytes());
    let err = decode_header(&p).expect_err("format_major = 2 must be rejected");
    assert!(
        matches!(err, Error::InvalidFormat { reason }
            if reason.contains("format-major")),
        "expected InvalidFormat reason mentioning format-major; got {err:?}",
    );
}
#[test]
fn rejects_format_major_one_with_legacy_minor() {
    for bad_minor in [0u16, 1u16] {
        let h = FileHeader::new_empty();
        let mut p = Page::zeroed();
        encode_header(&h, &mut p);
        p.as_bytes_mut()[OFF_FORMAT_MINOR..OFF_FORMAT_MINOR + 2]
            .copy_from_slice(&bad_minor.to_le_bytes());
        let crc = crc32c(&p.as_bytes()[..OFF_HEADER_CRC]);
        p.as_bytes_mut()[OFF_HEADER_CRC..OFF_HEADER_CRC + 4]
            .copy_from_slice(&crc.to_le_bytes());
        let err = decode_header(&p).expect_err("format_major = 1 + legacy minor must fail");
        assert!(
            matches!(err, Error::InvalidFormat { reason }
                if reason.contains("format-minor")),
            "expected InvalidFormat reason mentioning format-minor; got {err:?}",
        );
    }
}

#[test]
fn rejects_nonzero_reserved_after_feature_flags() {
    let h = FileHeader::new_empty();
    let mut p = Page::zeroed();
    encode_header(&h, &mut p);
    p.as_bytes_mut()[14] = 0xFF;
    let crc = crc32c(&p.as_bytes()[..OFF_HEADER_CRC]);
    p.as_bytes_mut()[OFF_HEADER_CRC..OFF_HEADER_CRC + 4]
        .copy_from_slice(&crc.to_le_bytes());
    let err = decode_header(&p).expect_err("nonzero reserved must fail");
    assert!(matches!(err, Error::InvalidFormat { .. }));
}

#[test]
fn rejects_bad_magic() {
    let h = FileHeader::new_empty();
    let mut p = Page::zeroed();
    encode_header(&h, &mut p);
    p.as_bytes_mut()[0] = b'X';
    let err = decode_header(&p).expect_err("bad magic must fail");
    assert!(matches!(err, Error::InvalidFormat { .. }));
}
