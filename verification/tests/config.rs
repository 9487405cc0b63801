//! Configurations, and pages as they lie on disk.

use obj_core::error::Error;
use obj_core::pager::checksum::{page_trailer_valid, page_trailer_valid_v1};
use obj_core::pager::config::{
    key_for_open, refuse_compression_without_feature, refuse_encryption_without_feature,
    refuse_unsupported_features,
};
use obj_core::pager::disk::{encode_page_v1, lay_out_page_v1, page_from_body};
use obj_core::pager::header::{FileHeader, FEATURE_FLAG_COMPRESSION, FEATURE_FLAG_ENCRYPTION};
use obj_core::pager::page::Page;
use obj_core::pager::store::{salt_from_header, stamp_salt_into_header};
use obj_core::pager::{
    decode_page_v1, encryption_feature_compiled_in, lock_path_for, wal_path_for, CompressionMode,
    Config, PAGER_PAGE_SIZE,
};

#[test]
fn a_cache_needs_a_frame() {
    assert!(matches!(
        Config::default().with_cache_frames(0),
        Err(Error::InvalidArgument(_))
    ));
    assert!(Config::default().with_cache_frames(1).is_ok());
}

#[test]
fn features_that_are_not_there_are_refused() {
    assert!(!encryption_feature_compiled_in());
    assert!(refuse_compression_without_feature(CompressionMode::Lz4, true).is_ok());
    assert!(refuse_compression_without_feature(CompressionMode::default(), false).is_ok());
    assert!(matches!(
        refuse_compression_without_feature(CompressionMode::Lz4, false),
        Err(Error::FormatFeatureUnsupported {
            feature: "compression"
        })
    ));
    assert!(matches!(
        refuse_encryption_without_feature(true, false),
        Err(Error::FormatFeatureUnsupported {
            feature: "encryption"
        })
    ));
    let mut h = FileHeader::new_empty();
    assert!(refuse_unsupported_features(&h, false, false).is_ok());
    h.feature_flags = FEATURE_FLAG_COMPRESSION;
    assert!(refuse_unsupported_features(&h, true, false).is_ok());
    assert!(refuse_unsupported_features(&h, false, false).is_err());
    h.feature_flags = FEATURE_FLAG_ENCRYPTION;
    assert!(refuse_unsupported_features(&h, true, false).is_err());
}

#[test]
fn keys_and_files_must_match() {
    assert!(matches!(key_for_open(false, false, false), Ok(false)));
    assert!(matches!(key_for_open(true, true, true), Ok(true)));
    assert!(matches!(
        key_for_open(false, true, true),
        Err(Error::EncryptionKeyMismatch)
    ));
    assert!(matches!(
        key_for_open(true, true, false),
        Err(Error::EncryptionKeyRequired)
    ));
    assert!(matches!(
        key_for_open(true, false, true),
        Err(Error::FormatFeatureUnsupported { .. })
    ));
}

#[test]
fn files_beside_a_database_are_named_after_it() {
    assert_eq!(wal_path_for("/data/a.obj"), "/data/a.obj-wal");
    assert_eq!(lock_path_for("/data/a.obj"), "/data/a.obj-lock");
    assert_eq!(PAGER_PAGE_SIZE, 4096);
}

#[test]
fn a_compressed_page_comes_back() {
    let mut page = Page::zeroed();
    page.as_bytes_mut()[7] = 0x77;
    let disk = encode_page_v1(&page);
    assert!(page_trailer_valid_v1(&disk));
    assert_ne!(disk.as_bytes()[..4092], page.as_bytes()[..4092]);
    let back = decode_page_v1(&disk, 5).expect("decode");
    assert_eq!(back.as_bytes()[..4092], page.as_bytes()[..4092]);
    assert!(page_trailer_valid(&back));
}

#[test]
fn a_page_that_does_not_compress_is_stored_as_it_is() {
    let mut page = Page::zeroed();
    page.as_bytes_mut()[0] = 9;
    let disk = lay_out_page_v1(&page, None);
    assert_eq!(disk.as_bytes()[..4092], page.as_bytes()[..4092]);
    let back = decode_page_v1(&disk, 5).expect("decode");
    assert_eq!(back.as_bytes()[..4092], page.as_bytes()[..4092]);
    let too_big = vec![1u8; 4091];
    let disk = lay_out_page_v1(&page, Some(&too_big));
    assert_eq!(disk.as_bytes()[..4092], page.as_bytes()[..4092]);
}

#[test]
fn a_damaged_page_on_disk_is_corruption() {
    let mut disk = encode_page_v1(&Page::zeroed());
    disk.as_bytes_mut()[1] ^= 0x40;
    assert!(matches!(
        decode_page_v1(&disk, 5),
        Err(Error::Corruption { page_id: 5 })
    ));
    assert!(matches!(
        page_from_body(&[0; 10], 6),
        Err(Error::Corruption { page_id: 6 })
    ));
}

#[test]
fn a_salt_stamped_into_a_header_is_read_back() {
    let mut h = FileHeader::new_empty();
    stamp_salt_into_header(&mut h, 0xA1B2_C3D4);
    assert_eq!(salt_from_header(&h), 0xA1B2_C3D4);
    assert_eq!(h.wal_salt[..4], [0xD4, 0xC3, 0xB2, 0xA1]);
}
