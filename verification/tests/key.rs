//! Encoded index keys.

use obj_core::codec::{Dynamic, DynamicMap};
use obj_core::error::Error;
use obj_core::index::{
    encode_field, encode_index_key, encode_index_key_parts, encoded_id_suffix_len,
    EncodedIndexKey, IndexKind, IndexSpec, COMPOSITE_TAG,
};
use std::cmp::Ordering;

fn enc(d: &Dynamic) -> Vec<u8> {
    encode_field(d).expect("encode").into_bytes()
}
fn assert_lt(left: &Dynamic, right: &Dynamic) {
    let a = enc(left);
    let b = enc(right);
    assert!(
        a < b,
        "encode({left:?}) NOT < encode({right:?}): a={a:?} b={b:?}",
    );
}

#[test]
fn null_sorts_before_everything() {
    assert_lt(&Dynamic::Null, &Dynamic::Bool(false));
    assert_lt(&Dynamic::Null, &Dynamic::I64(i64::MIN));
    assert_lt(&Dynamic::Null, &Dynamic::U64(0));
}

#[test]
fn bool_false_before_true() {
    assert_lt(&Dynamic::Bool(false), &Dynamic::Bool(true));
    assert_lt(&Dynamic::Bool(true), &Dynamic::I64(i64::MIN));
}

#[test]
fn signed_negative_before_zero_before_positive() {
    let neg_big = Dynamic::I64(i64::MIN);
    let neg_small = Dynamic::I64(-1);
    let zero = Dynamic::I64(0);
    let pos_small = Dynamic::I64(1);
    let pos_big = Dynamic::I64(i64::MAX);
    assert_lt(&neg_big, &neg_small);
    assert_lt(&neg_small, &zero);
    assert_lt(&zero, &pos_small);
    assert_lt(&pos_small, &pos_big);
    assert_lt(&neg_big, &Dynamic::I64(i64::MAX));
}

#[test]
fn i64_ordering_full_sweep() {
    let samples = [i64::MIN, -1_000_000_000, -1, 0, 1, 1_000_000_000, i64::MAX];
    for window in samples.windows(2) {
        assert_lt(&Dynamic::I64(window[0]), &Dynamic::I64(window[1]));
    }
}

#[test]
fn u64_ordering_monotone() {
    let samples = [0u64, 1, u64::from(u32::MAX), u64::MAX];
    for window in samples.windows(2) {
        assert_lt(&Dynamic::U64(window[0]), &Dynamic::U64(window[1]));
    }
}

#[test]
fn i64_sorts_before_u64_by_tag() {
    assert_lt(&Dynamic::I64(i64::MAX), &Dynamic::U64(0));
}

#[test]
fn f64_total_order() {
    let samples: [f64; 8] = [
        f64::NEG_INFINITY,
        -1.5,
        -1.0,
        -0.0,
        0.0,
        1.0,
        1.5,
        f64::INFINITY,
    ];
    for window in samples.windows(2) {
        let a = enc(&Dynamic::F64(window[0].to_bits()));
        let b = enc(&Dynamic::F64(window[1].to_bits()));
        assert_ne!(a.cmp(&b), Ordering::Greater, "f64 order: {window:?}");
    }
}

#[test]
fn string_lexicographic_order() {
    let samples = ["", "a", "ab", "abc", "b", "ba", "bb", "z"];
    for window in samples.windows(2) {
        assert_lt(
            &Dynamic::String(window[0].to_owned()),
            &Dynamic::String(window[1].to_owned()),
        );
    }
}

#[test]
fn string_with_embedded_nul_rejected() {
    let err = encode_field(&Dynamic::String("a\0b".to_owned())).expect_err("nul");
    assert!(matches!(err, Error::InvalidArgument(_)));
}

#[test]
fn string_terminator_disambiguates_prefix() {
    let a = enc(&Dynamic::String("a".to_owned()));
    let b = enc(&Dynamic::String("ab".to_owned()));
    assert!(a < b);
    let c = enc(&Dynamic::String("az".to_owned()));
    assert!(a < c);
}

#[test]
fn bytes_with_embedded_nul_round_trip_ok() {
    let a = enc(&Dynamic::Bytes(vec![0x00, 0x01]));
    let b = enc(&Dynamic::Bytes(vec![0x00, 0x02]));
    assert!(a < b);
}

#[test]
fn string_sorts_before_bytes() {
    assert_lt(
        &Dynamic::String("zzz".to_owned()),
        &Dynamic::Bytes(vec![0x00]),
    );
}

#[test]
fn composite_envelope_starts_with_tag() {
    let spec = IndexSpec::composite("by_ct", &["c", "t"]).expect("spec");
    let key = encode_index_key(&spec, &[Dynamic::U64(7), Dynamic::String("a".to_owned())])
        .expect("encode");
    assert_eq!(key.as_bytes()[0], COMPOSITE_TAG);
}

#[test]
fn composite_orders_first_field_then_second() {
    let spec = IndexSpec::composite("by_ct", &["c", "t"]).expect("spec");
    let pairs = [
        (1u64, "a"),
        (1u64, "b"),
        (2u64, "a"),
        (2u64, "b"),
        (3u64, "a"),
    ];
    let mut encoded: Vec<Vec<u8>> = Vec::with_capacity(pairs.len());
    for (c, t) in pairs {
        let k = encode_index_key(&spec, &[Dynamic::U64(c), Dynamic::String((*t).to_owned())])
            .expect("encode")
            .into_bytes();
        encoded.push(k);
    }
    let mut sorted = encoded.clone();
    sorted.sort();
    assert_eq!(encoded, sorted);
}

#[test]
fn field_count_mismatch_rejected() {
    let spec = IndexSpec::standard("by_x", "x").expect("spec");
    let err = encode_index_key(&spec, &[Dynamic::U64(1), Dynamic::U64(2)])
        .expect_err("count mismatch");
    assert!(matches!(err, Error::InvalidArgument(_)));
}

#[test]
fn map_field_rejected_as_unindexable() {
    let spec = IndexSpec::standard("by_x", "x").expect("spec");
    let m = Dynamic::Mapping(DynamicMap::new());
    let err = encode_index_key(&spec, &[m]).expect_err("map unindexable");
    assert!(matches!(err, Error::InvalidArgument(_)));
}

#[test]
fn seq_field_rejected_for_non_each_kinds() {
    let spec = IndexSpec::standard("by_x", "x").expect("spec");
    let s = Dynamic::Sequence(vec![Dynamic::U64(1)]);
    let err = encode_index_key(&spec, &[s]).expect_err("seq must be unfolded");
    assert!(matches!(err, Error::InvalidArgument(_)));
}
#[test]
fn parts_encode_byte_identical_to_spec_path() {
    let cases: Vec<(IndexKind, Vec<String>, Vec<Dynamic>)> = vec![
        (
            IndexKind::Standard,
            vec!["x".to_owned()],
            vec![Dynamic::I64(-42)],
        ),
        (
            IndexKind::Standard,
            vec!["x".to_owned()],
            vec![Dynamic::Null],
        ),
        (
            IndexKind::Unique,
            vec!["email".to_owned()],
            vec![Dynamic::String("a@b.c".to_owned())],
        ),
        (
            IndexKind::Unique,
            vec!["flag".to_owned()],
            vec![Dynamic::Bool(true)],
        ),
        (
            IndexKind::Each,
            vec!["tags".to_owned()],
            vec![Dynamic::Bytes(vec![0x01, 0xFF, 0x00, 0x7F])],
        ),
        (
            IndexKind::Each,
            vec!["scores".to_owned()],
            vec![Dynamic::F64((-0.0f64).to_bits())],
        ),
        (
            IndexKind::Composite,
            vec!["c".to_owned(), "t".to_owned()],
            vec![Dynamic::U64(7), Dynamic::String("z".to_owned())],
        ),
        (
            IndexKind::Composite,
            vec!["a".to_owned(), "b".to_owned(), "d".to_owned()],
            vec![Dynamic::I64(i64::MIN), Dynamic::U64(0), Dynamic::F64(1.5f64.to_bits())],
        ),
    ];
    for (kind, key_paths, fields) in cases {
        let spec = IndexSpec::from_parts("idx", kind, key_paths.clone()).expect("valid spec");
        let via_spec = encode_index_key(&spec, &fields).expect("spec-path encode");
        let via_parts =
            encode_index_key_parts(kind, &key_paths, &fields).expect("parts-path encode");
        assert_eq!(
            via_spec, via_parts,
            "byte mismatch for kind={kind:?} paths={key_paths:?} fields={fields:?}"
        );
    }
}
#[test]
fn parts_encode_keeps_field_count_check() {
    let err = encode_index_key_parts(
        IndexKind::Standard,
        &["x".to_owned()],
        &[Dynamic::U64(1), Dynamic::U64(2)],
    )
    .expect_err("count mismatch");
    assert!(matches!(err, Error::InvalidArgument(_)));
}

#[test]
fn parts_encode_rejects_empty_scalar_shape() {
    let err = encode_index_key_parts(IndexKind::Standard, &[], &[])
        .expect_err("empty scalar shape must error");
    assert!(matches!(err, Error::InvalidArgument(_)));
}

#[test]
fn parts_encode_rejects_under_width_composite_shape() {
    let err =
        encode_index_key_parts(IndexKind::Composite, &["x".to_owned()], &[Dynamic::U64(1)])
            .expect_err("under-width composite must error");
    assert!(matches!(err, Error::InvalidArgument(_)));
}

#[test]
fn encodings_are_what_they_are() {
    assert_eq!(enc(&Dynamic::U64(0x0102)).len(), 9);
    assert_eq!(enc(&Dynamic::U64(0x0102))[1..], [0, 0, 0, 0, 0, 0, 1, 2]);
    assert_eq!(
        enc(&Dynamic::I64(-1))[1..],
        [0x7F, 0xFF, 0xFF, 0xFF, 0xFF, 0xFF, 0xFF, 0xFF]
    );
    assert_eq!(
        enc(&Dynamic::F64(1.0f64.to_bits()))[1..],
        [0xBF, 0xF0, 0, 0, 0, 0, 0, 0]
    );
    assert_eq!(enc(&Dynamic::String("ab".to_owned()))[1..], [b'a', b'b', 0]);
    assert_eq!(enc(&Dynamic::Bytes(vec![9]))[1..], [0, 0, 0, 1, 9]);
    assert_eq!(encoded_id_suffix_len(), 8);
}

#[test]
fn byte_strings_are_ordered_by_length_first() {
    assert_lt(&Dynamic::Bytes(vec![2]), &Dynamic::Bytes(vec![1, 1]));
    assert_lt(&Dynamic::Bytes(vec![1, 1]), &Dynamic::Bytes(vec![1, 2]));
}

#[test]
fn different_values_have_different_keys() {
    let values = [
        Dynamic::Null,
        Dynamic::Bool(false),
        Dynamic::Bool(true),
        Dynamic::I64(0),
        Dynamic::U64(0),
        Dynamic::F64(0),
        Dynamic::String(String::new()),
        Dynamic::Bytes(vec![]),
    ];
    for (i, a) in values.iter().enumerate() {
        for (j, b) in values.iter().enumerate() {
            assert_eq!(enc(a) == enc(b), i == j, "{a:?} {b:?}");
        }
    }
}

#[test]
fn an_id_suffix_keeps_the_order_of_keys() {
    let with_id = |d: &Dynamic, id: u64| {
        let mut k = enc(d);
        k.extend_from_slice(&id.to_be_bytes());
        k
    };
    let a = Dynamic::String("a".to_owned());
    let b = Dynamic::String("b".to_owned());
    assert!(with_id(&a, u64::MAX) < with_id(&b, 1));
    assert!(with_id(&a, 1) < with_id(&a, 2));
}

#[test]
fn an_enum_is_not_indexable() {
    let e = Dynamic::Enum {
        variant: "X".to_owned(),
        payload: Box::new(Dynamic::Null),
    };
    assert!(matches!(encode_field(&e), Err(Error::InvalidArgument(_))));
}

#[test]
fn keys_carry_their_bytes() {
    let k = EncodedIndexKey::from_bytes(vec![1, 2, 3]);
    assert_eq!(k.as_bytes(), &[1, 2, 3]);
    assert_eq!(k.len(), 3);
    assert!(!k.is_empty());
    assert!(EncodedIndexKey::from_bytes(vec![]).is_empty());
    assert_eq!(k.into_bytes(), vec![1, 2, 3]);
}
