//! Index keys of documents.

use obj_core::codec::{Dynamic, DynamicMap};
use obj_core::error::Error;
use obj_core::index::extract::{
    dynamic_kind_name, project, reflect, MapEvent, Shape, MAX_REFLECT_DEPTH,
};
use obj_core::index::{
    encode_field, encode_index_key, extract_index_keys, EncodedIndexKey, IndexKind, IndexSpec,
    COMPOSITE_TAG, MAX_EACH_ENTRIES,
};

fn text(s: &str) -> Shape {
    Shape::Text(s.to_owned())
}

fn record(fields: Vec<(&str, Shape)>) -> Vec<(String, Shape)> {
    fields.into_iter().map(|(n, v)| (n.to_owned(), v)).collect()
}

fn texts(items: &[&str]) -> Shape {
    Shape::List(items.iter().map(|s| text(s)).collect())
}

fn string(s: &str) -> Dynamic {
    Dynamic::String(s.to_owned())
}

const CUSTOMERS: &str = "customers";

fn customer(email: &str, score: i64, tags: &[&str]) -> Shape {
    Shape::Struct(record(vec![
        ("email", text(email)),
        ("score", Shape::Signed(score)),
        ("tags", texts(tags)),
    ]))
}

const ORDERS: &str = "orders";

fn order(customer_id: u64, placed_at: u64, amount_cents: i64) -> Shape {
    Shape::Struct(record(vec![
        ("customer_id", Shape::Unsigned(customer_id)),
        ("placed_at", Shape::Unsigned(placed_at)),
        ("amount_cents", Shape::Signed(amount_cents)),
    ]))
}

const SHAPES: &str = "shapes";

fn sample_shapes() -> Shape {
    Shape::Struct(record(vec![
        ("u", Shape::Unsigned(7)),
        ("i_pos", Shape::Signed(42)),
        ("i_neg", Shape::Signed(-42)),
        ("i_zero", Shape::Signed(0)),
        ("s", text("hello")),
        ("flag", Shape::Bool(true)),
        ("opt_some", Shape::Present(Box::new(Shape::Unsigned(99)))),
        ("opt_none", Shape::Absent),
        ("nt", Shape::NewtypeStruct(Box::new(Shape::Signed(-1)))),
        ("en", Shape::UnitVariant("Green".to_owned())),
        ("f", Shape::Float((-1.5f64).to_bits())),
        ("b", Shape::Bytes(vec![0x00, 0x01, 0xFF])),
        (
            "payload",
            Shape::List((0..480).map(|_| Shape::Unsigned(0xAB)).collect()),
        ),
    ]))
}

/// The keys by way of the whole document.
fn whole_document_keys(spec: &IndexSpec, doc: &Shape) -> Vec<EncodedIndexKey> {
    let all = match reflect(doc, 0) {
        Some(Dynamic::Mapping(m)) => m,
        other => panic!("expected a mapping, got {other:?}"),
    };
    match spec.kind {
        IndexKind::Standard | IndexKind::Unique => {
            let v = all.get(&spec.key_paths[0]).expect("field");
            vec![encode_index_key(spec, std::slice::from_ref(v)).expect("encode")]
        }
        IndexKind::Each => match all.get(&spec.key_paths[0]).expect("field") {
            Dynamic::Sequence(items) => items
                .iter()
                .map(|v| encode_field(v).expect("encode"))
                .collect(),
            other => panic!("expected a sequence, got {other:?}"),
        },
        _ => {
            let mut all = all;
            let fields: Vec<Dynamic> = spec
                .key_paths
                .iter()
                .map(|p| all.remove(p).expect("field"))
                .collect();
            vec![encode_index_key(spec, &fields).expect("encode")]
        }
    }
}

fn assert_byte_identical(collection: &str, spec: &IndexSpec, doc: &Shape) {
    let projected = extract_index_keys(collection, spec, doc).expect("extract");
    let whole = whole_document_keys(spec, doc);
    assert_eq!(projected, whole);
}

fn mapping(entries: Vec<(&str, Dynamic)>) -> Dynamic {
    let mut m = DynamicMap::new();
    for (k, v) in entries {
        m.insert(k.to_owned(), v);
    }
    Dynamic::Mapping(m)
}

#[test]
fn dynamic_reflection_of_simple_struct() {
    let c = customer("ada@example.com", 42, &["alpha", "beta"]);
    let d = reflect(&c, 0).expect("reflect");
    let Dynamic::Mapping(map) = &d else {
        panic!("expected Map, got {d:?}");
    };
    assert_eq!(map.get("email"), Some(&string("ada@example.com")));
    assert_eq!(map.get("score"), Some(&Dynamic::I64(42)));
    match map.get("tags") {
        Some(Dynamic::Sequence(items)) => assert_eq!(items.len(), 2),
        other => panic!("expected Seq, got {other:?}"),
    }
}

#[test]
fn standard_extract_returns_one_key() {
    let c = customer("ada@example.com", 7, &[]);
    let spec = IndexSpec::standard("by_email", "email").expect("spec");
    let keys = extract_index_keys(CUSTOMERS, &spec, &c).expect("extract");
    assert_eq!(keys.len(), 1);
    let expected = encode_field(&string("ada@example.com")).expect("enc");
    assert_eq!(keys[0], expected);
}

#[test]
fn unique_extract_returns_one_key() {
    let c = customer("u@e.com", 1, &[]);
    let spec = IndexSpec::unique("by_email", "email").expect("spec");
    let keys = extract_index_keys(CUSTOMERS, &spec, &c).expect("extract");
    assert_eq!(keys.len(), 1);
}

#[test]
fn each_extract_returns_n_keys() {
    let c = customer("x", 0, &["a", "b", "c"]);
    let spec = IndexSpec::each("by_tag", "tags").expect("spec");
    let keys = extract_index_keys(CUSTOMERS, &spec, &c).expect("extract");
    assert_eq!(keys.len(), 3);
    let want_a = encode_field(&string("a")).expect("enc");
    assert_eq!(keys[0], want_a);
}

#[test]
fn each_extract_on_empty_seq_returns_empty_vec() {
    let c = customer("x", 0, &[]);
    let spec = IndexSpec::each("by_tag", "tags").expect("spec");
    let keys = extract_index_keys(CUSTOMERS, &spec, &c).expect("extract");
    assert!(keys.is_empty());
}

#[test]
fn composite_extract_returns_one_envelope_key() {
    let o = order(7, 12_345, 100);
    let spec = IndexSpec::composite("by_ct", &["customer_id", "placed_at"]).expect("spec");
    let keys = extract_index_keys(ORDERS, &spec, &o).expect("extract");
    assert_eq!(keys.len(), 1);
    assert_eq!(keys[0].as_bytes()[0], COMPOSITE_TAG);
}

#[test]
fn missing_field_path_errors() {
    let c = customer("x", 0, &[]);
    let spec = IndexSpec::standard("by_nope", "nope").expect("spec");
    let err = extract_index_keys(CUSTOMERS, &spec, &c).expect_err("missing");
    match err {
        Error::IndexFieldMissing {
            collection,
            index,
            path,
        } => {
            assert_eq!(collection, "customers");
            assert_eq!(index, "by_nope");
            assert_eq!(path, "nope");
        }
        other => panic!("expected IndexFieldMissing, got {other:?}"),
    }
}

#[test]
fn each_on_non_seq_field_errors() {
    let c = customer("x", 99, &[]);
    let spec = IndexSpec::each("by_score", "score").expect("spec");
    let err = extract_index_keys(CUSTOMERS, &spec, &c).expect_err("type");
    match err {
        Error::IndexFieldTypeMismatch {
            collection,
            index,
            path,
            expected,
            found,
        } => {
            assert_eq!(collection, "customers");
            assert_eq!(index, "by_score");
            assert_eq!(path, "score");
            assert_eq!(expected, "Seq");
            assert_eq!(found, "I64");
        }
        other => panic!("expected IndexFieldTypeMismatch, got {other:?}"),
    }
}

#[test]
fn composite_decode_round_trip_matches_direct_encoding() {
    let o = order(7, 12_345, 100);
    let spec = IndexSpec::composite("by_ct", &["customer_id", "placed_at"]).expect("spec");
    let extracted = extract_index_keys(ORDERS, &spec, &o).expect("extract");
    let direct =
        encode_index_key(&spec, &[Dynamic::U64(7), Dynamic::U64(12_345)]).expect("direct");
    assert_eq!(extracted[0], direct);
}

#[test]
fn project_standard_unique_byte_identical_to_full_doc() {
    let doc = sample_shapes();
    for field in [
        "u", "i_pos", "i_neg", "i_zero", "s", "flag", "opt_some", "opt_none", "nt", "en", "f", "b",
    ] {
        let std = IndexSpec::standard("ix", field).expect("standard spec");
        assert_byte_identical(SHAPES, &std, &doc);
        let uniq = IndexSpec::unique("ix", field).expect("unique spec");
        assert_byte_identical(SHAPES, &uniq, &doc);
    }
}

#[test]
fn project_composite_byte_identical_to_full_doc() {
    let doc = sample_shapes();
    let cases: &[&[&str]] = &[
        &["u", "i_neg"],
        &["s", "flag"],
        &["i_pos", "i_zero", "u"],
        &["opt_some", "opt_none"],
        &["nt", "en", "f"],
        &["b", "u", "s"],
    ];
    for paths in cases {
        let spec = IndexSpec::composite("ix", paths).expect("composite spec");
        assert_byte_identical(SHAPES, &spec, &doc);
    }
}

#[test]
fn project_each_byte_identical_to_full_doc() {
    let c = customer("x", 0, &["a", "bb", "ccc"]);
    let spec = IndexSpec::each("by_tag", "tags").expect("each spec");
    assert_byte_identical(CUSTOMERS, &spec, &c);
    let empty = customer("x", 0, &[]);
    assert_byte_identical(CUSTOMERS, &spec, &empty);
}

#[test]
fn project_missing_field_errors_identically() {
    let doc = sample_shapes();
    let spec = IndexSpec::standard("by_nope", "nope").expect("spec");
    let new = extract_index_keys(SHAPES, &spec, &doc).expect_err("missing");
    assert!(matches!(new, Error::IndexFieldMissing { .. }));
    let all = match reflect(&doc, 0) {
        Some(Dynamic::Mapping(m)) => m,
        other => panic!("expected a mapping, got {other:?}"),
    };
    assert!(all.get("nope").is_none());
    let old = Error::IndexFieldMissing {
        collection: SHAPES.to_owned(),
        index: "by_nope".to_owned(),
        path: "nope".to_owned(),
    };
    assert_eq!(format!("{new:?}"), format!("{old:?}"));
}

#[test]
fn project_each_on_non_seq_errors_identically() {
    let doc = sample_shapes();
    let spec = IndexSpec::each("by_u", "u").expect("spec");
    let new = extract_index_keys(SHAPES, &spec, &doc).expect_err("type");
    match new {
        Error::IndexFieldTypeMismatch {
            ref path,
            expected,
            found,
            ..
        } => {
            assert_eq!(path, "u");
            assert_eq!(expected, "Seq");
            assert_eq!(found, "U64");
        }
        other => panic!("expected IndexFieldTypeMismatch, got {other:?}"),
    }
}

#[test]
fn projector_struct_variant_extracts_field() {
    let ev = Shape::StructVariant(record(vec![
        ("user_id", Shape::Unsigned(42)),
        ("label", text("hello")),
    ]));
    let spec = IndexSpec::standard("by_user", "user_id").expect("spec");
    let keys = extract_index_keys("events", &spec, &ev).expect("extract");
    assert_eq!(keys.len(), 1);
    let expected = encode_field(&Dynamic::U64(42)).expect("enc");
    assert_eq!(keys[0], expected);
}

#[test]
fn projector_struct_variant_missing_field_errors() {
    let ev = Shape::StructVariant(record(vec![("user_id", Shape::Unsigned(7))]));
    let spec = IndexSpec::standard("by_label", "label").expect("spec");
    let err = extract_index_keys("events", &spec, &ev).expect_err("missing");
    assert!(matches!(err, Error::IndexFieldMissing { .. }));
}

/// A newtype around a map.
fn map_doc(entries: Vec<(Shape, Shape)>) -> Shape {
    Shape::NewtypeStruct(Box::new(map_of(entries)))
}

fn map_of(entries: Vec<(Shape, Shape)>) -> Shape {
    let mut events = Vec::new();
    for (k, v) in entries {
        events.push(MapEvent::Key(k));
        events.push(MapEvent::Value(v));
    }
    Shape::Entries(events)
}

#[test]
fn projector_map_doc_extracts_string_key() {
    let doc = map_doc(vec![
        (text("rank"), Shape::Unsigned(1)),
        (text("score"), Shape::Unsigned(99)),
    ]);
    let spec = IndexSpec::standard("by_score", "score").expect("spec");
    let keys = extract_index_keys("mapdocs", &spec, &doc).expect("extract");
    assert_eq!(keys.len(), 1);
    let expected = encode_field(&Dynamic::U64(99)).expect("enc");
    assert_eq!(keys[0], expected);
}

#[test]
fn projector_map_doc_missing_key_errors() {
    let doc = map_doc(vec![(text("rank"), Shape::Unsigned(1))]);
    let spec = IndexSpec::standard("by_score", "score").expect("spec");
    let err = extract_index_keys("mapdocs", &spec, &doc).expect_err("missing");
    assert!(matches!(err, Error::IndexFieldMissing { .. }));
}

#[test]
fn projector_scalar_top_level_errors_missing() {
    let doc = Shape::NewtypeStruct(Box::new(Shape::Unsigned(7)));
    let spec = IndexSpec::standard("by_x", "x").expect("spec");
    let err = extract_index_keys("scalars", &spec, &doc).expect_err("missing");
    assert!(matches!(err, Error::IndexFieldMissing { .. }));
}

#[test]
fn projector_seq_top_level_errors_invalid_argument() {
    let items = vec![Shape::Unsigned(1), Shape::Unsigned(2), Shape::Unsigned(3)];
    let doc = Shape::NewtypeStruct(Box::new(Shape::List(items)));
    let spec = IndexSpec::standard("by_x", "x").expect("spec");
    let err = extract_index_keys("seqdocs", &spec, &doc).expect_err("tuple");
    assert!(matches!(err, Error::InvalidArgument(_)));
}

#[test]
fn projector_tuple_struct_top_level_errors_invalid_argument() {
    let doc = Shape::TupleStruct(vec![Shape::Unsigned(1), text("x")]);
    let spec = IndexSpec::standard("by_x", "x").expect("spec");
    let err = extract_index_keys("tuples", &spec, &doc).expect_err("tuple");
    assert!(matches!(err, Error::InvalidArgument(_)));
}

#[test]
fn projector_tuple_variant_top_level_errors_invalid_argument() {
    let doc = Shape::TupleVariant(vec![Shape::Unsigned(3), Shape::Unsigned(4)]);
    let spec = IndexSpec::standard("by_x", "x").expect("spec");
    let err = extract_index_keys("tuplevar", &spec, &doc).expect_err("tuple");
    assert!(matches!(err, Error::InvalidArgument(_)));
}

fn inner(val: u64) -> Shape {
    Shape::Struct(record(vec![("val", Shape::Unsigned(val))]))
}

#[test]
fn projector_newtype_struct_delegates_to_inner() {
    let doc = Shape::NewtypeStruct(Box::new(inner(55)));
    let spec = IndexSpec::standard("by_val", "val").expect("spec");
    let keys = extract_index_keys("wrappers", &spec, &doc).expect("extract");
    assert_eq!(keys.len(), 1);
    let expected = encode_field(&Dynamic::U64(55)).expect("enc");
    assert_eq!(keys[0], expected);
}

#[test]
fn projector_some_delegates_to_inner() {
    let doc = Shape::NewtypeStruct(Box::new(Shape::Present(Box::new(inner(7)))));
    let spec = IndexSpec::standard("by_val", "val").expect("spec");
    let keys = extract_index_keys("optdocs", &spec, &doc).expect("extract");
    assert_eq!(keys.len(), 1);
    let expected = encode_field(&Dynamic::U64(7)).expect("enc");
    assert_eq!(keys[0], expected);
}

#[test]
fn projector_none_top_level_errors_missing() {
    let doc = Shape::NewtypeStruct(Box::new(Shape::Absent));
    let spec = IndexSpec::standard("by_val", "val").expect("spec");
    let err = extract_index_keys("optdocs", &spec, &doc).expect_err("missing");
    assert!(matches!(err, Error::IndexFieldMissing { .. }));
}

#[test]
fn projector_i128_top_level_errors_missing() {
    let spec = IndexSpec::standard("by_x", "x").expect("spec");
    let err = extract_index_keys("i128docs", &spec, &Shape::I128(42)).expect_err("missing");
    assert!(matches!(err, Error::IndexFieldMissing { .. }));
}

#[test]
fn projector_u128_top_level_errors_missing() {
    let spec = IndexSpec::standard("by_x", "x").expect("spec");
    let err = extract_index_keys("u128docs", &spec, &Shape::U128(42)).expect_err("missing");
    assert!(matches!(err, Error::IndexFieldMissing { .. }));
}

fn big_seq(n: u64) -> Shape {
    let items = (0..n).map(Shape::Unsigned).collect();
    Shape::Struct(record(vec![("items", Shape::List(items))]))
}

#[test]
fn each_at_max_entries_succeeds() {
    let doc = big_seq(MAX_EACH_ENTRIES as u64);
    let spec = IndexSpec::each("by_item", "items").expect("spec");
    let keys = extract_index_keys("bigseq", &spec, &doc).expect("at-max");
    assert_eq!(keys.len(), MAX_EACH_ENTRIES);
}

#[test]
fn each_seq_overflow_during_reflection_errors_invalid_argument() {
    let doc = big_seq(MAX_EACH_ENTRIES as u64 + 1);
    let spec = IndexSpec::each("by_item", "items").expect("spec");
    let err = extract_index_keys("bigseq", &spec, &doc).expect_err("overflow");
    assert!(matches!(err, Error::InvalidArgument(_)));
}

#[test]
fn each_with_duplicate_elements_emits_duplicate_keys() {
    let c = customer("x", 0, &["dup", "dup", "unique"]);
    let spec = IndexSpec::each("by_tag", "tags").expect("spec");
    let keys = extract_index_keys(CUSTOMERS, &spec, &c).expect("extract");
    assert_eq!(keys.len(), 3);
    assert_eq!(keys[0], keys[1]);
    assert_ne!(keys[0], keys[2]);
}

#[test]
fn dynamic_kind_name_covers_all_variants() {
    assert_eq!(dynamic_kind_name(&Dynamic::Null), "Null");
    assert_eq!(dynamic_kind_name(&Dynamic::Bool(true)), "Bool");
    assert_eq!(dynamic_kind_name(&Dynamic::U64(0)), "U64");
    assert_eq!(dynamic_kind_name(&Dynamic::I64(0)), "I64");
    assert_eq!(dynamic_kind_name(&Dynamic::F64(0.0f64.to_bits())), "F64");
    assert_eq!(dynamic_kind_name(&Dynamic::String(String::new())), "String");
    assert_eq!(dynamic_kind_name(&Dynamic::Bytes(vec![])), "Bytes");
    assert_eq!(dynamic_kind_name(&Dynamic::Sequence(vec![])), "Seq");
    assert_eq!(
        dynamic_kind_name(&Dynamic::Mapping(DynamicMap::new())),
        "Map"
    );
    assert_eq!(
        dynamic_kind_name(&Dynamic::Enum {
            variant: "X".to_owned(),
            payload: Box::new(Dynamic::Null),
        }),
        "Enum"
    );
}

fn found_for(path: &str, doc: &Shape) -> &'static str {
    let spec = IndexSpec::each("by_field", path).expect("spec");
    let err = extract_index_keys(SHAPES, &spec, doc).expect_err("type");
    match err {
        Error::IndexFieldTypeMismatch { found, .. } => found,
        other => panic!("expected IndexFieldTypeMismatch, got {other:?}"),
    }
}

#[test]
fn each_on_null_field_reports_null_in_type_mismatch() {
    let doc = Shape::Struct(record(vec![("x", Shape::Absent)]));
    assert_eq!(found_for("x", &doc), "Null");
}

#[test]
fn each_on_bool_field_reports_bool_in_type_mismatch() {
    assert_eq!(found_for("flag", &sample_shapes()), "Bool");
}

#[test]
fn each_on_f64_field_reports_f64_in_type_mismatch() {
    assert_eq!(found_for("f", &sample_shapes()), "F64");
}

#[test]
fn each_on_string_field_reports_string_in_type_mismatch() {
    assert_eq!(found_for("s", &sample_shapes()), "String");
}

#[test]
fn each_on_bytes_field_reports_bytes_in_type_mismatch() {
    assert_eq!(found_for("b", &sample_shapes()), "Bytes");
}

#[test]
fn projector_map_u64_key_stringified_for_lookup() {
    let doc = map_doc(vec![(Shape::Unsigned(42), text("hello"))]);
    let spec = IndexSpec::standard("by_42", "42").expect("spec");
    let keys = extract_index_keys("u64keymaps", &spec, &doc).expect("extract");
    assert_eq!(keys.len(), 1);
    let expected = encode_field(&string("hello")).expect("enc");
    assert_eq!(keys[0], expected);
}

/// `depth` structs inside one another.
fn deep_struct(depth: usize) -> Shape {
    let mut s = Shape::Struct(record(vec![("x", Shape::Unsigned(0))]));
    for _ in 0..depth {
        s = Shape::Struct(record(vec![("x", s)]));
    }
    s
}

fn deep_list(depth: usize) -> Shape {
    let mut s = Shape::List(vec![Shape::Unsigned(0)]);
    for _ in 0..depth {
        s = Shape::List(vec![s]);
    }
    s
}

fn deep_map(depth: usize) -> Shape {
    let mut s = map_of(vec![(text("x"), Shape::Unsigned(0))]);
    for _ in 0..depth {
        s = map_of(vec![(text("x"), s)]);
    }
    s
}

#[test]
fn dynamic_serializer_depth_overflow_errors() {
    let doc = deep_struct(MAX_REFLECT_DEPTH);
    let spec = IndexSpec::standard("by_x", "x").expect("spec");
    let err = extract_index_keys("deepdocs", &spec, &doc).expect_err("overflow");
    assert!(matches!(err, Error::InvalidArgument(_)));
}

#[test]
fn deep_seq_nesting_errors_not_aborts() {
    let spec = IndexSpec::standard("by_x", "x").expect("spec");
    for depth in [MAX_REFLECT_DEPTH, 5_000] {
        let doc = Shape::Struct(record(vec![("x", deep_list(depth))]));
        let err = extract_index_keys("deepseqdocs", &spec, &doc).expect_err("deep seq overflow");
        assert!(matches!(err, Error::InvalidArgument(_)));
    }
}

#[test]
fn deep_map_nesting_errors_not_aborts() {
    let spec = IndexSpec::standard("by_x", "x").expect("spec");
    for depth in [MAX_REFLECT_DEPTH, 5_000] {
        let doc = Shape::Struct(record(vec![("x", deep_map(depth))]));
        let err = extract_index_keys("deepmapdocs", &spec, &doc).expect_err("deep map overflow");
        assert!(matches!(err, Error::InvalidArgument(_)));
    }
}

#[test]
fn deep_struct_nesting_errors_not_aborts() {
    let doc = deep_struct(5_000);
    let spec = IndexSpec::standard("by_x", "x").expect("spec");
    let err = extract_index_keys("deepdocs", &spec, &doc).expect_err("deep struct overflow");
    assert!(matches!(err, Error::InvalidArgument(_)));
}

#[test]
fn composite_missing_component_errors_index_field_missing() {
    let doc = Shape::Struct(record(vec![
        ("a", Shape::Unsigned(1)),
        ("b", Shape::Unsigned(2)),
    ]));
    let spec = IndexSpec::composite("by_abc", &["a", "c"]).expect("spec");
    let err = extract_index_keys("twofield", &spec, &doc).expect_err("missing");
    match err {
        Error::IndexFieldMissing {
            collection,
            index,
            path,
        } => {
            assert_eq!(collection, "twofield");
            assert_eq!(index, "by_abc");
            assert_eq!(path, "c");
        }
        other => panic!("expected IndexFieldMissing, got {other:?}"),
    }
}

#[test]
fn composite_seq_component_errors_invalid_argument() {
    let doc = Shape::Struct(record(vec![
        ("id", Shape::Unsigned(42)),
        ("tags", texts(&["a"])),
    ]));
    let spec = IndexSpec::composite("by_id_tags", &["id", "tags"]).expect("spec");
    let err = extract_index_keys("seqcomp", &spec, &doc).expect_err("seq in composite");
    assert!(matches!(err, Error::InvalidArgument(_)));
}

#[test]
fn composite_three_field_byte_identical_to_direct_encoding() {
    let o = order(5, 999, -50);
    let spec = IndexSpec::composite("by_all", &["customer_id", "placed_at", "amount_cents"])
        .expect("spec");
    let extracted = extract_index_keys(ORDERS, &spec, &o).expect("extract");
    let direct = encode_index_key(
        &spec,
        &[Dynamic::U64(5), Dynamic::U64(999), Dynamic::I64(-50)],
    )
    .expect("direct");
    assert_eq!(extracted.len(), 1);
    assert_eq!(extracted[0], direct);
    assert_eq!(extracted[0].as_bytes()[0], COMPOSITE_TAG);
}

#[test]
fn projector_scalar_top_levels_error_missing() {
    let docs = vec![
        Shape::Bool(true),
        Shape::Signed(-1),
        Shape::Signed(-2),
        Shape::Signed(-3),
        Shape::Signed(-4),
        Shape::Unsigned(1),
        Shape::Unsigned(2),
        Shape::Unsigned(3),
        Shape::Float(f64::from(1.5f32).to_bits()),
        Shape::Float(2.5f64.to_bits()),
        Shape::Char('q'),
        text("top"),
        Shape::Bytes(vec![0xAB]),
        Shape::Unit,
        Shape::UnitStruct,
        Shape::UnitVariant("V".to_owned()),
        Shape::NewtypeVariant("V".to_owned(), Box::new(Shape::Unsigned(7))),
    ];
    let spec = IndexSpec::standard("by_x", "x").expect("spec");
    for doc in &docs {
        let err = extract_index_keys("topscalars", &spec, doc)
            .expect_err("empty projection must report the path as missing");
        assert!(
            matches!(err, Error::IndexFieldMissing { .. }),
            "expected IndexFieldMissing, got {err:?}"
        );
    }
}

#[test]
fn projector_bare_tuple_top_level_errors_invalid_argument() {
    let doc = Shape::Tuple(vec![Shape::Unsigned(1), Shape::Unsigned(2)]);
    let spec = IndexSpec::standard("by_x", "x").expect("spec");
    let err = extract_index_keys("toptuples", &spec, &doc).expect_err("tuple top-level");
    assert!(matches!(err, Error::InvalidArgument(_)));
}

#[test]
fn projector_map_i64_key_stringified_for_lookup() {
    let doc = map_doc(vec![(Shape::Signed(-5), Shape::Unsigned(7))]);
    let spec = IndexSpec::standard("by_neg5", "-5").expect("spec");
    let keys = extract_index_keys("i64keymaps", &spec, &doc).expect("extract");
    assert_eq!(keys.len(), 1);
    let expected = encode_field(&Dynamic::U64(7)).expect("enc");
    assert_eq!(keys[0], expected);
}

#[test]
fn projector_map_bool_key_stringified_for_lookup() {
    let doc = map_doc(vec![(Shape::Bool(true), Shape::Unsigned(3))]);
    let spec = IndexSpec::standard("by_true", "true").expect("spec");
    let keys = extract_index_keys("boolkeymaps", &spec, &doc).expect("extract");
    assert_eq!(keys.len(), 1);
    let expected = encode_field(&Dynamic::U64(3)).expect("enc");
    assert_eq!(keys[0], expected);
}

fn bad_key_map() -> Shape {
    map_of(vec![(
        Shape::Float(1.5f64.to_bits()),
        Shape::Unsigned(1),
    )])
}

fn keyless_map() -> Shape {
    Shape::Entries(vec![MapEvent::Value(Shape::Unsigned(1))])
}

#[test]
fn projector_map_non_stringable_key_errors() {
    let spec = IndexSpec::standard("by_x", "x").expect("spec");
    let err = extract_index_keys("badkeymaps", &spec, &bad_key_map()).expect_err("f64 map key");
    assert!(matches!(err, Error::InvalidArgument(_)));
}

#[test]
fn projector_map_value_without_key_errors() {
    let spec = IndexSpec::standard("by_x", "x").expect("spec");
    let err = extract_index_keys("valuelessmaps", &spec, &keyless_map())
        .expect_err("value without key");
    assert!(matches!(err, Error::InvalidArgument(_)));
}

#[test]
fn null_serializer_discards_every_unwanted_shape() {
    let doc = Shape::Struct(record(vec![
        ("wanted", Shape::Unsigned(9)),
        ("skip_i8", Shape::Signed(-1)),
        ("skip_i16", Shape::Signed(-2)),
        ("skip_i32", Shape::Signed(-3)),
        ("skip_u16", Shape::Unsigned(2)),
        ("skip_u32", Shape::Unsigned(3)),
        ("skip_f32", Shape::Float(f64::from(1.5f32).to_bits())),
        ("skip_char", Shape::Char('z')),
        ("skip_unit", Shape::Unit),
        ("skip_unit_struct", Shape::UnitStruct),
        (
            "skip_tuple",
            Shape::Tuple(vec![Shape::Unsigned(4), Shape::Bool(true)]),
        ),
        (
            "skip_tuple_struct",
            Shape::TupleStruct(vec![Shape::Unsigned(5), Shape::Signed(-6)]),
        ),
        ("skip_map", map_of(vec![(text("k"), Shape::Unsigned(1))])),
        ("skip_struct", inner(8)),
        ("skip_enum_unit", Shape::UnitVariant("Unit".to_owned())),
        (
            "skip_enum_newtype",
            Shape::NewtypeVariant("New".to_owned(), Box::new(Shape::Unsigned(10))),
        ),
        (
            "skip_enum_tuple",
            Shape::TupleVariant(vec![Shape::Unsigned(11), Shape::Bool(false)]),
        ),
        (
            "skip_enum_struct",
            Shape::StructVariant(record(vec![("a", Shape::Unsigned(12))])),
        ),
    ]));
    let spec = IndexSpec::standard("by_wanted", "wanted").expect("spec");
    let keys = extract_index_keys("kitchen", &spec, &doc).expect("extract");
    assert_eq!(keys.len(), 1);
    let expected = encode_field(&Dynamic::U64(9)).expect("enc");
    assert_eq!(keys[0], expected);
}

#[test]
fn dynamic_scalar_widths_reflect() {
    assert_eq!(reflect(&Shape::Signed(-1), 0), Some(Dynamic::I64(-1)));
    assert_eq!(reflect(&Shape::Signed(-2), 0), Some(Dynamic::I64(-2)));
    assert_eq!(reflect(&Shape::Signed(-3), 0), Some(Dynamic::I64(-3)));
    assert_eq!(reflect(&Shape::Unsigned(1), 0), Some(Dynamic::U64(1)));
    assert_eq!(reflect(&Shape::Unsigned(2), 0), Some(Dynamic::U64(2)));
    assert_eq!(reflect(&Shape::Unsigned(3), 0), Some(Dynamic::U64(3)));
    let bits = f64::from(1.5f32).to_bits();
    assert_eq!(
        reflect(&Shape::Float(bits), 0),
        Some(Dynamic::F64(1.5f64.to_bits()))
    );
    assert_eq!(reflect(&Shape::Char('q'), 0), Some(string("q")));
    assert_eq!(reflect(&Shape::Unit, 0), Some(Dynamic::Null));
    assert_eq!(reflect(&Shape::UnitStruct, 0), Some(Dynamic::Null));
}

#[test]
fn dynamic_i128_u128_narrow_to_64_bit() {
    assert_eq!(reflect(&Shape::I128(-5), 0), Some(Dynamic::I64(-5)));
    assert_eq!(reflect(&Shape::U128(5), 0), Some(Dynamic::U64(5)));
}

#[test]
fn dynamic_compound_shapes_reflect() {
    let pair = || vec![Shape::Unsigned(1), Shape::Bool(true)];
    assert_eq!(
        reflect(&Shape::Tuple(pair()), 0),
        Some(Dynamic::Sequence(vec![Dynamic::U64(1), Dynamic::Bool(true)])),
    );
    assert_eq!(
        reflect(
            &Shape::TupleStruct(vec![Shape::Unsigned(1), Shape::Signed(-2)]),
            0
        ),
        Some(Dynamic::Sequence(vec![Dynamic::U64(1), Dynamic::I64(-2)])),
    );
    assert_eq!(
        reflect(&Shape::UnitVariant("Unit".to_owned()), 0),
        Some(string("Unit")),
    );
    assert_eq!(
        reflect(
            &Shape::NewtypeVariant("New".to_owned(), Box::new(Shape::Unsigned(7))),
            0
        ),
        Some(mapping(vec![("New", Dynamic::U64(7))])),
    );
    assert_eq!(
        reflect(
            &Shape::TupleVariant(vec![Shape::Unsigned(1), Shape::Bool(false)]),
            0
        ),
        Some(Dynamic::Sequence(vec![Dynamic::U64(1), Dynamic::Bool(false)])),
    );
    assert_eq!(
        reflect(
            &Shape::StructVariant(record(vec![("a", Shape::Unsigned(3))])),
            0
        ),
        Some(mapping(vec![("a", Dynamic::U64(3))])),
    );
}

#[test]
fn dynamic_map_numeric_and_bool_keys_stringified() {
    assert_eq!(
        reflect(&map_of(vec![(Shape::Unsigned(7), Shape::Unsigned(1))]), 0),
        Some(mapping(vec![("7", Dynamic::U64(1))])),
    );
    assert_eq!(
        reflect(&map_of(vec![(Shape::Signed(-7), Shape::Unsigned(2))]), 0),
        Some(mapping(vec![("-7", Dynamic::U64(2))])),
    );
    assert_eq!(
        reflect(&map_of(vec![(Shape::Bool(false), Shape::Unsigned(3))]), 0),
        Some(mapping(vec![("false", Dynamic::U64(3))])),
    );
}

#[test]
fn dynamic_map_non_stringable_key_errors() {
    assert!(reflect(&bad_key_map(), 0).is_none());
}

#[test]
fn dynamic_map_value_without_key_errors() {
    assert!(reflect(&keyless_map(), 0).is_none());
}

#[test]
fn extremes_of_numeric_map_keys_are_spelled_in_full() {
    let m = map_of(vec![
        (Shape::Unsigned(u64::MAX), Shape::Unit),
        (Shape::Signed(i64::MIN), Shape::Unit),
        (Shape::Unsigned(0), Shape::Unit),
    ]);
    assert_eq!(
        reflect(&m, 0),
        Some(mapping(vec![
            ("18446744073709551615", Dynamic::Null),
            ("-9223372036854775808", Dynamic::Null),
            ("0", Dynamic::Null),
        ])),
    );
}

#[test]
fn projection_of_a_newtype_variant_differs_from_its_reflection() {
    let doc = Shape::NewtypeVariant("New".to_owned(), Box::new(Shape::Unsigned(7)));
    let projected = project(&doc, &vec!["New".to_owned()]).expect("projects");
    assert!(projected.is_empty());
    let all = reflect(&doc, 0).expect("reflects");
    assert_eq!(all.get("New"), Some(&Dynamic::U64(7)));
}

#[test]
fn a_refusal_while_serializing_is_an_invalid_argument() {
    let doc = Shape::Struct(record(vec![
        ("x", Shape::Unsigned(1)),
        ("y", Shape::Refused),
    ]));
    let spec = IndexSpec::standard("by_x", "x").expect("spec");
    let err = extract_index_keys("refusing", &spec, &doc).expect_err("refused");
    assert!(matches!(err, Error::InvalidArgument(_)));
}

#[test]
fn the_last_of_two_values_of_one_key_counts() {
    let doc = map_of(vec![
        (text("x"), Shape::Unsigned(1)),
        (text("x"), Shape::Unsigned(2)),
    ]);
    let spec = IndexSpec::standard("by_x", "x").expect("spec");
    let keys = extract_index_keys("maps", &spec, &doc).expect("extract");
    assert_eq!(keys, vec![encode_field(&Dynamic::U64(2)).expect("enc")]);
}

#[test]
fn a_wide_number_that_no_index_asks_for_is_discarded() {
    let doc = Shape::Struct(record(vec![
        ("wanted", Shape::Unsigned(9)),
        ("big", Shape::I128(1)),
        ("huge", Shape::U128(u128::MAX)),
        ("nested", Shape::List(vec![Shape::I128(i128::MIN)])),
    ]));
    let spec = IndexSpec::standard("by_wanted", "wanted").expect("spec");
    let keys = extract_index_keys("d", &spec, &doc).expect("extract");
    assert_eq!(keys, vec![encode_field(&Dynamic::U64(9)).expect("enc")]);
}

#[test]
fn a_path_that_is_named_twice_gives_its_value_twice() {
    let doc = Shape::Struct(record(vec![
        ("a", Shape::Unsigned(1)),
        ("b", Shape::Unsigned(2)),
    ]));
    let spec = IndexSpec::composite("by_aa", &["a", "a"]).expect("spec");
    let keys = extract_index_keys("twofield", &spec, &doc).expect("extract");
    let fields = [Dynamic::U64(1), Dynamic::U64(1)];
    assert_eq!(keys, vec![encode_index_key(&spec, &fields).expect("enc")]);
}

#[test]
fn a_copy_of_a_value_is_the_value() {
    let mut m = DynamicMap::new();
    m.insert("k".to_owned(), Dynamic::Bytes(vec![1, 2]));
    let d = Dynamic::Sequence(vec![
        Dynamic::Mapping(m),
        Dynamic::Enum {
            variant: "v".to_owned(),
            payload: Box::new(string("x")),
        },
        Dynamic::Null,
    ]);
    assert_eq!(d.clone(), d);
}

#[test]
fn a_map_among_composite_components_is_a_type_mismatch() {
    let inner = || Shape::Struct(record(vec![("x", Shape::Unsigned(1))]));
    let doc = Shape::Struct(record(vec![
        ("id", Shape::Unsigned(42)),
        ("place", inner()),
        ("tags", texts(&["a"])),
        ("other", inner()),
    ]));
    let at = |paths: &[&str]| {
        let spec = IndexSpec::composite("by_all", paths).expect("spec");
        extract_index_keys("mapcomp", &spec, &doc).expect_err("map in composite")
    };
    for (paths, which) in [
        (vec!["id", "place"], "place"),
        (vec!["other", "id", "place"], "other"),
    ] {
        match at(&paths) {
            Error::IndexFieldTypeMismatch {
                collection,
                index,
                path,
                expected,
                found,
            } => {
                assert_eq!(collection, "mapcomp");
                assert_eq!(index, "by_all");
                assert_eq!(path, which);
                assert_eq!(expected, "scalar");
                assert_eq!(found, "Map");
            }
            other => panic!("expected IndexFieldTypeMismatch, got {other:?}"),
        }
    }
    assert!(
        matches!(at(&["tags", "place"]), Error::InvalidArgument(_)),
        "the first component that makes no key decides"
    );
}
