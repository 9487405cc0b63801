//! Declarations of indexes.

use obj_core::error::Error;
use obj_core::index::{IndexKind, IndexSpec};

#[test]
fn scalar_constructors_set_kind_and_single_path() {
    let s = IndexSpec::standard("by_x", "x").expect("standard");
    assert_eq!(s.kind, IndexKind::Standard);
    assert_eq!(s.key_paths, vec!["x".to_owned()]);

    let u = IndexSpec::unique("by_email", "email").expect("unique");
    assert_eq!(u.kind, IndexKind::Unique);
    assert_eq!(u.key_paths, vec!["email".to_owned()]);

    let e = IndexSpec::each("by_tag", "tags").expect("each");
    assert_eq!(e.kind, IndexKind::Each);
    assert_eq!(e.key_paths, vec!["tags".to_owned()]);
}

#[test]
fn composite_requires_two_or_more_paths() {
    let ok = IndexSpec::composite("by_ct", &["c", "t"]).expect("ok");
    assert_eq!(ok.kind, IndexKind::Composite);
    assert_eq!(ok.key_paths, vec!["c".to_owned(), "t".to_owned()]);

    let err = IndexSpec::composite("by_one", &["only"]).expect_err("too few");
    assert!(matches!(err, Error::InvalidArgument(_)));
}

#[test]
fn empty_name_or_path_rejected() {
    let err = IndexSpec::standard("", "x").expect_err("empty name");
    assert!(matches!(err, Error::InvalidArgument(_)));
    let err = IndexSpec::standard("by_x", "").expect_err("empty path");
    assert!(matches!(err, Error::InvalidArgument(_)));
    let err = IndexSpec::composite("c", &["", "y"]).expect_err("empty middle path");
    assert!(matches!(err, Error::InvalidArgument(_)));
}

#[test]
fn validate_idempotent() {
    let s = IndexSpec::standard("by_x", "x").expect("ok");
    s.validate().expect("re-validate");
    s.validate().expect("re-validate again");
}

#[test]
fn a_declaration_can_be_put_together_from_its_parts() {
    let s = IndexSpec::from_parts("by_x", IndexKind::Unique, vec!["x".to_owned()]).expect("spec");
    assert_eq!(s.name, "by_x");
    assert_eq!(s.kind, IndexKind::Unique);
    let err = IndexSpec::from_parts("by_x", IndexKind::Unique, vec![]).expect_err("no path");
    assert!(matches!(err, Error::InvalidArgument(_)));
    let err = IndexSpec::from_parts("by_x", IndexKind::Composite, vec!["x".to_owned()])
        .expect_err("one path");
    assert!(matches!(err, Error::InvalidArgument(_)));
}

#[test]
fn a_declaration_can_be_cloned() {
    let s = IndexSpec::composite("by_ct", &["c", "t"]).expect("composite");
    let copy = s.clone();
    assert_eq!(copy.name, s.name);
    assert_eq!(copy.kind, s.kind);
    assert_eq!(copy.key_paths, s.key_paths);
}
