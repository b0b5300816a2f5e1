use stratodb::db::{check_format_version, check_table_name, FORMAT_VERSION, METADATA_TABLE_NAME};
use stratodb::{Bytes, SPath, SValue, Scalar, SdbError, Segment};

#[test]
fn paths_parse_and_render() {
    let path = SPath::parse("users/alice/tags[1]").unwrap();
    assert_eq!(
        path.segments(),
        &vec![
            Segment::Name("users".to_string()),
            Segment::Name("alice".to_string()),
            Segment::Name("tags".to_string()),
            Segment::Index(1),
        ]
    );
    assert_eq!(path.to_string(), "users/alice/tags[1]");

    let nested = SPath::parse("m[0][12]/x").unwrap();
    assert_eq!(nested.to_string(), "m[0][12]/x");
    assert_eq!(nested.segments().len(), 4);

    assert!(SPath::parse("").unwrap().is_root());
    assert_eq!(SPath::root().to_string(), "");
}

#[test]
fn malformed_paths_are_invalid() {
    for text in ["a//b", "/a", "a/", "a[", "a[x]", "a[01]", "a[]", "[0]b", "a]"] {
        assert!(
            matches!(SPath::parse(text), Err(SdbError::InvalidPath(_))),
            "{text:?} should be rejected"
        );
    }
}

#[test]
fn a_path_compares_by_its_segments() {
    let a = SPath::parse("a/b[2]").unwrap();
    let b = SPath::from_segments(vec![
        Segment::Name("a".to_string()),
        Segment::Name("b".to_string()),
        Segment::Index(2),
    ]);
    assert!(a.same_as(&b));
    assert!(a.same_as(&a.duplicate()));
    assert!(!a.same_as(&SPath::parse("a/b[3]").unwrap()));
    assert_eq!(a.into_segments().len(), 3);
}

#[test]
fn table_names_must_be_non_empty_and_not_reserved() {
    assert!(check_table_name("users").is_ok());
    assert!(matches!(check_table_name(""), Err(SdbError::InvalidTableName(_))));
    assert!(matches!(check_table_name(METADATA_TABLE_NAME), Err(SdbError::InvalidTableName(_))));
}

#[test]
fn format_version_is_written_once_then_checked() {
    let written = check_format_version(None).unwrap().unwrap();
    assert_eq!(written, FORMAT_VERSION.to_be_bytes().to_vec());
    assert!(check_format_version(Some(&written)).unwrap().is_none());
    assert!(matches!(check_format_version(Some(&[0, 0, 0, 3])), Err(SdbError::SchemaMismatch(_))));
    assert!(matches!(check_format_version(Some(&[0, 4])), Err(SdbError::Corrupt(_))));
}

#[test]
fn scalar_values_convert_both_ways() {
    assert_eq!(42i32.to_scalar(), Scalar::I32(42));
    assert_eq!(i32::from_scalar(&Scalar::I32(-7)).unwrap(), -7);
    assert_eq!(String::from_scalar(&Scalar::Str("x".to_string())).unwrap(), "x");
    assert_eq!(true.to_scalar(), Scalar::Bool(true));
    assert_eq!(Bytes(vec![1, 2]).to_scalar(), Scalar::Bytes(vec![1, 2]));
    assert_eq!(Bytes::from_scalar(&Scalar::Bytes(vec![3])).unwrap(), Bytes(vec![3]));
    assert_eq!(Option::<u8>::from_scalar(&Scalar::Null).unwrap(), None);
    assert_eq!(Option::<u8>::from_scalar(&Scalar::U8(5)).unwrap(), Some(5));
    assert_eq!(None::<u8>.to_scalar(), Scalar::Null);
}

#[test]
fn a_scalar_of_another_variant_is_a_type_mismatch() {
    match u64::from_scalar(&Scalar::Str("x".to_string())) {
        Err(SdbError::TypeMismatch { expected, found }) => {
            assert_eq!(expected, "u64");
            assert_eq!(found, "str");
        },
        other => panic!("expected a type mismatch, got {other:?}"),
    }
    assert!(matches!(
        bool::from_scalar(&Scalar::Null),
        Err(SdbError::TypeMismatch { expected: "bool", found: "null" })
    ));
}

#[test]
fn values_read_back_from_what_they_are_stored_as() {
    assert_eq!(usize::from_scalar(&7usize.to_scalar()).unwrap(), 7);
    assert_eq!(isize::from_scalar(&(-7isize).to_scalar()).unwrap(), -7);
    assert_eq!(u128::from_scalar(&u128::MAX.to_scalar()).unwrap(), u128::MAX);
    assert_eq!(Option::<i64>::from_scalar(&Some(-3i64).to_scalar()).unwrap(), Some(-3));
    assert_eq!(Scalar::from_scalar(&Scalar::Null.to_scalar()).unwrap(), Scalar::Null);
    // Two values share the stored form `Null`: it reads back as `None`.
    assert_eq!(Option::<Scalar>::from_scalar(&Some(Scalar::Null).to_scalar()).unwrap(), None);
}
