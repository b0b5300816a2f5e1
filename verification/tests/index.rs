use chrono::{Datelike, NaiveDate, NaiveTime, TimeDelta, Timelike};
use stratodb::index::pattern::{Pattern, PatternSeg};
use stratodb::index::registry::RegistryRepository;
use stratodb::ordered::encode_scalar;
use stratodb::temporal::{DateTimeUtc, Duration, TimeOfDay};
use stratodb::{Direction, IndexColumn, IndexDef, SPath, Scalar, SdbError, Segment};

fn lit_name(name: &str) -> PatternSeg {
    PatternSeg::Lit(Segment::Name(name.to_string()))
}

fn asc(scalar: &Scalar) -> Vec<u8> {
    let mut out = Vec::new();
    encode_scalar(&mut out, scalar, false);
    out
}

fn desc(scalar: &Scalar) -> Vec<u8> {
    let mut out = Vec::new();
    encode_scalar(&mut out, scalar, true);
    out
}

fn assert_ordered(sorted: &[Scalar]) {
    for pair in sorted.windows(2) {
        let (lo, hi) = (&pair[0], &pair[1]);
        assert!(asc(lo) < asc(hi), "ascending: {lo:?} should encode below {hi:?}");
        assert!(desc(lo) > desc(hi), "descending: {lo:?} should encode above {hi:?}");
    }
}

fn date(y: i32, m: u32, d: u32) -> i32 {
    NaiveDate::from_ymd_opt(y, m, d).unwrap().num_days_from_ce()
}

fn clock(t: NaiveTime) -> TimeOfDay {
    TimeOfDay { secs: t.num_seconds_from_midnight(), nanos: t.nanosecond() }
}

fn datetime(y: i32, m: u32, d: u32, h: u32, min: u32, s: u32) -> DateTimeUtc {
    DateTimeUtc { days: date(y, m, d), time: clock(NaiveTime::from_hms_opt(h, min, s).unwrap()) }
}

fn span(d: TimeDelta) -> Duration {
    Duration { secs: d.num_seconds(), nanos: d.subsec_nanos() }
}

fn def(name: &str, unique: bool) -> IndexDef {
    IndexDef::new(
        name.to_string(),
        "users/*".to_string(),
        vec![
            IndexColumn::new(SPath::parse("age").unwrap(), Direction::Asc),
            IndexColumn::new(SPath::parse("tags[0]").unwrap(), Direction::Desc),
        ],
        unique,
    )
}

#[test]
fn byte_roundtrip_and_rejects_unknown() {
    assert_eq!(Direction::from_byte(Direction::Asc.to_byte()).unwrap(), Direction::Asc);
    assert_eq!(Direction::from_byte(Direction::Desc.to_byte()).unwrap(), Direction::Desc);
    assert!(matches!(Direction::from_byte(9), Err(SdbError::Corrupt(_))));
}

#[test]
fn parses_a_wildcard_pattern() {
    let pattern = Pattern::parse("users/*").unwrap();

    assert_eq!(*pattern.segs(), vec![lit_name("users"), PatternSeg::Star]);
}

#[test]
fn parses_nested_literals_and_indices() {
    let pattern = Pattern::parse("org/teams[0]/*").unwrap();

    assert_eq!(
        *pattern.segs(),
        vec![
            lit_name("org"),
            lit_name("teams"),
            PatternSeg::Lit(Segment::Index(0)),
            PatternSeg::Star,
        ]
    );
}

#[test]
fn the_empty_pattern_matches_the_root() {
    let pattern = Pattern::parse("").unwrap();

    assert!(pattern.segs().is_empty());
}

#[test]
fn rejects_empty_segments() {
    assert!(Pattern::parse("users//*").is_err());
    assert!(Pattern::parse("/users").is_err());
}

#[test]
fn rejects_malformed_pattern_tokens() {
    assert!(matches!(Pattern::parse("users/"), Err(SdbError::InvalidPath(_))));
    assert!(matches!(Pattern::parse("a[x]/*"), Err(SdbError::InvalidPath(_))));
    assert_eq!(*Pattern::parse("*/**").unwrap().segs(), vec![PatternSeg::Star, lit_name("**")]);
}

#[test]
fn signed_integers_order() {
    assert_ordered(&[
        Scalar::I32(i32::MIN),
        Scalar::I32(-2),
        Scalar::I32(-1),
        Scalar::I32(0),
        Scalar::I32(1),
        Scalar::I32(i32::MAX),
    ]);
    assert_ordered(&[Scalar::I128(i128::MIN), Scalar::I128(0), Scalar::I128(i128::MAX)]);
    assert_ordered(&[Scalar::I8(i8::MIN), Scalar::I8(0), Scalar::I8(i8::MAX)]);
    assert_ordered(&[Scalar::I16(i16::MIN), Scalar::I16(0), Scalar::I16(i16::MAX)]);
}

#[test]
fn unsigned_integers_order() {
    assert_ordered(&[Scalar::U64(0), Scalar::U64(1), Scalar::U64(u64::MAX)]);
    assert_ordered(&[Scalar::U8(0), Scalar::U8(128), Scalar::U8(u8::MAX)]);
    assert_ordered(&[Scalar::U16(0), Scalar::U16(1), Scalar::U16(u16::MAX)]);
    assert_ordered(&[Scalar::U32(0), Scalar::U32(1), Scalar::U32(u32::MAX)]);
    assert_ordered(&[Scalar::U128(0), Scalar::U128(1), Scalar::U128(u128::MAX)]);
}

#[test]
fn booleans_order() {
    assert_ordered(&[Scalar::Bool(false), Scalar::Bool(true)]);
}

#[test]
fn floats_order() {
    assert_ordered(&[
        Scalar::F64(f64::NEG_INFINITY.to_bits()),
        Scalar::F64((-100.5f64).to_bits()),
        Scalar::F64((-1.0f64).to_bits()),
        Scalar::F64(0.0f64.to_bits()),
        Scalar::F64(1.0f64.to_bits()),
        Scalar::F64(100.5f64.to_bits()),
        Scalar::F64(f64::INFINITY.to_bits()),
    ]);
    assert_ordered(&[
        Scalar::F32((-1.0f32).to_bits()),
        Scalar::F32(0.0f32.to_bits()),
        Scalar::F32(1.0f32.to_bits()),
    ]);
}

#[test]
fn strings_order() {
    assert_ordered(&[
        Scalar::Str(String::new()),
        Scalar::Str("a".into()),
        Scalar::Str("ab".into()),
        Scalar::Str("b".into()),
    ]);
}

#[test]
fn strings_with_interior_null_byte_stay_ordered() {
    assert_ordered(&[
        Scalar::Str("a".into()),
        Scalar::Str("a\u{0}".into()),
        Scalar::Str("a\u{0}b".into()),
        Scalar::Str("ab".into()),
    ]);
}

#[test]
fn bytes_order() {
    assert_ordered(&[
        Scalar::Bytes(vec![]),
        Scalar::Bytes(vec![0]),
        Scalar::Bytes(vec![0, 0]),
        Scalar::Bytes(vec![1]),
        Scalar::Bytes(vec![255]),
    ]);
}

#[test]
fn uuids_order() {
    assert_ordered(&[Scalar::Uuid(0), Scalar::Uuid(1), Scalar::Uuid(u128::MAX)]);
}

#[test]
fn temporal_order() {
    assert_ordered(&[
        Scalar::Date(date(1, 1, 1)),
        Scalar::Date(date(1969, 12, 31)),
        Scalar::Date(date(2026, 6, 22)),
    ]);
    assert_ordered(&[
        Scalar::Time(clock(NaiveTime::from_hms_opt(0, 0, 0).unwrap())),
        Scalar::Time(clock(NaiveTime::from_hms_milli_opt(12, 0, 0, 1).unwrap())),
        Scalar::Time(clock(NaiveTime::from_hms_opt(23, 59, 59).unwrap())),
    ]);
    assert_ordered(&[
        Scalar::DateTime(datetime(1970, 1, 1, 0, 0, 0)),
        Scalar::DateTime(datetime(1970, 1, 1, 0, 0, 1)),
        Scalar::DateTime(datetime(2026, 6, 22, 12, 0, 0)),
    ]);
    assert_ordered(&[
        Scalar::Duration(span(TimeDelta::seconds(-10))),
        Scalar::Duration(span(TimeDelta::seconds(-1) + TimeDelta::nanoseconds(-1))),
        Scalar::Duration(span(TimeDelta::zero())),
        Scalar::Duration(span(TimeDelta::nanoseconds(1))),
        Scalar::Duration(span(TimeDelta::seconds(10))),
    ]);
}

#[test]
fn null_sorts_before_every_other_type() {
    let null = asc(&Scalar::Null);
    for other in [
        Scalar::Bool(false),
        Scalar::I32(i32::MIN),
        Scalar::U8(0),
        Scalar::F64(f64::NEG_INFINITY.to_bits()),
        Scalar::Str(String::new()),
        Scalar::Bytes(vec![]),
    ] {
        assert!(null < asc(&other), "Null should sort before {other:?}");
    }
}

#[test]
fn composite_keys_compare_column_by_column() {
    fn composite(name: &str, n: i32) -> Vec<u8> {
        let mut out = Vec::new();
        encode_scalar(&mut out, &Scalar::Str(name.into()), false);
        encode_scalar(&mut out, &Scalar::I32(n), false);
        out
    }

    assert!(composite("a", 100) < composite("b", 0));
    assert!(composite("a", 1) < composite("a", 2));
    assert!(composite("a", -1) < composite("a", 0));
}

#[test]
fn definition_roundtrips_through_its_encoding() {
    let d = def("by_age", true);
    let mut buf = Vec::new();
    d.encode(&mut buf);
    buf.push(0xAA);

    let mut r = stratodb::codec::Reader::new(&buf);
    let back = IndexDef::decode(&mut r).unwrap();
    assert!(back.same_as(&d));
    assert_eq!(back.name(), "by_age");
    assert_eq!(back.pattern(), "users/*");
    assert!(back.unique());
    assert_eq!(back.columns().len(), 2);
    assert_eq!(back.columns()[1].path().to_string(), "tags[0]");
    assert_eq!(back.columns()[1].direction(), Direction::Desc);
    assert_eq!(r.u8().unwrap(), 0xAA);

    let mut r = stratodb::codec::Reader::new(&buf);
    assert_eq!(IndexDef::decode_name(&mut r).unwrap(), "by_age");
    assert_eq!(r.u8().unwrap(), 0xAA);
}

#[test]
fn a_definition_with_a_bad_column_path_is_invalid_path() {
    let mut buf = Vec::new();
    IndexDef::new("i".to_string(), "".to_string(), vec![], false).encode(&mut buf);
    // Patch the column count to one and append a column whose path is malformed.
    let n = buf.len();
    buf[n - 1] = 1;
    stratodb::codec::put_bytes(&mut buf, b"a//b");
    buf.push(0);
    let err = IndexDef::decode(&mut stratodb::codec::Reader::new(&buf)).unwrap_err();
    assert!(matches!(err, SdbError::InvalidPath(_)));

    let truncated = &buf[..buf.len() - 1];
    let err = IndexDef::decode(&mut stratodb::codec::Reader::new(truncated)).unwrap_err();
    assert!(matches!(err, SdbError::InvalidPath(_)));
    let err = IndexDef::decode(&mut stratodb::codec::Reader::new(&buf[..3])).unwrap_err();
    assert!(matches!(err, SdbError::Corrupt(_)));
}

#[test]
fn encode_columns_applies_each_direction() {
    let d = def("d", false);
    let values = [Scalar::U8(1), Scalar::Str("x".into()), Scalar::Null];
    let mut expected = Vec::new();
    encode_scalar(&mut expected, &values[0], false);
    encode_scalar(&mut expected, &values[1], true);
    assert_eq!(d.encode_columns(&values), expected);
    assert!(d.encode_columns(&[]).is_empty());
}

#[test]
fn registry_create_lookup_and_delete() {
    let blob = RegistryRepository::create(None, "t", &def("by_age", false)).unwrap().unwrap();
    assert!(RegistryRepository::has(Some(&blob), "t", "by_age").unwrap());
    assert!(!RegistryRepository::has(Some(&blob), "u", "by_age").unwrap());
    assert!(!RegistryRepository::has(None, "t", "by_age").unwrap());

    // Idempotent for the same definition; a different one under the name clashes.
    assert!(RegistryRepository::create(Some(&blob), "t", &def("by_age", false)).unwrap().is_none());
    assert!(matches!(
        RegistryRepository::create(Some(&blob), "t", &def("by_age", true)),
        Err(SdbError::SchemaMismatch(_))
    ));

    let blob = RegistryRepository::create(Some(&blob), "u", &def("by_age", true)).unwrap().unwrap();
    let entry = RegistryRepository::lookup(Some(&blob), "u", "by_age").unwrap().unwrap();
    assert_eq!(entry.table(), "u");
    assert_eq!(entry.id().0, 1);
    assert!(entry.def().unique());
    assert_eq!(RegistryRepository::for_table(Some(&blob), "t").unwrap().len(), 1);

    let (removed, blob) = RegistryRepository::delete(Some(&blob), "t", "by_age").unwrap().unwrap();
    assert_eq!(removed.id().0, 0);
    assert!(RegistryRepository::lookup(Some(&blob), "t", "by_age").unwrap().is_none());
    assert!(RegistryRepository::delete(Some(&blob), "t", "by_age").unwrap().is_none());

    // Ids are never reused: the next index takes a fresh one.
    let blob = RegistryRepository::create(Some(&blob), "t", &def("again", false)).unwrap().unwrap();
    assert_eq!(RegistryRepository::lookup(Some(&blob), "t", "again").unwrap().unwrap().id().0, 2);
    assert_eq!(RegistryRepository::for_table(Some(&blob), "t").unwrap()[0].def().name(), "again");
}

#[test]
fn a_truncated_registry_is_corrupt() {
    let blob = RegistryRepository::create(None, "t", &def("i", false)).unwrap().unwrap();
    let cut = &blob[..blob.len() - 2];
    assert!(matches!(RegistryRepository::lookup(Some(cut), "t", "i"), Err(SdbError::Corrupt(_))));
    assert!(matches!(RegistryRepository::has(Some(&blob[..6]), "t", "i"), Err(SdbError::Corrupt(_))));
    let reg = RegistryRepository::decode(&blob).unwrap();
    assert_eq!(reg.encode().unwrap(), blob);
}

#[test]
fn descending_reverses_every_ascending_comparison() {
    let values = vec![
        Scalar::Null,
        Scalar::Bool(true),
        Scalar::I32(-1),
        Scalar::U8(0),
        Scalar::Str("a".into()),
        Scalar::Str("a\0".into()),
        Scalar::Str("ab".into()),
        Scalar::Bytes(vec![]),
        Scalar::Bytes(vec![0]),
        Scalar::Bytes(vec![0, 0]),
        Scalar::Bytes(vec![1]),
    ];
    for a in &values {
        for b in &values {
            if asc(a) < asc(b) {
                assert!(desc(b) < desc(a), "{a:?} / {b:?}");
                assert!(!asc(b).starts_with(&asc(a)));
            }
        }
    }
}
