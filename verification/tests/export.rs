use chrono::{NaiveDate, NaiveDateTime, NaiveTime, TimeDelta, Timelike, Datelike};
use stratodb::export::base64::encode;
use stratodb::export::exporter::{navigate, txn_value};
use stratodb::export::json::to_json;
use stratodb::export::scalar::{write_scalar, FloatBits};
use stratodb::export::string::quote;
use stratodb::export::yaml::to_yaml;
use stratodb::temporal::{DateTimeUtc, Duration, TimeOfDay};
use stratodb::{JsonExporter, SPath, Scalar, SdbError, Value, YamlExporter};

fn float_text(x: FloatBits) -> String {
    match x {
        FloatBits::F32(bits) => f32::from_bits(bits).to_string(),
        FloatBits::F64(bits) => f64::from_bits(bits).to_string(),
    }
}

fn obj(pairs: Vec<(&str, Value)>) -> Value {
    Value::object(pairs.into_iter().map(|(k, v)| (k.to_string(), v)).collect())
}

fn leaf(scalar: Scalar) -> Value {
    Value::Leaf(scalar)
}

fn quoted(s: &str) -> String {
    let mut out = String::new();
    quote(&mut out, s);
    out
}

fn render(scalar: Scalar) -> String {
    let mut out = String::new();
    write_scalar(&mut out, &scalar, &float_text);
    out
}

fn day(date: NaiveDate) -> i32 {
    date.num_days_from_ce()
}

fn clock(t: NaiveTime) -> TimeOfDay {
    TimeOfDay { secs: t.num_seconds_from_midnight(), nanos: t.nanosecond() }
}

fn span(d: TimeDelta) -> Duration {
    Duration { secs: d.num_seconds(), nanos: d.subsec_nanos() }
}

#[test]
fn rfc4648_test_vectors() {
    assert_eq!(encode(b""), "");
    assert_eq!(encode(b"f"), "Zg==");
    assert_eq!(encode(b"fo"), "Zm8=");
    assert_eq!(encode(b"foo"), "Zm9v");
    assert_eq!(encode(b"foob"), "Zm9vYg==");
    assert_eq!(encode(b"fooba"), "Zm9vYmE=");
    assert_eq!(encode(b"foobar"), "Zm9vYmFy");
}

#[test]
fn encodes_high_bytes() {
    assert_eq!(encode(&[0, 1, 2, 255]), "AAEC/w==");
}

#[test]
fn base64_uses_the_whole_alphabet() {
    assert_eq!(encode(&[0xfb, 0xff, 0xbf]), "+/+/");
    assert_eq!(encode(&[0x00, 0x10, 0x83]), "ABCD");
}

#[test]
fn escapes_the_json_subset() {
    assert_eq!(quoted("a\"b"), "\"a\\\"b\"");
    assert_eq!(quoted("a\\b"), "\"a\\\\b\"");
    assert_eq!(quoted("a\nb"), "\"a\\nb\"");
    assert_eq!(quoted("a\rb"), "\"a\\rb\"");
    assert_eq!(quoted("a\tb"), "\"a\\tb\"");
    assert_eq!(quoted("a\u{08}b"), "\"a\\bb\"");
    assert_eq!(quoted("a\u{0C}b"), "\"a\\fb\"");
}

#[test]
fn other_control_characters_become_unicode_escapes() {
    assert_eq!(quoted("\u{01}"), "\"\\u0001\"");
    assert_eq!(quoted("plain"), "\"plain\"");
}

#[test]
fn quoting_keeps_non_ascii_and_escapes_the_unit_separator() {
    assert_eq!(quoted("h\u{e9}llo"), "\"h\u{e9}llo\"");
    assert_eq!(quoted("\u{1f}"), "\"\\u001f\"");
    assert_eq!(quoted(""), "\"\"");
}

#[test]
fn compact_object_is_sorted_and_minimal() {
    let v = obj(vec![
        ("name", leaf(Scalar::Str("a\"b".into()))),
        ("age", leaf(Scalar::I32(3))),
    ]);

    assert_eq!(to_json(&v, None, &float_text), r#"{"age":3,"name":"a\"b"}"#);
}

#[test]
fn pretty_indents_by_step() {
    let v = obj(vec![(
        "xs",
        Value::List(vec![leaf(Scalar::I32(1)), leaf(Scalar::Bool(true))]),
    )]);

    assert_eq!(to_json(&v, Some(2), &float_text), "{\n  \"xs\": [\n    1,\n    true\n  ]\n}");
}

#[test]
fn empty_containers_stay_on_one_line() {
    let v = obj(vec![("a", Value::List(vec![])), ("b", Value::Node(vec![]))]);

    assert_eq!(to_json(&v, Some(2), &float_text), "{\n  \"a\": [],\n  \"b\": {}\n}");
}

#[test]
fn top_level_leaf() {
    assert_eq!(to_json(&leaf(Scalar::Null), None, &float_text), "null");
    assert_eq!(to_json(&leaf(Scalar::Null), Some(2), &float_text), "null");
}

#[test]
fn object_keeps_the_last_of_repeated_names() {
    let v = obj(vec![
        ("b", leaf(Scalar::I32(1))),
        ("a", leaf(Scalar::I32(2))),
        ("b", leaf(Scalar::I32(3))),
    ]);

    assert_eq!(to_json(&v, None, &float_text), r#"{"a":2,"b":3}"#);
}

#[test]
fn nested_block_style() {
    let v = obj(vec![
        ("age", leaf(Scalar::U32(30))),
        (
            "tags",
            Value::List(vec![leaf(Scalar::Str("x".into())), leaf(Scalar::Str("y".into()))]),
        ),
    ]);

    assert_eq!(to_yaml(&v, &float_text), "\"age\": 30\n\"tags\":\n  - \"x\"\n  - \"y\"\n");
}

#[test]
fn list_of_objects() {
    let v = Value::List(vec![obj(vec![("a", leaf(Scalar::I32(1)))])]);

    assert_eq!(to_yaml(&v, &float_text), "-\n  \"a\": 1\n");
}

#[test]
fn scalars_and_empties() {
    assert_eq!(to_yaml(&leaf(Scalar::Null), &float_text), "null\n");
    assert_eq!(to_yaml(&Value::List(vec![]), &float_text), "[]\n");
    assert_eq!(
        to_yaml(&obj(vec![("e", Value::Node(vec![]))]), &float_text),
        "\"e\": {}\n"
    );
}

#[test]
fn numbers_are_verbatim() {
    assert_eq!(render(Scalar::Bool(true)), "true");
    assert_eq!(render(Scalar::Bool(false)), "false");
    assert_eq!(render(Scalar::I8(-8)), "-8");
    assert_eq!(render(Scalar::I16(-16)), "-16");
    assert_eq!(render(Scalar::I32(-32)), "-32");
    assert_eq!(render(Scalar::I64(-64)), "-64");
    assert_eq!(render(Scalar::I128(i128::MIN)), i128::MIN.to_string());
    assert_eq!(render(Scalar::U8(7)), "7");
    assert_eq!(render(Scalar::U16(16)), "16");
    assert_eq!(render(Scalar::U32(32)), "32");
    assert_eq!(render(Scalar::U64(64)), "64");
    assert_eq!(render(Scalar::U128(u128::MAX)), u128::MAX.to_string());
    assert_eq!(render(Scalar::F32(1.5f32.to_bits())), "1.5");
    assert_eq!(render(Scalar::F64(1.5f64.to_bits())), "1.5");
}

#[test]
fn non_finite_floats_are_null() {
    assert_eq!(render(Scalar::F64(f64::NAN.to_bits())), "null");
    assert_eq!(render(Scalar::F64(f64::INFINITY.to_bits())), "null");
    assert_eq!(render(Scalar::F32(f32::NEG_INFINITY.to_bits())), "null");
}

#[test]
fn strings_and_bytes_are_quoted() {
    assert_eq!(render(Scalar::Str("a\"b".into())), "\"a\\\"b\"");
    assert_eq!(render(Scalar::Bytes(vec![0, 1, 2, 255])), "\"AAEC/w==\"");
}

#[test]
fn uuid_is_quoted_and_hyphenated() {
    assert_eq!(render(Scalar::Uuid(0)), "\"00000000-0000-0000-0000-000000000000\"");
    assert_eq!(
        render(Scalar::Uuid(0x0123_4567_89ab_cdef_0123_4567_89ab_cdef)),
        "\"01234567-89ab-cdef-0123-456789abcdef\""
    );
}

#[test]
fn temporal_scalars_are_iso_text() {
    let date = NaiveDate::from_ymd_opt(2026, 6, 28).unwrap();
    assert_eq!(render(Scalar::Date(day(date))), "\"2026-06-28\"");
    assert_eq!(
        render(Scalar::Time(clock(NaiveTime::from_hms_opt(23, 59, 9).unwrap()))),
        "\"23:59:09\""
    );

    let dt = NaiveDateTime::new(date, NaiveTime::from_hms_opt(12, 0, 0).unwrap());
    let value = DateTimeUtc { days: day(dt.date()), time: clock(dt.time()) };
    assert_eq!(render(Scalar::DateTime(value)), "\"2026-06-28T12:00:00+00:00\"");
}

#[test]
fn duration_is_decimal_seconds() {
    assert_eq!(render(Scalar::Duration(span(TimeDelta::seconds(90)))), "90");
    assert_eq!(render(Scalar::Duration(span(TimeDelta::milliseconds(1500)))), "1.5");
    assert_eq!(render(Scalar::Duration(span(TimeDelta::milliseconds(-500)))), "-0.5");
    assert_eq!(
        render(Scalar::Duration(span(TimeDelta::seconds(-90) + TimeDelta::milliseconds(-500)))),
        "-90.5"
    );
}

#[test]
fn duration_keeps_every_significant_nanosecond() {
    assert_eq!(render(Scalar::Duration(span(TimeDelta::nanoseconds(1)))), "0.000000001");
    assert_eq!(render(Scalar::Duration(span(TimeDelta::seconds(-3)))), "-3");
}

#[test]
fn exporters_address_a_subtree_by_path() {
    let v = obj(vec![(
        "users",
        obj(vec![("alice", obj(vec![("age", leaf(Scalar::U8(30)))]))]),
    )]);
    let path = SPath::parse("users/alice").unwrap();

    assert_eq!(v.export_to_json(&path, None, &float_text).unwrap(), r#"{"age":30}"#);
    assert_eq!(v.export_to_yaml(&path, &float_text).unwrap(), "\"age\": 30\n");
    assert_eq!(
        v.export_to_json(&SPath::root(), None, &float_text).unwrap(),
        r#"{"users":{"alice":{"age":30}}}"#
    );
}

#[test]
fn exporting_a_missing_path_is_path_not_found() {
    let v = obj(vec![("a", Value::List(vec![leaf(Scalar::Null)]))]);

    for text in ["b", "a[1]", "a/x"] {
        let path = SPath::parse(text).unwrap();
        match v.export_to_json(&path, None, &float_text) {
            Err(SdbError::PathNotFound(p)) => assert_eq!(p.to_string(), text),
            other => panic!("unexpected {other:?}"),
        }
        assert!(matches!(v.export_to_yaml(&path, &float_text), Err(SdbError::PathNotFound(_))));
    }
    assert!(navigate(&v, &SPath::parse("a[0]").unwrap()).is_ok());
}

#[test]
fn an_empty_table_root_reads_as_null() {
    assert!(matches!(txn_value(None, &SPath::root()), Ok(Value::Leaf(Scalar::Null))));
    assert!(matches!(
        txn_value(None, &SPath::parse("a").unwrap()),
        Err(SdbError::PathNotFound(_))
    ));
}

#[test]
fn renderability_is_checked_before_rendering() {
    let sorted = obj(vec![("b", leaf(Scalar::I32(1))), ("a", leaf(Scalar::Null))]);
    assert!(sorted.is_renderable());

    let unsorted = Value::Node(vec![
        ("b".to_string(), leaf(Scalar::I32(1))),
        ("a".to_string(), leaf(Scalar::Null)),
    ]);
    assert!(!unsorted.is_renderable());
    let repeated = Value::Node(vec![("a".to_string(), leaf(Scalar::Null)), ("a".to_string(), leaf(Scalar::Null))]);
    assert!(!repeated.is_renderable());

    let bad_time = Value::List(vec![leaf(Scalar::Time(TimeOfDay { secs: 86_400, nanos: 0 }))]);
    assert!(!bad_time.is_renderable());
    let bad_span = leaf(Scalar::Duration(Duration { secs: 1, nanos: 1_000_000_000 }));
    assert!(!bad_span.is_renderable());
    let bad_day = leaf(Scalar::Date(i32::MAX));
    assert!(!bad_day.is_renderable());
    assert!(leaf(Scalar::Date(738_000)).is_renderable());
}

#[test]
fn float_free_values_render_without_the_float_renderer() {
    let v = obj(vec![("n", leaf(Scalar::Null)), ("x", leaf(Scalar::F64(f64::NAN.to_bits())))]);
    let no_text = |_: FloatBits| -> String { String::from("unused") };
    assert_eq!(to_json(&v, None, &no_text), "{\"n\":null,\"x\":null}");
}

#[test]
fn base64_length_and_padding_follow_the_input_length() {
    let alphabet = "ABCDEFGHIJKLMNOPQRSTUVWXYZabcdefghijklmnopqrstuvwxyz0123456789+/";
    for n in 0..10usize {
        let input: Vec<u8> = (0..n).map(|i| (i * 37 + 200) as u8).collect();
        let text = encode(&input);
        assert_eq!(text.len(), 4 * ((n + 2) / 3));
        let pad = (3 - n % 3) % 3;
        let (digits, tail) = text.split_at(text.len() - pad);
        assert!(tail.chars().all(|c| c == '='));
        assert!(digits.chars().all(|c| alphabet.contains(c)));
    }
}

#[test]
fn base64_of_a_concatenation_at_a_group_boundary() {
    let a = b"foobar";
    let b = b"\x00\xffz";
    let mut joined = a.to_vec();
    joined.extend_from_slice(b);
    assert_eq!(encode(&joined), format!("{}{}", encode(a), encode(b)));
    assert_eq!(encode(&joined), "Zm9vYmFyAP96");
    assert_eq!(encode(&[b"abc".as_slice(), b"d"].concat()), "YWJjZA==");
}

#[test]
fn exports_only_renderable_values() {
    let good = obj(vec![("a", leaf(Scalar::I32(1)))]);
    assert_eq!(stratodb::export::json::try_to_json(&good, None, &float_text), Some("{\"a\":1}".to_string()));
    assert!(stratodb::export::yaml::try_to_yaml(&good, &float_text).is_some());

    let bad = Value::Node(vec![
        ("b".to_string(), leaf(Scalar::I32(1))),
        ("a".to_string(), leaf(Scalar::Null)),
    ]);
    assert_eq!(stratodb::export::json::try_to_json(&bad, Some(2), &float_text), None);
    assert_eq!(stratodb::export::yaml::try_to_yaml(&bad, &float_text), None);
}

#[test]
fn times_render_with_the_shortest_exact_fraction() {
    let t = |secs: u32, nanos: u32| render(Scalar::Time(TimeOfDay { secs, nanos }));
    assert_eq!(t(0, 0), "\"00:00:00\"");
    assert_eq!(t(3_661, 250_000_000), "\"01:01:01.250\"");
    assert_eq!(t(86_399, 1_000), "\"23:59:59.000001\"");
    assert_eq!(t(86_399, 123_456_789), "\"23:59:59.123456789\"");
    assert_eq!(t(86_399, 1_500_000_000), "\"23:59:60.500\"");
}

#[test]
fn the_calendar_range_bounds_renderable_dates() {
    assert!(leaf(Scalar::Date(95_745_399)).is_renderable());
    assert!(!leaf(Scalar::Date(95_745_400)).is_renderable());
    assert!(leaf(Scalar::Date(-95_746_129)).is_renderable());
    assert!(!leaf(Scalar::Date(-95_746_130)).is_renderable());
}
