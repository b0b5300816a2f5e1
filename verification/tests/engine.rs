use chrono::{Datelike, NaiveDate, NaiveTime, TimeDelta, Timelike};
use stratodb::codec::{put_bytes, Reader};
use stratodb::engine::mem_nodes::MemNodes;
use stratodb::engine::node::{Node, NodeKind};
use stratodb::engine::table_key::TableKey;
use stratodb::engine::table_value::TableValue;
use stratodb::index::id::IndexId;
use stratodb::key::{seed_from, KeyRng};
use stratodb::scalar::{Scalar, STR_TAG};
use stratodb::temporal::{DateTimeUtc, Duration, TimeOfDay};
use stratodb::{SdbError, Skey};

fn day(date: NaiveDate) -> i32 {
    date.num_days_from_ce()
}

fn clock(time: NaiveTime) -> TimeOfDay {
    TimeOfDay { secs: time.num_seconds_from_midnight(), nanos: time.nanosecond() }
}

fn span(delta: TimeDelta) -> Duration {
    Duration { secs: delta.num_seconds(), nanos: delta.subsec_nanos() }
}

fn skey(n: u128) -> Skey {
    Skey::from_bytes(*uuid::Uuid::from_u128(n).as_bytes())
}

fn value_bytes(value: &TableValue) -> Vec<u8> {
    let mut buf = Vec::new();
    value.encode(&mut buf);
    buf
}

#[test]
fn reading_past_the_end_is_an_error() {
    let data = [1u8, 2];
    let mut r = Reader::new(&data);

    assert_eq!(r.u8().unwrap(), 1);
    assert!(r.u32().is_err());
}

#[test]
fn a_bogus_length_prefix_is_rejected() {
    let data = [0xFFu8, 0xFF, 0xFF, 0xFF, 0x00];
    let mut r = Reader::new(&data);

    assert!(r.bytes().is_err());
}

fn roundtrip(scalar: Scalar) {
    let mut buf = Vec::new();
    scalar.encode(&mut buf);

    let mut reader = Reader::new(&buf);
    let decoded = Scalar::decode(&mut reader).expect("decode");

    assert!(reader.is_empty(), "trailing bytes for {scalar:?}");
    assert_eq!(scalar, decoded);
}

#[test]
fn scalar_roundtrips() {
    roundtrip(Scalar::Null);
    roundtrip(Scalar::Bool(true));
    roundtrip(Scalar::Bool(false));
    roundtrip(Scalar::I8(-8));
    roundtrip(Scalar::I16(-1600));
    roundtrip(Scalar::I32(-42));
    roundtrip(Scalar::I64(-64));
    roundtrip(Scalar::I128(i128::MIN));
    roundtrip(Scalar::U8(200));
    roundtrip(Scalar::U16(60000));
    roundtrip(Scalar::U32(u32::MAX));
    roundtrip(Scalar::U64(u64::MAX));
    roundtrip(Scalar::U128(u128::MAX));
    roundtrip(Scalar::F32((-1.5f32).to_bits()));
    roundtrip(Scalar::F64((-1.5f64).to_bits()));
    roundtrip(Scalar::Str(String::from("héllo/[world]")));
    roundtrip(Scalar::Bytes(vec![0, 1, 2, 255]));
    roundtrip(Scalar::Uuid(uuid::Uuid::from_u128(0x1234_5678).as_u128()));
    roundtrip(Scalar::Date(day(NaiveDate::from_ymd_opt(2026, 6, 21).unwrap())));
    roundtrip(Scalar::Time(clock(NaiveTime::from_hms_milli_opt(23, 59, 59, 250).unwrap())));
    roundtrip(Scalar::DateTime(DateTimeUtc {
        days: day(NaiveDate::from_ymd_opt(1970, 1, 1).unwrap()),
        time: clock(NaiveTime::from_hms_opt(0, 0, 0).unwrap()),
    }));

    roundtrip(Scalar::Duration(span(TimeDelta::seconds(-90) + TimeDelta::milliseconds(-500))));

    roundtrip(Scalar::Duration(span(TimeDelta::nanoseconds(1))));
}

#[test]
fn type_str_labels_every_base_variant() {
    assert_eq!(Scalar::Null.type_str(), "null");
    assert_eq!(Scalar::Bool(true).type_str(), "bool");
    assert_eq!(Scalar::I8(0).type_str(), "i8");
    assert_eq!(Scalar::I16(0).type_str(), "i16");
    assert_eq!(Scalar::I32(0).type_str(), "i32");
    assert_eq!(Scalar::I64(0).type_str(), "i64");
    assert_eq!(Scalar::I128(0).type_str(), "i128");
    assert_eq!(Scalar::U8(0).type_str(), "u8");
    assert_eq!(Scalar::U16(0).type_str(), "u16");
    assert_eq!(Scalar::U32(0).type_str(), "u32");
    assert_eq!(Scalar::U64(0).type_str(), "u64");
    assert_eq!(Scalar::U128(0).type_str(), "u128");
    assert_eq!(Scalar::F32(0.0f32.to_bits()).type_str(), "f32");
    assert_eq!(Scalar::F64(0.0f64.to_bits()).type_str(), "f64");
    assert_eq!(Scalar::Str(String::new()).type_str(), "str");
    assert_eq!(Scalar::Bytes(vec![]).type_str(), "bytes");
    assert_eq!(Scalar::Uuid(uuid::Uuid::nil().as_u128()).type_str(), "uuid");
    assert_eq!(
        Scalar::Date(day(NaiveDate::from_ymd_opt(2000, 1, 1).unwrap())).type_str(),
        "date"
    );
    assert_eq!(
        Scalar::Time(clock(NaiveTime::from_hms_opt(0, 0, 0).unwrap())).type_str(),
        "time"
    );
    assert_eq!(
        Scalar::DateTime(DateTimeUtc {
            days: day(NaiveDate::from_ymd_opt(2000, 1, 1).unwrap()),
            time: clock(NaiveTime::from_hms_opt(0, 0, 0).unwrap()),
        })
        .type_str(),
        "datetime"
    );

    assert_eq!(Scalar::Duration(span(TimeDelta::zero())).type_str(), "duration");
}

#[test]
fn decode_rejects_an_unknown_tag() {
    let data = [0xFFu8];
    let mut reader = Reader::new(&data);
    let err = Scalar::decode(&mut reader).unwrap_err();

    assert!(matches!(err, SdbError::Corrupt(_)));
}

#[test]
fn decode_rejects_invalid_utf8_in_a_string() {
    let mut buf = vec![STR_TAG];
    put_bytes(&mut buf, &[0xFF, 0xFE]);

    let err = Scalar::decode(&mut Reader::new(&buf)).unwrap_err();
    assert!(matches!(err, SdbError::Corrupt(_)));
}

#[test]
fn decode_rejects_an_out_of_range_time_of_day() {
    let mut buf = Vec::new();
    Scalar::Time(TimeOfDay { secs: 0, nanos: 0 }).encode(&mut buf);
    let mut bad = buf.clone();
    // seconds since midnight: one past the last second of the day.
    let secs_at = 1;
    bad[secs_at..secs_at + 4].copy_from_slice(&86_400u32.to_be_bytes());

    let err = Scalar::decode(&mut Reader::new(&bad)).unwrap_err();
    assert!(matches!(err, SdbError::Corrupt(_)));
}

fn key_roundtrip(key: TableKey) {
    let bytes = key.encode();
    assert_eq!(TableKey::decode(&bytes).expect("decode"), key);
}

#[test]
fn roundtrips_every_variant() {
    key_roundtrip(TableKey::Data(skey(7)));
    key_roundtrip(TableKey::Index { id: IndexId(3), cols: vec![1, 2, 0, 3], entity: Some(skey(42)) });
    key_roundtrip(TableKey::Index { id: IndexId(3), cols: vec![], entity: Some(skey(42)) });
    key_roundtrip(TableKey::Index { id: IndexId(9), cols: vec![5, 6, 7], entity: None });
}

#[test]
fn encoding_is_order_preserving() {
    let ordered = [
        TableKey::Data(skey(0)),
        TableKey::Data(skey(u128::MAX)),
        TableKey::Index { id: IndexId(0), cols: vec![1], entity: Some(skey(0)) },
        TableKey::Index { id: IndexId(0), cols: vec![1], entity: Some(skey(1)) },
        TableKey::Index { id: IndexId(0), cols: vec![2], entity: Some(skey(0)) },
        TableKey::Index { id: IndexId(1), cols: vec![0], entity: Some(skey(0)) },
    ];

    for pair in ordered.windows(2) {
        assert!(
            pair[0].encode() < pair[1].encode(),
            "{:?} should encode below {:?}",
            pair[0],
            pair[1]
        );
    }
}

#[test]
fn column_prefixes_sort_before_extensions() {
    let short = TableKey::Index { id: IndexId(0), cols: vec![1, 2], entity: Some(skey(0)) };
    let long = TableKey::Index { id: IndexId(0), cols: vec![1, 2, 0], entity: Some(skey(0)) };

    assert!(short.encode() < long.encode());
}

#[test]
fn data_key_bytes_are_the_tag_then_the_key() {
    let bytes = TableKey::Data(skey(0x0102)).encode();
    let mut expected = vec![0u8; 17];
    expected[15] = 1;
    expected[16] = 2;
    assert_eq!(bytes, expected);
}

#[test]
fn decode_rejects_malformed_table_keys() {
    assert!(matches!(TableKey::decode(&[]), Err(SdbError::Corrupt(_))));
    assert!(matches!(TableKey::decode(&[0, 1, 2]), Err(SdbError::Corrupt(_))));
    assert!(matches!(TableKey::decode(&[7]), Err(SdbError::Corrupt(_))));
}

#[test]
fn decode_rejects_unknown_tags() {
    assert!(matches!(TableValue::decode(&[0xFF]), Err(SdbError::Corrupt(_))));

    assert!(matches!(TableValue::decode(&[0, 0xFF]), Err(SdbError::Corrupt(_))));
}

#[test]
fn every_variant_roundtrips_through_borrowed_bytes() {
    let values = [
        TableValue::Node(Node::Object),
        TableValue::Node(Node::List(vec![Skey::root()])),
        TableValue::Node(Node::Leaf(Scalar::I32(1))),
        TableValue::Node(Node::Packed { root: NodeKind::Object, blob: vec![1, 2, 3] }),
        TableValue::Skey(Skey::root()),
        TableValue::Unit,
    ];

    for value in values {
        let buf = value_bytes(&value);
        let round = value_bytes(&TableValue::decode(&buf).unwrap());

        assert_eq!(buf, round);
    }
}

#[test]
fn node_kind_tags_roundtrip() {
    for kind in [NodeKind::Object, NodeKind::List, NodeKind::Leaf] {
        assert_eq!(NodeKind::from_tag(kind.as_tag()).unwrap(), kind);
    }
    assert!(matches!(NodeKind::from_tag(3), Err(SdbError::Corrupt(_))));
    assert_eq!(NodeKind::List.as_str(), "list");
}

#[test]
fn skey_bytes_roundtrip_and_display() {
    let key = Skey::from_u128(0x1234);
    assert_eq!(Skey::from_bytes(key.into_bytes()), key);
    assert_eq!(Skey::try_from_bytes(&key.into_bytes()).unwrap(), key);
    assert!(matches!(Skey::try_from_bytes(&[1, 2, 3]), Err(SdbError::BadKey(_))));
    assert_eq!(key.display_text(), "key:00000000-0000-0000-0000-000000001234");
    assert_eq!(Skey::parse("00000000-0000-0000-0000-000000001234").unwrap(), key);
    assert!(matches!(Skey::parse("not a key"), Err(SdbError::BadKey(_))));
}

#[test]
fn generated_keys_follow_splitmix64() {
    let mut rng = KeyRng::from_state(0);
    let key = Skey::generate(&mut rng);
    // splitmix64 from state 0: 0xE220A8397B1DCDAF, then 0x6E789E6AA1B965F4.
    assert_eq!(key.as_u128(), 0xE220_A839_7B1D_CDAF_6E78_9E6A_A1B9_65F4);
    let other = Skey::generate(&mut rng);
    assert_ne!(key, other);
}

fn data(n: u128) -> TableKey {
    TableKey::Data(skey(n))
}

fn leaf(v: i32) -> TableValue {
    TableValue::Node(Node::Leaf(Scalar::I32(v)))
}

#[test]
fn mem_nodes_put_fetch_and_delete() {
    let mut store = MemNodes::new();
    store.put(data(2), leaf(20));
    store.put(data(1), leaf(10));
    store.put(data(2), leaf(21));

    assert_eq!(value_bytes(&store.fetch(&data(2)).unwrap()), value_bytes(&leaf(21)));
    assert_eq!(value_bytes(&store.fetch(&data(1)).unwrap()), value_bytes(&leaf(10)));
    assert!(store.fetch(&data(3)).is_none());

    store.delete(&data(2));
    assert!(store.fetch(&data(2)).is_none());
    let keys: Vec<TableKey> = store.into_entries().into_iter().map(|e| e.0).collect();
    assert_eq!(keys, vec![data(1)]);
}

#[test]
fn mem_nodes_scan_from_is_in_key_order() {
    let mut store = MemNodes::new();
    for n in [5u128, 1, 3, 4, 2] {
        store.put(data(n), TableValue::Unit);
    }
    let keys: Vec<TableKey> = store.scan_from(&data(3)).into_iter().map(|e| e.0).collect();
    assert_eq!(keys, vec![data(3), data(4), data(5)]);
}

#[test]
fn mem_nodes_blob_roundtrip_and_root_kind() {
    let mut store = MemNodes::new();
    assert_eq!(store.root_kind(), NodeKind::Object);
    store.put(TableKey::Data(Skey::root()), TableValue::Node(Node::List(vec![skey(9)])));
    store.put(data(9), leaf(1));
    assert_eq!(store.root_kind(), NodeKind::List);

    let blob = store.to_blob();
    assert_eq!(&blob[0..4], &[0, 0, 0, 2]);
    let back = MemNodes::from_blob(&blob).unwrap();
    assert_eq!(back.to_blob(), blob);
    assert_eq!(back.root_kind(), NodeKind::List);

    match back.into_packed() {
        Node::Packed { root, blob: packed } => {
            assert_eq!(root, NodeKind::List);
            assert_eq!(packed, blob);
        },
        other => panic!("expected a packed node, got {other:?}"),
    }
}

#[test]
fn mem_nodes_reject_a_truncated_blob() {
    let mut store = MemNodes::new();
    store.put(data(1), leaf(1));
    let blob = store.to_blob();
    assert!(matches!(MemNodes::from_blob(&blob[..blob.len() - 1]), Err(SdbError::Corrupt(_))));
    assert!(matches!(MemNodes::from_blob(&[0, 0]), Err(SdbError::Corrupt(_))));
}

#[test]
fn a_seed_mixes_both_halves_and_is_odd() {
    assert_eq!(seed_from(0), 1);
    assert_eq!(seed_from((0x10u128 << 64) | 0x01), 0x11);
    assert_eq!(seed_from((0xF0u128 << 64) | 0x0F), 0xFF);
    assert_eq!(seed_from(2), 3);
}
