use stratodb::engine::table_key::TableKey;
use stratodb::engine::table_value::TableValue;
use stratodb::index::id::IndexId;
use stratodb::index::maintenance::{continues_block, guard_unique, index_block_start, index_key};
use stratodb::index::registry::IndexEntry;
use stratodb::ordered::encode_scalar;
use stratodb::{Direction, IndexColumn, IndexDef, SPath, Scalar, SdbError, Skey};

fn def(unique: bool) -> IndexDef {
    IndexDef::new(
        "by_age".to_string(),
        "users/*".to_string(),
        vec![
            IndexColumn::new(SPath::parse("age").unwrap(), Direction::Asc),
            IndexColumn::new(SPath::parse("name").unwrap(), Direction::Desc),
        ],
        unique,
    )
}

fn value_bytes(value: &TableValue) -> Vec<u8> {
    let mut buf = Vec::new();
    value.encode(&mut buf);
    buf
}

fn expected_cols(values: &[Scalar]) -> Vec<u8> {
    let mut cols = Vec::new();
    encode_scalar(&mut cols, &values[0], false);
    encode_scalar(&mut cols, &values[1], true);
    cols
}

#[test]
fn a_non_unique_entry_keeps_the_entity_in_the_key() {
    let values = vec![Scalar::I32(30), Scalar::Str("ann".to_string())];
    let (key, value) = index_key(IndexId(4), &def(false), Skey::from_u128(9), &values);
    assert_eq!(
        key,
        TableKey::Index { id: IndexId(4), cols: expected_cols(&values), entity: Some(Skey::from_u128(9)) }
    );
    assert_eq!(value_bytes(&value), value_bytes(&TableValue::Unit));
}

#[test]
fn a_unique_entry_keeps_the_entity_in_the_value() {
    let values = vec![Scalar::I32(30), Scalar::Null];
    let (key, value) = index_key(IndexId(4), &def(true), Skey::from_u128(9), &values);
    assert_eq!(key, TableKey::Index { id: IndexId(4), cols: expected_cols(&values), entity: None });
    assert_eq!(value_bytes(&value), value_bytes(&TableValue::Skey(Skey::from_u128(9))));
}

#[test]
fn a_unique_key_held_by_another_entity_is_a_violation() {
    let mine = TableValue::Skey(Skey::from_u128(1));
    let theirs = TableValue::Skey(Skey::from_u128(2));

    assert!(guard_unique(None, &mine, "by_age").is_ok());
    assert!(guard_unique(Some(&mine), &mine, "by_age").is_ok());
    match guard_unique(Some(&theirs), &mine, "by_age") {
        Err(SdbError::UniqueViolation { index }) => assert_eq!(index, "by_age"),
        other => panic!("expected a unique violation, got {other:?}"),
    }
    assert!(guard_unique(Some(&theirs), &TableValue::Unit, "by_age").is_ok());
}

#[test]
fn an_index_block_starts_at_its_tag_and_id() {
    let dup = IndexEntry::new("t".to_string(), IndexId(7), def(false));
    let start = index_block_start(&dup);
    assert_eq!(start, TableKey::Index { id: IndexId(7), cols: vec![], entity: Some(Skey::from_u128(0)) });

    let unique = IndexEntry::new("t".to_string(), IndexId(7), def(true));
    assert_eq!(index_block_start(&unique), TableKey::Index { id: IndexId(7), cols: vec![], entity: None });

    let values = vec![Scalar::I32(0), Scalar::Null];
    let (first, _) = index_key(IndexId(7), &def(false), Skey::from_u128(0), &values);
    assert!(start.encode() <= first.encode());
}

#[test]
fn the_block_scan_stops_at_another_index() {
    let id = IndexId(7);
    assert!(continues_block(&TableKey::Index { id, cols: vec![1], entity: None }, id));
    assert!(!continues_block(&TableKey::Index { id: IndexId(8), cols: vec![], entity: None }, id));
    assert!(!continues_block(&TableKey::Data(Skey::from_u128(1)), id));
}

#[test]
fn a_column_prefix_scan_starts_before_every_extension() {
    let short = TableKey::Index { id: IndexId(1), cols: vec![5, 6], entity: None };
    let long = TableKey::Index { id: IndexId(1), cols: vec![5, 6, 0], entity: None };
    assert!(short.encode() < long.encode());
}
