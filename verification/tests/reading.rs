use std::sync::Arc;

use stratodb::access::{expect_leaf, leaf_scalar, rebase};
use stratodb::cache::PathCache;
use stratodb::engine::archived::{view_of, ArchNode, ArchivedNodes, NodeSnapshot};
use stratodb::engine::node::{Node, NodeKind};
use stratodb::engine::table_key::TableKey;
use stratodb::engine::table_value::TableValue;
use stratodb::index::id::IndexId;
use stratodb::index::pattern::{Pattern, WalkStep};
use stratodb::scalar::{decode_panics, Scalar, DURATION_TAG};
use stratodb::{SPath, SdbError, Segment, Skey};

fn path(s: &str) -> SPath {
    SPath::parse(s).unwrap()
}

fn key(n: u128) -> Skey {
    Skey::from_u128(n)
}

fn leaf_bytes(scalar: &Scalar) -> Vec<u8> {
    let mut buf = Vec::new();
    scalar.encode(&mut buf);
    buf
}

fn value_bytes(value: &TableValue) -> Vec<u8> {
    let mut buf = Vec::new();
    value.encode(&mut buf);
    buf
}

/// root (key 1) = { "age": 30, "tags": ["x"] }, as an archive sorted by key.
fn entity() -> ArchivedNodes {
    ArchivedNodes::from_nodes(vec![
        (key(1), ArchNode::Object(vec![("age".to_string(), key(2)), ("tags".to_string(), key(3))])),
        (key(2), ArchNode::Leaf(leaf_bytes(&Scalar::I32(30)))),
        (key(3), ArchNode::List(vec![key(4)])),
        (key(4), ArchNode::Leaf(leaf_bytes(&Scalar::Str("x".to_string())))),
    ])
}

#[test]
fn archived_nodes_are_found_by_key_and_by_field_name() {
    let nodes = entity();
    assert!(nodes.decodable());
    assert!(matches!(nodes.node(key(3)), Some(ArchNode::List(items)) if items == &vec![key(4)]));
    assert!(nodes.node(key(9)).is_none());

    assert_eq!(nodes.child_link(key(1), "tags"), Some(key(3)));
    assert_eq!(nodes.child_link(key(1), "age"), Some(key(2)));
    assert_eq!(nodes.child_link(key(1), "name"), None);
    assert_eq!(nodes.child_link(key(3), "age"), None);
    assert_eq!(nodes.child_link(key(7), "age"), None);
}

#[test]
fn archived_links_scan_forward_from_a_name() {
    let nodes = entity();
    let names: Vec<String> = nodes.links_from(key(1), "b").into_iter().map(|p| p.0).collect();
    assert_eq!(names, vec!["tags".to_string()]);
    assert_eq!(nodes.links_from(key(1), "").len(), 2);
    assert!(nodes.links_from(key(2), "").is_empty());
}

#[test]
fn archived_fetch_reads_nodes_as_table_values() {
    let nodes = entity();
    let leaf = nodes.fetch(&TableKey::Data(key(2))).unwrap().unwrap();
    assert_eq!(value_bytes(&leaf), value_bytes(&TableValue::Node(Node::Leaf(Scalar::I32(30)))));
    let list = nodes.fetch(&TableKey::Data(key(3))).unwrap().unwrap();
    assert_eq!(value_bytes(&list), value_bytes(&TableValue::Node(Node::List(vec![key(4)]))));
    let object = nodes.fetch(&TableKey::Data(key(1))).unwrap().unwrap();
    assert_eq!(value_bytes(&object), value_bytes(&TableValue::Node(Node::Object)));
    assert!(nodes.fetch(&TableKey::Data(key(5))).unwrap().is_none());
    let index = TableKey::Index { id: IndexId(0), cols: vec![], entity: None };
    assert!(nodes.fetch(&index).unwrap().is_none());
}

#[test]
fn archived_entries_decode_every_node() {
    let entries = entity().entries().unwrap();
    assert_eq!(entries.len(), 4);
    assert_eq!(entries[1].0, key(2));
    assert!(matches!(&entries[1].1, NodeSnapshot::Leaf(Scalar::I32(30))));
    assert!(matches!(&entries[3].1, NodeSnapshot::Leaf(Scalar::Str(s)) if s == "x"));

    let broken = ArchivedNodes::from_nodes(vec![(key(1), ArchNode::Leaf(vec![0xFF]))]);
    assert!(matches!(broken.entries(), Err(SdbError::Corrupt(_))));
    assert!(matches!(broken.fetch(&TableKey::Data(key(1))), Err(SdbError::Corrupt(_))));
    assert!(matches!(view_of(&ArchNode::Leaf(vec![])), Err(SdbError::Corrupt(_))));
}

#[test]
fn an_out_of_range_duration_is_flagged_before_decoding() {
    let mut bytes = vec![DURATION_TAG];
    bytes.extend_from_slice(&i64::MAX.to_be_bytes());
    bytes.extend_from_slice(&0i32.to_be_bytes());
    assert!(decode_panics(&bytes));
    let nodes = ArchivedNodes::from_nodes(vec![(key(1), ArchNode::Leaf(bytes))]);
    assert!(!nodes.decodable());

    let mut fine = vec![DURATION_TAG];
    fine.extend_from_slice(&90i64.to_be_bytes());
    fine.extend_from_slice(&0i32.to_be_bytes());
    assert!(!decode_panics(&fine));
}

#[test]
fn the_path_cache_serves_only_its_own_generation() {
    let mut cache = PathCache::new(2, 1);
    let p = path("users/alice");
    assert_eq!(cache.get(0, &p), None);
    cache.put(3, &p, key(7));
    assert_eq!(cache.get(3, &p), Some(key(7)));
    assert_eq!(cache.get(4, &p), None);
    cache.put(4, &p, key(8));
    assert_eq!(cache.get(4, &p), Some(key(8)));
}

#[test]
fn the_path_cache_evicts_the_least_recently_used_entry() {
    let mut cache = PathCache::new(2, 1);
    cache.put(0, &path("a"), key(1));
    cache.put(0, &path("b"), key(2));
    assert_eq!(cache.get(0, &path("a")), Some(key(1)));
    cache.put(0, &path("c"), key(3));
    assert_eq!(cache.get(0, &path("b")), None);
    assert_eq!(cache.get(0, &path("a")), Some(key(1)));
    assert_eq!(cache.get(0, &path("c")), Some(key(3)));
}

#[test]
fn a_zero_capacity_cache_still_holds_one_entry() {
    let mut cache = PathCache::new(0, 0);
    cache.put(0, &path("a"), key(1));
    assert_eq!(cache.get(0, &path("a")), Some(key(1)));
    cache.put_blob(0, key(1), Arc::new(entity()));
    assert!(cache.get_blob(0, key(1)).is_some());
    assert!(cache.get_blob(1, key(1)).is_none());
}

#[test]
fn the_blob_cache_is_keyed_by_generation_and_entity() {
    let mut cache = PathCache::new(4, 4);
    let blob = Arc::new(entity());
    cache.put_blob(2, key(5), Arc::clone(&blob));
    let hit = cache.get_blob(2, key(5)).unwrap();
    assert!(Arc::ptr_eq(&hit, &blob));
    assert!(cache.get_blob(2, key(6)).is_none());
}

#[test]
fn rebasing_strips_the_readers_base_path() {
    let rest = rebase(&path("users/alice"), &path("users/alice/tags[0]")).unwrap();
    assert_eq!(rest.to_string(), "tags[0]");
    assert!(rebase(&path("users/alice"), &path("users/alice")).unwrap().is_root());
    assert!(rebase(&path("users/alice"), &path("users/bob/tags")).is_none());
    assert!(rebase(&path("users/alice"), &path("users")).is_none());
    assert_eq!(rebase(&SPath::root(), &path("a[1]")).unwrap().to_string(), "a[1]");
}

#[test]
fn a_scalar_read_wants_a_leaf() {
    let at = path("obj");
    assert_eq!(leaf_scalar(&at, Some(Node::Leaf(Scalar::U8(4)))).unwrap(), Scalar::U8(4));
    match leaf_scalar(&at, Some(Node::Object)) {
        Err(SdbError::UnexpectedNode { path: p, expected, found }) => {
            assert_eq!(p.to_string(), "obj");
            assert_eq!(expected, "leaf");
            assert_eq!(found, "object");
        },
        other => panic!("expected an unexpected-node error, got {other:?}"),
    }
    assert!(matches!(leaf_scalar(&at, None), Err(SdbError::Corrupt(_))));

    assert!(expect_leaf(&at, Some(NodeKind::Leaf)).is_ok());
    assert!(matches!(
        expect_leaf(&at, Some(NodeKind::List)),
        Err(SdbError::UnexpectedNode { expected: "leaf", found: "list", .. })
    ));
    assert!(matches!(expect_leaf(&at, None), Err(SdbError::Corrupt(_))));
}

#[test]
fn the_entity_walk_follows_the_mutated_path() {
    let pattern = Pattern::parse("users/*").unwrap();
    let scope = path("users/alice/age");

    assert!(matches!(pattern.walk_step(0, &scope, 0), WalkStep::Child(Segment::Name(n)) if n == "users"));
    assert!(matches!(pattern.walk_step(1, &scope, 1), WalkStep::Child(Segment::Name(n)) if n == "alice"));
    assert!(matches!(pattern.walk_step(2, &scope, 2), WalkStep::Emit));

    let elsewhere = path("teams/red");
    assert!(matches!(pattern.walk_step(0, &elsewhere, 0), WalkStep::Prune));

    let above = path("users");
    assert!(matches!(pattern.walk_step(1, &above, 1), WalkStep::Children));
    assert!(matches!(pattern.walk_step(0, &SPath::root(), 0), WalkStep::Child(Segment::Name(n)) if n == "users"));
}
