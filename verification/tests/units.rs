//! Unit-level behaviour: metrics, numerals, path splitting, trees.
use mirror_metrics::bytes::{parse_u64, split_path};
use mirror_metrics::{Metric, Tree};

#[test]
fn metric_addition_is_componentwise() {
    let a = Metric::new(1, 2, 3);
    let b = Metric::new(10, 20, 30);
    let c = a.saturating_add(b);
    assert_eq!(c.requests, 11);
    assert_eq!(c.bytes_sent, 22);
    assert_eq!(c.bytes_received, 33);
}

#[test]
fn metric_addition_saturates() {
    let a = Metric::new(u64::MAX - 1, 0, u64::MAX);
    let b = Metric::new(5, 1, 1);
    let c = a.saturating_add(b);
    assert_eq!(c.requests, u64::MAX);
    assert_eq!(c.bytes_sent, 1);
    assert_eq!(c.bytes_received, u64::MAX);
}

#[test]
fn metric_addition_commutes() {
    let a = Metric::new(1, 2, 3);
    let b = Metric::new(9, 8, 7);
    assert_eq!(a.saturating_add(b), b.saturating_add(a));
}

#[test]
fn decimal_parsing_is_exact() {
    assert_eq!(parse_u64(b"0"), Some(0));
    assert_eq!(parse_u64(b"007"), Some(7));
    assert_eq!(parse_u64(b"18446744073709551615"), Some(u64::MAX));
    assert_eq!(parse_u64(b"18446744073709551616"), None);
    assert_eq!(parse_u64(b""), None);
    assert_eq!(parse_u64(b"12x"), None);
    assert_eq!(parse_u64(b"-1"), None);
}

#[test]
fn paths_split_into_nonempty_components() {
    let comps = split_path(&b"/a//b.pkg/".to_vec());
    assert_eq!(comps, vec![b"a".to_vec(), b"b.pkg".to_vec()]);
    assert_eq!(split_path(&b"/".to_vec()), Vec::<Vec<u8>>::new());
    assert_eq!(split_path(&Vec::new()), Vec::<Vec<u8>>::new());
}

#[test]
fn empty_tree_serializes_to_the_root_record() {
    let t = Tree::new();
    assert_eq!(t.serialize(), b" 0 0 0\n".to_vec());
    assert_eq!(t.size, 0);
}

#[test]
fn empty_path_contributes_to_the_root_only() {
    let mut t = Tree::new();
    t.insert(&Vec::new(), Metric::new(2, 3, 4));
    assert_eq!(t.root.data.requests, 2);
    assert_eq!(t.size, 0);
    assert_eq!(t.serialize(), b" 2 4 3\n".to_vec());
}

#[test]
fn size_counts_created_nodes() {
    let mut t = Tree::new();
    t.insert(&vec![b"a".to_vec(), b"b".to_vec()], Metric::new(1, 0, 0));
    assert_eq!(t.size, 2);
    t.insert(&vec![b"a".to_vec(), b"c".to_vec()], Metric::new(1, 0, 0));
    assert_eq!(t.size, 3);
    t.insert(&vec![b"a".to_vec(), b"b".to_vec()], Metric::new(1, 0, 0));
    assert_eq!(t.size, 3);
}

#[test]
fn internal_nodes_aggregate_their_subtree() {
    let mut t = Tree::new();
    t.insert(&vec![b"a".to_vec(), b"b".to_vec()], Metric::new(1, 10, 0));
    t.insert(&vec![b"a".to_vec(), b"c".to_vec()], Metric::new(2, 20, 0));
    assert_eq!(t.root.data.requests, 3);
    let a = &t.root.children[0];
    assert_eq!(a.component, b"a".to_vec());
    assert_eq!(a.data.requests, 3);
    assert_eq!(a.data.bytes_sent, 30);
    assert_eq!(a.children.len(), 2);
}

#[test]
fn deserialize_drops_malformed_records() {
    let text = b"a/x 1 2 3\nbroken line\nb 1 2\nc 4 5 6 extra\n".to_vec();
    let t = Tree::deserialize(&text);
    assert_eq!(t.serialize(), b"a/x 1 2 3\nc 4 5 6\n".to_vec());
}

#[test]
fn deserialize_of_empty_text_gives_the_empty_tree() {
    let t = Tree::deserialize(b"");
    assert_eq!(t.size, 0);
    assert_eq!(t.serialize(), b" 0 0 0\n".to_vec());
}

#[test]
fn node_merge_adds_counters_and_children() {
    let mut a = Tree::new();
    a.insert(&vec![b"x".to_vec()], Metric::new(1, 2, 3));
    let mut b = Tree::new();
    b.insert(&vec![b"x".to_vec()], Metric::new(10, 20, 30));
    b.insert(&vec![b"y".to_vec()], Metric::new(100, 0, 0));
    a.root.merge(&b.root);
    assert_eq!(a.root.data.requests, 111);
    assert_eq!(a.root.children.len(), 2);
    assert_eq!(a.root.children[0].data.requests, 11);
    assert_eq!(a.root.children[1].data.requests, 100);
}
