//! End-to-end scenarios through the reduce and merge stages.
use mirror_metrics::stage::{merge_artifact_texts, merge_artifacts, reduce_log, reduce_log_text};
use mirror_metrics::{Metric, StageError, Tree};

use std::io::Read;
use std::io::Write;

fn line(ts: &str, ip: &str, req: &str, status: &str, sent: &str, recv: &str, ua: &str) -> String {
    format!(
        "\"{}\" \"{}\" \"{}\" \"{}\" \"{}\" \"{}\" \"{}\"",
        ts, ip, req, status, sent, recv, ua
    )
}

fn ts() -> &'static str {
    "07/Feb/2024:00:01:06 -0500"
}

#[test]
fn single_line_status_200() {
    let text = line(ts(), "1.2.3.4", "GET /a/b.pkg HTTP/1.1", "200", "100", "50", "agent");
    let reduced = reduce_log_text(&text.into_bytes()).unwrap();
    assert_eq!(reduced.name, b"2024-02-07".to_vec());
    assert_eq!(reduced.data, b"a/b.pkg 1 50 100\n".to_vec());
}

#[test]
fn two_lines_same_path_accumulate() {
    let l1 = line(ts(), "1.2.3.4", "GET /a/b.pkg HTTP/1.1", "200", "100", "50", "agent");
    let l2 = line(ts(), "1.2.3.4", "GET /a/b.pkg HTTP/1.1", "200", "200", "50", "agent");
    let text = format!("{}\n{}\n", l1, l2);
    let reduced = reduce_log_text(&text.into_bytes()).unwrap();
    assert_eq!(reduced.data, b"a/b.pkg 2 100 300\n".to_vec());
}

#[test]
fn non_2xx_statuses_are_filtered() {
    let l1 = line(ts(), "1.2.3.4", "GET /a HTTP/1.1", "200", "100", "50", "agent");
    let l2 = line(ts(), "1.2.3.4", "GET /a HTTP/1.1", "404", "7", "8", "agent");
    let l3 = line(ts(), "1.2.3.4", "GET /a HTTP/1.1", "301", "9", "10", "agent");
    let text = format!("{}\n{}\n{}\n", l1, l2, l3);
    let reduced = reduce_log_text(&text.into_bytes()).unwrap();
    assert_eq!(reduced.data, b"a 1 50 100\n".to_vec());
}

#[test]
fn non_get_methods_are_filtered() {
    let l1 = line(ts(), "1.2.3.4", "GET /a HTTP/1.1", "200", "100", "50", "agent");
    let l2 = line(ts(), "1.2.3.4", "POST /a HTTP/1.1", "200", "7", "8", "agent");
    let text = format!("{}\n{}\n", l1, l2);
    let reduced = reduce_log_text(&text.into_bytes()).unwrap();
    assert_eq!(reduced.data, b"a 1 50 100\n".to_vec());
}

#[test]
fn records_come_in_lexicographic_order() {
    let mut t = Tree::new();
    let m = Metric::new(1, 0, 0);
    t.insert(&vec![b"b".to_vec(), b"x".to_vec()], m);
    t.insert(&vec![b"a".to_vec(), b"y".to_vec()], m);
    t.insert(&vec![b"a".to_vec(), b"x".to_vec()], m);
    assert_eq!(t.serialize(), b"a/x 1 0 0\na/y 1 0 0\nb/x 1 0 0\n".to_vec());
}

#[test]
fn union_accumulates_both_trees() {
    let m = Metric::new(1, 0, 0);
    let mut a = Tree::new();
    a.insert(&vec![b"a".to_vec(), b"x".to_vec()], m);
    let mut b = Tree::new();
    b.insert(&vec![b"a".to_vec(), b"y".to_vec()], m);
    b.insert(&vec![b"a".to_vec(), b"x".to_vec()], m);
    a.union(&b);
    assert_eq!(a.serialize(), b"a/x 2 0 0\na/y 1 0 0\n".to_vec());
}

#[test]
fn malformed_first_line_fails_the_stage() {
    let good = line(ts(), "1.2.3.4", "GET /a HTTP/1.1", "200", "100", "50", "agent");
    let text = format!("not a log line\n{}\n", good);
    assert_eq!(
        reduce_log_text(&text.into_bytes()).unwrap_err(),
        StageError::FirstLineParse
    );
    let text2 = format!("not a log line\n{}\n", good);
    assert!(reduce_log(&text2.into_bytes()).is_err());
}

#[test]
fn empty_input_fails_the_stage() {
    assert_eq!(
        reduce_log_text(&Vec::new()).unwrap_err(),
        StageError::FirstLineParse
    );
}

#[test]
fn insertion_order_does_not_change_the_artifact() {
    let m1 = Metric::new(1, 10, 20);
    let m2 = Metric::new(1, 30, 40);
    let mut a = Tree::new();
    a.insert(&vec![b"p".to_vec(), b"q".to_vec()], m1);
    a.insert(&vec![b"p".to_vec(), b"r".to_vec()], m2);
    let mut b = Tree::new();
    b.insert(&vec![b"p".to_vec(), b"r".to_vec()], m2);
    b.insert(&vec![b"p".to_vec(), b"q".to_vec()], m1);
    assert_eq!(a.serialize(), b.serialize());
}

#[test]
fn serialization_is_repeatable() {
    let mut t = Tree::new();
    t.insert(&vec![b"p".to_vec()], Metric::new(3, 4, 5));
    assert_eq!(t.serialize(), t.serialize());
}

#[test]
fn leaf_only_trees_round_trip() {
    let mut t = Tree::new();
    t.insert(&vec![b"a".to_vec(), b"x".to_vec()], Metric::new(2, 5, 7));
    t.insert(&vec![b"a".to_vec(), b"y".to_vec()], Metric::new(1, 1, 1));
    t.insert(&vec![b"b".to_vec()], Metric::new(4, 0, 9));
    let bytes = t.serialize();
    let u = Tree::deserialize(&bytes);
    assert_eq!(u.serialize(), bytes);
}

#[test]
fn union_is_commutative_on_the_artifact() {
    let m = Metric::new(1, 2, 3);
    let mut a = Tree::new();
    a.insert(&vec![b"a".to_vec()], m);
    a.insert(&vec![b"c".to_vec()], m);
    let mut b = Tree::new();
    b.insert(&vec![b"b".to_vec()], m);
    b.insert(&vec![b"a".to_vec()], m);
    let mut ab = Tree::deserialize(&a.serialize());
    ab.union(&b);
    let mut ba = b;
    ba.union(&a);
    assert_eq!(ab.serialize(), ba.serialize());
}

#[test]
fn union_is_associative_on_the_artifact() {
    let m = Metric::new(1, 2, 3);
    let mut a = Tree::new();
    a.insert(&vec![b"a".to_vec()], m);
    let mut b = Tree::new();
    b.insert(&vec![b"a".to_vec(), b"x".to_vec()], m);
    let mut c = Tree::new();
    c.insert(&vec![b"b".to_vec()], m);

    let mut left = Tree::deserialize(&a.serialize());
    left.union(&b);
    left.union(&c);

    let mut bc = Tree::deserialize(&b.serialize());
    bc.union(&c);
    let mut right = Tree::deserialize(&a.serialize());
    right.union(&bc);

    assert_eq!(left.serialize(), right.serialize());
}

#[test]
fn union_equals_concatenated_insertions() {
    let xs = vec![
        (vec![b"a".to_vec(), b"x".to_vec()], Metric::new(1, 2, 3)),
        (vec![b"b".to_vec()], Metric::new(2, 0, 1)),
    ];
    let ys = vec![
        (vec![b"a".to_vec(), b"x".to_vec()], Metric::new(5, 5, 5)),
        (vec![b"c".to_vec()], Metric::new(1, 1, 1)),
    ];
    let mut tx = Tree::new();
    for (p, m) in &xs {
        tx.insert(p, *m);
    }
    let mut ty = Tree::new();
    for (p, m) in &ys {
        ty.insert(p, *m);
    }
    tx.union(&ty);
    let mut txy = Tree::new();
    for (p, m) in xs.iter().chain(ys.iter()) {
        txy.insert(p, *m);
    }
    assert_eq!(tx.serialize(), txy.serialize());
}

#[test]
fn root_data_is_the_sum_of_all_insertions() {
    let mut t = Tree::new();
    t.insert(&vec![b"a".to_vec()], Metric::new(1, 10, 100));
    t.insert(&vec![b"b".to_vec(), b"c".to_vec()], Metric::new(2, 20, 200));
    t.insert(&Vec::new(), Metric::new(4, 40, 400));
    assert_eq!(t.root.data.requests, 7);
    assert_eq!(t.root.data.bytes_sent, 70);
    assert_eq!(t.root.data.bytes_received, 700);
    assert_eq!(t.size, 3);
}

#[test]
fn compressed_reduce_round_trips_through_flate2() {
    let text = line(ts(), "1.2.3.4", "GET /a/b.pkg HTTP/1.1", "200", "100", "50", "agent");
    let reduced = reduce_log(&text.into_bytes()).unwrap();
    assert_eq!(reduced.name, b"2024-02-07".to_vec());
    let mut decoder = flate2::read::GzDecoder::new(reduced.data.as_slice());
    let mut payload = Vec::new();
    decoder.read_to_end(&mut payload).unwrap();
    assert_eq!(payload, b"a/b.pkg 1 50 100\n".to_vec());
}

#[test]
fn merge_stage_unions_compressed_artifacts() {
    let a1 = b"a/x 1 0 0\n".to_vec();
    let a2 = b"a/x 2 5 6\na/y 1 0 0\n".to_vec();
    let mut gz_artifacts = Vec::new();
    for payload in [&a1, &a2] {
        let mut encoder =
            flate2::write::GzEncoder::new(Vec::new(), flate2::Compression::default());
        encoder.write_all(payload).unwrap();
        gz_artifacts.push(encoder.finish().unwrap());
    }
    let merged = merge_artifacts(&gz_artifacts).unwrap();
    let mut decoder = flate2::read::GzDecoder::new(merged.as_slice());
    let mut payload = Vec::new();
    decoder.read_to_end(&mut payload).unwrap();
    assert_eq!(payload, b"a/x 3 5 6\na/y 1 0 0\n".to_vec());

    assert_eq!(
        merge_artifact_texts(&vec![a1, a2]),
        b"a/x 3 5 6\na/y 1 0 0\n".to_vec()
    );
}

#[test]
fn merge_stage_rejects_malformed_gzip() {
    let bad = b"definitely not gzip".to_vec();
    assert_eq!(merge_artifacts(&vec![bad]).unwrap_err(), StageError::Io);
}
