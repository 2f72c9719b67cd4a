//! The two pipeline stages. REDUCE turns one raw log text into one compressed
//! artifact named after the log's first date; MERGE unions many artifacts
//! into one. Reading and writing files stays with the caller: the stages take
//! and return plain byte vectors.
use vstd::prelude::*;

use std::io::Read;
use std::io::Write;

use crate::bytes::{components_of, lines_of, split_lines, split_path, lemma_nonempties_nonempty};
use crate::metric::Metric;
use crate::parse::{spec_parse_line, parse_line, LogDate};
use crate::tree::{Tree, NodeV, empty_root, v_insert, v_merge, v_ser, v_deser};
use crate::bytes::split_on;

verus! {

// ---------------------------------------------------------------------------
// Compression (trusted wrappers over flate2)
// ---------------------------------------------------------------------------

/// What gzip decompression yields on the given bytes: the decompressed
/// payload, or nothing when the bytes are not a well-formed gzip stream.
/// A function of the bytes alone.
pub uninterp spec fn ungzip_of(b: Seq<u8>) -> Option<Seq<u8>>;

/// Relies on flate2's `read::GzDecoder` over an in-memory slice:
/// decompression is a function of the compressed bytes alone.
#[verifier::external_body]
fn gunzip(data: &Vec<u8>) -> (r: Option<Vec<u8>>)
    ensures
        match r {
            Some(v) => ungzip_of(data@) == Some(v@),
            None => ungzip_of(data@) == None::<Seq<u8>>,
        },
{
    let mut decoder = flate2::read::GzDecoder::new(data.as_slice());
    let mut out = Vec::new();
    match decoder.read_to_end(&mut out) {
        Ok(_) => Some(out),
        Err(_) => None,
    }
}

/// Relies on flate2's `write::GzEncoder`: flate2 documents that decoding the
/// stream it encodes gives back the bytes that were written.
#[verifier::external_body]
fn gzip(data: &Vec<u8>) -> (r: Option<Vec<u8>>)
    ensures
        r matches Some(v) ==> ungzip_of(v@) == Some(data@),
{
    let mut encoder = flate2::write::GzEncoder::new(
        Vec::new(),
        flate2::Compression::default(),
    );
    if encoder.write_all(data.as_slice()).is_err() {
        return None;
    }
    match encoder.finish() {
        Ok(v) => Some(v),
        Err(_) => None,
    }
}

// ---------------------------------------------------------------------------
// Artifact names
// ---------------------------------------------------------------------------

/// Two-digit zero-padded decimal.
pub open spec fn pad2(v: int) -> Seq<u8> {
    seq![(48 + ((v / 10) % 10)) as u8, (48 + (v % 10)) as u8]
}

/// Four-digit zero-padded decimal.
pub open spec fn pad4(v: int) -> Seq<u8> {
    seq![
        (48 + ((v / 1000) % 10)) as u8,
        (48 + ((v / 100) % 10)) as u8,
        (48 + ((v / 10) % 10)) as u8,
        (48 + (v % 10)) as u8,
    ]
}

/// The artifact name of a date: `YYYY-MM-DD`.
pub open spec fn date_name(d: (int, int, int)) -> Seq<u8> {
    pad4(d.0) + seq![45u8] + pad2(d.1) + seq![45u8] + pad2(d.2)
}

/// Formats a date as `YYYY-MM-DD`.
fn format_date(d: LogDate) -> (r: Vec<u8>)
    requires
        0 <= d.year <= 9999,
    ensures
        r@ == date_name((d.year as int, d.month as int, d.day as int)),
{
    let mut out: Vec<u8> = Vec::new();
    let y: u32 = d.year as u32;
    out.push(48 + ((y / 1000) % 10) as u8);
    out.push(48 + ((y / 100) % 10) as u8);
    out.push(48 + ((y / 10) % 10) as u8);
    out.push(48 + (y % 10) as u8);
    out.push(45);
    out.push(48 + (d.month / 10) % 10);
    out.push(48 + d.month % 10);
    out.push(45);
    out.push(48 + (d.day / 10) % 10);
    out.push(48 + d.day % 10);
    proof {
        assert(out@ =~= date_name((d.year as int, d.month as int, d.day as int)));
    }
    out
}

// ---------------------------------------------------------------------------
// Reduce
// ---------------------------------------------------------------------------

/// Why a stage failed.
#[derive(Clone, Copy, Debug, PartialEq, Eq, Structural)]
pub enum StageError {
    /// The log's first line could not be parsed, so no date can name the
    /// artifact.
    FirstLineParse,
    /// A source or sink failed: an artifact is not well-formed gzip, or
    /// compression could not run.
    Io,
}

/// The request method the reduce stage keeps.
pub open spec fn get_method() -> Seq<u8> {
    seq![71u8, 69u8, 84u8]
}

/// Decides whether `m` is exactly `GET`.
fn is_get(m: &Vec<u8>) -> (r: bool)
    ensures
        r == (m@ == get_method()),
{
    if m.len() == 3 && m[0] == 71 && m[1] == 69 && m[2] == 84 {
        proof {
            assert(m@ =~= get_method());
        }
        true
    } else {
        proof {
            assert(m@ != get_method());
        }
        false
    }
}

/// The tree grown from the surviving entries of `ls[k..]`: lines that parse,
/// carry the `GET` method and a status in the 2xx range insert one request
/// with their byte counters at their path's components; all others are
/// dropped.
pub open spec fn v_reduce(ls: Seq<Seq<u8>>, k: int, t: NodeV) -> NodeV
    decreases ls.len() - k,
{
    if 0 <= k < ls.len() {
        let t2 = match spec_parse_line(ls[k]) {
            Ok(e) => if 200 <= e.status < 300 && e.method == get_method() {
                v_insert(
                    t,
                    components_of(e.path),
                    Metric {
                        requests: 1,
                        bytes_sent: e.bytes_sent,
                        bytes_received: e.bytes_received,
                    },
                )
            } else {
                t
            },
            Err(_) => t,
        };
        v_reduce(ls, k + 1, t2)
    } else {
        t
    }
}

/// What reducing a log text yields: the artifact name (the first line's local
/// date as `YYYY-MM-DD`) and the uncompressed artifact payload; or nothing
/// when there is no first line, it does not parse, or its year falls outside
/// 0..=9999.
pub open spec fn spec_reduce(s: Seq<u8>) -> Option<(Seq<u8>, Seq<u8>)> {
    let ls = lines_of(s);
    if ls.len() == 0 {
        None
    } else {
        match spec_parse_line(ls[0]) {
            Ok(e) => if 0 <= e.date.0 <= 9999 {
                Some((date_name(e.date), v_ser(v_reduce(ls, 0, empty_root()), Seq::empty())))
            } else {
                None
            },
            Err(_) => None,
        }
    }
}

/// An artifact reduced from one log text: the date that names it and its
/// payload.
#[derive(Debug)]
pub struct Reduced {
    pub name: Vec<u8>,
    pub data: Vec<u8>,
}

/// Reduces one raw log text to its uncompressed artifact, exactly as
/// `spec_reduce` reads it. Malformed lines are dropped; a missing or
/// malformed first line fails the stage.
pub fn reduce_log_text(content: &Vec<u8>) -> (r: Result<Reduced, StageError>)
    ensures
        match r {
            Ok(a) => spec_reduce(content@) == Some((a.name@, a.data@)),
            Err(k) => spec_reduce(content@) is None && k == StageError::FirstLineParse,
        },
{
    let ls = split_lines(content.as_slice());
    let n: usize = ls.len();
    let ghost lsv = lines_of(content@);
    proof {
        assert(ls.deep_view().len() == ls@.len());
    }
    if n == 0 {
        return Err(StageError::FirstLineParse);
    }
    proof {
        assert(ls.deep_view()[0] == ls@[0]@);
    }
    let date = match parse_line(ls[0].as_slice()) {
        Ok(e) => e.date,
        Err(_) => {
            return Err(StageError::FirstLineParse);
        },
    };
    if date.year < 0 || date.year > 9999 {
        return Err(StageError::FirstLineParse);
    }
    let name = format_date(date);
    let mut t = Tree::new();
    let mut k: usize = 0;
    while k < n
        invariant
            0 <= k <= n,
            n == ls@.len(),
            ls.deep_view() == lsv,
            lsv.len() == n,
            t.inv(),
            v_reduce(lsv, k as int, t.root.model()) == v_reduce(lsv, 0, empty_root()),
        decreases n - k,
    {
        proof {
            assert(ls.deep_view()[k as int] == ls@[k as int]@);
        }
        match parse_line(ls[k].as_slice()) {
            Ok(e) => {
                let keep = e.status >= 200 && e.status < 300 && is_get(&e.method);
                if keep {
                    let comps = split_path(&e.path);
                    proof {
                        lemma_nonempties_nonempty(split_on(e.path@, 47), 0);
                    }
                    t.insert(&comps, Metric::new(1, e.bytes_sent, e.bytes_received));
                }
            },
            Err(_) => {},
        }
        k += 1;
    }
    let data = t.serialize();
    Ok(Reduced { name, data })
}

/// Reduces one raw log text and compresses the artifact: the name and the
/// payload are exactly those of `reduce_log_text`, and the compressed bytes
/// decompress back to the payload.
pub fn reduce_log(content: &Vec<u8>) -> (r: Result<Reduced, StageError>)
    ensures
        match r {
            Ok(a) => spec_reduce(content@) matches Some(x) && a.name@ == x.0 && ungzip_of(
                a.data@,
            ) == Some(x.1),
            Err(k) => {
                &&& (spec_reduce(content@) is None ==> k == StageError::FirstLineParse)
                &&& (spec_reduce(content@) is Some ==> k == StageError::Io)
            },
        },
{
    let plain = match reduce_log_text(content) {
        Ok(a) => a,
        Err(k) => {
            return Err(k);
        },
    };
    match gzip(&plain.data) {
        Some(z) => Ok(Reduced { name: plain.name, data: z }),
        None => Err(StageError::Io),
    }
}

// ---------------------------------------------------------------------------
// Merge
// ---------------------------------------------------------------------------

/// The accumulator after union with the trees deserialized from the
/// uncompressed artifacts `arts[k..]`, in order.
pub open spec fn v_merge_all(arts: Seq<Seq<u8>>, k: int, t: NodeV) -> NodeV
    decreases arts.len() - k,
{
    if 0 <= k < arts.len() {
        v_merge_all(arts, k + 1, v_merge(t, v_deser(lines_of(arts[k]), 0, (empty_root(), 0u64)).0))
    } else {
        t
    }
}

/// What merging uncompressed artifacts yields: every artifact deserialized
/// and unioned into one tree, starting from empty, serialized again.
pub open spec fn spec_merge(arts: Seq<Seq<u8>>) -> Seq<u8> {
    v_ser(v_merge_all(arts, 0, empty_root()), Seq::empty())
}

/// Merges many uncompressed artifact payloads into one, exactly as
/// `spec_merge` reads them.
pub fn merge_artifact_texts(arts: &Vec<Vec<u8>>) -> (out: Vec<u8>)
    ensures
        out@ == spec_merge(arts.deep_view()),
{
    let n: usize = arts.len();
    let ghost av = arts.deep_view();
    proof {
        assert(av.len() == arts@.len());
    }
    let mut t = Tree::new();
    let mut k: usize = 0;
    while k < n
        invariant
            0 <= k <= n,
            n == arts@.len(),
            arts.deep_view() == av,
            av.len() == n,
            t.inv(),
            v_merge_all(av, k as int, t.root.model()) == v_merge_all(av, 0, empty_root()),
        decreases n - k,
    {
        proof {
            assert(arts.deep_view()[k as int] == arts@[k as int]@);
        }
        let u = Tree::deserialize(arts[k].as_slice());
        t.union(&u);
        k += 1;
    }
    t.serialize()
}

/// The decompressed payloads of the artifacts, if every one is well-formed
/// gzip.
pub open spec fn gunzip_all(gs: Seq<Seq<u8>>) -> Option<Seq<Seq<u8>>>
    decreases gs.len(),
{
    if gs.len() == 0 {
        Some(Seq::empty())
    } else {
        match (ungzip_of(gs[0]), gunzip_all(gs.drop_first())) {
            (Some(h), Some(rest)) => Some(seq![h] + rest),
            _ => None,
        }
    }
}

/// `gunzip_all` succeeds exactly when every artifact decompresses, and then
/// holds the payloads in order.
pub proof fn lemma_gunzip_all(gs: Seq<Seq<u8>>)
    ensures
        (gunzip_all(gs) is Some) <==> (forall|j: int|
            0 <= j < gs.len() ==> ungzip_of(#[trigger] gs[j]) is Some),
        gunzip_all(gs) matches Some(ps) ==> ps.len() == gs.len() && forall|j: int|
            0 <= j < gs.len() ==> ungzip_of(#[trigger] gs[j]) == Some(ps[j]),
    decreases gs.len(),
{
    if gs.len() > 0 {
        lemma_gunzip_all(gs.drop_first());
        if exists|j: int| 0 <= j < gs.len() && !(ungzip_of(#[trigger] gs[j]) is Some) {
            let j = choose|j: int| 0 <= j < gs.len() && !(ungzip_of(#[trigger] gs[j]) is Some);
            if j > 0 {
                assert(gs.drop_first()[j - 1] == gs[j]);
            }
        }
        if gunzip_all(gs) is Some {
            let ps = gunzip_all(gs)->Some_0;
            assert forall|j: int| 0 <= j < gs.len() implies ungzip_of(#[trigger] gs[j]) == Some(
                ps[j],
            ) by {
                if j > 0 {
                    assert(gs.drop_first()[j - 1] == gs[j]);
                }
            }
        }
    }
}

/// Decompresses many artifacts, merges them, and compresses the result. An
/// artifact that is not well-formed gzip fails the whole stage, as does a
/// failing sink.
pub fn merge_artifacts(gz: &Vec<Vec<u8>>) -> (r: Result<Vec<u8>, StageError>)
    ensures
        match r {
            Ok(out) => gunzip_all(gz.deep_view()) matches Some(ps) && ungzip_of(out@) == Some(
                spec_merge(ps),
            ),
            Err(k) => k == StageError::Io,
        },
{
    let n: usize = gz.len();
    let ghost gv = gz.deep_view();
    proof {
        assert(gv.len() == gz@.len());
    }
    let mut plains: Vec<Vec<u8>> = Vec::new();
    let mut k: usize = 0;
    while k < n
        invariant
            0 <= k <= n,
            n == gz@.len(),
            gz.deep_view() == gv,
            gv.len() == n,
            plains@.len() == k,
            plains.deep_view().len() == k,
            forall|j: int|
                0 <= j < k ==> ungzip_of(#[trigger] gv[j]) == Some(plains.deep_view()[j]),
        decreases n - k,
    {
        proof {
            assert(gz.deep_view()[k as int] == gz@[k as int]@);
        }
        match gunzip(&gz[k]) {
            Some(v) => {
                let ghost prev = plains.deep_view();
                plains.push(v);
                proof {
                    assert(plains.deep_view() =~~= prev.push(v@));
                }
            },
            None => {
                return Err(StageError::Io);
            },
        }
        k += 1;
    }
    let merged = merge_artifact_texts(&plains);
    proof {
        lemma_gunzip_all(gv);
        assert(gunzip_all(gv) is Some);
        let ps = gunzip_all(gv)->Some_0;
        assert forall|j: int| 0 <= j < ps.len() implies ps[j] == plains.deep_view()[j] by {
            assert(ungzip_of(gv[j]) == Some(ps[j]));
            assert(ungzip_of(gv[j]) == Some(plains.deep_view()[j]));
        }
        assert(ps =~= plains.deep_view());
        assert(gunzip_all(gv) == Some(plains.deep_view()));
    }
    match gzip(&merged) {
        Some(z) => Ok(z),
        None => Err(StageError::Io),
    }
}


/// Filter correctness: a line that is malformed, is not a `GET`, or has a
/// status outside the 2xx range contributes nothing to the reduce tree.
pub proof fn lemma_filtered_line_contributes_nothing(ls: Seq<Seq<u8>>, k: int, t: NodeV)
    requires
        0 <= k < ls.len(),
        match spec_parse_line(ls[k]) {
            Ok(e) => !(200 <= e.status < 300 && e.method == get_method()),
            Err(_) => true,
        },
    ensures
        v_reduce(ls, k, t) == v_reduce(ls, k + 1, t),
{
}

} // verus!
