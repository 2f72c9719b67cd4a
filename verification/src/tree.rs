//! The path-aggregation tree: a prefix tree keyed by path components.
//!
//! Every node carries the metric aggregated over its whole subtree. Children
//! are kept strictly sorted by component, which makes serialization's
//! lexicographic walk a plain in-order walk and keeps components unique.
use vstd::prelude::*;

use crate::bytes::{
    lex_lt, lemma_lex_trichotomy, lemma_lex_trans, lt_bytes, eq_bytes, copy_bytes, dec_str,
    push_dec, push_all, split_lines, split_path, tokenize, tokens_of, components_of, lines_of,
    split_on, lemma_nonempties_nonempty, valid_u64, dec_val, parse_u64,
};
use crate::metric::{
    Metric, madd, mzero, sat64, sat_add_u64, m_le, lemma_madd_le, lemma_madd_mono,
    lemma_m_le_trans, lemma_metric_add_comm, lemma_metric_add_assoc, lemma_metric_add_zero,
};

verus! {

/// One level of the path tree: a component, its aggregated metric,
/// and the children one level below.
pub struct Node {
    pub component: Vec<u8>,
    pub data: Metric,
    pub children: Vec<Node>,
}

/// Mathematical shape of a `Node`: the same tree over `Seq`.
#[verifier::ext_equal]
pub ghost struct NodeV {
    pub component: Seq<u8>,
    pub data: Metric,
    pub children: Seq<NodeV>,
}

impl Node {
    /// Abstraction of the whole subtree as a ghost tree.
    pub open spec fn model(self) -> NodeV
        decreases self, 1int,
    {
        NodeV {
            component: self.component@,
            data: self.data,
            children: models_of(self.children@),
        }
    }
}

/// Abstraction of a sequence of subtrees, element by element.
pub open spec fn models_of(cs: Seq<Node>) -> Seq<NodeV>
    decreases cs, 0int,
{
    if cs.len() == 0 {
        Seq::empty()
    } else {
        seq![cs[0].model()] + models_of(cs.drop_first())
    }
}

/// `models_of` is the pointwise abstraction.
pub proof fn lemma_models_of(cs: Seq<Node>)
    ensures
        models_of(cs).len() == cs.len(),
        forall|i: int| 0 <= i < cs.len() ==> models_of(cs)[i] == cs[i].model(),
    decreases cs.len(),
{
    if cs.len() > 0 {
        lemma_models_of(cs.drop_first());
    }
}

/// Children strictly sorted by component in lexicographic order.
pub open spec fn sorted_comps(cs: Seq<NodeV>) -> bool {
    forall|i: int, j: int|
        0 <= i < j < cs.len() ==> lex_lt(
            (#[trigger] cs[i]).component,
            (#[trigger] cs[j]).component,
        )
}

/// Tree well-formedness: at every node the children are strictly sorted by
/// component (hence unique) and carry non-empty components.
pub open spec fn wf_v(n: NodeV) -> bool
    decreases n,
{
    &&& sorted_comps(n.children)
    &&& forall|i: int|
        0 <= i < n.children.len() ==> (#[trigger] n.children[i]).component.len() > 0
    &&& forall|i: int| 0 <= i < n.children.len() ==> wf_v(#[trigger] n.children[i])
}

/// Where `c` sorts into the components of `cs`: the first index whose
/// component is not below `c`, or `cs.len()`.
pub open spec fn ins_idx(cs: Seq<NodeV>, c: Seq<u8>) -> int
    decreases cs.len(),
{
    if cs.len() == 0 {
        0
    } else if lex_lt(cs[0].component, c) {
        1 + ins_idx(cs.drop_first(), c)
    } else {
        0
    }
}

/// Bounds and characterization of `ins_idx`.
pub proof fn lemma_ins_idx(cs: Seq<NodeV>, c: Seq<u8>)
    ensures
        0 <= ins_idx(cs, c) <= cs.len(),
        forall|j: int| 0 <= j < ins_idx(cs, c) ==> lex_lt((#[trigger] cs[j]).component, c),
        ins_idx(cs, c) < cs.len() ==> !lex_lt(cs[ins_idx(cs, c)].component, c),
    decreases cs.len(),
{
    if cs.len() > 0 && lex_lt(cs[0].component, c) {
        lemma_ins_idx(cs.drop_first(), c);
        assert forall|j: int| 0 <= j < ins_idx(cs, c) implies lex_lt(
            (#[trigger] cs[j]).component,
            c,
        ) by {
            if j > 0 {
                assert(cs.drop_first()[j - 1] == cs[j]);
            }
        }
    }
}

/// The position found by a left-to-right scan is `ins_idx`.
pub proof fn lemma_ins_idx_is(cs: Seq<NodeV>, c: Seq<u8>, p: int)
    requires
        0 <= p <= cs.len(),
        forall|j: int| 0 <= j < p ==> lex_lt((#[trigger] cs[j]).component, c),
        p < cs.len() ==> !lex_lt(cs[p].component, c),
    ensures
        ins_idx(cs, c) == p,
    decreases cs.len(),
{
    if cs.len() > 0 && lex_lt(cs[0].component, c) {
        lemma_ins_idx_is(cs.drop_first(), c, p - 1);
    }
}

/// A fresh chain of nodes for the components of `comps`, every node carrying
/// the metric `m`.
pub open spec fn v_chain(comps: Seq<Seq<u8>>, m: Metric) -> NodeV
    recommends
        comps.len() > 0,
    decreases comps.len(),
{
    NodeV {
        component: comps[0],
        data: m,
        children: if comps.len() <= 1 {
            Seq::empty()
        } else {
            seq![v_chain(comps.drop_first(), m)]
        },
    }
}

/// Insertion of `m` at the path `comps` below `n`: every node on the path,
/// `n` included, absorbs `m`; missing nodes are created in sorted position.
pub open spec fn v_insert(n: NodeV, comps: Seq<Seq<u8>>, m: Metric) -> NodeV
    decreases comps.len(),
{
    let d = madd(n.data, m);
    if comps.len() == 0 {
        NodeV { data: d, ..n }
    } else {
        let i = ins_idx(n.children, comps[0]);
        if i < n.children.len() && n.children[i].component == comps[0] {
            NodeV {
                data: d,
                children: n.children.update(i, v_insert(n.children[i], comps.drop_first(), m)),
                ..n
            }
        } else {
            NodeV { data: d, children: n.children.insert(i, v_chain(comps, m)), ..n }
        }
    }
}

/// How many nodes an insertion of the path `comps` below `n` creates.
pub open spec fn v_new_count(n: NodeV, comps: Seq<Seq<u8>>) -> int
    decreases comps.len(),
{
    if comps.len() == 0 {
        0
    } else {
        let i = ins_idx(n.children, comps[0]);
        if i < n.children.len() && n.children[i].component == comps[0] {
            v_new_count(n.children[i], comps.drop_first())
        } else {
            comps.len() as int
        }
    }
}

/// A fresh chain is well-formed and starts with the first component.
pub proof fn lemma_v_chain_wf(comps: Seq<Seq<u8>>, m: Metric)
    requires
        comps.len() > 0,
        forall|k: int| 0 <= k < comps.len() ==> (#[trigger] comps[k]).len() > 0,
    ensures
        wf_v(v_chain(comps, m)),
        v_chain(comps, m).component == comps[0],
    decreases comps.len(),
{
    if comps.len() > 1 {
        lemma_v_chain_wf(comps.drop_first(), m);
    }
}

/// Insertion preserves well-formedness and the node's own component.
pub proof fn lemma_v_insert_wf(n: NodeV, comps: Seq<Seq<u8>>, m: Metric)
    requires
        wf_v(n),
        forall|k: int| 0 <= k < comps.len() ==> (#[trigger] comps[k]).len() > 0,
    ensures
        wf_v(v_insert(n, comps, m)),
        v_insert(n, comps, m).component == n.component,
    decreases comps.len(),
{
    let r = v_insert(n, comps, m);
    if comps.len() == 0 {
        assert(r.children == n.children);
    } else {
        let c = comps[0];
        let cs = n.children;
        let i = ins_idx(cs, c);
        lemma_ins_idx(cs, c);
        assert forall|k: int| 0 <= k < comps.drop_first().len() implies (#[trigger] comps
            .drop_first()[k]).len() > 0 by {
            assert(comps.drop_first()[k] == comps[k + 1]);
        }
        if i < cs.len() && cs[i].component == c {
            lemma_v_insert_wf(cs[i], comps.drop_first(), m);
            let cs2 = cs.update(i, v_insert(cs[i], comps.drop_first(), m));
            assert(cs2[i].component == cs[i].component);
            assert forall|a: int, b: int| 0 <= a < b < cs2.len() implies lex_lt(
                (#[trigger] cs2[a]).component,
                (#[trigger] cs2[b]).component,
            ) by {
                assert(cs2[a].component == cs[a].component);
                assert(cs2[b].component == cs[b].component);
            }
            assert(wf_v(r));
        } else {
            lemma_v_chain_wf(comps, m);
            let nd = v_chain(comps, m);
            let cs2 = cs.insert(i, nd);
            if i < cs.len() {
                lemma_lex_trichotomy(cs[i].component, c);
            }
            assert forall|a: int, b: int| 0 <= a < b < cs2.len() implies lex_lt(
                (#[trigger] cs2[a]).component,
                (#[trigger] cs2[b]).component,
            ) by {
                if a < i && b == i {
                    assert(cs2[a] == cs[a]);
                    assert(lex_lt(cs[a].component, c));
                } else if a == i && b > i {
                    assert(cs2[b] == cs[b - 1]);
                    assert(!lex_lt(cs[i].component, c) && cs[i].component != c);
                    assert(lex_lt(c, cs[i].component));
                    if b - 1 > i {
                        lemma_lex_trans(c, cs[i].component, cs[b - 1].component);
                    }
                } else if a < i && b > i {
                    assert(cs2[a] == cs[a]);
                    assert(cs2[b] == cs[b - 1]);
                    if b - 1 == a {
                        assert(lex_lt(cs[a].component, c));
                        assert(lex_lt(c, cs[a].component) || cs[a].component == c);
                        lemma_lex_trichotomy(cs[a].component, c);
                    }
                } else {
                    assert(a > i || b < i);
                    assert(cs2[a] == if a < i { cs[a] } else { cs[a - 1] });
                    assert(cs2[b] == if b < i { cs[b] } else { cs[b - 1] });
                }
            }
            assert forall|k: int| 0 <= k < cs2.len() implies (#[trigger] cs2[k]).component.len()
                > 0 by {
                if k < i {
                    assert(cs2[k] == cs[k]);
                } else if k > i {
                    assert(cs2[k] == cs[k - 1]);
                }
            }
            assert forall|k: int| 0 <= k < cs2.len() implies wf_v(#[trigger] cs2[k]) by {
                if k < i {
                    assert(cs2[k] == cs[k]);
                } else if k > i {
                    assert(cs2[k] == cs[k - 1]);
                }
            }
            assert(wf_v(r));
        }
    }
}

/// Builds the fresh chain of nodes for `comps[i..]`, each node carrying `m`.
fn make_chain(comps: &Vec<Vec<u8>>, i: usize, m: Metric) -> (r: Node)
    requires
        i < comps@.len(),
    ensures
        r.model() == v_chain(comps.deep_view().skip(i as int), m),
    decreases comps@.len() - i,
{
    let component = copy_bytes(&comps[i]);
    proof {
        assert(comps.deep_view().skip(i as int)[0] == comps@[i as int]@);
    }
    if i == comps.len() - 1 {
        let r = Node { component, data: m, children: Vec::new() };
        proof {
            assert(r.model() =~= v_chain(comps.deep_view().skip(i as int), m));
        }
        r
    } else {
        let child = make_chain(comps, i + 1, m);
        let r = Node { component, data: m, children: vec![child] };
        proof {
            assert(comps.deep_view().skip(i as int).drop_first() =~= comps.deep_view().skip(
                i as int + 1,
            ));
            assert(r.children@ == seq![child]);
            assert(r.children@.drop_first() =~= Seq::<Node>::empty());
            assert(models_of(r.children@) == seq![r.children@[0].model()] + models_of(
                r.children@.drop_first(),
            ));
            assert(models_of(r.children@) =~= seq![child.model()]);
            assert(r.model() =~= v_chain(comps.deep_view().skip(i as int), m));
        }
        r
    }
}

impl Node {
    /// Inserts `m` along `comps[i..]` below `self`; returns how many nodes
    /// were created.
    fn insert_rec(&mut self, comps: &Vec<Vec<u8>>, i: usize, m: Metric) -> (added: usize)
        requires
            i <= comps@.len(),
        ensures
            final(self).model() == v_insert(old(self).model(), comps.deep_view().skip(i as int), m),
            added == v_new_count(old(self).model(), comps.deep_view().skip(i as int)),
        decreases comps@.len() - i,
    {
        proof {
            lemma_models_of(old(self).children@);
        }
        self.data = self.data.saturating_add(m);
        if i == comps.len() {
            proof {
                assert(comps.deep_view().skip(i as int).len() == 0);
                assert(self.model() =~= v_insert(old(self).model(), comps.deep_view().skip(
                    i as int,
                ), m));
            }
            return 0;
        }
        let ghost rest = comps.deep_view().skip(i as int);
        proof {
            assert(rest[0] == comps@[i as int]@);
            assert(rest.drop_first() =~= comps.deep_view().skip(i as int + 1));
        }
        let n = self.children.len();
        let ghost snap = *self;
        let ghost csv = models_of(snap.children@);
        let mut p: usize = 0;
        loop
            invariant
                0 <= p <= n,
                n == snap.children@.len(),
                *self == snap,
                i < comps@.len(),
                forall|j: int|
                    0 <= j < p ==> lex_lt(
                        (#[trigger] snap.children@[j]).component@,
                        comps@[i as int]@,
                    ),
            ensures
                0 <= p <= n,
                *self == snap,
                forall|j: int|
                    0 <= j < p ==> lex_lt(
                        (#[trigger] snap.children@[j]).component@,
                        comps@[i as int]@,
                    ),
                p < n ==> !lex_lt(snap.children@[p as int].component@, comps@[i as int]@),
            decreases n - p,
        {
            if p == n {
                break;
            }
            if !lt_bytes(&self.children[p].component, &comps[i]) {
                break;
            }
            p += 1;
        }
        proof {
            lemma_models_of(snap.children@);
            assert forall|j: int| 0 <= j < p implies lex_lt(
                (#[trigger] csv[j]).component,
                rest[0],
            ) by {
                assert(csv[j] == snap.children@[j].model());
            }
            if p < n {
                assert(csv[p as int] == snap.children@[p as int].model());
            }
            lemma_ins_idx_is(csv, rest[0], p as int);
        }
        let found = if p < n {
            eq_bytes(&self.children[p].component, &comps[i])
        } else {
            false
        };
        if found {
            let mut child = self.children.remove(p);
            let added = child.insert_rec(comps, i + 1, m);
            self.children.insert(p, child);
            proof {
                assert(self.children@ =~= snap.children@.update(p as int, child));
                lemma_models_of(self.children@);
                assert(models_of(self.children@) =~= csv.update(
                    p as int,
                    v_insert(csv[p as int], rest.drop_first(), m),
                ));
                assert(self.model() =~= v_insert(old(self).model(), rest, m));
            }
            added
        } else {
            proof {
                if p < n {
                    assert(csv[p as int].component != rest[0]);
                }
            }
            let node = make_chain(comps, i, m);
            self.children.insert(p, node);
            let added = comps.len() - i;
            proof {
                lemma_models_of(self.children@);
                assert(models_of(self.children@) =~= csv.insert(p as int, v_chain(rest, m)));
                assert(self.model() =~= v_insert(old(self).model(), rest, m));
                assert(added == v_new_count(old(self).model(), rest));
            }
            added
        }
    }
}

/// The model of a freshly created root: empty component, zero metric,
/// no children.
pub open spec fn empty_root() -> NodeV {
    NodeV { component: Seq::empty(), data: mzero(), children: Seq::empty() }
}

/// The path-aggregation tree: a root node with the empty component, and the
/// number of non-root nodes this tree's own insertions created.
pub struct Tree {
    pub root: Node,
    pub size: u64,
}

impl Tree {
    /// Validity: the root is well-formed and carries the empty component.
    pub open spec fn inv(self) -> bool {
        &&& wf_v(self.root.model())
        &&& self.root.component@.len() == 0
    }

    /// The empty tree.
    pub fn new() -> (r: Self)
        ensures
            r.inv(),
            r.root.model() == empty_root(),
            r.size == 0,
    {
        let root = Node { component: Vec::new(), data: Metric::zero(), children: Vec::new() };
        let r = Tree { root, size: 0 };
        proof {
            assert(r.root.model() =~= empty_root());
        }
        r
    }

    /// Inserts `metric` at the path given by `components`: every node from
    /// the root down to the path's node absorbs `metric` once; missing nodes
    /// are created. A path with no components contributes to the root only.
    /// `size` grows by the number of created nodes, saturating.
    pub fn insert(&mut self, components: &Vec<Vec<u8>>, metric: Metric)
        requires
            old(self).inv(),
            forall|k: int|
                0 <= k < components.deep_view().len() ==> (#[trigger] components.deep_view()[
                    k
                ]).len() > 0,
        ensures
            final(self).inv(),
            final(self).root.model() == v_insert(
                old(self).root.model(),
                components.deep_view(),
                metric,
            ),
            final(self).root.data == madd(old(self).root.data, metric),
            final(self).size == sat64(
                old(self).size,
                v_new_count(old(self).root.model(), components.deep_view()) as u64,
            ),
    {
        let added = self.root.insert_rec(components, 0, metric);
        proof {
            assert(components.deep_view().skip(0) =~= components.deep_view());
            lemma_v_insert_wf(old(self).root.model(), components.deep_view(), metric);
        }
        self.size = sat_add_u64(self.size, added as u64);
    }
}

/// An insertion adds its metric to the root's aggregate exactly once:
/// the root's counters are the saturating sum of everything ever inserted.
pub proof fn lemma_insert_root_data(n: NodeV, comps: Seq<Seq<u8>>, m: Metric)
    ensures
        v_insert(n, comps, m).data == madd(n.data, m),
{
}

// ---------------------------------------------------------------------------
// Union
// ---------------------------------------------------------------------------

/// Merge of two trees: counters add componentwise; children of `b` are folded
/// into the children of `a` one by one, merging on equal components and
/// entering in sorted position otherwise.
pub open spec fn v_merge(a: NodeV, b: NodeV) -> NodeV
    decreases b, 1int, 0int,
{
    NodeV { data: madd(a.data, b.data), children: merge_kids(a.children, b.children, 0), ..a }
}

/// The children of `a` after absorbing `bcs[k..]`, one subtree at a time.
pub open spec fn merge_kids(acs: Seq<NodeV>, bcs: Seq<NodeV>, k: int) -> Seq<NodeV>
    decreases bcs, 0int, bcs.len() - k,
{
    if 0 <= k < bcs.len() {
        let bc = bcs[k];
        let i = ins_idx(acs, bc.component);
        let acs2 = if i < acs.len() && acs[i].component == bc.component {
            acs.update(i, v_merge(acs[i], bc))
        } else {
            acs.insert(i, bc)
        };
        merge_kids(acs2, bcs, k + 1)
    } else {
        acs
    }
}

/// Sortedness, non-empty components and node well-formedness survive an
/// update that keeps the component.
proof fn lemma_sorted_update(cs: Seq<NodeV>, i: int, nd: NodeV)
    requires
        sorted_comps(cs),
        forall|j: int| 0 <= j < cs.len() ==> (#[trigger] cs[j]).component.len() > 0,
        forall|j: int| 0 <= j < cs.len() ==> wf_v(#[trigger] cs[j]),
        0 <= i < cs.len(),
        nd.component == cs[i].component,
        wf_v(nd),
    ensures
        sorted_comps(cs.update(i, nd)),
        forall|j: int|
            0 <= j < cs.update(i, nd).len() ==> (#[trigger] cs.update(i, nd)[j]).component.len()
                > 0,
        forall|j: int| 0 <= j < cs.update(i, nd).len() ==> wf_v(#[trigger] cs.update(i, nd)[j]),
{
    let cs2 = cs.update(i, nd);
    assert forall|a: int, b: int| 0 <= a < b < cs2.len() implies lex_lt(
        (#[trigger] cs2[a]).component,
        (#[trigger] cs2[b]).component,
    ) by {
        assert(cs2[a].component == cs[a].component);
        assert(cs2[b].component == cs[b].component);
    }
}

/// Sortedness, non-empty components and node well-formedness survive an
/// insertion strictly between its neighbours.
proof fn lemma_sorted_insert(cs: Seq<NodeV>, i: int, nd: NodeV)
    requires
        sorted_comps(cs),
        forall|j: int| 0 <= j < cs.len() ==> (#[trigger] cs[j]).component.len() > 0,
        forall|j: int| 0 <= j < cs.len() ==> wf_v(#[trigger] cs[j]),
        0 <= i <= cs.len(),
        forall|j: int| 0 <= j < i ==> lex_lt((#[trigger] cs[j]).component, nd.component),
        forall|j: int| i <= j < cs.len() ==> lex_lt(nd.component, (#[trigger] cs[j]).component),
        wf_v(nd),
        nd.component.len() > 0,
    ensures
        sorted_comps(cs.insert(i, nd)),
        forall|j: int|
            0 <= j < cs.insert(i, nd).len() ==> (#[trigger] cs.insert(i, nd)[j]).component.len()
                > 0,
        forall|j: int| 0 <= j < cs.insert(i, nd).len() ==> wf_v(#[trigger] cs.insert(i, nd)[j]),
{
    let cs2 = cs.insert(i, nd);
    assert forall|a: int, b: int| 0 <= a < b < cs2.len() implies lex_lt(
        (#[trigger] cs2[a]).component,
        (#[trigger] cs2[b]).component,
    ) by {
        if a < i {
            assert(cs2[a] == cs[a]);
        }
        if b < i {
            assert(cs2[b] == cs[b]);
        }
        if a > i {
            assert(cs2[a] == cs[a - 1]);
        }
        if b > i {
            assert(cs2[b] == cs[b - 1]);
        }
        if a < i && b > i {
            lemma_lex_trans(cs[a].component, nd.component, cs[b - 1].component);
        }
    }
    assert forall|j: int| 0 <= j < cs2.len() implies (#[trigger] cs2[j]).component.len() > 0 by {
        if j < i {
            assert(cs2[j] == cs[j]);
        } else if j > i {
            assert(cs2[j] == cs[j - 1]);
        }
    }
    assert forall|j: int| 0 <= j < cs2.len() implies wf_v(#[trigger] cs2[j]) by {
        if j < i {
            assert(cs2[j] == cs[j]);
        } else if j > i {
            assert(cs2[j] == cs[j - 1]);
        }
    }
}

/// Folding well-formed subtrees into well-formed, sorted children keeps them
/// well-formed and sorted.
proof fn lemma_merge_kids_wf(acs: Seq<NodeV>, bcs: Seq<NodeV>, k: int)
    requires
        sorted_comps(acs),
        forall|j: int| 0 <= j < acs.len() ==> (#[trigger] acs[j]).component.len() > 0,
        forall|j: int| 0 <= j < acs.len() ==> wf_v(#[trigger] acs[j]),
        forall|j: int| 0 <= j < bcs.len() ==> (#[trigger] bcs[j]).component.len() > 0,
        forall|j: int| 0 <= j < bcs.len() ==> wf_v(#[trigger] bcs[j]),
    ensures
        sorted_comps(merge_kids(acs, bcs, k)),
        forall|j: int|
            0 <= j < merge_kids(acs, bcs, k).len() ==> (#[trigger] merge_kids(acs, bcs, k)[
                j
            ]).component.len() > 0,
        forall|j: int|
            0 <= j < merge_kids(acs, bcs, k).len() ==> wf_v(#[trigger] merge_kids(acs, bcs, k)[j]),
    decreases bcs, 0int, bcs.len() - k,
{
    if 0 <= k < bcs.len() {
        let bc = bcs[k];
        let i = ins_idx(acs, bc.component);
        lemma_ins_idx(acs, bc.component);
        if i < acs.len() && acs[i].component == bc.component {
            lemma_v_merge_wf(acs[i], bc);
            lemma_sorted_update(acs, i, v_merge(acs[i], bc));
            lemma_merge_kids_wf(acs.update(i, v_merge(acs[i], bc)), bcs, k + 1);
        } else {
            if i < acs.len() {
                lemma_lex_trichotomy(acs[i].component, bc.component);
            }
            assert forall|j: int| i <= j < acs.len() implies lex_lt(
                bc.component,
                (#[trigger] acs[j]).component,
            ) by {
                if j > i {
                    lemma_lex_trans(bc.component, acs[i].component, acs[j].component);
                }
            }
            lemma_sorted_insert(acs, i, bc);
            lemma_merge_kids_wf(acs.insert(i, bc), bcs, k + 1);
        }
    }
}

/// Merging two well-formed trees yields a well-formed tree with the first
/// tree's component.
pub proof fn lemma_v_merge_wf(a: NodeV, b: NodeV)
    requires
        wf_v(a),
        wf_v(b),
    ensures
        wf_v(v_merge(a, b)),
        v_merge(a, b).component == a.component,
    decreases b, 1int, 0int,
{
    lemma_merge_kids_wf(a.children, b.children, 0);
}

/// A structural copy of a node and its whole subtree.
fn clone_node(n: &Node) -> (r: Node)
    ensures
        r.model() == n.model(),
    decreases *n,
{
    let mut kids: Vec<Node> = Vec::new();
    let len: usize = n.children.len();
    let mut k: usize = 0;
    while k < len
        invariant
            0 <= k <= len,
            len == n.children@.len(),
            kids@.len() == k,
            forall|j: int| 0 <= j < k ==> (#[trigger] kids@[j]).model() == n.children@[j].model(),
        decreases len - k,
    {
        let c = clone_node(&n.children[k]);
        kids.push(c);
        k += 1;
    }
    let r = Node { component: copy_bytes(&n.component), data: n.data, children: kids };
    proof {
        lemma_models_of(r.children@);
        lemma_models_of(n.children@);
        assert(models_of(r.children@) =~= models_of(n.children@));
        assert(r.model() =~= n.model());
    }
    r
}

impl Node {
    /// Merges `other` into `self`: counters add componentwise, children with
    /// equal components merge recursively, and the rest enter as copies in
    /// sorted position.
    pub fn merge(&mut self, other: &Node)
        ensures
            final(self).model() == v_merge(old(self).model(), other.model()),
        decreases *other,
    {
        self.data = self.data.saturating_add(other.data);
        let olen: usize = other.children.len();
        let ghost obcs = models_of(other.children@);
        proof {
            lemma_models_of(other.children@);
        }
        let mut k: usize = 0;
        while k < olen
            invariant
                0 <= k <= olen,
                olen == other.children@.len(),
                obcs == models_of(other.children@),
                obcs.len() == olen,
                self.component@ == old(self).component@,
                self.data == madd(old(self).data, other.data),
                merge_kids(models_of(self.children@), obcs, k as int) == merge_kids(
                    models_of(old(self).children@),
                    obcs,
                    0,
                ),
            decreases olen - k,
        {
            let ghost snap = *self;
            let ghost csv = models_of(snap.children@);
            let ghost c = obcs[k as int].component;
            proof {
                lemma_models_of(snap.children@);
                lemma_models_of(other.children@);
                assert(obcs[k as int] == other.children@[k as int].model());
            }
            let n: usize = self.children.len();
            let mut p: usize = 0;
            loop
                invariant
                    0 <= p <= n,
                    n == snap.children@.len(),
                    *self == snap,
                    k < olen,
                    olen == other.children@.len(),
                    c == other.children@[k as int].model().component,
                    c == other.children@[k as int].component@,
                    forall|j: int|
                        0 <= j < p ==> lex_lt((#[trigger] snap.children@[j]).component@, c),
                ensures
                    0 <= p <= n,
                    *self == snap,
                    forall|j: int|
                        0 <= j < p ==> lex_lt((#[trigger] snap.children@[j]).component@, c),
                    p < n ==> !lex_lt(snap.children@[p as int].component@, c),
                decreases n - p,
            {
                if p == n {
                    break;
                }
                if !lt_bytes(&self.children[p].component, &other.children[k].component) {
                    break;
                }
                p += 1;
            }
            proof {
                lemma_models_of(snap.children@);
                assert forall|j: int| 0 <= j < p implies lex_lt(
                    (#[trigger] csv[j]).component,
                    c,
                ) by {
                    assert(csv[j] == snap.children@[j].model());
                }
                if p < n {
                    assert(csv[p as int] == snap.children@[p as int].model());
                }
                lemma_ins_idx_is(csv, c, p as int);
            }
            let found = if p < n {
                eq_bytes(&self.children[p].component, &other.children[k].component)
            } else {
                false
            };
            if found {
                let mut child = self.children.remove(p);
                child.merge(&other.children[k]);
                self.children.insert(p, child);
                proof {
                    assert(self.children@ =~= snap.children@.update(p as int, child));
                    lemma_models_of(self.children@);
                    assert(models_of(self.children@) =~= csv.update(
                        p as int,
                        v_merge(csv[p as int], obcs[k as int]),
                    ));
                }
            } else {
                proof {
                    if p < n {
                        assert(csv[p as int].component != c);
                    }
                }
                let copy = clone_node(&other.children[k]);
                self.children.insert(p, copy);
                proof {
                    lemma_models_of(self.children@);
                    assert(models_of(self.children@) =~= csv.insert(p as int, obcs[k as int]));
                }
            }
            k += 1;
        }
        proof {
            assert(self.model() =~= v_merge(old(self).model(), other.model()));
        }
    }
}

impl Tree {
    /// Merges `other` into `self` destructively. `size` is unchanged: it
    /// keeps counting the nodes this tree's own insertions created.
    pub fn union(&mut self, other: &Tree)
        requires
            old(self).inv(),
            other.inv(),
        ensures
            final(self).inv(),
            final(self).root.model() == v_merge(old(self).root.model(), other.root.model()),
            final(self).root.data == madd(old(self).root.data, other.root.data),
            final(self).size == old(self).size,
    {
        self.root.merge(&other.root);
        proof {
            lemma_v_merge_wf(old(self).root.model(), other.root.model());
        }
    }
}


// ---------------------------------------------------------------------------
// Serialization
// ---------------------------------------------------------------------------

/// One artifact record: `path requests bytes_received bytes_sent` and a
/// newline.
pub open spec fn line_of(prefix: Seq<u8>, m: Metric) -> Seq<u8> {
    prefix + seq![32u8] + dec_str(m.requests as nat) + seq![32u8] + dec_str(
        m.bytes_received as nat,
    ) + seq![32u8] + dec_str(m.bytes_sent as nat) + seq![10u8]
}

/// The path of a child: components joined by `/`, with no leading slash.
pub open spec fn child_prefix(prefix: Seq<u8>, c: Seq<u8>) -> Seq<u8> {
    if prefix.len() == 0 {
        c
    } else {
        prefix + seq![47u8] + c
    }
}

/// Serialized form of the subtree at `n`, whose path from the root is
/// `prefix`: a record for every leaf, in depth-first child order.
pub open spec fn v_ser(n: NodeV, prefix: Seq<u8>) -> Seq<u8>
    decreases n, 1int, 0int,
{
    if n.children.len() == 0 {
        line_of(prefix, n.data)
    } else {
        ser_kids(n.children, prefix, 0)
    }
}

/// Serialized forms of the subtrees `cs[k..]`, concatenated.
pub open spec fn ser_kids(cs: Seq<NodeV>, prefix: Seq<u8>, k: int) -> Seq<u8>
    decreases cs, 0int, cs.len() - k,
{
    if 0 <= k < cs.len() {
        v_ser(cs[k], child_prefix(prefix, cs[k].component)) + ser_kids(cs, prefix, k + 1)
    } else {
        Seq::empty()
    }
}

/// Serialized forms of the subtrees `cs[..k]`, concatenated.
pub open spec fn ser_kids_upto(cs: Seq<NodeV>, prefix: Seq<u8>, k: int) -> Seq<u8>
    decreases cs, 0int, k,
{
    if 0 < k <= cs.len() {
        ser_kids_upto(cs, prefix, k - 1) + v_ser(cs[k - 1], child_prefix(prefix, cs[k - 1].component))
    } else {
        Seq::empty()
    }
}

/// The two readings of a split walk agree.
proof fn lemma_ser_kids_split(cs: Seq<NodeV>, prefix: Seq<u8>, k: int)
    requires
        0 <= k <= cs.len(),
    ensures
        ser_kids(cs, prefix, 0) == ser_kids_upto(cs, prefix, k) + ser_kids(cs, prefix, k),
    decreases k,
{
    if k == 0 {
        assert(ser_kids_upto(cs, prefix, 0) + ser_kids(cs, prefix, 0) =~= ser_kids(cs, prefix, 0));
    } else {
        lemma_ser_kids_split(cs, prefix, k - 1);
        let v = v_ser(cs[k - 1], child_prefix(prefix, cs[k - 1].component));
        assert(ser_kids(cs, prefix, k - 1) == v + ser_kids(cs, prefix, k));
        assert((ser_kids_upto(cs, prefix, k - 1) + v) + ser_kids(cs, prefix, k)
            =~= ser_kids_upto(cs, prefix, k - 1) + (v + ser_kids(cs, prefix, k)));
    }
}

/// Writes the records of the subtree at `n` onto `out`.
fn ser_node(n: &Node, prefix: &Vec<u8>, out: &mut Vec<u8>)
    ensures
        final(out)@ == old(out)@ + v_ser(n.model(), prefix@),
    decreases *n,
{
    let len: usize = n.children.len();
    if len == 0 {
        push_all(out, prefix);
        out.push(32);
        push_dec(n.data.requests, out);
        out.push(32);
        push_dec(n.data.bytes_received, out);
        out.push(32);
        push_dec(n.data.bytes_sent, out);
        out.push(10);
        proof {
            assert(out@ =~= old(out)@ + v_ser(n.model(), prefix@));
        }
    } else {
        let ghost csv = models_of(n.children@);
        proof {
            lemma_models_of(n.children@);
        }
        let mut k: usize = 0;
        while k < len
            invariant
                0 <= k <= len,
                len == n.children@.len(),
                csv == models_of(n.children@),
                csv.len() == len,
                out@ == old(out)@ + ser_kids_upto(csv, prefix@, k as int),
            decreases len - k,
        {
            proof {
                lemma_models_of(n.children@);
            }
            let mut cp = copy_bytes(prefix);
            if cp.len() > 0 {
                cp.push(47);
            }
            push_all(&mut cp, &n.children[k].component);
            proof {
                assert(cp@ =~= child_prefix(prefix@, csv[k as int].component));
            }
            ser_node(&n.children[k], &cp, out);
            proof {
                assert(out@ =~= old(out)@ + ser_kids_upto(csv, prefix@, k + 1));
            }
            k += 1;
        }
        proof {
            lemma_ser_kids_split(csv, prefix@, len as int);
            assert(ser_kids_upto(csv, prefix@, len as int) =~= ser_kids(csv, prefix@, 0));
            assert(out@ =~= old(out)@ + v_ser(n.model(), prefix@));
        }
    }
}

impl Tree {
    /// Serialized artifact of the tree: one record per leaf, ordered by the
    /// depth-first walk over the sorted children. The output is a pure
    /// function of the tree, so repeated serialization is byte-identical.
    pub fn serialize(&self) -> (out: Vec<u8>)
        ensures
            out@ == v_ser(self.root.model(), Seq::empty()),
    {
        let mut out: Vec<u8> = Vec::new();
        let prefix: Vec<u8> = Vec::new();
        ser_node(&self.root, &prefix, &mut out);
        proof {
            assert(out@ =~= v_ser(self.root.model(), Seq::<u8>::empty()));
        }
        out
    }
}

// ---------------------------------------------------------------------------
// Deserialization
// ---------------------------------------------------------------------------

/// The path components and metric an artifact record carries: at least four
/// whitespace-separated tokens, the second to fourth decimal `u64` values for
/// requests, bytes received and bytes sent; extra tokens are ignored.
pub open spec fn line_rec(l: Seq<u8>) -> Option<(Seq<Seq<u8>>, Metric)> {
    let toks = tokens_of(l);
    if toks.len() < 4 {
        None
    } else if !valid_u64(toks[1]) || !valid_u64(toks[2]) || !valid_u64(toks[3]) {
        None
    } else {
        Some(
            (
                components_of(toks[0]),
                Metric {
                    requests: dec_val(toks[1]) as u64,
                    bytes_received: dec_val(toks[2]) as u64,
                    bytes_sent: dec_val(toks[3]) as u64,
                },
            ),
        )
    }
}

/// Folding the records of `ls[k..]` into a tree, model and size together.
pub open spec fn v_deser(ls: Seq<Seq<u8>>, k: int, t: (NodeV, u64)) -> (NodeV, u64)
    decreases ls.len() - k,
{
    if 0 <= k < ls.len() {
        let t2 = match line_rec(ls[k]) {
            Some(r) => (v_insert(t.0, r.0, r.1), sat64(t.1, v_new_count(t.0, r.0) as u64)),
            None => t,
        };
        v_deser(ls, k + 1, t2)
    } else {
        t
    }
}

/// Parses one artifact record, exactly as `line_rec` reads it.
pub fn parse_record(l: &Vec<u8>) -> (r: Option<(Vec<Vec<u8>>, Metric)>)
    ensures
        match r {
            Some(pr) => line_rec(l@) == Some((pr.0.deep_view(), pr.1)),
            None => line_rec(l@) is None,
        },
{
    let toks = tokenize(l);
    proof {
        assert(toks.deep_view() == tokens_of(l@));
        assert(toks.deep_view().len() == toks@.len());
    }
    if toks.len() < 4 {
        return None;
    }
    proof {
        assert(toks.deep_view()[0] == toks@[0]@);
        assert(toks.deep_view()[1] == toks@[1]@);
        assert(toks.deep_view()[2] == toks@[2]@);
        assert(toks.deep_view()[3] == toks@[3]@);
    }
    let requests = match parse_u64(toks[1].as_slice()) {
        Some(v) => v,
        None => {
            return None;
        },
    };
    let bytes_received = match parse_u64(toks[2].as_slice()) {
        Some(v) => v,
        None => {
            return None;
        },
    };
    let bytes_sent = match parse_u64(toks[3].as_slice()) {
        Some(v) => v,
        None => {
            return None;
        },
    };
    let comps = split_path(&toks[0]);
    Some((comps, Metric { requests, bytes_sent, bytes_received }))
}

impl Tree {
    /// Rebuilds a tree from an artifact text: one record per line, records
    /// that do not parse silently dropped.
    pub fn deserialize(input: &[u8]) -> (t: Tree)
        ensures
            t.inv(),
            (t.root.model(), t.size) == v_deser(lines_of(input@), 0, (empty_root(), 0u64)),
    {
        let ls = split_lines(input);
        let n: usize = ls.len();
        let ghost lsv = lines_of(input@);
        proof {
            assert(ls.deep_view().len() == ls@.len());
        }
        let mut t = Tree::new();
        let mut k: usize = 0;
        while k < n
            invariant
                0 <= k <= n,
                n == ls@.len(),
                ls.deep_view() == lsv,
                lsv.len() == n,
                t.inv(),
                v_deser(lsv, k as int, (t.root.model(), t.size)) == v_deser(
                    lsv,
                    0,
                    (empty_root(), 0u64),
                ),
            decreases n - k,
        {
            proof {
                assert(ls.deep_view()[k as int] == ls@[k as int]@);
            }
            match parse_record(&ls[k]) {
                Some(pr) => {
                    proof {
                        lemma_nonempties_nonempty(split_on(tokens_of(lsv[k as int])[0], 47), 0);
                        assert(pr.0.deep_view() == components_of(tokens_of(lsv[k as int])[0]));
                    }
                    t.insert(&pr.0, pr.1);
                },
                None => {},
            }
            k += 1;
        }
        t
    }
}


// ---------------------------------------------------------------------------
// Subtree conservation
// ---------------------------------------------------------------------------

/// Saturating sum of the aggregates of the subtrees `cs[k..]`.
pub open spec fn kids_sum(cs: Seq<NodeV>, k: int) -> Metric
    decreases cs.len() - k,
{
    if 0 <= k < cs.len() {
        madd(cs[k].data, kids_sum(cs, k + 1))
    } else {
        mzero()
    }
}

/// Subtree conservation: every node's aggregate dominates the saturating sum
/// of its direct children's aggregates; the difference is what was inserted
/// exactly at that node (zero at purely intermediate nodes).
pub open spec fn conserving(n: NodeV) -> bool
    decreases n,
{
    &&& m_le(kids_sum(n.children, 0), n.data)
    &&& forall|i: int| 0 <= i < n.children.len() ==> conserving(#[trigger] n.children[i])
}

/// Beyond an insertion point the child sums are merely shifted.
proof fn lemma_kids_sum_insert_suffix(cs: Seq<NodeV>, i: int, x: NodeV, k: int)
    requires
        0 <= i <= cs.len(),
        i < k <= cs.len() + 1,
    ensures
        kids_sum(cs.insert(i, x), k) == kids_sum(cs, k - 1),
    decreases cs.len() + 1 - k,
{
    if k <= cs.len() {
        lemma_kids_sum_insert_suffix(cs, i, x, k + 1);
        assert(cs.insert(i, x)[k] == cs[k - 1]);
    }
}

/// Beyond an updated position the child sums agree.
proof fn lemma_kids_sum_update_suffix(cs: Seq<NodeV>, i: int, x: NodeV, k: int)
    requires
        0 <= i < cs.len(),
        i < k <= cs.len(),
    ensures
        kids_sum(cs.update(i, x), k) == kids_sum(cs, k),
    decreases cs.len() - k,
{
    if k < cs.len() {
        lemma_kids_sum_update_suffix(cs, i, x, k + 1);
        assert(cs.update(i, x)[k] == cs[k]);
    }
}

/// Updating one child whose aggregate grew by at most `m` grows the sum by at
/// most `m`.
proof fn lemma_kids_sum_update_le(cs: Seq<NodeV>, i: int, x: NodeV, m: Metric, k: int)
    requires
        0 <= k <= i < cs.len(),
        m_le(x.data, madd(cs[i].data, m)),
    ensures
        m_le(kids_sum(cs.update(i, x), k), madd(kids_sum(cs, k), m)),
    decreases i - k,
{
    let cs2 = cs.update(i, x);
    if k == i {
        lemma_kids_sum_update_suffix(cs, i, x, k + 1);
        let rest = kids_sum(cs, i + 1);
        lemma_madd_mono(x.data, madd(cs[i].data, m), rest);
        lemma_metric_add_comm(cs[i].data, m);
        lemma_metric_add_assoc(m, cs[i].data, rest);
        lemma_metric_add_assoc(cs[i].data, rest, m);
        lemma_metric_add_comm(m, madd(cs[i].data, rest));
        assert(madd(madd(cs[i].data, m), rest) == madd(madd(cs[i].data, rest), m));
    } else {
        lemma_kids_sum_update_le(cs, i, x, m, k + 1);
        assert(cs2[k] == cs[k]);
        lemma_madd_mono(kids_sum(cs2, k + 1), madd(kids_sum(cs, k + 1), m), cs[k].data);
        lemma_metric_add_assoc(cs[k].data, kids_sum(cs, k + 1), m);
    }
}

/// Inserting one child grows the sum by at most its own aggregate.
proof fn lemma_kids_sum_insert_le(cs: Seq<NodeV>, i: int, x: NodeV, k: int)
    requires
        0 <= k <= i <= cs.len(),
    ensures
        m_le(kids_sum(cs.insert(i, x), k), madd(kids_sum(cs, k), x.data)),
    decreases i - k,
{
    let cs2 = cs.insert(i, x);
    if k == i {
        lemma_kids_sum_insert_suffix(cs, i, x, k + 1);
        assert(cs2[k] == x);
        lemma_metric_add_comm(x.data, kids_sum(cs, k));
    } else {
        lemma_kids_sum_insert_le(cs, i, x, k + 1);
        assert(cs2[k] == cs[k]);
        lemma_madd_mono(kids_sum(cs2, k + 1), madd(kids_sum(cs, k + 1), x.data), cs[k].data);
        lemma_metric_add_assoc(cs[k].data, kids_sum(cs, k + 1), x.data);
    }
}

/// A fresh chain conserves: every node holds exactly its child's aggregate.
proof fn lemma_v_chain_conserving(comps: Seq<Seq<u8>>, m: Metric)
    requires
        comps.len() > 0,
    ensures
        conserving(v_chain(comps, m)),
        v_chain(comps, m).data == m,
    decreases comps.len(),
{
    let r = v_chain(comps, m);
    if comps.len() > 1 {
        lemma_v_chain_conserving(comps.drop_first(), m);
        let child = v_chain(comps.drop_first(), m);
        assert(r.children =~= seq![child]);
        assert(r.children.len() == 1 && r.children[0] == child);
        assert(kids_sum(r.children, 1) == mzero());
        assert(kids_sum(r.children, 0) == madd(child.data, mzero()));
        lemma_metric_add_zero(child.data);
    }
}

/// Insertion preserves subtree conservation: the inserted metric is absorbed
/// once along its path, so every node keeps dominating its children's sum.
pub proof fn lemma_v_insert_conserving(n: NodeV, comps: Seq<Seq<u8>>, m: Metric)
    requires
        conserving(n),
    ensures
        conserving(v_insert(n, comps, m)),
    decreases comps.len(),
{
    let r = v_insert(n, comps, m);
    lemma_madd_le(n.data, m);
    if comps.len() == 0 {
        assert(r.children == n.children);
        lemma_m_le_trans(kids_sum(n.children, 0), n.data, madd(n.data, m));
    } else {
        let c = comps[0];
        let cs = n.children;
        let i = ins_idx(cs, c);
        lemma_ins_idx(cs, c);
        if i < cs.len() && cs[i].component == c {
            lemma_v_insert_conserving(cs[i], comps.drop_first(), m);
            let x = v_insert(cs[i], comps.drop_first(), m);
            lemma_kids_sum_update_le(cs, i, x, m, 0);
            lemma_madd_mono(kids_sum(cs, 0), n.data, m);
            lemma_m_le_trans(
                kids_sum(cs.update(i, x), 0),
                madd(kids_sum(cs, 0), m),
                madd(n.data, m),
            );
            let cs2 = cs.update(i, x);
            assert forall|j: int| 0 <= j < cs2.len() implies conserving(#[trigger] cs2[j]) by {
                if j != i {
                    assert(cs2[j] == cs[j]);
                }
            }
        } else {
            lemma_v_chain_conserving(comps, m);
            let x = v_chain(comps, m);
            lemma_kids_sum_insert_le(cs, i, x, 0);
            lemma_madd_mono(kids_sum(cs, 0), n.data, m);
            lemma_m_le_trans(
                kids_sum(cs.insert(i, x), 0),
                madd(kids_sum(cs, 0), m),
                madd(n.data, m),
            );
            let cs2 = cs.insert(i, x);
            assert forall|j: int| 0 <= j < cs2.len() implies conserving(#[trigger] cs2[j]) by {
                if j < i {
                    assert(cs2[j] == cs[j]);
                } else if j > i {
                    assert(cs2[j] == cs[j - 1]);
                }
            }
        }
    }
}

/// Folding conserving subtrees into conserving children keeps every node's
/// aggregate dominating its children's sum, and the total growth is bounded
/// by the absorbed subtrees' aggregates.
proof fn lemma_merge_kids_conserving(acs: Seq<NodeV>, bcs: Seq<NodeV>, k: int)
    requires
        forall|j: int| 0 <= j < acs.len() ==> conserving(#[trigger] acs[j]),
        forall|j: int| 0 <= j < bcs.len() ==> conserving(#[trigger] bcs[j]),
    ensures
        m_le(
            kids_sum(merge_kids(acs, bcs, k), 0),
            madd(kids_sum(acs, 0), kids_sum(bcs, k)),
        ),
        forall|j: int|
            0 <= j < merge_kids(acs, bcs, k).len() ==> conserving(
                #[trigger] merge_kids(acs, bcs, k)[j],
            ),
    decreases bcs, 0int, bcs.len() - k,
{
    if 0 <= k < bcs.len() {
        let bc = bcs[k];
        let i = ins_idx(acs, bc.component);
        lemma_ins_idx(acs, bc.component);
        let acs2 = if i < acs.len() && acs[i].component == bc.component {
            acs.update(i, v_merge(acs[i], bc))
        } else {
            acs.insert(i, bc)
        };
        if i < acs.len() && acs[i].component == bc.component {
            lemma_v_merge_conserving(acs[i], bc);
            let x = v_merge(acs[i], bc);
            lemma_kids_sum_update_le(acs, i, x, bc.data, 0);
            assert forall|j: int| 0 <= j < acs2.len() implies conserving(#[trigger] acs2[j]) by {
                if j != i {
                    assert(acs2[j] == acs[j]);
                }
            }
        } else {
            lemma_kids_sum_insert_le(acs, i, bc, 0);
            assert forall|j: int| 0 <= j < acs2.len() implies conserving(#[trigger] acs2[j]) by {
                if j < i {
                    assert(acs2[j] == acs[j]);
                } else if j > i {
                    assert(acs2[j] == acs[j - 1]);
                }
            }
        }
        lemma_merge_kids_conserving(acs2, bcs, k + 1);
        // kids_sum(result, 0) <= madd(kids_sum(acs2, 0), kids_sum(bcs, k + 1))
        //                     <= madd(madd(kids_sum(acs, 0), bc.data), kids_sum(bcs, k + 1))
        //                      = madd(kids_sum(acs, 0), kids_sum(bcs, k)).
        lemma_madd_mono(
            kids_sum(acs2, 0),
            madd(kids_sum(acs, 0), bc.data),
            kids_sum(bcs, k + 1),
        );
        lemma_metric_add_assoc(kids_sum(acs, 0), bc.data, kids_sum(bcs, k + 1));
        lemma_m_le_trans(
            kids_sum(merge_kids(acs2, bcs, k + 1), 0),
            madd(kids_sum(acs2, 0), kids_sum(bcs, k + 1)),
            madd(kids_sum(acs, 0), kids_sum(bcs, k)),
        );
    } else {
        lemma_metric_add_zero(kids_sum(acs, 0));
    }
}

/// Union preserves subtree conservation.
pub proof fn lemma_v_merge_conserving(a: NodeV, b: NodeV)
    requires
        conserving(a),
        conserving(b),
    ensures
        conserving(v_merge(a, b)),
    decreases b, 1int, 0int,
{
    lemma_merge_kids_conserving(a.children, b.children, 0);
    lemma_madd_mono(kids_sum(a.children, 0), a.data, kids_sum(b.children, 0));
    lemma_madd_mono(kids_sum(b.children, 0), b.data, a.data);
    lemma_m_le_trans(
        madd(kids_sum(a.children, 0), kids_sum(b.children, 0)),
        madd(a.data, kids_sum(b.children, 0)),
        madd(a.data, b.data),
    );
    lemma_m_le_trans(
        kids_sum(merge_kids(a.children, b.children, 0), 0),
        madd(kids_sum(a.children, 0), kids_sum(b.children, 0)),
        madd(a.data, b.data),
    );
}

/// A freshly created root conserves trivially.
pub proof fn lemma_empty_root_conserving()
    ensures
        conserving(empty_root()),
{
}


/// Absorbing sorted subtrees that all sort above the accumulated children
/// appends them in order.
proof fn lemma_merge_kids_append(acs: Seq<NodeV>, bcs: Seq<NodeV>, k: int)
    requires
        0 <= k <= bcs.len(),
        sorted_comps(acs),
        sorted_comps(bcs),
        forall|a: int, j: int|
            0 <= a < acs.len() && k <= j < bcs.len() ==> lex_lt(
                (#[trigger] acs[a]).component,
                (#[trigger] bcs[j]).component,
            ),
    ensures
        merge_kids(acs, bcs, k) == acs + bcs.skip(k),
    decreases bcs.len() - k,
{
    if k < bcs.len() {
        let bc = bcs[k];
        lemma_ins_idx_is(acs, bc.component, acs.len() as int);
        let acs2 = acs.insert(acs.len() as int, bc);
        assert(acs2 =~= acs.push(bc));
        assert forall|a: int, b: int| 0 <= a < b < acs2.len() implies lex_lt(
            (#[trigger] acs2[a]).component,
            (#[trigger] acs2[b]).component,
        ) by {
            assert(acs2[a] == acs[a]);
            if b < acs.len() {
                assert(acs2[b] == acs[b]);
            } else {
                assert(acs2[b] == bc);
            }
        }
        assert forall|a: int, j: int|
            0 <= a < acs2.len() && k + 1 <= j < bcs.len() implies lex_lt(
            (#[trigger] acs2[a]).component,
            (#[trigger] bcs[j]).component,
        ) by {
            if a < acs.len() {
                assert(acs2[a] == acs[a]);
            } else {
                assert(acs2[a] == bc);
            }
        }
        lemma_merge_kids_append(acs2, bcs, k + 1);
        assert(acs.push(bc) + bcs.skip(k + 1) =~= acs + bcs.skip(k));
    } else {
        assert(acs + bcs.skip(k) =~= acs);
    }
}

/// Union with the empty tree: merging an empty tree in changes nothing, and
/// an empty tree absorbs a well-formed tree's counters and children whole.
pub proof fn lemma_merge_empty(n: NodeV)
    requires
        wf_v(n),
    ensures
        v_merge(n, empty_root()) == n,
        v_merge(empty_root(), n) == (NodeV {
            component: Seq::<u8>::empty(),
            data: n.data,
            children: n.children,
        }),
{
    lemma_metric_add_zero(n.data);
    assert(merge_kids(n.children, empty_root().children, 0) == n.children);
    assert(v_merge(n, empty_root()) =~~= n);
    lemma_merge_kids_append(Seq::empty(), n.children, 0);
    assert(Seq::<NodeV>::empty() + n.children.skip(0) =~= n.children);
    assert(v_merge(empty_root(), n) =~~= (NodeV {
        component: Seq::<u8>::empty(),
        data: n.data,
        children: n.children,
    }));
}

// ---------------------------------------------------------------------------
// Insertion commutativity
// ---------------------------------------------------------------------------

/// A bare node with component `c` and nothing below it.
pub open spec fn leaf_of(c: Seq<u8>) -> NodeV {
    NodeV { component: c, data: mzero(), children: Seq::empty() }
}

/// Exchanging the order of two saturating additions.
proof fn lemma_madd_swap(d: Metric, x: Metric, y: Metric)
    ensures
        madd(madd(d, x), y) == madd(madd(d, y), x),
{
    lemma_metric_add_assoc(d, x, y);
    lemma_metric_add_comm(x, y);
    lemma_metric_add_assoc(d, y, x);
}

/// A fresh chain is an insertion into a bare node.
proof fn lemma_chain_as_insert(comps: Seq<Seq<u8>>, m: Metric)
    requires
        comps.len() > 0,
    ensures
        v_chain(comps, m) == v_insert(leaf_of(comps[0]), comps.drop_first(), m),
{
    lemma_metric_add_zero(m);
    let l = leaf_of(comps[0]);
    let rest = comps.drop_first();
    if rest.len() == 0 {
        assert(v_chain(comps, m) =~~= v_insert(l, rest, m));
    } else {
        assert(ins_idx(l.children, rest[0]) == 0);
        assert(v_insert(l, rest, m).children =~= seq![v_chain(rest, m)]);
        assert(v_chain(comps, m) =~~= v_insert(l, rest, m));
    }
}

/// Insertion positions depend only on the children's components.
proof fn lemma_ins_idx_transfer(cs: Seq<NodeV>, cs2: Seq<NodeV>, c: Seq<u8>)
    requires
        cs.len() == cs2.len(),
        forall|j: int| 0 <= j < cs.len() ==> (#[trigger] cs2[j]).component == cs[j].component,
    ensures
        ins_idx(cs2, c) == ins_idx(cs, c),
{
    let i = ins_idx(cs, c);
    lemma_ins_idx(cs, c);
    assert forall|j: int| 0 <= j < i implies lex_lt((#[trigger] cs2[j]).component, c) by {
        assert(cs2[j].component == cs[j].component);
    }
    lemma_ins_idx_is(cs2, c, i);
}

/// Insertions along paths with different leading components act on disjoint
/// children and commute.
proof fn lemma_v_insert_comm_diff(n: NodeV, p: Seq<Seq<u8>>, mp: Metric, q: Seq<Seq<u8>>, mq: Metric)
    requires
        wf_v(n),
        p.len() > 0,
        q.len() > 0,
        lex_lt(p[0], q[0]),
    ensures
        v_insert(v_insert(n, p, mp), q, mq) == v_insert(v_insert(n, q, mq), p, mp),
{
    let cs = n.children;
    let cp = p[0];
    let cq = q[0];
    lemma_lex_trichotomy(cp, cq);
    let ip = ins_idx(cs, cp);
    let iq = ins_idx(cs, cq);
    lemma_ins_idx(cs, cp);
    lemma_ins_idx(cs, cq);
    let found_p = ip < cs.len() && cs[ip].component == cp;
    let found_q = iq < cs.len() && cs[iq].component == cq;
    // cp < cq forces ip <= iq, and ip < iq when cp is present.
    if iq < ip {
        assert(lex_lt(cs[iq].component, cp));
        lemma_lex_trans(cs[iq].component, cp, cq);
        assert(false);
    }
    let xp = v_insert(cs[ip], p.drop_first(), mp);
    let xq = v_insert(cs[iq], q.drop_first(), mq);
    let chp = v_chain(p, mp);
    let chq = v_chain(q, mq);
    lemma_madd_swap(n.data, mp, mq);
    if found_p && found_q {
        if ip == iq {
            assert(lex_lt(cp, cq) && cs[ip].component == cp && cs[ip].component == cq);
            assert(false);
        }
        let l1 = cs.update(ip, xp);
        lemma_ins_idx_transfer(cs, l1, cq);
        assert(l1[iq] == cs[iq]);
        let r1 = cs.update(iq, xq);
        lemma_ins_idx_transfer(cs, r1, cp);
        assert(r1[ip] == cs[ip]);
        assert(l1.update(iq, xq) =~= r1.update(ip, xp));
        assert(v_insert(v_insert(n, p, mp), q, mq) =~~= v_insert(v_insert(n, q, mq), p, mp));
    } else if found_p && !found_q {
        // cp sits at ip, strictly below the insertion point of cq.
        if ip == iq {
            assert(!lex_lt(cs[iq].component, cq));
            assert(false);
        }
        assert(ip < iq);
        let l1 = cs.update(ip, xp);
        lemma_ins_idx_transfer(cs, l1, cq);
        assert(iq < cs.len() ==> l1[iq as int].component != cq) by {
            if iq < cs.len() {
                assert(l1[iq as int] == cs[iq as int]);
            }
        }
        let r1 = cs.insert(iq, chq);
        assert forall|j: int| 0 <= j < ip implies lex_lt((#[trigger] r1[j]).component, cp) by {
            assert(r1[j] == cs[j]);
        }
        assert(r1[ip] == cs[ip]);
        lemma_ins_idx_is(r1, cp, ip);
        assert(l1.insert(iq, chq) =~= r1.update(ip, xp));
        assert(v_insert(v_insert(n, p, mp), q, mq) =~~= v_insert(v_insert(n, q, mq), p, mp));
    } else if !found_p && found_q {
        // Insert cp at ip, find cq one position later.
        let l1 = cs.insert(ip, chp);
        assert(chp.component == cp);
        assert forall|j: int| 0 <= j < iq + 1 implies lex_lt((#[trigger] l1[j]).component, cq) by {
            if j < ip {
                assert(l1[j] == cs[j]);
                lemma_lex_trans(cs[j].component, cp, cq);
            } else if j == ip {
                assert(l1[j].component == cp);
            } else {
                assert(l1[j] == cs[j - 1]);
                if j - 1 < iq {
                } else {
                    assert(j - 1 == iq);
                    assert(false);
                }
            }
        }
        assert(iq + 1 < l1.len() ==> l1[iq + 1] == cs[iq]);
        lemma_ins_idx_is(l1, cq, iq + 1);
        assert(l1[iq + 1] == cs[iq]);
        let r1 = cs.update(iq, xq);
        lemma_ins_idx_transfer(cs, r1, cp);
        assert(ip < iq ==> r1[ip] == cs[ip]);
        if ip == iq {
            assert(r1[ip].component == cs[ip].component);
            assert(cs[ip].component == cq);
            assert(cq != cp);
        }
        assert(l1.update(iq + 1, xq) =~= r1.insert(ip, chp));
        assert(v_insert(v_insert(n, p, mp), q, mq) =~~= v_insert(v_insert(n, q, mq), p, mp));
    } else {
        // Both missing: two inserts at ip <= iq.
        let l1 = cs.insert(ip, chp);
        assert(chp.component == cp);
        assert(chq.component == cq);
        assert forall|j: int| 0 <= j < iq + 1 implies lex_lt((#[trigger] l1[j]).component, cq) by {
            if j < ip {
                assert(l1[j] == cs[j]);
                lemma_lex_trans(cs[j].component, cp, cq);
            } else if j == ip {
                assert(l1[j].component == cp);
            } else {
                assert(l1[j] == cs[j - 1]);
            }
        }
        assert(iq + 1 < l1.len() ==> l1[iq + 1] == cs[iq]);
        lemma_ins_idx_is(l1, cq, iq + 1);
        let r1 = cs.insert(iq, chq);
        assert forall|j: int| 0 <= j < ip implies lex_lt((#[trigger] r1[j]).component, cp) by {
            assert(r1[j] == cs[j]);
        }
        if ip < r1.len() {
            if ip < iq {
                assert(r1[ip] == cs[ip]);
            } else {
                assert(r1[ip] == chq);
                assert(!lex_lt(cq, cp));
            }
        }
        lemma_ins_idx_is(r1, cp, ip);
        if ip < r1.len() {
            assert(r1[ip].component != cp);
        }
        assert(l1.insert(iq + 1, chq) =~= r1.insert(ip, chp));
        assert(v_insert(v_insert(n, p, mp), q, mq) =~~= v_insert(v_insert(n, q, mq), p, mp));
    }
}

/// Insertion commutativity: for any two path insertions the resulting tree is
/// the same in either order, so a tree is independent of the order of its
/// insertions.
pub proof fn lemma_v_insert_comm(n: NodeV, p: Seq<Seq<u8>>, mp: Metric, q: Seq<Seq<u8>>, mq: Metric)
    requires
        wf_v(n),
    ensures
        v_insert(v_insert(n, p, mp), q, mq) == v_insert(v_insert(n, q, mq), p, mp),
    decreases p.len() + q.len(),
{
    let cs = n.children;
    lemma_madd_swap(n.data, mp, mq);
    if p.len() == 0 || q.len() == 0 {
        if p.len() == 0 && q.len() == 0 {
            assert(v_insert(v_insert(n, p, mp), q, mq) =~~= v_insert(v_insert(n, q, mq), p, mp));
        } else if p.len() == 0 {
            let a = v_insert(n, p, mp);
            assert(a.children == cs);
            lemma_ins_idx(cs, q[0]);
            assert(v_insert(v_insert(n, p, mp), q, mq) =~~= v_insert(v_insert(n, q, mq), p, mp));
        } else {
            lemma_ins_idx(cs, p[0]);
            assert(v_insert(v_insert(n, p, mp), q, mq) =~~= v_insert(v_insert(n, q, mq), p, mp));
        }
    } else if p[0] == q[0] {
        let c = p[0];
        let i = ins_idx(cs, c);
        lemma_ins_idx(cs, c);
        if i < cs.len() && cs[i].component == c {
            lemma_v_insert_comm(cs[i], p.drop_first(), mp, q.drop_first(), mq);
            let xp = v_insert(cs[i], p.drop_first(), mp);
            let xq = v_insert(cs[i], q.drop_first(), mq);
            let l1 = cs.update(i, xp);
            lemma_ins_idx_transfer(cs, l1, c);
            assert(l1[i].component == c);
            let r1 = cs.update(i, xq);
            lemma_ins_idx_transfer(cs, r1, c);
            assert(r1[i].component == c);
            assert(l1.update(i, v_insert(xp, q.drop_first(), mq)) =~= r1.update(
                i,
                v_insert(xq, p.drop_first(), mp),
            ));
            assert(v_insert(v_insert(n, p, mp), q, mq) =~~= v_insert(v_insert(n, q, mq), p, mp));
        } else {
            let chp = v_chain(p, mp);
            let chq = v_chain(q, mq);
            lemma_chain_as_insert(p, mp);
            lemma_chain_as_insert(q, mq);
            assert(wf_v(leaf_of(c)));
            lemma_v_insert_comm(leaf_of(c), p.drop_first(), mp, q.drop_first(), mq);
            assert(v_insert(chp, q.drop_first(), mq) == v_insert(chq, p.drop_first(), mp));
            let common = v_insert(chp, q.drop_first(), mq);
            let l1 = cs.insert(i, chp);
            assert(chp.component == c);
            assert forall|j: int| 0 <= j < i implies lex_lt((#[trigger] l1[j]).component, c) by {
                assert(l1[j] == cs[j]);
            }
            lemma_lex_trichotomy(c, c);
            lemma_ins_idx_is(l1, c, i);
            assert(l1[i] == chp);
            let r1 = cs.insert(i, chq);
            assert(chq.component == c);
            assert forall|j: int| 0 <= j < i implies lex_lt((#[trigger] r1[j]).component, c) by {
                assert(r1[j] == cs[j]);
            }
            lemma_ins_idx_is(r1, c, i);
            assert(r1[i] == chq);
            assert(l1.update(i, common) =~= r1.update(i, common));
            assert(v_insert(v_insert(n, p, mp), q, mq) =~~= v_insert(v_insert(n, q, mq), p, mp));
        }
    } else {
        lemma_lex_trichotomy(p[0], q[0]);
        if lex_lt(p[0], q[0]) {
            lemma_v_insert_comm_diff(n, p, mp, q, mq);
        } else {
            lemma_v_insert_comm_diff(n, q, mq, p, mp);
        }
    }
}

} // verus!
