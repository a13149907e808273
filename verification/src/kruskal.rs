//! Kruskal's minimum spanning forest over an undirected graph: collect
//! each stored edge once (`src < dst`), sort ascending by weight, and
//! accept an edge exactly when its endpoints lie in different disjoint
//! sets, merging them — so the accepted pairs never repeat and every pair
//! is a real edge of the graph.

use vstd::prelude::*;

use crate::dsets::DisjointSets;
use crate::id_map::IdMap;
use crate::storage::lemma_live_below_props;
use crate::storage::AdjMatrix;
use crate::storage::EdgeType;
use crate::storage::Weight;
use crate::traversal::adjacent_in;
use crate::traversal::connected_in;
use crate::traversal::lemma_connected_refl;
use crate::traversal::lemma_connected_step;

verus! {

/// Ascending-by-weight order over collected edges.
pub open spec fn sorted_by_weight(s: Seq<(usize, usize, u64)>) -> bool {
    forall|p: int, q: int| 0 <= p < q < s.len() ==> (#[trigger] s[p]).2 <= (#[trigger] s[q]).2
}

/// Some virtual ids map to the two real ids and carry equal set labels:
/// the union-find already joins the pair.
pub open spec fn joined(labels: Seq<usize>, reals: Seq<usize>, u: usize, v: usize) -> bool {
    exists|a: int, b: int|
        0 <= a < labels.len() && 0 <= b < labels.len() && a < reals.len() && b < reals.len() && (
        #[trigger] reals[a]) == u && (#[trigger] reals[b]) == v && labels[a] == labels[b]
}

/// The finite weight stored for an accepted pair.
pub open spec fn pair_weight(g: AdjMatrix, p: (usize, usize)) -> u64 {
    g.edge_at(p.0, p.1)->Finite_0
}

/// Two ids joined directly by an accepted pair, in either orientation.
pub open spec fn pair_adjacent(pairs: Seq<(usize, usize)>, x: usize, y: usize) -> bool {
    pairs.contains((x, y)) || pairs.contains((y, x))
}

/// A walk whose consecutive entries are joined by accepted pairs.
pub open spec fn is_pair_path(
    pairs: Seq<(usize, usize)>,
    p: Seq<usize>,
    x: usize,
    y: usize,
) -> bool {
    &&& p.len() >= 1
    &&& p[0] == x
    &&& p.last() == y
    &&& forall|i: int| 0 <= i < p.len() - 1 ==> pair_adjacent(pairs, #[trigger] p[i], p[i + 1])
}

/// Some walk of accepted pairs joins `x` to `y`.
pub open spec fn linked(pairs: Seq<(usize, usize)>, x: usize, y: usize) -> bool {
    exists|p: Seq<usize>| is_pair_path(pairs, p, x, y)
}

/// The accepted pairs whose stored weight is at most `w`.
pub open spec fn pairs_up_to(g: AdjMatrix, pairs: Seq<(usize, usize)>, w: u64) -> Seq<
    (usize, usize),
> {
    pairs.filter(|p: (usize, usize)| pair_weight(g, p) <= w)
}

pub proof fn lemma_linked_refl(pairs: Seq<(usize, usize)>, x: usize)
    ensures
        linked(pairs, x, x),
{
    let p = seq![x];
    assert(is_pair_path(pairs, p, x, x));
}

pub proof fn lemma_linked_step(pairs: Seq<(usize, usize)>, x: usize, y: usize, z: usize)
    requires
        linked(pairs, x, y),
        pair_adjacent(pairs, y, z),
    ensures
        linked(pairs, x, z),
{
    let p = choose|p: Seq<usize>| is_pair_path(pairs, p, x, y);
    let q = p.push(z);
    assert forall|i: int| 0 <= i < q.len() - 1 implies pair_adjacent(
        pairs,
        #[trigger] q[i],
        q[i + 1],
    ) by {
        if i < p.len() - 1 {
            assert(pair_adjacent(pairs, p[i], p[i + 1]));
        } else {
            assert(q[i] == y && q[i + 1] == z);
        }
    }
    assert(is_pair_path(pairs, q, x, z));
}

pub proof fn lemma_linked_trans(pairs: Seq<(usize, usize)>, x: usize, y: usize, z: usize)
    requires
        linked(pairs, x, y),
        linked(pairs, y, z),
    ensures
        linked(pairs, x, z),
{
    let p = choose|p: Seq<usize>| is_pair_path(pairs, p, x, y);
    let q = choose|q: Seq<usize>| is_pair_path(pairs, q, y, z);
    let r = p + q.drop_first();
    if q.len() == 1 {
        assert(r =~= p);
        assert(is_pair_path(pairs, r, x, z));
    } else {
        assert(r.len() == p.len() + q.len() - 1);
        assert(r[0] == x);
        assert(r.last() == q.last());
        assert forall|i: int| 0 <= i < r.len() - 1 implies pair_adjacent(
            pairs,
            #[trigger] r[i],
            r[i + 1],
        ) by {
            if i < p.len() - 1 {
                assert(r[i] == p[i] && r[i + 1] == p[i + 1]);
                assert(pair_adjacent(pairs, p[i], p[i + 1]));
            } else if i == p.len() - 1 {
                assert(r[i] == y && r[i + 1] == q[1]);
                assert(pair_adjacent(pairs, q[0], q[1]));
            } else {
                let j = i - p.len() + 1;
                assert(r[i] == q[j] && r[i + 1] == q[j + 1]);
                assert(pair_adjacent(pairs, q[j], q[j + 1]));
            }
        }
        assert(is_pair_path(pairs, r, x, z));
    }
}

/// A walk over one pair list is a walk over any list that keeps its pairs.
pub proof fn lemma_linked_mono(
    p1: Seq<(usize, usize)>,
    p2: Seq<(usize, usize)>,
    x: usize,
    y: usize,
)
    requires
        forall|e: (usize, usize)| #[trigger] p1.contains(e) ==> p2.contains(e),
        linked(p1, x, y),
    ensures
        linked(p2, x, y),
{
    let p = choose|p: Seq<usize>| is_pair_path(p1, p, x, y);
    assert forall|i: int| 0 <= i < p.len() - 1 implies pair_adjacent(
        p2,
        #[trigger] p[i],
        p[i + 1],
    ) by {
        assert(pair_adjacent(p1, p[i], p[i + 1]));
    }
    assert(is_pair_path(p2, p, x, y));
}

/// A pair of weight at most `w` survives the weight filter.
proof fn lemma_pairs_up_to_contains(g: AdjMatrix, pairs: Seq<(usize, usize)>, w: u64, q: int)
    requires
        0 <= q < pairs.len(),
        pair_weight(g, pairs[q]) <= w,
    ensures
        pairs_up_to(g, pairs, w).contains(pairs[q]),
{
    pairs.lemma_filter_contains(|p: (usize, usize)| pair_weight(g, p) <= w, q);
}

proof fn lemma_joined_sym(labels: Seq<usize>, reals: Seq<usize>, x: usize, y: usize)
    requires
        joined(labels, reals, x, y),
    ensures
        joined(labels, reals, y, x),
{
    let (a, b) = choose|a: int, b: int|
        0 <= a < labels.len() && 0 <= b < labels.len() && a < reals.len() && b < reals.len() && (
        #[trigger] reals[a]) == x && (#[trigger] reals[b]) == y && labels[a] == labels[b];
    assert(0 <= b < labels.len() && 0 <= a < labels.len() && b < reals.len() && a < reals.len()
        && reals[b] == y && reals[a] == x && labels[b] == labels[a]);
}

/// Joined labels compose: the shared middle id pins one virtual id, since
/// the real-id enumeration is strictly increasing.
proof fn lemma_joined_trans(
    labels: Seq<usize>,
    reals: Seq<usize>,
    x: usize,
    y: usize,
    z: usize,
)
    requires
        joined(labels, reals, x, y),
        joined(labels, reals, y, z),
        forall|p: int, q: int| 0 <= p < q < reals.len() ==> reals[p] < reals[q],
    ensures
        joined(labels, reals, x, z),
{
    let (a, b) = choose|a: int, b: int|
        0 <= a < labels.len() && 0 <= b < labels.len() && a < reals.len() && b < reals.len() && (
        #[trigger] reals[a]) == x && (#[trigger] reals[b]) == y && labels[a] == labels[b];
    let (b2, c) = choose|b2: int, c: int|
        0 <= b2 < labels.len() && 0 <= c < labels.len() && b2 < reals.len() && c < reals.len()
            && (#[trigger] reals[b2]) == y && (#[trigger] reals[c]) == z && labels[b2]
            == labels[c];
    assert(b == b2) by {
        if b < b2 {
            assert(reals[b] < reals[b2]);
        }
        if b2 < b {
            assert(reals[b2] < reals[b]);
        }
    }
    assert(labels[a] == labels[c]);
}

/// A walk of accepted pairs keeps its endpoints in one label class, since
/// every accepted pair's endpoints share a label.
proof fn lemma_path_implies_joined(
    pairs: Seq<(usize, usize)>,
    labels: Seq<usize>,
    reals: Seq<usize>,
    p: Seq<usize>,
    x: usize,
    y: usize,
)
    requires
        is_pair_path(pairs, p, x, y),
        forall|j: int|
            0 <= j < pairs.len() ==> joined(labels, reals, (#[trigger] pairs[j]).0, pairs[j].1),
        forall|a: int, b: int| 0 <= a < b < reals.len() ==> reals[a] < reals[b],
    ensures
        x == y || joined(labels, reals, x, y),
    decreases p.len(),
{
    if p.len() > 1 {
        let y2 = p[p.len() - 2];
        assert(is_pair_path(pairs, p.drop_last(), x, y2)) by {
            assert forall|i: int| 0 <= i < p.drop_last().len() - 1 implies pair_adjacent(
                pairs,
                #[trigger] p.drop_last()[i],
                p.drop_last()[i + 1],
            ) by {
                assert(pair_adjacent(pairs, p[i], p[i + 1]));
            }
        }
        lemma_path_implies_joined(pairs, labels, reals, p.drop_last(), x, y2);
        assert(pair_adjacent(pairs, y2, y));
        assert(joined(labels, reals, y2, y) || y2 == y) by {
            if pairs.contains((y2, y)) {
                let j = choose|j: int| 0 <= j < pairs.len() && pairs[j] == (y2, y);
                assert(joined(labels, reals, pairs[j].0, pairs[j].1));
            } else {
                let j = choose|j: int| 0 <= j < pairs.len() && pairs[j] == (y, y2);
                assert(joined(labels, reals, pairs[j].0, pairs[j].1));
                lemma_joined_sym(labels, reals, y, y2);
            }
        }
        if x != y {
            if x == y2 {
                assert(joined(labels, reals, x, y) || x == y);
            } else if y2 == y {
                assert(joined(labels, reals, x, y));
            } else {
                lemma_joined_trans(labels, reals, x, y2, y);
            }
        }
    }
}

/// A walk of accepted pairs is a walk in the graph, since every accepted
/// pair is a stored undirected edge.
proof fn lemma_path_implies_connected(
    g: AdjMatrix,
    pairs: Seq<(usize, usize)>,
    p: Seq<usize>,
    x: usize,
    y: usize,
)
    requires
        g.edge_type == EdgeType::Undirected,
        is_pair_path(pairs, p, x, y),
        forall|j: int|
            0 <= j < pairs.len() ==> graph_edge_pair(g, #[trigger] pairs[j]),
    ensures
        connected_in(g, x, y),
    decreases p.len(),
{
    if p.len() == 1 {
        lemma_connected_refl(g, x);
    } else {
        let y2 = p[p.len() - 2];
        assert(is_pair_path(pairs, p.drop_last(), x, y2)) by {
            assert forall|i: int| 0 <= i < p.drop_last().len() - 1 implies pair_adjacent(
                pairs,
                #[trigger] p.drop_last()[i],
                p.drop_last()[i + 1],
            ) by {
                assert(pair_adjacent(pairs, p[i], p[i + 1]));
            }
        }
        lemma_path_implies_connected(g, pairs, p.drop_last(), x, y2);
        assert(pair_adjacent(pairs, y2, y));
        assert(adjacent_in(g, y2, y)) by {
            if pairs.contains((y2, y)) {
                let j = choose|j: int| 0 <= j < pairs.len() && pairs[j] == (y2, y);
                assert(graph_edge_pair(g, pairs[j]));
            } else {
                let j = choose|j: int| 0 <= j < pairs.len() && pairs[j] == (y, y2);
                assert(graph_edge_pair(g, pairs[j]));
                assert(g.edge_at(y2, y) == g.edge_at(y, y2));
            }
        }
        lemma_connected_step(g, x, y2, y);
    }
}

/// An accepted pair names a stored finite edge between live vertices.
pub open spec fn graph_edge_pair(g: AdjMatrix, p: (usize, usize)) -> bool {
    g.live(p.0) && g.live(p.1) && g.edge_at(p.0, p.1).spec_is_finite()
}

/// A walk over pairs of weight at most `w` of one list is a walk over the
/// same filter of any list that keeps its pairs.
proof fn lemma_up_to_mono(
    g: AdjMatrix,
    p1: Seq<(usize, usize)>,
    p2: Seq<(usize, usize)>,
    w: u64,
    x: usize,
    y: usize,
)
    requires
        forall|e2: (usize, usize)| #[trigger] p1.contains(e2) ==> p2.contains(e2),
        linked(pairs_up_to(g, p1, w), x, y),
    ensures
        linked(pairs_up_to(g, p2, w), x, y),
{
    assert forall|e2: (usize, usize)| #[trigger] pairs_up_to(g, p1, w).contains(e2)
        implies pairs_up_to(g, p2, w).contains(e2) by {
        let up1 = pairs_up_to(g, p1, w);
        let fi = choose|fi: int| 0 <= fi < up1.len() && up1[fi] == e2;
        p1.lemma_filter_pred(|pp: (usize, usize)| pair_weight(g, pp) <= w, fi);
        p1.lemma_filter_contains_rev(|pp: (usize, usize)| pair_weight(g, pp) <= w, e2);
        assert(p2.contains(e2));
        let q = choose|q: int| 0 <= q < p2.len() && p2[q] == e2;
        lemma_pairs_up_to_contains(g, p2, w, q);
    }
    lemma_linked_mono(pairs_up_to(g, p1, w), pairs_up_to(g, p2, w), x, y);
}

/// A walk over pairs that all weigh at most `w` survives the weight filter.
proof fn lemma_linked_up_to(
    g: AdjMatrix,
    pairs: Seq<(usize, usize)>,
    w: u64,
    x: usize,
    y: usize,
)
    requires
        linked(pairs, x, y),
        forall|j: int| 0 <= j < pairs.len() ==> pair_weight(g, #[trigger] pairs[j]) <= w,
    ensures
        linked(pairs_up_to(g, pairs, w), x, y),
{
    assert forall|e2: (usize, usize)| #[trigger] pairs.contains(e2)
        implies pairs_up_to(g, pairs, w).contains(e2) by {
        let q = choose|q: int| 0 <= q < pairs.len() && pairs[q] == e2;
        lemma_pairs_up_to_contains(g, pairs, w, q);
    }
    lemma_linked_mono(pairs, pairs_up_to(g, pairs, w), x, y);
}

/// One union keeps the linkage reading of the labels: ids whose labels
/// agree after merging `vv`'s class into `uv`'s are linked once the
/// merging pair joins the accepted list.
proof fn lemma_union_links(
    labels_pre: Seq<usize>,
    labels_post: Seq<usize>,
    mst_pre: Seq<(usize, usize)>,
    mst_post: Seq<(usize, usize)>,
    reals: Seq<usize>,
    uv: int,
    vv: int,
)
    requires
        labels_pre.len() == labels_post.len(),
        reals.len() == labels_pre.len(),
        0 <= uv < labels_pre.len(),
        0 <= vv < labels_pre.len(),
        forall|q: int|
            0 <= q < labels_pre.len() ==> (#[trigger] labels_post[q]) == if labels_pre[q]
                == labels_pre[vv] {
                labels_pre[uv]
            } else {
                labels_pre[q]
            },
        mst_post == mst_pre.push((reals[uv], reals[vv])),
        forall|a: int, b: int|
            0 <= a < labels_pre.len() && 0 <= b < labels_pre.len() && (
            #[trigger] labels_pre[a]) == (#[trigger] labels_pre[b]) ==> linked(
                mst_pre,
                reals[a],
                reals[b],
            ),
    ensures
        forall|a: int, b: int|
            0 <= a < labels_post.len() && 0 <= b < labels_post.len() && (
            #[trigger] labels_post[a]) == (#[trigger] labels_post[b]) ==> linked(
                mst_post,
                reals[a],
                reals[b],
            ),
{
    let la = labels_pre[uv];
    let lb = labels_pre[vv];
    assert forall|e2: (usize, usize)| #[trigger] mst_pre.contains(e2)
        implies mst_post.contains(e2) by {
        let q = choose|q: int| 0 <= q < mst_pre.len() && mst_pre[q] == e2;
        assert(mst_post[q] == e2);
    }
    assert(mst_post.last() == (reals[uv], reals[vv]));
    assert(mst_post.contains((reals[uv], reals[vv])));
    assert forall|a: int, b: int|
        0 <= a < labels_post.len() && 0 <= b < labels_post.len() && (#[trigger] labels_post[a])
            == (#[trigger] labels_post[b]) implies linked(mst_post, reals[a], reals[b]) by {
        assert(pair_adjacent(mst_post, reals[uv], reals[vv]));
        assert(pair_adjacent(mst_post, reals[vv], reals[uv]));
        if labels_pre[a] == labels_pre[b] {
            assert(linked(mst_pre, reals[a], reals[b]));
            lemma_linked_mono(mst_pre, mst_post, reals[a], reals[b]);
        } else if labels_pre[a] == lb && labels_pre[b] == la {
            assert(linked(mst_pre, reals[a], reals[vv]));
            lemma_linked_mono(mst_pre, mst_post, reals[a], reals[vv]);
            lemma_linked_step(mst_post, reals[a], reals[vv], reals[uv]);
            assert(linked(mst_pre, reals[uv], reals[b]));
            lemma_linked_mono(mst_pre, mst_post, reals[uv], reals[b]);
            lemma_linked_trans(mst_post, reals[a], reals[uv], reals[b]);
        } else {
            assert(labels_pre[a] == la && labels_pre[b] == lb);
            assert(linked(mst_pre, reals[a], reals[uv]));
            lemma_linked_mono(mst_pre, mst_post, reals[a], reals[uv]);
            lemma_linked_step(mst_post, reals[a], reals[uv], reals[vv]);
            assert(linked(mst_pre, reals[vv], reals[b]));
            lemma_linked_mono(mst_pre, mst_post, reals[vv], reals[b]);
            lemma_linked_trans(mst_post, reals[a], reals[vv], reals[b]);
        }
    }
}

/// After the run, equal labels, linkage by accepted pairs, and graph
/// connectivity line up: labels agree exactly when the accepted pairs link
/// the two ids, and then an undirected path joins them in the graph.
proof fn lemma_final_labels(
    g: AdjMatrix,
    mst: Seq<(usize, usize)>,
    labels: Seq<usize>,
    reals: Seq<usize>,
)
    requires
        g.edge_type == EdgeType::Undirected,
        reals.len() == labels.len(),
        forall|a: int, b: int| 0 <= a < b < reals.len() ==> reals[a] < reals[b],
        forall|j: int|
            0 <= j < mst.len() ==> joined(labels, reals, (#[trigger] mst[j]).0, mst[j].1),
        forall|j: int| 0 <= j < mst.len() ==> graph_edge_pair(g, #[trigger] mst[j]),
        forall|a: int, b: int|
            0 <= a < labels.len() && 0 <= b < labels.len() && (#[trigger] labels[a]) == (
            #[trigger] labels[b]) ==> linked(mst, reals[a], reals[b]),
    ensures
        forall|a: int, b: int|
            0 <= a < labels.len() && 0 <= b < labels.len() ==> ((#[trigger] labels[a]) == (
            #[trigger] labels[b]) <==> linked(mst, reals[a], reals[b])),
        forall|a: int, b: int|
            0 <= a < labels.len() && 0 <= b < labels.len() && (#[trigger] labels[a]) == (
            #[trigger] labels[b]) ==> connected_in(g, reals[a], reals[b]),
{
    assert forall|a: int, b: int|
        0 <= a < labels.len() && 0 <= b < labels.len() && linked(mst, reals[a], reals[b])
        implies (#[trigger] labels[a]) == (#[trigger] labels[b]) by {
        let pth = choose|pth: Seq<usize>| is_pair_path(mst, pth, reals[a], reals[b]);
        lemma_path_implies_joined(mst, labels, reals, pth, reals[a], reals[b]);
        if reals[a] == reals[b] {
            if a != b {
                assert(reals[a] != reals[b]);
            }
        } else {
            let (a2, b2) = choose|a2: int, b2: int|
                0 <= a2 < labels.len() && 0 <= b2 < labels.len() && a2 < reals.len() && b2
                    < reals.len() && (#[trigger] reals[a2]) == reals[a] && (#[trigger] reals[b2])
                    == reals[b] && labels[a2] == labels[b2];
            assert(a2 == a) by {
                if a2 < a {
                    assert(reals[a2] < reals[a]);
                }
                if a < a2 {
                    assert(reals[a] < reals[a2]);
                }
            }
            assert(b2 == b) by {
                if b2 < b {
                    assert(reals[b2] < reals[b]);
                }
                if b < b2 {
                    assert(reals[b] < reals[b2]);
                }
            }
        }
    }
    assert forall|a: int, b: int|
        0 <= a < labels.len() && 0 <= b < labels.len() && (#[trigger] labels[a]) == (
        #[trigger] labels[b]) implies connected_in(g, reals[a], reals[b]) by {
        assert(linked(mst, reals[a], reals[b]));
        let pth = choose|pth: Seq<usize>| is_pair_path(mst, pth, reals[a], reals[b]);
        lemma_path_implies_connected(g, mst, pth, reals[a], reals[b]);
    }
}

/// Insertion sort by edge weight: the result is the same collection of
/// edges, ascending by weight.
fn sort_edges(edges: &Vec<(usize, usize, u64)>) -> (r: Vec<(usize, usize, u64)>)
    ensures
        sorted_by_weight(r@),
        r@.to_multiset() == edges@.to_multiset(),
        forall|e: (usize, usize, u64)| #[trigger] r@.contains(e) <==> edges@.contains(e),
{
    broadcast use vstd::seq_lib::group_to_multiset_ensures;

    let mut out: Vec<(usize, usize, u64)> = Vec::new();
    let mut i: usize = 0;
    while i < edges.len()
        invariant
            i <= edges@.len(),
            sorted_by_weight(out@),
            out@.to_multiset() == edges@.take(i as int).to_multiset(),
        decreases edges@.len() - i,
    {
        let e = edges[i];
        let ghost before = out@;
        let mut p: usize = 0;
        while p < out.len() && out[p].2 <= e.2
            invariant
                p <= out@.len(),
                out@ == before,
                forall|q: int| 0 <= q < p ==> (#[trigger] out@[q]).2 <= e.2,
            decreases out@.len() - p,
        {
            p = p + 1;
        }
        out.insert(p, e);
        proof {
            assert forall|q1: int, q2: int| 0 <= q1 < q2 < out@.len()
                implies (#[trigger] out@[q1]).2 <= (#[trigger] out@[q2]).2 by {
                if q1 < p && q2 > p {
                    assert(before[q1].2 <= before[q2 - 1].2 || q1 == q2 - 1);
                }
                if q1 == p && q2 > p {
                    assert(before[q2 - 1].2 >= before[p as int].2);
                }
                if q1 < p && q2 == p {
                    assert(before[q1].2 <= e.2);
                }
            }
            assert(out@ == before.insert(p as int, e));
            vstd::seq_lib::to_multiset_insert(before, p as int, e);
            assert(edges@.take(i + 1).drop_last() =~= edges@.take(i as int));
            assert(edges@.take(i + 1) == edges@.take(i as int).push(e));
            vstd::seq_lib::to_multiset_build(edges@.take(i as int), e);
        }
        i = i + 1;
    }
    proof {
        assert(edges@.take(edges@.len() as int) =~= edges@);
        assert forall|e: (usize, usize, u64)| #[trigger] out@.contains(e) <==> edges@.contains(
            e,
        ) by {
            assert(out@.to_multiset().contains(e) <==> out@.contains(e));
            assert(edges@.to_multiset().contains(e) <==> edges@.contains(e));
        }
    }
    out
}

/// Carries the per-processed-edge facts of the main loop to every stored
/// edge: each is joined in the final labels, and linked by accepted pairs
/// of no greater weight.
proof fn lemma_stored_edges_covered(
    g: AdjMatrix,
    sorted: Seq<(usize, usize, u64)>,
    mst: Seq<(usize, usize)>,
    labels: Seq<usize>,
    reals: Seq<usize>,
)
    requires
        forall|e: (usize, usize, u64)|
            #[trigger] sorted.contains(e) <==> g.live(e.0) && g.live(e.1) && g.edge_at(e.0, e.1)
                == Weight::Finite(e.2) && e.0 < e.1,
        forall|j: int|
            0 <= j < sorted.len() ==> joined(labels, reals, (#[trigger] sorted[j]).0, sorted[j].1),
        forall|t2: int|
            0 <= t2 < sorted.len() ==> linked(
                pairs_up_to(g, mst, (#[trigger] sorted[t2]).2),
                sorted[t2].0,
                sorted[t2].1,
            ),
    ensures
        forall|u: usize, v: usize|
            g.live(u) && g.live(v) && u < v && (#[trigger] g.edge_at(u, v)).spec_is_finite()
                ==> joined(labels, reals, u, v) && linked(
                pairs_up_to(g, mst, pair_weight(g, (u, v))),
                u,
                v,
            ),
{
    assert forall|u: usize, v: usize|
        g.live(u) && g.live(v) && u < v && (#[trigger] g.edge_at(u, v)).spec_is_finite()
        implies joined(labels, reals, u, v) && linked(
        pairs_up_to(g, mst, pair_weight(g, (u, v))),
        u,
        v,
    ) by {
        let w = g.edge_at(u, v)->Finite_0;
        let e = (u, v, w);
        assert(sorted.contains(e));
        let j = choose|j: int| 0 <= j < sorted.len() && sorted[j] == e;
        assert(joined(labels, reals, sorted[j].0, sorted[j].1));
        assert(linked(pairs_up_to(g, mst, sorted[j].2), sorted[j].0, sorted[j].1));
        assert(pair_weight(g, (u, v)) == w);
    }
}

/// A union preserves joined pairs (labels map through one function) and
/// joins the two merged ids.
proof fn lemma_union_preserves_joined(
    labels_pre: Seq<usize>,
    labels_post: Seq<usize>,
    reals: Seq<usize>,
    uv: int,
    vv: int,
)
    requires
        labels_pre.len() == labels_post.len(),
        0 <= uv < labels_pre.len(),
        0 <= vv < labels_pre.len(),
        uv < reals.len(),
        vv < reals.len(),
        forall|q: int|
            0 <= q < labels_pre.len() ==> (#[trigger] labels_post[q]) == if labels_pre[q]
                == labels_pre[vv] {
                labels_pre[uv]
            } else {
                labels_pre[q]
            },
    ensures
        forall|u2: usize, v2: usize|
            joined(labels_pre, reals, u2, v2) ==> #[trigger] joined(labels_post, reals, u2, v2),
        joined(labels_post, reals, reals[uv], reals[vv]),
{
    assert forall|u2: usize, v2: usize| joined(labels_pre, reals, u2, v2)
        implies #[trigger] joined(labels_post, reals, u2, v2) by {
        let (a, b) = choose|a: int, b: int|
            0 <= a < labels_pre.len() && 0 <= b < labels_pre.len() && a < reals.len() && b
                < reals.len() && (#[trigger] reals[a]) == u2 && (#[trigger] reals[b]) == v2
                && labels_pre[a] == labels_pre[b];
        assert(labels_post[a] == labels_post[b]);
    }
    assert(labels_post[uv] == labels_post[vv]);
}

/// A union merges exactly one label away: the label multiplicity drops by
/// the merged class's label, so the distinct-label count falls by one.
proof fn lemma_union_label_count(
    labels_pre: Seq<usize>,
    labels_post: Seq<usize>,
    uv: int,
    vv: int,
)
    requires
        labels_pre.len() == labels_post.len(),
        0 <= uv < labels_pre.len(),
        0 <= vv < labels_pre.len(),
        labels_pre[uv] != labels_pre[vv],
        forall|q: int|
            0 <= q < labels_pre.len() ==> (#[trigger] labels_post[q]) == if labels_pre[q]
                == labels_pre[vv] {
                labels_pre[uv]
            } else {
                labels_pre[q]
            },
    ensures
        labels_post.to_set().len() == labels_pre.to_set().len() - 1,
{
    let olds = labels_pre.to_set();
    let news = labels_post.to_set();
    let la = labels_pre[uv];
    let lb = labels_pre[vv];
    assert(news =~= olds.remove(lb)) by {
        assert forall|x: usize| #[trigger] news.contains(x) implies olds.remove(lb).contains(
            x,
        ) by {
            let q = choose|q: int| 0 <= q < labels_post.len() && labels_post[q] == x;
            assert(labels_pre[q] == x || labels_pre[q] == lb && x == la);
            assert(labels_pre.contains(la));
            assert(labels_pre.contains(x) || x == la);
            assert(x != lb);
        }
        assert forall|x: usize| olds.remove(lb).contains(x) implies #[trigger] news.contains(
            x,
        ) by {
            let q = choose|q: int| 0 <= q < labels_pre.len() && labels_pre[q] == x;
            assert(labels_post[q] == x);
            assert(labels_post.contains(x));
        }
    }
    assert(labels_pre.contains(lb));
    assert(olds.contains(lb));
}

/// Accepting one edge keeps every processed edge linked within its weight
/// bound, and links the accepted edge itself.
proof fn lemma_cycle_step(
    g: AdjMatrix,
    sorted: Seq<(usize, usize, u64)>,
    k: int,
    mst_pre: Seq<(usize, usize)>,
    mst_post: Seq<(usize, usize)>,
)
    requires
        0 <= k < sorted.len(),
        mst_post == mst_pre.push((sorted[k].0, sorted[k].1)),
        pair_weight(g, (sorted[k].0, sorted[k].1)) == sorted[k].2,
        forall|t2: int|
            0 <= t2 < k ==> linked(
                pairs_up_to(g, mst_pre, (#[trigger] sorted[t2]).2),
                sorted[t2].0,
                sorted[t2].1,
            ),
    ensures
        forall|t2: int|
            0 <= t2 < k + 1 ==> linked(
                pairs_up_to(g, mst_post, (#[trigger] sorted[t2]).2),
                sorted[t2].0,
                sorted[t2].1,
            ),
{
    let e = sorted[k];
    assert forall|t2: int| 0 <= t2 < k + 1 implies linked(
        pairs_up_to(g, mst_post, (#[trigger] sorted[t2]).2),
        sorted[t2].0,
        sorted[t2].1,
    ) by {
        let w2 = sorted[t2].2;
        if t2 == k {
            let q = mst_post.len() - 1;
            assert(mst_post[q] == (e.0, e.1));
            assert(pair_weight(g, mst_post[q]) <= w2);
            lemma_pairs_up_to_contains(g, mst_post, w2, q);
            assert(pair_adjacent(pairs_up_to(g, mst_post, w2), e.0, e.1));
            let pth = seq![e.0, e.1];
            assert(is_pair_path(pairs_up_to(g, mst_post, w2), pth, e.0, e.1));
            assert(linked(pairs_up_to(g, mst_post, w2), e.0, e.1));
        } else {
            assert(linked(pairs_up_to(g, mst_pre, w2), sorted[t2].0, sorted[t2].1));
            assert forall|e2: (usize, usize)| #[trigger] mst_pre.contains(e2)
                implies mst_post.contains(e2) by {
                let q = choose|q: int| 0 <= q < mst_pre.len() && mst_pre[q] == e2;
                assert(mst_post[q] == e2);
            }
            lemma_up_to_mono(g, mst_pre, mst_post, w2, sorted[t2].0, sorted[t2].1);
        }
    }
}

/// Accepting the current edge keeps the result weights nondecreasing and
/// bounded by every still-unprocessed weight.
proof fn lemma_weight_step(
    g: AdjMatrix,
    sorted: Seq<(usize, usize, u64)>,
    k: int,
    mst_pre: Seq<(usize, usize)>,
    mst_post: Seq<(usize, usize)>,
)
    requires
        0 <= k < sorted.len(),
        sorted_by_weight(sorted),
        mst_post == mst_pre.push((sorted[k].0, sorted[k].1)),
        pair_weight(g, (sorted[k].0, sorted[k].1)) == sorted[k].2,
        forall|j1: int, j2: int|
            0 <= j1 < j2 < mst_pre.len() ==> pair_weight(g, #[trigger] mst_pre[j1])
                <= pair_weight(g, #[trigger] mst_pre[j2]),
        forall|j: int, k2: int|
            0 <= j < mst_pre.len() && k <= k2 < sorted.len() ==> pair_weight(
                g,
                #[trigger] mst_pre[j],
            ) <= (#[trigger] sorted[k2]).2,
    ensures
        forall|j1: int, j2: int|
            0 <= j1 < j2 < mst_post.len() ==> pair_weight(g, #[trigger] mst_post[j1])
                <= pair_weight(g, #[trigger] mst_post[j2]),
        forall|j: int, k2: int|
            0 <= j < mst_post.len() && k + 1 <= k2 < sorted.len() ==> pair_weight(
                g,
                #[trigger] mst_post[j],
            ) <= (#[trigger] sorted[k2]).2,
{
    assert forall|j1: int, j2: int| 0 <= j1 < j2 < mst_post.len() implies pair_weight(
        g,
        #[trigger] mst_post[j1],
    ) <= pair_weight(g, #[trigger] mst_post[j2]) by {
        if j2 == mst_post.len() - 1 {
            assert(mst_pre[j1] == mst_post[j1]);
            assert(pair_weight(g, mst_pre[j1]) <= sorted[k].2);
        } else {
            assert(mst_pre[j1] == mst_post[j1] && mst_pre[j2] == mst_post[j2]);
            assert(pair_weight(g, mst_pre[j1]) <= pair_weight(g, mst_pre[j2]));
        }
    }
    assert forall|j: int, k2: int|
        0 <= j < mst_post.len() && k + 1 <= k2 < sorted.len() implies pair_weight(
        g,
        #[trigger] mst_post[j],
    ) <= (#[trigger] sorted[k2]).2 by {
        if j < mst_pre.len() {
            assert(mst_pre[j] == mst_post[j]);
            assert(pair_weight(g, mst_pre[j]) <= sorted[k2].2);
        } else {
            assert(sorted[k].2 <= sorted[k2].2);
        }
    }
}

pub struct Kruskal {
    pub sets: DisjointSets,
}

impl Kruskal {
    /// One singleton disjoint set per live vertex, in the virtual id
    /// space; the graph must be undirected.
    pub fn init(graph: &AdjMatrix) -> (s: Self)
        requires
            graph.wf(),
            graph.edge_type == EdgeType::Undirected,
        ensures
            s.sets.labels@.len() == graph.live_seq().len(),
            forall|i: int| 0 <= i < s.sets.labels@.len() ==> (#[trigger] s.sets.labels@[i]) == i,
    {
        let vs = graph.vertices();
        Kruskal { sets: DisjointSets::init(vs.len()) }
    }

    /// Runs Kruskal's algorithm and returns the accepted edges as
    /// `(src, dst)` real-id pairs: each is a stored finite edge between
    /// live vertices with `src < dst` (each undirected edge considered in
    /// one direction only), no pair repeats, and the stored weights are
    /// nondecreasing in result order. The accepted pairs link two vertices
    /// exactly when the final disjoint sets join them, and joined vertices
    /// are connected in the graph — so the final sets are the graph's
    /// components, and with the count identity the result is a forest, one
    /// tree per component. Every stored edge's endpoints are linked by
    /// accepted pairs of no greater weight (the cycle property: a skipped
    /// edge is a heaviest edge on the cycle it would close).
    #[verifier::loop_isolation(false)]
    #[verifier::rlimit(100)]
    pub fn execute(&mut self, graph: &AdjMatrix) -> (mst: Vec<(usize, usize)>)
        requires
            graph.wf(),
            graph.edge_type == EdgeType::Undirected,
            old(self).sets.labels@.len() == graph.live_seq().len(),
            forall|i: int|
                0 <= i < old(self).sets.labels@.len() ==> (#[trigger] old(
                    self,
                ).sets.labels@[i]) == i,
        ensures
            forall|k: int|
                0 <= k < mst@.len() ==> {
                    let e = #[trigger] mst@[k];
                    &&& e.0 < e.1
                    &&& graph.live(e.0)
                    &&& graph.live(e.1)
                    &&& graph.edge_at(e.0, e.1).spec_is_finite()
                },
            mst@.no_duplicates(),
            forall|k: int|
                0 <= k < mst@.len() ==> joined(
                    final(self).sets.labels@,
                    graph.live_seq(),
                    (#[trigger] mst@[k]).0,
                    mst@[k].1,
                ),
            forall|u: usize, v: usize|
                graph.live(u) && graph.live(v) && u < v && (#[trigger] graph.edge_at(
                    u,
                    v,
                )).spec_is_finite() ==> joined(final(self).sets.labels@, graph.live_seq(), u, v),
            mst@.len() + final(self).sets.labels@.to_set().len() == graph.live_seq().len(),
            forall|j1: int, j2: int|
                0 <= j1 < j2 < mst@.len() ==> pair_weight(*graph, #[trigger] mst@[j1])
                    <= pair_weight(*graph, #[trigger] mst@[j2]),
            forall|a: int, b: int|
                0 <= a < graph.live_seq().len() && 0 <= b < graph.live_seq().len() ==> ((
                #[trigger] final(self).sets.labels@[a]) == (
                #[trigger] final(self).sets.labels@[b]) <==> linked(
                    mst@,
                    graph.live_seq()[a],
                    graph.live_seq()[b],
                )),
            forall|a: int, b: int|
                0 <= a < graph.live_seq().len() && 0 <= b < graph.live_seq().len() && (
                #[trigger] final(self).sets.labels@[a]) == (
                #[trigger] final(self).sets.labels@[b]) ==> connected_in(
                    *graph,
                    graph.live_seq()[a],
                    graph.live_seq()[b],
                ),
            forall|u: usize, v: usize|
                graph.live(u) && graph.live(v) && u < v && (#[trigger] graph.edge_at(
                    u,
                    v,
                )).spec_is_finite() ==> linked(
                    pairs_up_to(*graph, mst@, pair_weight(*graph, (u, v))),
                    u,
                    v,
                ),
    {
        let ghost reals = graph.live_seq();
        proof {
            lemma_live_below_props(*graph, graph.total());
            assert(old(self).sets.labels@.no_duplicates());
            old(self).sets.labels@.unique_seq_to_set();
        }
        let id_map = graph.continuous_id_map();
        let all_edges = graph.edges();
        let mut collected: Vec<(usize, usize, u64)> = Vec::new();
        let mut t: usize = 0;
        while t < all_edges.len()
            invariant
                t <= all_edges@.len(),
                forall|e: (usize, usize, u64)|
                    #[trigger] collected@.contains(e) <==> (all_edges@.take(t as int).contains(e)
                        && e.0 < e.1),
            decreases all_edges@.len() - t,
        {
            let e = all_edges[t];
            let ghost prev = collected@;
            if e.0 < e.1 {
                collected.push(e);
            }
            proof {
                assert(all_edges@.take(t + 1).drop_last() =~= all_edges@.take(t as int));
                assert(all_edges@.take(t + 1).last() == e);
                assert forall|x: (usize, usize, u64)| #[trigger] collected@.contains(x)
                    implies (all_edges@.take(t + 1).contains(x) && x.0 < x.1) by {
                    let q = choose|q: int| 0 <= q < collected@.len() && collected@[q] == x;
                    if q < prev.len() {
                        assert(prev[q] == x);
                        assert(prev.contains(x));
                        let w = choose|w: int|
                            0 <= w < all_edges@.take(t as int).len() && (#[trigger] all_edges@.take(
                                t as int,
                            )[w]) == x;
                        assert(all_edges@.take(t + 1)[w] == x);
                    } else {
                        assert(x == e);
                        assert(all_edges@.take(t + 1)[t as int] == x);
                    }
                }
                assert forall|x: (usize, usize, u64)|
                    all_edges@.take(t + 1).contains(x) && x.0 < x.1
                    implies #[trigger] collected@.contains(x) by {
                    let w = choose|w: int|
                        0 <= w < all_edges@.take(t + 1).len() && (#[trigger] all_edges@.take(
                            t + 1,
                        )[w]) == x;
                    if w < t {
                        assert(all_edges@.take(t as int)[w] == x);
                        assert(all_edges@.take(t as int).contains(x));
                        assert(prev.contains(x));
                        let q = choose|q: int| 0 <= q < prev.len() && prev[q] == x;
                        assert(collected@[q] == x);
                    } else {
                        assert(x == e);
                        assert(collected@.last() == x);
                    }
                }
            }
            t = t + 1;
        }
        let sorted = sort_edges(&collected);
        proof {
            assert(all_edges@.take(all_edges@.len() as int) =~= all_edges@);
            assert forall|e: (usize, usize, u64)| #[trigger] sorted@.contains(e) <==> (graph.live(
                e.0,
            ) && graph.live(e.1) && graph.edge_at(e.0, e.1) == Weight::Finite(e.2) && e.0
                < e.1) by {
                assert(sorted@.contains(e) <==> collected@.contains(e));
            }
        }
        self.accept_edges(graph, &id_map, &sorted)
    }

    /// The acceptance loop of Kruskal's algorithm, over the deduplicated,
    /// weight-sorted edge list.
    #[verifier::rlimit(100)]
    fn accept_edges(
        &mut self,
        graph: &AdjMatrix,
        id_map: &IdMap,
        sorted: &Vec<(usize, usize, u64)>,
    ) -> (mst: Vec<(usize, usize)>)
        requires
            graph.wf(),
            graph.edge_type == EdgeType::Undirected,
            old(self).sets.labels@.len() == graph.live_seq().len(),
            forall|i: int|
                0 <= i < old(self).sets.labels@.len() ==> (#[trigger] old(
                    self,
                ).sets.labels@[i]) == i,
            id_map.virt_to_real@ == graph.live_seq(),
            sorted_by_weight(sorted@),
            forall|e: (usize, usize, u64)|
                #[trigger] sorted@.contains(e) <==> (graph.live(e.0) && graph.live(e.1)
                    && graph.edge_at(e.0, e.1) == Weight::Finite(e.2) && e.0 < e.1),
        ensures
            forall|k: int|
                0 <= k < mst@.len() ==> {
                    let e = #[trigger] mst@[k];
                    &&& e.0 < e.1
                    &&& graph.live(e.0)
                    &&& graph.live(e.1)
                    &&& graph.edge_at(e.0, e.1).spec_is_finite()
                },
            mst@.no_duplicates(),
            forall|k: int|
                0 <= k < mst@.len() ==> joined(
                    final(self).sets.labels@,
                    graph.live_seq(),
                    (#[trigger] mst@[k]).0,
                    mst@[k].1,
                ),
            forall|u: usize, v: usize|
                graph.live(u) && graph.live(v) && u < v && (#[trigger] graph.edge_at(
                    u,
                    v,
                )).spec_is_finite() ==> joined(final(self).sets.labels@, graph.live_seq(), u, v),
            mst@.len() + final(self).sets.labels@.to_set().len() == graph.live_seq().len(),
            forall|j1: int, j2: int|
                0 <= j1 < j2 < mst@.len() ==> pair_weight(*graph, #[trigger] mst@[j1])
                    <= pair_weight(*graph, #[trigger] mst@[j2]),
            forall|a: int, b: int|
                0 <= a < graph.live_seq().len() && 0 <= b < graph.live_seq().len() ==> ((
                #[trigger] final(self).sets.labels@[a]) == (
                #[trigger] final(self).sets.labels@[b]) <==> linked(
                    mst@,
                    graph.live_seq()[a],
                    graph.live_seq()[b],
                )),
            forall|a: int, b: int|
                0 <= a < graph.live_seq().len() && 0 <= b < graph.live_seq().len() && (
                #[trigger] final(self).sets.labels@[a]) == (
                #[trigger] final(self).sets.labels@[b]) ==> connected_in(
                    *graph,
                    graph.live_seq()[a],
                    graph.live_seq()[b],
                ),
            forall|u: usize, v: usize|
                graph.live(u) && graph.live(v) && u < v && (#[trigger] graph.edge_at(
                    u,
                    v,
                )).spec_is_finite() ==> linked(
                    pairs_up_to(*graph, mst@, pair_weight(*graph, (u, v))),
                    u,
                    v,
                ),
    {
        let ghost reals = graph.live_seq();
        proof {
            lemma_live_below_props(*graph, graph.total());
            assert(old(self).sets.labels@.no_duplicates());
            old(self).sets.labels@.unique_seq_to_set();
        }
        let n = id_map.len();
        let mut mst: Vec<(usize, usize)> = Vec::new();
        proof {
            assert forall|a: int, b: int|
                0 <= a < n && 0 <= b < n && (#[trigger] self.sets.labels@[a]) == (
                #[trigger] self.sets.labels@[b]) implies linked(mst@, reals[a], reals[b]) by {
                assert(self.sets.labels@[a] == a && self.sets.labels@[b] == b);
                lemma_linked_refl(mst@, reals[a]);
            }
        }
        let mut k: usize = 0;
        while k < sorted.len()
            invariant
                graph.wf(),
                graph.edge_type == EdgeType::Undirected,
                reals == graph.live_seq(),
                id_map.virt_to_real@ == reals,
                n == reals.len(),
                sorted_by_weight(sorted@),
                forall|e: (usize, usize, u64)|
                    #[trigger] sorted@.contains(e) <==> (graph.live(e.0) && graph.live(e.1)
                        && graph.edge_at(e.0, e.1) == Weight::Finite(e.2) && e.0 < e.1),
                k <= sorted@.len(),
                self.sets.labels@.len() == n,
                mst@.len() + self.sets.labels@.to_set().len() == reals.len(),
                forall|j: int|
                    0 <= j < k ==> joined(
                        self.sets.labels@,
                        reals,
                        (#[trigger] sorted@[j]).0,
                        sorted@[j].1,
                    ),
                forall|j: int|
                    0 <= j < mst@.len() ==> {
                        let e = #[trigger] mst@[j];
                        &&& e.0 < e.1
                        &&& graph.live(e.0)
                        &&& graph.live(e.1)
                        &&& graph.edge_at(e.0, e.1).spec_is_finite()
                    },
                forall|j: int|
                    0 <= j < mst@.len() ==> joined(
                        self.sets.labels@,
                        reals,
                        (#[trigger] mst@[j]).0,
                        mst@[j].1,
                    ),
                mst@.no_duplicates(),
                forall|j1: int, j2: int|
                    0 <= j1 < j2 < mst@.len() ==> pair_weight(*graph, #[trigger] mst@[j1])
                        <= pair_weight(*graph, #[trigger] mst@[j2]),
                forall|j: int, k2: int|
                    0 <= j < mst@.len() && k <= k2 < sorted@.len() ==> pair_weight(
                        *graph,
                        #[trigger] mst@[j],
                    ) <= (#[trigger] sorted@[k2]).2,
                forall|a: int, b: int|
                    0 <= a < n && 0 <= b < n && (#[trigger] self.sets.labels@[a]) == (
                    #[trigger] self.sets.labels@[b]) ==> linked(mst@, reals[a], reals[b]),
                forall|t2: int|
                    0 <= t2 < k ==> linked(
                        pairs_up_to(*graph, mst@, (#[trigger] sorted@[t2]).2),
                        sorted@[t2].0,
                        sorted@[t2].1,
                    ),
            decreases sorted@.len() - k,
        {
            let e = sorted[k];
            proof {
                lemma_live_below_props(*graph, graph.total());
                assert(sorted@.contains(e));
                assert(reals.contains(e.0));
                assert(reals.contains(e.1));
            }
            let uv = id_map.virt_id_of(e.0);
            let vv = id_map.virt_id_of(e.1);
            let joined_already = self.sets.same_set(uv, vv);
            let ghost labels_pre = self.sets.labels@;
            if !joined_already {
                let ghost mst_pre = mst@;
                mst.push((e.0, e.1));
                self.sets.union(uv, vv);
                proof {
                    lemma_union_preserves_joined(
                        labels_pre,
                        self.sets.labels@,
                        reals,
                        uv as int,
                        vv as int,
                    );
                    assert forall|j: int| 0 <= j < mst@.len() implies joined(
                        self.sets.labels@,
                        reals,
                        (#[trigger] mst@[j]).0,
                        mst@[j].1,
                    ) by {
                        if j < mst_pre.len() {
                            assert(joined(labels_pre, reals, mst_pre[j].0, mst_pre[j].1));
                        } else {
                            assert(mst@[j] == (e.0, e.1));
                            assert(reals[uv as int] == e.0 && reals[vv as int] == e.1);
                        }
                    }
                    assert(mst@.no_duplicates()) by {
                        if mst_pre.contains((e.0, e.1)) {
                            assert(joined(labels_pre, reals, e.0, e.1));
                            let (a, b) = choose|a: int, b: int|
                                0 <= a < labels_pre.len() && 0 <= b < labels_pre.len() && a
                                    < reals.len() && b < reals.len() && (#[trigger] reals[a])
                                    == e.0 && (#[trigger] reals[b]) == e.1 && labels_pre[a]
                                    == labels_pre[b];
                            assert(reals[a] == reals[uv as int]);
                            assert(reals[b] == reals[vv as int]);
                            assert(a == uv as int && b == vv as int);
                        }
                        assert forall|p: int, q: int| 0 <= p < q < mst@.len()
                            implies mst@[p] != mst@[q] by {
                            if q < mst_pre.len() {
                                assert(mst_pre[p] != mst_pre[q]);
                            } else {
                                assert(mst_pre[p] == mst@[p]);
                                assert(mst_pre.contains(mst_pre[p]));
                            }
                        }
                    }
                    assert forall|j: int| 0 <= j < mst@.len() implies {
                        let pair = #[trigger] mst@[j];
                        &&& pair.0 < pair.1
                        &&& graph.live(pair.0)
                        &&& graph.live(pair.1)
                        &&& graph.edge_at(pair.0, pair.1).spec_is_finite()
                    } by {
                        if j < mst_pre.len() {
                            assert(mst_pre[j] == mst@[j]);
                        } else {
                            assert(mst@[j] == (e.0, e.1));
                            assert(graph.edge_at(e.0, e.1) == Weight::Finite(e.2));
                        }
                    }
                    assert(graph.edge_at(e.0, e.1) == Weight::Finite(e.2));
                    assert(pair_weight(*graph, (e.0, e.1)) == e.2);
                    lemma_weight_step(*graph, sorted@, k as int, mst_pre, mst@);
                    assert(mst@ == mst_pre.push((reals[uv as int], reals[vv as int])));
                    lemma_union_links(
                        labels_pre,
                        self.sets.labels@,
                        mst_pre,
                        mst@,
                        reals,
                        uv as int,
                        vv as int,
                    );
                    lemma_cycle_step(*graph, sorted@, k as int, mst_pre, mst@);
                }
            } else {
                proof {
                    assert(self.sets.labels@[uv as int] == self.sets.labels@[vv as int]);
                    assert(linked(mst@, reals[uv as int], reals[vv as int]));
                    lemma_linked_up_to(*graph, mst@, sorted@[k as int].2, e.0, e.1);
                }
            }
            proof {
                if !joined_already {
                    lemma_union_label_count(
                        labels_pre,
                        self.sets.labels@,
                        uv as int,
                        vv as int,
                    );
                    lemma_union_preserves_joined(
                        labels_pre,
                        self.sets.labels@,
                        reals,
                        uv as int,
                        vv as int,
                    );
                }
                assert forall|j: int| 0 <= j < k + 1 implies joined(
                    self.sets.labels@,
                    reals,
                    (#[trigger] sorted@[j]).0,
                    sorted@[j].1,
                ) by {
                    if j == k {
                        assert(reals[uv as int] == e.0 && reals[vv as int] == e.1);
                        assert(self.sets.labels@[uv as int] == self.sets.labels@[vv as int]);
                    } else if !joined_already {
                        assert(joined(labels_pre, reals, sorted@[j].0, sorted@[j].1));
                    }
                }
            }
            k = k + 1;
        }
        proof {
            lemma_stored_edges_covered(*graph, sorted@, mst@, self.sets.labels@, reals);
            assert forall|j: int| 0 <= j < mst@.len() implies graph_edge_pair(
                *graph,
                #[trigger] mst@[j],
            ) by {
                let pair = mst@[j];
                assert(pair.0 < pair.1 && graph.live(pair.0) && graph.live(pair.1)
                    && graph.edge_at(pair.0, pair.1).spec_is_finite());
            }
            lemma_final_labels(*graph, mst@, self.sets.labels@, reals);
        }
        mst
    }
}

} // verus!
