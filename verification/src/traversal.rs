//! Depth-first traversal engine with a listener protocol.
//!
//! Vertices move white (unvisited) to gray (on the active path) to black
//! (finished). The walk is iterative over an explicit stack, restarts from
//! a fresh unvisited vertex whenever the current tree is exhausted, and
//! reports events to a caller-supplied listener: `on_white` with the real
//! id of each newly discovered vertex, `on_finish` when one tree — one
//! connected grouping — is complete. Bookkeeping is indexed by virtual id
//! so the color array is a plain vector.

use vstd::prelude::*;

use crate::id_map::IdMap;
use crate::storage::lemma_live_below_props;
use crate::storage::AdjMatrix;
use crate::storage::EdgeType;

verus! {

#[derive(Clone, Copy, PartialEq, Eq, Structural, Debug)]
pub enum Color {
    White,
    Gray,
    Black,
}

/// Handler of traversal events. `pending` is the grouping being built —
/// the real ids handed to `on_white` since the last seal — and `sealed`
/// the finished groupings, one per traversal tree.
pub trait DfsListener {
    spec fn pending(&self) -> Seq<usize>;

    spec fn sealed(&self) -> Seq<Seq<usize>>;

    /// One vertex turned white to gray: it joins the open grouping.
    fn on_white(&mut self, real_id: usize)
        ensures
            final(self).pending() == old(self).pending().push(real_id),
            final(self).sealed() == old(self).sealed();

    /// One traversal tree is exhausted: the open grouping is sealed.
    fn on_finish(&mut self)
        ensures
            final(self).sealed() == old(self).sealed().push(old(self).pending()),
            final(self).pending() == Seq::<usize>::empty(),
    ;
}

/// The concatenation of a sequence of groupings, in order.
pub open spec fn concat_all(ss: Seq<Seq<usize>>) -> Seq<usize>
    decreases ss.len(),
{
    if ss.len() == 0 {
        Seq::empty()
    } else {
        concat_all(ss.drop_last()) + ss.last()
    }
}

pub proof fn lemma_concat_all_push(ss: Seq<Seq<usize>>, c: Seq<usize>)
    ensures
        concat_all(ss.push(c)) == concat_all(ss) + c,
{
    assert(ss.push(c).drop_last() =~= ss);
    assert(ss.push(c).last() == c);
}

/// Membership in the concatenation is membership in some grouping.
pub proof fn lemma_concat_all_contains(ss: Seq<Seq<usize>>, x: usize)
    ensures
        concat_all(ss).contains(x) <==> exists|k: int|
            0 <= k < ss.len() && (#[trigger] ss[k]).contains(x),
    decreases ss.len(),
{
    if ss.len() > 0 {
        let head = ss.drop_last();
        lemma_concat_all_contains(head, x);
        let whole = concat_all(ss);
        let left = concat_all(head);
        let right = ss.last();
        if exists|k: int| 0 <= k < ss.len() && (#[trigger] ss[k]).contains(x) {
            let k = choose|k: int| 0 <= k < ss.len() && (#[trigger] ss[k]).contains(x);
            if k < ss.len() - 1 {
                assert(head[k] == ss[k]);
                assert(head[k].contains(x));
                assert(left.contains(x));
                let p = choose|p: int| 0 <= p < left.len() && left[p] == x;
                assert(whole[p] == x);
            } else {
                assert(right.contains(x));
                let p = choose|p: int| 0 <= p < right.len() && right[p] == x;
                assert(whole[left.len() + p] == x);
            }
            assert(whole.contains(x));
        }
        if whole.contains(x) {
            let p = choose|p: int| 0 <= p < whole.len() && whole[p] == x;
            if p < left.len() {
                assert(left[p] == x);
                let k = choose|k: int| 0 <= k < head.len() && (#[trigger] head[k]).contains(x);
                assert(ss[k].contains(x));
            } else {
                assert(right[p - left.len()] == x);
                assert(ss[ss.len() - 1].contains(x));
            }
        }
    }
}

/// A duplicate-free concatenation means the groupings are pairwise
/// disjoint and each is internally duplicate-free.
pub proof fn lemma_concat_all_disjoint(ss: Seq<Seq<usize>>)
    requires
        concat_all(ss).no_duplicates(),
    ensures
        forall|k1: int, k2: int, x: usize|
            0 <= k1 < ss.len() && 0 <= k2 < ss.len() && k1 != k2 && #[trigger] ss[k1].contains(x)
                ==> !(#[trigger] ss[k2].contains(x)),
        forall|k: int| 0 <= k < ss.len() ==> (#[trigger] ss[k]).no_duplicates(),
    decreases ss.len(),
{
    if ss.len() > 0 {
        let head = ss.drop_last();
        let left = concat_all(head);
        let right = ss.last();
        let whole = concat_all(ss);
        assert(whole == left + right);
        assert(left.no_duplicates()) by {
            assert forall|p: int, q: int| 0 <= p < q < left.len() implies left[p] != left[q] by {
                assert(whole[p] == left[p]);
                assert(whole[q] == left[q]);
            }
        }
        assert(right.no_duplicates()) by {
            assert forall|p: int, q: int| 0 <= p < q < right.len() implies right[p] != right[q] by {
                assert(whole[left.len() + p] == right[p]);
                assert(whole[left.len() + q] == right[q]);
            }
        }
        lemma_concat_all_disjoint(head);
        assert forall|k1: int, k2: int, x: usize|
            0 <= k1 < ss.len() && 0 <= k2 < ss.len() && k1 != k2 && #[trigger] ss[k1].contains(x)
            implies !(#[trigger] ss[k2].contains(x)) by {
            if k1 < ss.len() - 1 && k2 < ss.len() - 1 {
                assert(head[k1] == ss[k1]);
                assert(head[k2] == ss[k2]);
            } else {
                let ki = if k1 < k2 { k1 } else { k2 };
                if ss[ki].contains(x) && ss[ss.len() - 1].contains(x) {
                    assert(head[ki] == ss[ki]);
                    lemma_concat_all_contains(head, x);
                    let p = choose|p: int| 0 <= p < left.len() && left[p] == x;
                    let q = choose|q: int| 0 <= q < right.len() && right[q] == x;
                    assert(whole[p] == x);
                    assert(whole[left.len() + q] == x);
                }
            }
        }
        assert forall|k: int| 0 <= k < ss.len() implies (#[trigger] ss[k]).no_duplicates() by {
            if k < ss.len() - 1 {
                assert(head[k] == ss[k]);
            }
        }
    }
}

/// What a traversal guarantees of the groupings it adds: together they
/// hold every live vertex of the graph exactly once (so they are pairwise
/// disjoint, duplicate-free, and cover the live set), and none is empty.
pub open spec fn partitions_live_set(comps: Seq<Seq<usize>>, g: AdjMatrix) -> bool {
    &&& forall|x: usize| #[trigger] concat_all(comps).contains(x) <==> g.live(x)
    &&& concat_all(comps).no_duplicates()
    &&& forall|k: int| 0 <= k < comps.len() ==> (#[trigger] comps[k]).len() > 0
}

/// The number of unvisited entries in a color array.
pub open spec fn count_white(colors: Seq<Color>) -> nat
    decreases colors.len(),
{
    if colors.len() == 0 {
        0
    } else {
        count_white(colors.drop_last()) + if colors.last() == Color::White {
            1nat
        } else {
            0nat
        }
    }
}

/// Two live vertices joined by a stored finite edge.
pub open spec fn adjacent_in(g: AdjMatrix, x: usize, y: usize) -> bool {
    g.live(x) && g.live(y) && g.edge_at(x, y).spec_is_finite()
}

/// A walk from `x` to `y`: consecutive entries are adjacent.
pub open spec fn is_path(g: AdjMatrix, p: Seq<usize>, x: usize, y: usize) -> bool {
    &&& p.len() >= 1
    &&& p[0] == x
    &&& p.last() == y
    &&& forall|i: int| 0 <= i < p.len() - 1 ==> adjacent_in(g, #[trigger] p[i], p[i + 1])
}

/// An undirected path joins `x` to `y`.
pub open spec fn connected_in(g: AdjMatrix, x: usize, y: usize) -> bool {
    exists|p: Seq<usize>| is_path(g, p, x, y)
}

pub proof fn lemma_connected_refl(g: AdjMatrix, x: usize)
    ensures
        connected_in(g, x, x),
{
    let p = seq![x];
    assert(is_path(g, p, x, x));
}

pub proof fn lemma_connected_step(g: AdjMatrix, x: usize, y: usize, z: usize)
    requires
        connected_in(g, x, y),
        adjacent_in(g, y, z),
    ensures
        connected_in(g, x, z),
{
    let p = choose|p: Seq<usize>| is_path(g, p, x, y);
    let q = p.push(z);
    assert forall|i: int| 0 <= i < q.len() - 1 implies adjacent_in(g, #[trigger] q[i], q[i + 1]) by {
        if i < p.len() - 1 {
            assert(adjacent_in(g, p[i], p[i + 1]));
        } else {
            assert(q[i] == y && q[i + 1] == z);
        }
    }
    assert(is_path(g, q, x, z));
}

/// Undirected connectivity is symmetric: the reversed walk joins `y` to
/// `x`, since an undirected slot is shared by both directions.
pub proof fn lemma_connected_sym(g: AdjMatrix, x: usize, y: usize)
    requires
        g.edge_type == EdgeType::Undirected,
        connected_in(g, x, y),
    ensures
        connected_in(g, y, x),
{
    let p = choose|p: Seq<usize>| is_path(g, p, x, y);
    let q = p.reverse();
    assert(q.len() == p.len());
    assert(q[0] == y);
    assert(q.last() == x);
    assert forall|i: int| 0 <= i < q.len() - 1 implies adjacent_in(g, #[trigger] q[i], q[i + 1]) by {
        let j = p.len() - 1 - i;
        assert(q[i] == p[j]);
        assert(q[i + 1] == p[j - 1]);
        assert(adjacent_in(g, p[j - 1], p[j]));
        assert(g.edge_at(p[j], p[j - 1]) == g.edge_at(p[j - 1], p[j]));
    }
    assert(is_path(g, q, y, x));
}

pub proof fn lemma_connected_trans(g: AdjMatrix, x: usize, y: usize, z: usize)
    requires
        connected_in(g, x, y),
        connected_in(g, y, z),
    ensures
        connected_in(g, x, z),
{
    let p = choose|p: Seq<usize>| is_path(g, p, x, y);
    let q = choose|q: Seq<usize>| is_path(g, q, y, z);
    let r = p + q.drop_first();
    if q.len() == 1 {
        assert(r =~= p);
        assert(is_path(g, r, x, z));
    } else {
        assert(r.len() == p.len() + q.len() - 1);
        assert(r[0] == x);
        assert(r.last() == q.last());
        assert forall|i: int| 0 <= i < r.len() - 1 implies adjacent_in(
            g,
            #[trigger] r[i],
            r[i + 1],
        ) by {
            if i < p.len() - 1 {
                assert(r[i] == p[i] && r[i + 1] == p[i + 1]);
                assert(adjacent_in(g, p[i], p[i + 1]));
            } else if i == p.len() - 1 {
                assert(r[i] == y && r[i + 1] == q[1]);
                assert(adjacent_in(g, q[0], q[1]));
            } else {
                let j = i - p.len() + 1;
                assert(r[i] == q[j] && r[i + 1] == q[j + 1]);
                assert(adjacent_in(g, q[j], q[j + 1]));
            }
        }
        assert(is_path(g, r, x, z));
    }
}

/// Each grouping opens with its minimum member: the traversal root is the
/// smallest undiscovered id when its tree starts, so it leads the grouping
/// it discovers.
pub open spec fn components_min_first(comps: Seq<Seq<usize>>) -> bool {
    forall|k: int, x: usize|
        0 <= k < comps.len() && #[trigger] comps[k].contains(x) ==> comps[k][0] <= x
}

/// Every two members of one grouping are joined by a path.
pub open spec fn components_connected(comps: Seq<Seq<usize>>, g: AdjMatrix) -> bool {
    forall|k: int, x: usize, y: usize|
        0 <= k < comps.len() && #[trigger] comps[k].contains(x) && #[trigger] comps[k].contains(
            y,
        ) ==> connected_in(g, x, y)
}

/// Every grouping is closed under adjacency: a neighbor of a member is a
/// member of the same grouping.
pub open spec fn components_closed(comps: Seq<Seq<usize>>, g: AdjMatrix) -> bool {
    forall|k: int, x: usize, y: usize|
        0 <= k < comps.len() && (#[trigger] comps[k]).contains(x) && g.live(y) && (
        #[trigger] g.edge_at(x, y)).spec_is_finite() ==> comps[k].contains(y)
}

/// Every finished vertex has every neighbor discovered: the engine never
/// blackens a vertex while an unvisited neighbor remains.
pub open spec fn black_closed(colors: Seq<Color>, reals: Seq<usize>, g: AdjMatrix) -> bool {
    forall|v: int, w: int|
        0 <= v < colors.len() && 0 <= w < colors.len() && colors[v] == Color::Black && (
        #[trigger] g.edge_at(reals[v], reals[w])).spec_is_finite() && g.live(reals[w])
            ==> (#[trigger] colors[w]) != Color::White
}

/// No vertex is on an active path: true between traversal trees.
pub open spec fn no_grays(colors: Seq<Color>) -> bool {
    forall|v: int| 0 <= v < colors.len() ==> (#[trigger] colors[v]) != Color::Gray
}

/// Whether some vertex with real id `x` has already been discovered: a
/// virtual id maps to it and is no longer white.
pub open spec fn discovered(colors: Seq<Color>, reals: Seq<usize>, x: usize) -> bool {
    exists|v: int| 0 <= v < colors.len() && colors[v] != Color::White && (#[trigger] reals[v]) == x
}

/// The traversal engine: a color per virtual id, and the id map that
/// translates virtual ids back to real ids.
pub struct Dfs {
    pub colors: Vec<Color>,
    pub id_map: IdMap,
}

impl Dfs {
    /// Ready to traverse `g`: the id map reflects its current live set and
    /// every vertex is unvisited.
    pub open spec fn fresh_for(self, g: AdjMatrix) -> bool {
        &&& self.id_map.virt_to_real@ == g.live_seq()
        &&& self.colors@.len() == g.live_seq().len()
        &&& forall|v: int| 0 <= v < self.colors@.len() ==> (#[trigger] self.colors@[v]) == Color::White
    }

    pub fn init(graph: &AdjMatrix) -> (d: Dfs)
        requires
            graph.wf(),
        ensures
            d.fresh_for(*graph),
    {
        let id_map = graph.continuous_id_map();
        let n = id_map.len();
        let mut colors: Vec<Color> = Vec::new();
        let mut k: usize = 0;
        while k < n
            invariant
                k <= n,
                colors@.len() == k,
                forall|v: int| 0 <= v < k ==> (#[trigger] colors@[v]) == Color::White,
            decreases n - k,
        {
            colors.push(Color::White);
            k = k + 1;
        }
        Dfs { colors, id_map }
    }

    /// Walks one traversal tree from the unvisited vertex `root`: marks it
    /// and every vertex reached through unvisited neighbors, reporting each
    /// discovery to the listener, then seals the grouping. The sealed
    /// grouping holds exactly the vertices this tree discovered, once each.
    #[verifier::loop_isolation(false)]
    fn visit_tree<L: DfsListener>(&mut self, graph: &AdjMatrix, listener: &mut L, root: usize)
        requires
            graph.wf(),
            old(self).id_map.virt_to_real@ == graph.live_seq(),
            old(self).colors@.len() == graph.live_seq().len(),
            root < old(self).colors@.len(),
            old(self).colors@[root as int] == Color::White,
            old(listener).pending() == Seq::<usize>::empty(),
            black_closed(old(self).colors@, old(self).id_map.virt_to_real@, *graph),
            no_grays(old(self).colors@),
        ensures
            final(self).id_map == old(self).id_map,
            final(self).colors@.len() == old(self).colors@.len(),
            black_closed(final(self).colors@, old(self).id_map.virt_to_real@, *graph),
            no_grays(final(self).colors@),
            final(listener).pending() == Seq::<usize>::empty(),
            final(listener).sealed() == old(listener).sealed().push(
                final(listener).sealed().last(),
            ),
            ({
                let comp = final(listener).sealed().last();
                let reals = old(self).id_map.virt_to_real@;
                &&& comp.len() > 0
                &&& comp.no_duplicates()
                &&& forall|x: usize|
                    #[trigger] comp.contains(x) <==> discovered(final(self).colors@, reals, x)
                        && !discovered(old(self).colors@, reals, x)
                &&& forall|x: usize|
                    #[trigger] comp.contains(x) ==> connected_in(
                        *graph,
                        reals[root as int],
                        x,
                    )
                &&& comp[0] == reals[root as int]
            }),
            forall|v: int|
                0 <= v < old(self).colors@.len() && old(self).colors@[v] != Color::White ==> (
                #[trigger] final(self).colors@[v]) == old(self).colors@[v],
            final(self).colors@[root as int] != Color::White,
    {
        let ghost reals = self.id_map.virt_to_real@;
        let ghost n = self.colors@.len();
        let ghost colors0 = self.colors@;
        let ghost sealed_in = listener.sealed();
        proof {
            lemma_live_below_props(*graph, graph.total());
            assert(self.colors@.len() == vstd::std_specs::vec::spec_vec_len(&self.colors));
        }
        let real_root = self.id_map.real_id_of(root);
        self.colors[root] = Color::Gray;
        listener.on_white(real_root);
        let mut stack: Vec<usize> = Vec::new();
        stack.push(root);
        proof {
            assert forall|x: usize| #[trigger] listener.pending().contains(x)
                implies discovered(self.colors@, reals, x) && !discovered(colors0, reals, x) by {
                assert(listener.pending()[0] == real_root);
                assert(x == real_root);
                assert(self.colors@[root as int] != Color::White && reals[root as int] == x);
                if discovered(colors0, reals, x) {
                    let v = choose|v: int|
                        0 <= v < colors0.len() && colors0[v] != Color::White && (#[trigger] reals[v])
                            == x;
                    assert(reals[v] == reals[root as int]);
                }
            }
            assert forall|x: usize|
                discovered(self.colors@, reals, x) && !discovered(colors0, reals, x)
                implies #[trigger] listener.pending().contains(x) by {
                let v = choose|v: int|
                    0 <= v < self.colors@.len() && self.colors@[v] != Color::White && (
                    #[trigger] reals[v]) == x;
                assert(colors0[v] != Color::White || v == root);
                assert(listener.pending()[0] == x);
            }
            assert forall|v: int| 0 <= v < n && (#[trigger] self.colors@[v]) == Color::Gray
                implies stack@.contains(v as usize) by {
                assert(colors0[v] != Color::Gray);
                assert(v == root);
                assert(stack@[0] == v as usize);
            }
            assert forall|v: int, w: int|
                0 <= v < n && 0 <= w < n && self.colors@[v] == Color::Black && (
                #[trigger] graph.edge_at(reals[v], reals[w])).spec_is_finite() && graph.live(
                    reals[w],
                ) implies (#[trigger] self.colors@[w]) != Color::White by {
                assert(colors0[v] == Color::Black);
                assert(colors0[w] != Color::White);
            }
            assert forall|x: usize| #[trigger] listener.pending().contains(x)
                implies connected_in(*graph, reals[root as int], x) by {
                assert(x == real_root);
                lemma_connected_refl(*graph, real_root);
            }
        }
        while stack.len() > 0
            invariant
                graph.wf(),
                self.id_map == old(self).id_map,
                reals == self.id_map.virt_to_real@,
                reals == graph.live_seq(),
                n == self.colors@.len(),
                n == reals.len(),
                root < n,
                listener.sealed() == sealed_in,
                listener.pending().no_duplicates(),
                listener.pending().len() > 0,
                listener.pending()[0] == reals[root as int],
                forall|x: usize|
                    #[trigger] listener.pending().contains(x) <==> discovered(
                        self.colors@,
                        reals,
                        x,
                    ) && !discovered(colors0, reals, x),
                forall|v: int|
                    0 <= v < n && colors0[v] != Color::White ==> (#[trigger] self.colors@[v])
                        == colors0[v],
                forall|s: int|
                    0 <= s < stack@.len() ==> (#[trigger] stack@[s]) < n && self.colors@[stack@[s] as int]
                        != Color::White && colors0[stack@[s] as int] == Color::White,
                self.colors@[root as int] != Color::White,
                black_closed(self.colors@, reals, *graph),
                forall|v: int|
                    0 <= v < n && (#[trigger] self.colors@[v]) == Color::Gray ==> stack@.contains(
                        v as usize,
                    ),
                forall|x: usize|
                    #[trigger] listener.pending().contains(x) ==> connected_in(
                        *graph,
                        reals[root as int],
                        x,
                    ),
            decreases count_white(self.colors@), stack@.len(),
        {
            let ghost stack0 = stack@;
            let v = stack[stack.len() - 1];
            let real_v = self.id_map.real_id_of(v);
            proof {
                assert(reals.contains(real_v)) by {
                    assert(reals[v as int] == real_v);
                }
            }
            let nbrs = graph.neighbors(real_v);
            let mut found: Option<usize> = None;
            let mut idx: usize = 0;
            while idx < nbrs.len() && found.is_none()
                invariant
                    graph.wf(),
                    reals == self.id_map.virt_to_real@,
                    reals == graph.live_seq(),
                    n == self.colors@.len(),
                    n == reals.len(),
                    idx <= nbrs@.len(),
                    forall|w: usize| #[trigger] nbrs@.contains(w) ==> graph.live(w),
                    match found {
                        Some(w) => w < n && self.colors@[w as int] == Color::White
                            && nbrs@.contains(reals[w as int]),
                        None => forall|q: int, w: int|
                            0 <= q < idx && 0 <= w < n && reals[w] == (#[trigger] nbrs@[q]) ==> (
                            #[trigger] self.colors@[w]) != Color::White,
                    },
                decreases nbrs@.len() - idx,
            {
                let w_real = nbrs[idx];
                proof {
                    assert(nbrs@.contains(w_real));
                    assert(reals.contains(w_real));
                }
                let w = self.id_map.virt_id_of(w_real);
                let cw = self.colors[w];
                if matches!(cw, Color::White) {
                    found = Some(w);
                }
                idx = idx + 1;
            }
            match found {
                Some(w) => {
                    let ghost colors_pre = self.colors@;
                    let ghost pending_pre = listener.pending();
                    self.colors[w] = Color::Gray;
                    proof {
                        lemma_count_white_update(colors_pre, w as int, Color::Gray);
                    }
                    let w_real = self.id_map.real_id_of(w);
                    listener.on_white(w_real);
                    stack.push(w);
                    proof {
                        assert(!discovered(colors_pre, reals, w_real)) by {
                            if discovered(colors_pre, reals, w_real) {
                                let u = choose|u: int|
                                    0 <= u < colors_pre.len() && colors_pre[u] != Color::White && (
                                    #[trigger] reals[u]) == w_real;
                                assert(reals[u] == reals[w as int]);
                            }
                        }
                        assert(!pending_pre.contains(w_real));
                        assert forall|x: usize| #[trigger] listener.pending().contains(x)
                            implies discovered(self.colors@, reals, x) && !discovered(
                            colors0,
                            reals,
                            x,
                        ) by {
                            if x == w_real {
                                assert(self.colors@[w as int] != Color::White && reals[w as int]
                                    == x);
                            } else {
                                let p = choose|p: int|
                                    0 <= p < listener.pending().len() && listener.pending()[p]
                                        == x;
                                assert(pending_pre[p] == x);
                                assert(pending_pre.contains(x));
                                let u = choose|u: int|
                                    0 <= u < colors_pre.len() && colors_pre[u] != Color::White && (
                                    #[trigger] reals[u]) == x;
                                assert(self.colors@[u] != Color::White && reals[u] == x);
                            }
                        }
                        assert forall|x: usize|
                            discovered(self.colors@, reals, x) && !discovered(colors0, reals, x)
                            implies #[trigger] listener.pending().contains(x) by {
                            let u = choose|u: int|
                                0 <= u < self.colors@.len() && self.colors@[u] != Color::White && (
                                #[trigger] reals[u]) == x;
                            if u == w as int {
                                assert(listener.pending().last() == x);
                            } else {
                                assert(colors_pre[u] != Color::White);
                                assert(pending_pre.contains(x));
                                let p = choose|p: int|
                                    0 <= p < pending_pre.len() && pending_pre[p] == x;
                                assert(listener.pending()[p] == x);
                            }
                        }
                        assert(listener.pending().no_duplicates()) by {
                            assert(listener.pending() == pending_pre.push(w_real));
                            assert forall|p: int, q: int|
                                0 <= p < q < listener.pending().len()
                                implies listener.pending()[p] != listener.pending()[q] by {
                                if q < pending_pre.len() {
                                    assert(pending_pre[p] != pending_pre[q]);
                                } else {
                                    assert(pending_pre[p] == listener.pending()[p]);
                                    assert(pending_pre.contains(pending_pre[p]));
                                }
                            }
                        }
                        assert forall|u: int|
                            0 <= u < n && (#[trigger] self.colors@[u]) == Color::Gray
                            implies stack@.contains(u as usize) by {
                            if u == w as int {
                                assert(stack@.last() == w);
                            } else {
                                assert(colors_pre[u] == Color::Gray);
                                assert(stack0.contains(u as usize));
                                let q = choose|q: int|
                                    0 <= q < stack0.len() && stack0[q] == u as usize;
                                assert(stack@[q] == u as usize);
                            }
                        }
                        assert forall|u: int, t: int|
                            0 <= u < n && 0 <= t < n && self.colors@[u] == Color::Black && (
                            #[trigger] graph.edge_at(reals[u], reals[t])).spec_is_finite()
                                && graph.live(reals[t])
                            implies (#[trigger] self.colors@[t]) != Color::White by {
                            assert(colors_pre[u] == Color::Black);
                            assert(colors_pre[t] != Color::White);
                        }
                        assert(pending_pre.contains(real_v)) by {
                            assert(colors_pre[v as int] != Color::White);
                            assert(colors0[v as int] == Color::White);
                            assert(!discovered(colors0, reals, real_v)) by {
                                if discovered(colors0, reals, real_v) {
                                    let u = choose|u: int|
                                        0 <= u < colors0.len() && colors0[u] != Color::White && (
                                        #[trigger] reals[u]) == real_v;
                                    assert(reals[u] == reals[v as int]);
                                }
                            }
                            assert(discovered(colors_pre, reals, real_v));
                        }
                        assert forall|x: usize| #[trigger] listener.pending().contains(x)
                            implies connected_in(*graph, reals[root as int], x) by {
                            if x == w_real {
                                assert(connected_in(*graph, reals[root as int], real_v));
                                assert(nbrs@.contains(w_real));
                                assert(adjacent_in(*graph, real_v, w_real));
                                lemma_connected_step(*graph, reals[root as int], real_v, w_real);
                            } else {
                                let q = choose|q: int|
                                    0 <= q < listener.pending().len() && listener.pending()[q]
                                        == x;
                                assert(pending_pre[q] == x);
                                assert(pending_pre.contains(x));
                            }
                        }
                    }
                },
                None => {
                    let ghost colors_pre = self.colors@;
                    self.colors[v] = Color::Black;
                    proof {
                        lemma_count_white_update(colors_pre, v as int, Color::Black);
                    }
                    stack.pop();
                    proof {
                        assert forall|x: usize| #[trigger] listener.pending().contains(x)
                            implies discovered(self.colors@, reals, x) && !discovered(
                            colors0,
                            reals,
                            x,
                        ) by {
                            let u = choose|u: int|
                                0 <= u < colors_pre.len() && colors_pre[u] != Color::White && (
                                #[trigger] reals[u]) == x;
                            assert(self.colors@[u] != Color::White && reals[u] == x);
                        }
                        assert forall|x: usize|
                            discovered(self.colors@, reals, x) && !discovered(colors0, reals, x)
                            implies #[trigger] listener.pending().contains(x) by {
                            let u = choose|u: int|
                                0 <= u < self.colors@.len() && self.colors@[u] != Color::White && (
                                #[trigger] reals[u]) == x;
                            assert(colors_pre[u] != Color::White && reals[u] == x);
                        }
                        assert forall|u: int|
                            0 <= u < n && (#[trigger] self.colors@[u]) == Color::Gray
                            implies stack@.contains(u as usize) by {
                            assert(colors_pre[u] == Color::Gray);
                            assert(u != v as int);
                            assert(stack0.contains(u as usize));
                            let q = choose|q: int|
                                0 <= q < stack0.len() && stack0[q] == u as usize;
                            assert(stack0[stack0.len() - 1] == v);
                            assert(q < stack0.len() - 1);
                            assert(stack@[q] == u as usize);
                        }
                        assert forall|u: int, t: int|
                            0 <= u < n && 0 <= t < n && self.colors@[u] == Color::Black && (
                            #[trigger] graph.edge_at(reals[u], reals[t])).spec_is_finite()
                                && graph.live(reals[t])
                            implies (#[trigger] self.colors@[t]) != Color::White by {
                            if u != v as int {
                                assert(colors_pre[u] == Color::Black);
                                assert(colors_pre[t] != Color::White);
                            } else {
                                assert(reals[u] == real_v);
                                assert(nbrs@.contains(reals[t]));
                                let q = choose|q: int|
                                    0 <= q < nbrs@.len() && nbrs@[q] == reals[t];
                                assert(colors_pre[t] != Color::White);
                            }
                        }
                    }
                },
            }
        }
        listener.on_finish();
    }

    /// Walks every tree of the graph: restarts from a fresh unvisited
    /// vertex while one remains, so every live vertex is discovered exactly
    /// once and the groupings this call adds to the listener partition the
    /// live vertex set.
    #[verifier::loop_isolation(false)]
    pub fn execute<L: DfsListener>(&mut self, graph: &AdjMatrix, listener: &mut L)
        requires
            graph.wf(),
            old(self).fresh_for(*graph),
            old(listener).pending() == Seq::<usize>::empty(),
        ensures
            final(listener).pending() == Seq::<usize>::empty(),
            final(listener).sealed().len() >= old(listener).sealed().len(),
            final(listener).sealed().subrange(0, old(listener).sealed().len() as int) == old(
                listener,
            ).sealed(),
            partitions_live_set(
                final(listener).sealed().skip(old(listener).sealed().len() as int),
                *graph,
            ),
            graph.edge_type == EdgeType::Undirected ==> components_closed(
                final(listener).sealed().skip(old(listener).sealed().len() as int),
                *graph,
            ),
            graph.edge_type == EdgeType::Undirected ==> components_connected(
                final(listener).sealed().skip(old(listener).sealed().len() as int),
                *graph,
            ),
            components_min_first(
                final(listener).sealed().skip(old(listener).sealed().len() as int),
            ),
    {
        let ghost reals = self.id_map.virt_to_real@;
        let ghost sealed0 = old(listener).sealed();
        let n = self.id_map.len();
        proof {
            lemma_live_below_props(*graph, graph.total());
            assert(listener.sealed().skip(sealed0.len() as int) =~= Seq::<Seq<usize>>::empty());
            assert(listener.sealed().subrange(0, sealed0.len() as int) =~= sealed0);
            assert forall|x: usize|
                #[trigger] concat_all(listener.sealed().skip(sealed0.len() as int)).contains(x)
                    <==> discovered(self.colors@, reals, x) by {
                if discovered(self.colors@, reals, x) {
                    let v = choose|v: int|
                        0 <= v < self.colors@.len() && self.colors@[v] != Color::White && (
                        #[trigger] reals[v]) == x;
                }
            }
        }
        let mut root: usize = 0;
        while root < n
            invariant
                self.id_map == old(self).id_map,
                self.colors@.len() == n,
                root <= n,
                listener.pending() == Seq::<usize>::empty(),
                listener.sealed().len() >= sealed0.len(),
                listener.sealed().subrange(0, sealed0.len() as int) == sealed0,
                forall|x: usize|
                    #[trigger] concat_all(listener.sealed().skip(sealed0.len() as int)).contains(x)
                        <==> discovered(self.colors@, reals, x),
                concat_all(listener.sealed().skip(sealed0.len() as int)).no_duplicates(),
                forall|k: int|
                    0 <= k < listener.sealed().skip(sealed0.len() as int).len() ==> (
                    #[trigger] listener.sealed().skip(sealed0.len() as int)[k]).len() > 0,
                forall|v: int| 0 <= v < root ==> (#[trigger] self.colors@[v]) != Color::White,
                no_grays(self.colors@),
                black_closed(self.colors@, reals, *graph),
                components_min_first(listener.sealed().skip(sealed0.len() as int)),
                graph.edge_type == EdgeType::Undirected ==> components_closed(
                    listener.sealed().skip(sealed0.len() as int),
                    *graph,
                ),
                graph.edge_type == EdgeType::Undirected ==> components_connected(
                    listener.sealed().skip(sealed0.len() as int),
                    *graph,
                ),
            decreases n - root,
        {
            let c = self.colors[root];
            if matches!(c, Color::White) {
                let ghost colors_pre = self.colors@;
                let ghost sealed_pre = listener.sealed();
                let ghost delta_pre = sealed_pre.skip(sealed0.len() as int);
                self.visit_tree(graph, listener, root);
                proof {
                    let comp = listener.sealed().last();
                    let delta = listener.sealed().skip(sealed0.len() as int);
                    assert(delta =~= delta_pre.push(comp));
                    lemma_concat_all_push(delta_pre, comp);
                    assert(listener.sealed().subrange(0, sealed0.len() as int) =~= sealed0);
                    let cat_pre = concat_all(delta_pre);
                    let cat = concat_all(delta);
                    assert(cat == cat_pre + comp);
                    lemma_concat_contains_split(cat_pre, comp);
                    assert forall|x: usize| #[trigger] cat.contains(x)
                        implies discovered(self.colors@, reals, x) by {
                        if cat_pre.contains(x) {
                            let u = choose|u: int|
                                0 <= u < colors_pre.len() && colors_pre[u] != Color::White && (
                                #[trigger] reals[u]) == x;
                            assert(self.colors@[u] == colors_pre[u]);
                        }
                    }
                    assert forall|x: usize| discovered(self.colors@, reals, x)
                        implies #[trigger] cat.contains(x) by {
                        if discovered(colors_pre, reals, x) {
                            assert(cat_pre.contains(x));
                        } else {
                            assert(comp.contains(x));
                        }
                    }
                    assert(cat.no_duplicates()) by {
                        assert forall|i: int, j: int|
                            0 <= i < cat_pre.len() && 0 <= j < comp.len()
                            implies cat_pre[i] != comp[j] by {
                            if cat_pre[i] == comp[j] {
                                let x = cat_pre[i];
                                assert(cat_pre.contains(x));
                                assert(comp.contains(x));
                                let u = choose|u: int|
                                    0 <= u < colors_pre.len() && colors_pre[u] != Color::White && (
                                    #[trigger] reals[u]) == x;
                            }
                        }
                        vstd::seq_lib::lemma_no_dup_in_concat(cat_pre, comp);
                    }
                    assert forall|k: int| 0 <= k < delta.len()
                        implies (#[trigger] delta[k]).len() > 0 by {
                        if k < delta_pre.len() {
                            assert(delta_pre[k].len() > 0);
                        }
                    }
                    assert forall|k: int, x: usize|
                        0 <= k < delta.len() && #[trigger] delta[k].contains(x)
                        implies delta[k][0] <= x by {
                        if k < delta_pre.len() {
                            assert(delta_pre[k].contains(x));
                            assert(delta_pre[k][0] <= x);
                        } else {
                            assert(comp.contains(x));
                            assert(!discovered(colors_pre, reals, x));
                            assert(discovered(self.colors@, reals, x));
                            let vx = choose|vx: int|
                                0 <= vx < self.colors@.len() && self.colors@[vx] != Color::White
                                    && (#[trigger] reals[vx]) == x;
                            assert(colors_pre[vx] == Color::White);
                            assert(vx >= root);
                            if vx > root {
                                assert(reals[root as int] < reals[vx]);
                            }
                            assert(comp[0] == reals[root as int]);
                        }
                    }
                    if graph.edge_type == EdgeType::Undirected {
                        let rr = reals[root as int];
                        assert forall|k: int, x: usize, y: usize|
                            0 <= k < delta.len() && #[trigger] delta[k].contains(x)
                                && #[trigger] delta[k].contains(y)
                            implies connected_in(*graph, x, y) by {
                            if k < delta_pre.len() {
                                assert(delta_pre[k].contains(x));
                                assert(delta_pre[k].contains(y));
                            } else {
                                assert(comp.contains(x));
                                assert(comp.contains(y));
                                assert(connected_in(*graph, rr, x));
                                assert(connected_in(*graph, rr, y));
                                lemma_connected_sym(*graph, rr, x);
                                lemma_connected_trans(*graph, x, rr, y);
                            }
                        }
                        lemma_concat_all_disjoint(delta);
                        assert forall|k: int, x: usize, y: usize|
                            0 <= k < delta.len() && (#[trigger] delta[k]).contains(x)
                                && graph.live(y) && (#[trigger] graph.edge_at(
                                x,
                                y,
                            )).spec_is_finite() implies delta[k].contains(y) by {
                            if k < delta_pre.len() {
                                assert(delta_pre[k].contains(x));
                                assert(delta_pre[k].contains(y));
                            } else {
                                assert(comp.contains(x));
                                let vx = choose|vx: int|
                                    0 <= vx < self.colors@.len() && self.colors@[vx]
                                        != Color::White && (#[trigger] reals[vx]) == x;
                                assert(self.colors@[vx] == Color::Black);
                                assert(reals.contains(y));
                                let w = choose|w: int| 0 <= w < reals.len() && reals[w] == y;
                                assert(graph.edge_at(reals[vx], reals[w]).spec_is_finite());
                                assert(self.colors@[w] != Color::White);
                                assert(discovered(self.colors@, reals, y));
                                assert(cat.contains(y));
                                lemma_concat_all_contains(delta, y);
                                let k2 = choose|k2: int|
                                    0 <= k2 < delta.len() && (#[trigger] delta[k2]).contains(y);
                                if k2 < delta_pre.len() {
                                    assert(graph.edge_at(y, x) == graph.edge_at(x, y));
                                    assert(graph.live(x)) by {
                                        assert(reals.contains(x));
                                    }
                                    assert(delta_pre[k2].contains(y));
                                    assert(delta_pre[k2].contains(x));
                                    assert(delta[k2].contains(x));
                                    assert(false);
                                } else {
                                    assert(delta[k].contains(y));
                                }
                            }
                        }
                    }
                }
            }
            root = root + 1;
        }
        proof {
            let delta = listener.sealed().skip(sealed0.len() as int);
            assert forall|x: usize| #[trigger] concat_all(delta).contains(x)
                implies graph.live(x) by {
                let v = choose|v: int|
                    0 <= v < self.colors@.len() && self.colors@[v] != Color::White && (
                    #[trigger] reals[v]) == x;
                assert(reals.contains(x));
            }
            assert forall|x: usize| graph.live(x)
                implies #[trigger] concat_all(delta).contains(x) by {
                assert(reals.contains(x));
                let v = choose|v: int| 0 <= v < reals.len() && reals[v] == x;
                assert(self.colors@[v] != Color::White);
                assert(discovered(self.colors@, reals, x));
            }
        }
    }
}

/// Membership in a concatenation splits over its halves.
proof fn lemma_concat_contains_split(a: Seq<usize>, b: Seq<usize>)
    ensures
        forall|x: usize| #[trigger] (a + b).contains(x) <==> a.contains(x) || b.contains(x),
{
    assert forall|x: usize| #[trigger] (a + b).contains(x) implies a.contains(x) || b.contains(
        x,
    ) by {
        let p = choose|p: int| 0 <= p < (a + b).len() && (a + b)[p] == x;
        if p < a.len() {
            assert(a[p] == x);
        } else {
            assert(b[p - a.len()] == x);
        }
    }
    assert forall|x: usize| a.contains(x) || b.contains(x) implies #[trigger] (a + b).contains(
        x,
    ) by {
        if a.contains(x) {
            let p = choose|p: int| 0 <= p < a.len() && a[p] == x;
            assert((a + b)[p] == x);
        } else {
            let p = choose|p: int| 0 <= p < b.len() && b[p] == x;
            assert((a + b)[a.len() + p] == x);
        }
    }
}

proof fn lemma_count_white_update(colors: Seq<Color>, i: int, c: Color)
    requires
        0 <= i < colors.len(),
        c != Color::White,
    ensures
        colors[i] == Color::White ==> count_white(colors.update(i, c)) == count_white(colors) - 1,
        colors[i] != Color::White ==> count_white(colors.update(i, c)) == count_white(colors),
    decreases colors.len(),
{
    let updated = colors.update(i, c);
    if i == colors.len() - 1 {
        assert(updated.drop_last() =~= colors.drop_last());
    } else {
        assert(updated.drop_last() =~= colors.drop_last().update(i, c));
        lemma_count_white_update(colors.drop_last(), i, c);
    }
}

} // verus!
