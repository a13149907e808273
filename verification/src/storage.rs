//! Adjacency-matrix storage for directed and undirected graphs.
//!
//! A flat vector of weight-or-absent slots backs the matrix. A directed
//! graph with `n` vertices uses a full `n * n` layout; an undirected graph
//! stores only the triangular half (diagonal included), so `(i, j)` and
//! `(j, i)` resolve to the same slot. Removed vertex ids are recycled
//! through a reusable-id list rather than compacting the storage.

use vstd::prelude::*;

verus! {

/// Direction capability of a stored graph.
#[derive(Clone, Copy, PartialEq, Eq, Structural, Debug)]
pub enum EdgeType {
    Directed,
    Undirected,
}

impl EdgeType {
    pub fn is_directed(&self) -> (r: bool)
        ensures
            r == (*self == EdgeType::Directed),
    {
        matches!(self, EdgeType::Directed)
    }

    pub fn is_undirected(&self) -> (r: bool)
        ensures
            r == (*self == EdgeType::Undirected),
    {
        matches!(self, EdgeType::Undirected)
    }
}

/// A matrix slot: either a finite edge weight or the absence sentinel,
/// which stands for "no edge here" and orders above every finite weight.
#[derive(Clone, Copy, PartialEq, Eq, Structural, Debug)]
pub enum Weight {
    Finite(u64),
    Infinite,
}

impl Weight {
    pub open spec fn spec_is_finite(self) -> bool {
        self is Finite
    }

    pub open spec fn spec_is_infinite(self) -> bool {
        self is Infinite
    }

    pub fn is_finite(&self) -> (r: bool)
        ensures
            r == self.spec_is_finite(),
    {
        matches!(self, Weight::Finite(_))
    }

    pub fn is_infinite(&self) -> (r: bool)
        ensures
            r == self.spec_is_infinite(),
    {
        matches!(self, Weight::Infinite)
    }

    /// The order on slots: finite weights by value, the absence sentinel
    /// above all of them.
    pub open spec fn spec_le(self, other: Weight) -> bool {
        match (self, other) {
            (Weight::Finite(a), Weight::Finite(b)) => a <= b,
            (Weight::Finite(_), Weight::Infinite) => true,
            (Weight::Infinite, Weight::Finite(_)) => false,
            (Weight::Infinite, Weight::Infinite) => true,
        }
    }

    pub fn le(&self, other: &Weight) -> (r: bool)
        ensures
            r == self.spec_le(*other),
    {
        match (self, other) {
            (Weight::Finite(a), Weight::Finite(b)) => *a <= *b,
            (Weight::Finite(_), Weight::Infinite) => true,
            (Weight::Infinite, Weight::Finite(_)) => false,
            (Weight::Infinite, Weight::Infinite) => true,
        }
    }
}

/// Failure conditions of slot access: a vertex id that is not live, or a
/// computed slot index beyond the backing storage. The two are
/// distinguishable by the caller.
#[derive(Clone, Copy, PartialEq, Eq, Structural, Debug)]
pub enum GraphError {
    InvalidVertex(usize),
    OutOfBounds,
}

/// The n-th triangular number: number of slots an undirected matrix with
/// `n` vertices occupies.
pub open spec fn tri(n: nat) -> nat
    decreases n,
{
    if n == 0 {
        0
    } else {
        tri((n - 1) as nat) + n
    }
}

/// Backing-storage length required for `n` vertices under `et`.
pub open spec fn storage_size(n: nat, et: EdgeType) -> nat {
    if et == EdgeType::Directed {
        n * n
    } else {
        tri(n)
    }
}

/// Closed-form slot index of the pair `(i, j)`.
///
/// Directed layout: the block of vertex `m = max(i, j)` occupies indices
/// `[m * m, (m + 1) * (m + 1))`; row entries `(m, j)` come first, then
/// column entries `(i, m)`. Undirected layout: the triangular offset of
/// the unordered pair, so `(i, j)` and `(j, i)` share one slot.
pub open spec fn slot_index(i: nat, j: nat, et: EdgeType) -> nat {
    if et == EdgeType::Directed {
        if i >= j {
            i * i + j
        } else {
            j * j + j + i + 1
        }
    } else {
        if i >= j {
            tri(i) + j
        } else {
            tri(j) + i
        }
    }
}

/// Whether two index pairs resolve to the same slot: equality for a
/// directed layout, unordered equality for an undirected one.
pub open spec fn same_slot_pair(i1: nat, j1: nat, i2: nat, j2: nat, et: EdgeType) -> bool {
    if et == EdgeType::Directed {
        i1 == i2 && j1 == j2
    } else {
        (i1 == i2 && j1 == j2) || (i1 == j2 && j1 == i2)
    }
}

pub proof fn lemma_tri_monotone(a: nat, b: nat)
    requires
        a <= b,
    ensures
        tri(a) <= tri(b),
    decreases b,
{
    if a < b {
        lemma_tri_monotone(a, (b - 1) as nat);
    }
}

pub proof fn lemma_tri_at_least(n: nat)
    ensures
        n <= tri(n),
    decreases n,
{
    if n > 0 {
        lemma_tri_at_least((n - 1) as nat);
    }
}

/// A vertex count never exceeds the storage it requires.
pub proof fn lemma_count_le_storage_size(n: nat, et: EdgeType)
    ensures
        n <= storage_size(n, et),
{
    if et == EdgeType::Directed {
        assert(n <= n * n) by (nonlinear_arith);
    } else {
        lemma_tri_at_least(n);
    }
}

/// Adding one vertex grows the storage by `2n + 1` slots (directed) or
/// `n + 1` slots (undirected).
pub proof fn lemma_storage_size_step(n: nat, et: EdgeType)
    ensures
        et == EdgeType::Directed ==> storage_size(n + 1, et) == storage_size(n, et) + 2 * n + 1,
        et == EdgeType::Undirected ==> storage_size(n + 1, et) == storage_size(n, et) + n + 1,
{
    if et == EdgeType::Directed {
        assert((n + 1) * (n + 1) == n * n + 2 * n + 1) by (nonlinear_arith);
    }
}

/// Any pair of in-range vertex ids resolves to a slot inside the storage.
pub proof fn lemma_slot_in_bounds(i: nat, j: nat, n: nat, et: EdgeType)
    requires
        i < n,
        j < n,
    ensures
        slot_index(i, j, et) < storage_size(n, et),
{
    if et == EdgeType::Directed {
        if i >= j {
            assert(i * i + j < n * n) by (nonlinear_arith)
                requires j <= i < n;
        } else {
            assert(j * j + j + i + 1 < n * n) by (nonlinear_arith)
                requires i < j < n;
        }
    } else {
        let hi: nat = if i >= j { i } else { j };
        let lo: nat = if i >= j { j } else { i };
        assert(tri(hi) + lo < tri(hi + 1));
        lemma_tri_monotone(hi + 1, n);
    }
}

/// A pair with an out-of-range id resolves to a slot beyond the storage.
pub proof fn lemma_slot_out_of_bounds(i: nat, j: nat, n: nat, et: EdgeType)
    requires
        i >= n || j >= n,
    ensures
        slot_index(i, j, et) >= storage_size(n, et),
{
    let m: nat = if i >= j { i } else { j };
    if et == EdgeType::Directed {
        if i >= j {
            assert(n * n <= i * i && i * i <= i * i + j) by (nonlinear_arith)
                requires n <= i;
        } else {
            assert(n * n <= j * j && j * j <= j * j + j + i + 1) by (nonlinear_arith)
                requires n <= j;
        }
    } else {
        lemma_tri_monotone(n, m);
    }
}

/// Distinct pairs (distinct as the layout sees them) resolve to distinct
/// slots: the index formula is injective.
pub proof fn lemma_slot_distinct(i1: nat, j1: nat, i2: nat, j2: nat, et: EdgeType)
    requires
        !same_slot_pair(i1, j1, i2, j2, et),
    ensures
        slot_index(i1, j1, et) != slot_index(i2, j2, et),
{
    if et == EdgeType::Directed {
        let m1: nat = if i1 >= j1 { i1 } else { j1 };
        let m2: nat = if i2 >= j2 { i2 } else { j2 };
        if i1 >= j1 {
            assert(m1 * m1 <= i1 * i1 + j1 <= m1 * m1 + 2 * m1) by (nonlinear_arith)
                requires j1 <= i1, m1 == i1;
        } else {
            assert(m1 * m1 <= j1 * j1 + j1 + i1 + 1 <= m1 * m1 + 2 * m1) by (nonlinear_arith)
                requires i1 < j1, m1 == j1;
        }
        if i2 >= j2 {
            assert(m2 * m2 <= i2 * i2 + j2 <= m2 * m2 + 2 * m2) by (nonlinear_arith)
                requires j2 <= i2, m2 == i2;
        } else {
            assert(m2 * m2 <= j2 * j2 + j2 + i2 + 1 <= m2 * m2 + 2 * m2) by (nonlinear_arith)
                requires i2 < j2, m2 == j2;
        }
        if m1 < m2 {
            assert(m1 * m1 + 2 * m1 < m2 * m2) by (nonlinear_arith)
                requires m1 < m2;
        } else if m2 < m1 {
            assert(m2 * m2 + 2 * m2 < m1 * m1) by (nonlinear_arith)
                requires m2 < m1;
        } else {
            assert(m1 * m1 == m2 * m2) by (nonlinear_arith)
                requires m1 == m2;
        }
    } else {
        let hi1: nat = if i1 >= j1 { i1 } else { j1 };
        let lo1: nat = if i1 >= j1 { j1 } else { i1 };
        let hi2: nat = if i2 >= j2 { i2 } else { j2 };
        let lo2: nat = if i2 >= j2 { j2 } else { i2 };
        if hi1 < hi2 {
            assert(tri(hi1) + lo1 < tri(hi1 + 1));
            lemma_tri_monotone(hi1 + 1, hi2);
        } else if hi2 < hi1 {
            assert(tri(hi2) + lo2 < tri(hi2 + 1));
            lemma_tri_monotone(hi2 + 1, hi1);
        }
    }
}

/// Exec computation of the triangular number by summation.
fn tri_exec(m: usize) -> (t: usize)
    requires
        tri(m as nat) <= usize::MAX,
    ensures
        t == tri(m as nat),
{
    let mut t: usize = 0;
    let mut k: usize = 0;
    while k < m
        invariant
            k <= m,
            t == tri(k as nat),
            tri(m as nat) <= usize::MAX,
        decreases m - k,
    {
        proof {
            lemma_tri_monotone(k as nat + 1, m as nat);
        }
        t = t + (k + 1);
        k = k + 1;
    }
    t
}

/// Exec computation of the closed-form slot index.
fn slot_index_exec(i: usize, j: usize, et: EdgeType) -> (idx: usize)
    requires
        slot_index(i as nat, j as nat, et) <= usize::MAX,
    ensures
        idx == slot_index(i as nat, j as nat, et),
{
    if et.is_directed() {
        if i >= j {
            proof {
                assert(i * i <= i * i + j) by (nonlinear_arith);
            }
            i * i + j
        } else {
            proof {
                assert(j * j + j + i <= j * j + j + i + 1) by (nonlinear_arith);
            }
            j * j + j + i + 1
        }
    } else {
        let hi = if i >= j { i } else { j };
        let lo = if i >= j { j } else { i };
        let t = tri_exec(hi);
        t + lo
    }
}

/// Linear membership scan over an id list.
fn contains_id(ids: &Vec<usize>, x: usize) -> (r: bool)
    ensures
        r == ids@.contains(x),
{
    let mut k: usize = 0;
    while k < ids.len()
        invariant
            k <= ids@.len(),
            forall|p: int| 0 <= p < k ==> ids@[p] != x,
        decreases ids@.len() - k,
    {
        if ids[k] == x {
            return true;
        }
        k = k + 1;
    }
    false
}

/// Adjacency-matrix storage: a flat slot vector, the recycled-id list,
/// the live-vertex count, and the direction of the stored graph.
#[verifier::ext_equal]
pub struct AdjMatrix {
    pub slots: Vec<Weight>,
    pub reusable_ids: Vec<usize>,
    pub vertex_count: usize,
    pub edge_type: EdgeType,
}

impl AdjMatrix {
    /// Live vertices plus recycled ids: the width the matrix is sized for.
    pub open spec fn total(self) -> nat {
        (self.vertex_count + self.reusable_ids@.len()) as nat
    }

    pub open spec fn is_reusable(self, id: usize) -> bool {
        self.reusable_ids@.contains(id)
    }

    /// A vertex id is live when it is inside the matrix width and not
    /// awaiting reuse.
    pub open spec fn live(self, id: usize) -> bool {
        id < self.total() && !self.is_reusable(id)
    }

    /// Well-formedness: the storage length matches the direction-specific
    /// growth formula, and recycled ids are in range and never duplicated.
    pub open spec fn wf(self) -> bool {
        &&& self.slots@.len() == storage_size(self.total(), self.edge_type)
        &&& forall|k: int|
            0 <= k < self.reusable_ids@.len() ==> (#[trigger] self.reusable_ids@[k]) < self.total()
        &&& self.reusable_ids@.no_duplicates()
    }

    /// The slot holding the edge from `i` to `j`.
    pub open spec fn edge_at(self, i: usize, j: usize) -> Weight {
        self.slots@[slot_index(i as nat, j as nat, self.edge_type) as int]
    }

    pub fn init(edge_type: EdgeType) -> (s: Self)
        ensures
            s.wf(),
            s.edge_type == edge_type,
            s.total() == 0,
            s.vertex_count == 0,
            s.reusable_ids@ == Seq::<usize>::empty(),
            s.slots@ == Seq::<Weight>::empty(),
    {
        let s = AdjMatrix {
            slots: Vec::new(),
            reusable_ids: Vec::new(),
            vertex_count: 0,
            edge_type,
        };
        proof {
            assert(s.reusable_ids@ =~= Seq::<usize>::empty());
            assert(s.slots@ =~= Seq::<Weight>::empty());
            assert(tri(0) == 0);
            assert(0 * 0 == 0) by (nonlinear_arith);
            assert(s.total() == 0);
        }
        s
    }

    pub fn vertex_count(&self) -> (r: usize)
        ensures
            r == self.vertex_count,
    {
        self.vertex_count
    }

    pub fn total_vertex_count(&self) -> (r: usize)
        requires
            self.wf(),
        ensures
            r == self.total(),
    {
        proof {
            assert(self.slots@.len() == vstd::std_specs::vec::spec_vec_len(&self.slots));
            lemma_count_le_storage_size(self.total(), self.edge_type);
        }
        self.vertex_count + self.reusable_ids.len()
    }

    pub fn is_directed(&self) -> (r: bool)
        ensures
            r == (self.edge_type == EdgeType::Directed),
    {
        self.edge_type.is_directed()
    }

    pub fn is_undirected(&self) -> (r: bool)
        ensures
            r == (self.edge_type == EdgeType::Undirected),
    {
        self.edge_type.is_undirected()
    }

    /// Whether `id` names a currently live vertex.
    pub fn is_live(&self, id: usize) -> (r: bool)
        requires
            self.wf(),
        ensures
            r == self.live(id),
    {
        id < self.total_vertex_count() && !contains_id(&self.reusable_ids, id)
    }

    fn next_reusable_id(&mut self) -> (r: Option<usize>)
        ensures
            final(self).slots == old(self).slots,
            final(self).vertex_count == old(self).vertex_count,
            final(self).edge_type == old(self).edge_type,
            match r {
                Some(id) => {
                    &&& old(self).reusable_ids@.len() > 0
                    &&& id == old(self).reusable_ids@.last()
                    &&& final(self).reusable_ids@ == old(self).reusable_ids@.drop_last()
                },
                None => {
                    &&& old(self).reusable_ids@.len() == 0
                    &&& final(self).reusable_ids@ == old(self).reusable_ids@
                },
            },
    {
        self.reusable_ids.pop()
    }

    /// Adds a vertex and returns its id: a recycled id when one is
    /// available, otherwise the next sequential id, growing the backing
    /// storage by the direction-specific formula.
    pub fn add_vertex(&mut self) -> (id: usize)
        requires
            old(self).wf(),
            storage_size(old(self).total() + 1, old(self).edge_type) <= usize::MAX,
        ensures
            final(self).wf(),
            final(self).edge_type == old(self).edge_type,
            final(self).vertex_count == old(self).vertex_count + 1,
            final(self).live(id),
            !old(self).live(id),
            if old(self).reusable_ids@.len() > 0 {
                &&& id == old(self).reusable_ids@.last()
                &&& final(self).reusable_ids@ == old(self).reusable_ids@.drop_last()
                &&& final(self).slots@ == old(self).slots@
                &&& final(self).total() == old(self).total()
            } else {
                &&& id == old(self).total()
                &&& final(self).reusable_ids@ == old(self).reusable_ids@
                &&& final(self).total() == old(self).total() + 1
                &&& final(self).slots@.len() == storage_size(final(self).total(), final(self).edge_type)
                &&& forall|k: int|
                    0 <= k < old(self).slots@.len() ==> (#[trigger] final(self).slots@[k]) == old(self).slots@[k]
                &&& forall|k: int|
                    old(self).slots@.len() <= k < final(self).slots@.len()
                        ==> (#[trigger] final(self).slots@[k]) == Weight::Infinite
            },
    {
        proof {
            lemma_count_le_storage_size(old(self).total() + 1, self.edge_type);
        }
        let maybe_id = self.next_reusable_id();
        if let Some(id) = maybe_id {
            self.vertex_count = self.vertex_count + 1;
            proof {
                let olds = old(self).reusable_ids@;
                assert(olds.drop_last() =~= olds.subrange(0, olds.len() - 1));
                assert forall|k: int| 0 <= k < self.reusable_ids@.len()
                    implies (#[trigger] self.reusable_ids@[k]) < self.total() by {
                    assert(olds[k] < old(self).total());
                }
                assert(!self.reusable_ids@.contains(id)) by {
                    if self.reusable_ids@.contains(id) {
                        let k = choose|k: int|
                            0 <= k < self.reusable_ids@.len() && self.reusable_ids@[k] == id;
                        assert(olds[k] == olds[olds.len() - 1]);
                    }
                }
            }
            id
        } else {
            let total = self.total_vertex_count();
            proof {
                lemma_storage_size_step(self.total(), self.edge_type);
            }
            let new_size = if self.is_directed() {
                self.slots.len() + 2 * total + 1
            } else {
                self.slots.len() + total + 1
            };
            while self.slots.len() < new_size
                invariant
                    self.slots@.len() <= new_size,
                    new_size <= usize::MAX,
                    forall|k: int|
                        0 <= k < old(self).slots@.len()
                            ==> (#[trigger] self.slots@[k]) == old(self).slots@[k],
                    forall|k: int|
                        old(self).slots@.len() <= k < self.slots@.len()
                            ==> (#[trigger] self.slots@[k]) == Weight::Infinite,
                    old(self).slots@.len() <= self.slots@.len(),
                    self.reusable_ids@ == old(self).reusable_ids@,
                    self.vertex_count == old(self).vertex_count,
                    self.edge_type == old(self).edge_type,
                decreases new_size - self.slots@.len(),
            {
                self.slots.push(Weight::Infinite);
            }
            self.vertex_count = self.vertex_count + 1;
            total
        }
    }

    /// Writes `w` into the slot of `(i, j)` unconditionally; internal
    /// helper behind the checked mutators.
    fn set_slot(&mut self, i: usize, j: usize, w: Weight)
        requires
            old(self).wf(),
            i < old(self).total(),
            j < old(self).total(),
        ensures
            final(self).wf(),
            final(self).edge_type == old(self).edge_type,
            final(self).vertex_count == old(self).vertex_count,
            final(self).reusable_ids@ == old(self).reusable_ids@,
            final(self).slots@ == old(self).slots@.update(
                slot_index(i as nat, j as nat, old(self).edge_type) as int,
                w,
            ),
    {
        proof {
            assert(self.slots@.len() == vstd::std_specs::vec::spec_vec_len(&self.slots));
            lemma_slot_in_bounds(i as nat, j as nat, self.total(), self.edge_type);
        }
        let idx = slot_index_exec(i, j, self.edge_type);
        self.slots[idx] = w;
    }

    /// Reads the slot of `(i, j)`. Fails with `InvalidVertex` when either
    /// id is awaiting reuse, and with `OutOfBounds` when the computed slot
    /// lies beyond the backing storage (which, given well-formedness,
    /// happens exactly when an id is at least the matrix width).
    pub fn get(&self, i: usize, j: usize) -> (r: Result<Weight, GraphError>)
        requires
            self.wf(),
        ensures
            r == if self.is_reusable(i) {
                Err::<Weight, GraphError>(GraphError::InvalidVertex(i))
            } else if self.is_reusable(j) {
                Err::<Weight, GraphError>(GraphError::InvalidVertex(j))
            } else if i >= self.total() || j >= self.total() {
                Err::<Weight, GraphError>(GraphError::OutOfBounds)
            } else {
                Ok::<Weight, GraphError>(self.edge_at(i, j))
            },
            r is Ok <==> self.live(i) && self.live(j),
    {
        if contains_id(&self.reusable_ids, i) {
            return Err(GraphError::InvalidVertex(i));
        }
        if contains_id(&self.reusable_ids, j) {
            return Err(GraphError::InvalidVertex(j));
        }
        let total = self.total_vertex_count();
        if i >= total || j >= total {
            proof {
                lemma_slot_out_of_bounds(i as nat, j as nat, self.total(), self.edge_type);
            }
            return Err(GraphError::OutOfBounds);
        }
        proof {
            assert(self.slots@.len() == vstd::std_specs::vec::spec_vec_len(&self.slots));
            lemma_slot_in_bounds(i as nat, j as nat, self.total(), self.edge_type);
        }
        let idx = slot_index_exec(i, j, self.edge_type);
        Ok(self.slots[idx])
    }

    /// Writes `weight` into the `(v1, v2)` slot; for undirected storage
    /// this is automatically the `(v2, v1)` slot too, by the shared index
    /// formula. Every other slot is untouched.
    pub fn add_edge(&mut self, v1: usize, v2: usize, weight: Weight) -> (r: Result<
        (),
        GraphError,
    >)
        requires
            old(self).wf(),
        ensures
            final(self).wf(),
            final(self).edge_type == old(self).edge_type,
            final(self).vertex_count == old(self).vertex_count,
            final(self).reusable_ids@ == old(self).reusable_ids@,
            final(self).total() == old(self).total(),
            r == if old(self).is_reusable(v1) {
                Err::<(), GraphError>(GraphError::InvalidVertex(v1))
            } else if old(self).is_reusable(v2) {
                Err::<(), GraphError>(GraphError::InvalidVertex(v2))
            } else if v1 >= old(self).total() || v2 >= old(self).total() {
                Err::<(), GraphError>(GraphError::OutOfBounds)
            } else {
                Ok::<(), GraphError>(())
            },
            r is Err ==> *final(self) == *old(self),
            r is Ok ==> {
                &&& final(self).edge_at(v1, v2) == weight
                &&& forall|k: usize, l: usize|
                    k < old(self).total() && l < old(self).total()
                        && !same_slot_pair(k as nat, l as nat, v1 as nat, v2 as nat, old(self).edge_type)
                        ==> (#[trigger] final(self).edge_at(k, l)) == old(self).edge_at(k, l)
            },
    {
        if contains_id(&self.reusable_ids, v1) {
            return Err(GraphError::InvalidVertex(v1));
        }
        if contains_id(&self.reusable_ids, v2) {
            return Err(GraphError::InvalidVertex(v2));
        }
        let total = self.total_vertex_count();
        if v1 >= total || v2 >= total {
            return Err(GraphError::OutOfBounds);
        }
        self.set_slot(v1, v2, weight);
        proof {
            lemma_slot_in_bounds(v1 as nat, v2 as nat, old(self).total(), self.edge_type);
            assert forall|k: usize, l: usize|
                k < old(self).total() && l < old(self).total()
                    && !same_slot_pair(k as nat, l as nat, v1 as nat, v2 as nat, old(self).edge_type)
                implies (#[trigger] self.edge_at(k, l)) == old(self).edge_at(k, l) by {
                lemma_slot_distinct(k as nat, l as nat, v1 as nat, v2 as nat, self.edge_type);
                lemma_slot_in_bounds(k as nat, l as nat, old(self).total(), self.edge_type);
            }
        }
        Ok(())
    }

    /// Swaps the absence sentinel into the `(v1, v2)` slot and returns the
    /// previous value — the sentinel when no edge existed, which makes
    /// removal observably idempotent.
    pub fn remove_edge(&mut self, v1: usize, v2: usize) -> (r: Result<Weight, GraphError>)
        requires
            old(self).wf(),
        ensures
            final(self).wf(),
            final(self).edge_type == old(self).edge_type,
            final(self).vertex_count == old(self).vertex_count,
            final(self).reusable_ids@ == old(self).reusable_ids@,
            final(self).total() == old(self).total(),
            r == if old(self).is_reusable(v1) {
                Err::<Weight, GraphError>(GraphError::InvalidVertex(v1))
            } else if old(self).is_reusable(v2) {
                Err::<Weight, GraphError>(GraphError::InvalidVertex(v2))
            } else if v1 >= old(self).total() || v2 >= old(self).total() {
                Err::<Weight, GraphError>(GraphError::OutOfBounds)
            } else {
                Ok::<Weight, GraphError>(old(self).edge_at(v1, v2))
            },
            r is Err ==> *final(self) == *old(self),
            r is Ok ==> final(self).slots@ == old(self).slots@.update(
                slot_index(v1 as nat, v2 as nat, old(self).edge_type) as int,
                Weight::Infinite,
            ),
            r is Ok ==> final(self).edge_at(v1, v2) == Weight::Infinite,
            r is Ok ==> forall|k: usize, l: usize|
                k < old(self).total() && l < old(self).total()
                    && !same_slot_pair(k as nat, l as nat, v1 as nat, v2 as nat, old(self).edge_type)
                    ==> (#[trigger] final(self).edge_at(k, l)) == old(self).edge_at(k, l),
    {
        let previous = self.get(v1, v2);
        match previous {
            Err(e) => Err(e),
            Ok(w) => {
                self.set_slot(v1, v2, Weight::Infinite);
                proof {
                    lemma_slot_in_bounds(v1 as nat, v2 as nat, old(self).total(), self.edge_type);
                    assert forall|k: usize, l: usize|
                        k < old(self).total() && l < old(self).total()
                            && !same_slot_pair(k as nat, l as nat, v1 as nat, v2 as nat, old(self).edge_type)
                        implies (#[trigger] self.edge_at(k, l)) == old(self).edge_at(k, l) by {
                        lemma_slot_distinct(k as nat, l as nat, v1 as nat, v2 as nat, self.edge_type);
                        lemma_slot_in_bounds(k as nat, l as nat, old(self).total(), self.edge_type);
                    }
                }
                Ok(w)
            },
        }
    }

    /// Removes a live vertex: every incident slot `(id, *)` and `(*, id)`
    /// is reset to the absence sentinel, the id joins the reusable set, and
    /// the live count decrements. Slots between other vertices are
    /// untouched, and the backing storage never shrinks.
    #[verifier::loop_isolation(false)]
    pub fn remove_vertex(&mut self, vertex_id: usize) -> (r: Result<(), GraphError>)
        requires
            old(self).wf(),
        ensures
            final(self).wf(),
            final(self).edge_type == old(self).edge_type,
            !old(self).live(vertex_id) ==> r == Err::<(), GraphError>(
                GraphError::InvalidVertex(vertex_id),
            ) && *final(self) == *old(self),
            old(self).live(vertex_id) ==> {
                &&& r == Ok::<(), GraphError>(())
                &&& final(self).reusable_ids@ == old(self).reusable_ids@.push(vertex_id)
                &&& final(self).vertex_count == old(self).vertex_count - 1
                &&& final(self).total() == old(self).total()
                &&& final(self).slots@.len() == old(self).slots@.len()
                &&& forall|k: usize|
                    k < old(self).total() ==> (#[trigger] final(self).edge_at(vertex_id, k))
                        == Weight::Infinite
                &&& forall|k: usize|
                    k < old(self).total() ==> (#[trigger] final(self).edge_at(k, vertex_id))
                        == Weight::Infinite
                &&& forall|k: usize, l: usize|
                    k < old(self).total() && l < old(self).total() && k != vertex_id
                        && l != vertex_id ==> (#[trigger] final(self).edge_at(k, l))
                        == old(self).edge_at(k, l)
            },
    {
        if !self.is_live(vertex_id) {
            return Err(GraphError::InvalidVertex(vertex_id));
        }
        proof {
            lemma_live_implies_positive_count(*self, vertex_id);
        }
        let total = self.total_vertex_count();
        let mut k: usize = 0;
        while k < total
            invariant
                self.wf(),
                self.edge_type == old(self).edge_type,
                self.vertex_count == old(self).vertex_count,
                self.reusable_ids@ == old(self).reusable_ids@,
                self.total() == old(self).total(),
                self.slots@.len() == old(self).slots@.len(),
                k <= total,
                total == old(self).total(),
                vertex_id < total,
                forall|p: usize|
                    p < k ==> (#[trigger] self.edge_at(vertex_id, p)) == Weight::Infinite,
                forall|p: usize|
                    p < k ==> (#[trigger] self.edge_at(p, vertex_id)) == Weight::Infinite,
                forall|a: usize, b: usize|
                    a < total && b < total && a != vertex_id && b != vertex_id
                        ==> (#[trigger] self.edge_at(a, b)) == old(self).edge_at(a, b),
            decreases total - k,
        {
            let ghost before = *self;
            self.set_slot(vertex_id, k, Weight::Infinite);
            self.set_slot(k, vertex_id, Weight::Infinite);
            proof {
                assert forall|p: usize| p < k + 1 implies (#[trigger] self.edge_at(vertex_id, p))
                    == Weight::Infinite by {
                    lemma_slot_in_bounds(
                        vertex_id as nat,
                        p as nat,
                        old(self).total(),
                        self.edge_type,
                    );
                    lemma_slot_in_bounds(
                        vertex_id as nat,
                        k as nat,
                        old(self).total(),
                        self.edge_type,
                    );
                    lemma_slot_in_bounds(
                        k as nat,
                        vertex_id as nat,
                        old(self).total(),
                        self.edge_type,
                    );
                    if p < k {
                        assert(before.edge_at(vertex_id, p) == Weight::Infinite);
                    }
                }
                assert forall|p: usize| p < k + 1 implies (#[trigger] self.edge_at(p, vertex_id))
                    == Weight::Infinite by {
                    lemma_slot_in_bounds(
                        vertex_id as nat,
                        p as nat,
                        old(self).total(),
                        self.edge_type,
                    );
                    lemma_slot_in_bounds(
                        p as nat,
                        vertex_id as nat,
                        old(self).total(),
                        self.edge_type,
                    );
                    lemma_slot_in_bounds(
                        vertex_id as nat,
                        k as nat,
                        old(self).total(),
                        self.edge_type,
                    );
                    lemma_slot_in_bounds(
                        k as nat,
                        vertex_id as nat,
                        old(self).total(),
                        self.edge_type,
                    );
                    if p < k {
                        assert(before.edge_at(p, vertex_id) == Weight::Infinite);
                    }
                }
                assert forall|a: usize, b: usize|
                    a < total && b < total && a != vertex_id && b != vertex_id
                    implies (#[trigger] self.edge_at(a, b)) == old(self).edge_at(a, b) by {
                    lemma_slot_in_bounds(a as nat, b as nat, old(self).total(), self.edge_type);
                    lemma_slot_in_bounds(
                        vertex_id as nat,
                        k as nat,
                        old(self).total(),
                        self.edge_type,
                    );
                    lemma_slot_in_bounds(
                        k as nat,
                        vertex_id as nat,
                        old(self).total(),
                        self.edge_type,
                    );
                    assert(before.edge_at(a, b) == old(self).edge_at(a, b));
                    lemma_slot_distinct(
                        a as nat,
                        b as nat,
                        vertex_id as nat,
                        k as nat,
                        self.edge_type,
                    );
                    lemma_slot_distinct(
                        a as nat,
                        b as nat,
                        k as nat,
                        vertex_id as nat,
                        self.edge_type,
                    );
                }
            }
            k = k + 1;
        }
        let ghost cleared = *self;
        self.reusable_ids.push(vertex_id);
        self.vertex_count = self.vertex_count - 1;
        proof {
            assert forall|p: usize| p < old(self).total()
                implies (#[trigger] self.edge_at(vertex_id, p)) == Weight::Infinite by {
                assert(cleared.edge_at(vertex_id, p) == Weight::Infinite);
            }
            assert forall|p: usize| p < old(self).total()
                implies (#[trigger] self.edge_at(p, vertex_id)) == Weight::Infinite by {
                assert(cleared.edge_at(p, vertex_id) == Weight::Infinite);
            }
            assert forall|a: usize, b: usize|
                a < old(self).total() && b < old(self).total() && a != vertex_id
                    && b != vertex_id
                implies (#[trigger] self.edge_at(a, b)) == old(self).edge_at(a, b) by {
                assert(cleared.edge_at(a, b) == old(self).edge_at(a, b));
            }
            let olds = old(self).reusable_ids@;
            assert forall|p: int| 0 <= p < self.reusable_ids@.len()
                implies (#[trigger] self.reusable_ids@[p]) < self.total() by {
                if p < olds.len() {
                    assert(olds[p] < old(self).total());
                }
            }
            assert(self.reusable_ids@.no_duplicates()) by {
                assert(!olds.contains(vertex_id));
            }
        }
        Ok(())
    }
}

impl AdjMatrix {
    /// The live vertex ids below `k`, in ascending order.
    pub open spec fn live_below(self, k: nat) -> Seq<usize>
        decreases k,
    {
        if k == 0 {
            Seq::empty()
        } else {
            let prev = self.live_below((k - 1) as nat);
            if self.live((k - 1) as usize) {
                prev.push((k - 1) as usize)
            } else {
                prev
            }
        }
    }

    /// The live vertex ids in ascending order: the canonical enumeration
    /// that `vertices` returns and the continuous id map is built from.
    pub open spec fn live_seq(self) -> Seq<usize> {
        self.live_below(self.total())
    }

    /// Enumerates the live vertex ids in ascending order.
    pub fn vertices(&self) -> (r: Vec<usize>)
        requires
            self.wf(),
        ensures
            r@ == self.live_seq(),
    {
        let total = self.total_vertex_count();
        let mut out: Vec<usize> = Vec::new();
        let mut k: usize = 0;
        while k < total
            invariant
                self.wf(),
                k <= total,
                total == self.total(),
                out@ == self.live_below(k as nat),
            decreases total - k,
        {
            if self.is_live(k) {
                out.push(k);
            }
            k = k + 1;
        }
        out
    }

    /// Enumerates the vertices adjacent to `v`, in ascending order and
    /// without repetition: for a directed graph, the targets of its
    /// outgoing edges.
    pub fn neighbors(&self, v: usize) -> (r: Vec<usize>)
        requires
            self.wf(),
            self.live(v),
        ensures
            forall|w: usize|
                #[trigger] r@.contains(w) <==> self.live(w) && self.edge_at(v, w).spec_is_finite(),
            forall|p: int, q: int| 0 <= p < q < r@.len() ==> r@[p] < r@[q],
            r@.no_duplicates(),
    {
        let total = self.total_vertex_count();
        let mut out: Vec<usize> = Vec::new();
        let mut k: usize = 0;
        while k < total
            invariant
                self.wf(),
                self.live(v),
                k <= total,
                total == self.total(),
                forall|w: usize|
                    #[trigger] out@.contains(w) <==> w < k && self.live(w) && self.edge_at(
                        v,
                        w,
                    ).spec_is_finite(),
                forall|p: int, q: int| 0 <= p < q < out@.len() ==> out@[p] < out@[q],
                forall|p: int| 0 <= p < out@.len() ==> (#[trigger] out@[p]) < k,
            decreases total - k,
        {
            let ghost prev = out@;
            let mut push_it = false;
            if self.is_live(k) {
                let got = self.get(v, k);
                if let Ok(w) = got {
                    if w.is_finite() {
                        push_it = true;
                    }
                }
            }
            if push_it {
                out.push(k);
            }
            proof {
                assert forall|w: usize| #[trigger] out@.contains(w)
                    implies w < k + 1 && self.live(w) && self.edge_at(v, w).spec_is_finite() by {
                    if out@ != prev && w != k {
                        let p = choose|p: int| 0 <= p < out@.len() && out@[p] == w;
                        assert(prev[p] == w);
                        assert(prev.contains(w));
                    }
                }
                assert forall|w: usize|
                    w < k + 1 && self.live(w) && self.edge_at(v, w).spec_is_finite()
                    implies #[trigger] out@.contains(w) by {
                    if w == k {
                        assert(out@[out@.len() - 1] == k);
                    } else {
                        assert(prev.contains(w));
                        let p = choose|p: int| 0 <= p < prev.len() && prev[p] == w;
                        assert(out@[p] == w);
                    }
                }
                assert forall|p: int, q: int| 0 <= p < q < out@.len() implies out@[p]
                    < out@[q] by {
                    if q < prev.len() {
                        assert(prev[p] < prev[q]);
                    } else if out@ != prev {
                        assert(prev[p] < k);
                    }
                }
                assert forall|p: int| 0 <= p < out@.len() implies (#[trigger] out@[p]) < k
                    + 1 by {
                    if p < prev.len() {
                        assert(prev[p] < k);
                    }
                }
            }
            k = k + 1;
        }
        proof {
            assert forall|p: int, q: int| 0 <= p < q < out@.len() implies out@[p] != out@[q] by {
                assert(out@[p] < out@[q]);
            }
        }
        out
    }

    /// Enumerates every stored edge as `(src, dst, weight)`, in ascending
    /// lexicographic `(src, dst)` order and without repetition. For an
    /// undirected graph each edge appears once in each direction (besides
    /// self-loops), since both pairs resolve to the same finite slot.
    pub fn edges(&self) -> (r: Vec<(usize, usize, u64)>)
        requires
            self.wf(),
        ensures
            forall|e: (usize, usize, u64)|
                #[trigger] r@.contains(e) <==> self.live(e.0) && self.live(e.1) && self.edge_at(
                    e.0,
                    e.1,
                ) == Weight::Finite(e.2),
            forall|p: int, q: int|
                0 <= p < q < r@.len() ==> ((#[trigger] r@[p]).0 < (#[trigger] r@[q]).0 || (
                r@[p].0 == r@[q].0 && r@[p].1 < r@[q].1)),
            r@.no_duplicates(),
    {
        let total = self.total_vertex_count();
        let mut out: Vec<(usize, usize, u64)> = Vec::new();
        let mut i: usize = 0;
        while i < total
            invariant
                self.wf(),
                i <= total,
                total == self.total(),
                forall|e: (usize, usize, u64)|
                    #[trigger] out@.contains(e) <==> e.0 < i && self.live(e.0) && self.live(e.1)
                        && self.edge_at(e.0, e.1) == Weight::Finite(e.2),
                forall|p: int| 0 <= p < out@.len() ==> (#[trigger] out@[p]).0 < i,
                forall|p: int, q: int|
                    0 <= p < q < out@.len() ==> ((#[trigger] out@[p]).0 < (#[trigger] out@[q]).0
                        || (out@[p].0 == out@[q].0 && out@[p].1 < out@[q].1)),
            decreases total - i,
        {
            let mut j: usize = 0;
            while j < total
                invariant
                    self.wf(),
                    i < total,
                    j <= total,
                    total == self.total(),
                    forall|e: (usize, usize, u64)|
                        #[trigger] out@.contains(e) <==> (e.0 < i || (e.0 == i && e.1 < j))
                            && self.live(e.0) && self.live(e.1) && self.edge_at(e.0, e.1)
                            == Weight::Finite(e.2),
                    forall|p: int|
                        0 <= p < out@.len() ==> ((#[trigger] out@[p]).0 < i || (out@[p].0 == i
                            && out@[p].1 < j)),
                    forall|p: int, q: int|
                        0 <= p < q < out@.len() ==> ((#[trigger] out@[p]).0 < (
                        #[trigger] out@[q]).0 || (out@[p].0 == out@[q].0 && out@[p].1
                            < out@[q].1)),
                decreases total - j,
            {
                let ghost prev = out@;
                let mut found: Option<u64> = None;
                if self.is_live(i) && self.is_live(j) {
                    let got = self.get(i, j);
                    if let Ok(Weight::Finite(w)) = got {
                        found = Some(w);
                    }
                }
                if let Some(w) = found {
                    out.push((i, j, w));
                }
                proof {
                    assert forall|e: (usize, usize, u64)| #[trigger] out@.contains(e)
                        implies (e.0 < i || (e.0 == i && e.1 < j + 1)) && self.live(e.0)
                            && self.live(e.1) && self.edge_at(e.0, e.1) == Weight::Finite(e.2) by {
                        let p = choose|p: int| 0 <= p < out@.len() && out@[p] == e;
                        if out@ != prev && p < out@.len() - 1 {
                            assert(prev[p] == e);
                            assert(prev.contains(e));
                        }
                        if out@ == prev {
                            assert(prev.contains(e));
                        }
                    }
                    assert forall|e: (usize, usize, u64)|
                        (e.0 < i || (e.0 == i && e.1 < j + 1)) && self.live(e.0) && self.live(e.1)
                            && self.edge_at(e.0, e.1) == Weight::Finite(e.2)
                        implies #[trigger] out@.contains(e) by {
                        if e.0 == i && e.1 == j {
                            assert(found == Some(e.2));
                            assert(out@[out@.len() - 1] == e);
                        } else {
                            assert(prev.contains(e));
                            let p = choose|p: int| 0 <= p < prev.len() && prev[p] == e;
                            assert(out@[p] == e);
                        }
                    }
                    assert forall|p: int|
                        0 <= p < out@.len() implies ((#[trigger] out@[p]).0 < i || (out@[p].0 == i
                            && out@[p].1 < j + 1)) by {
                        if p < prev.len() {
                            assert(prev[p].0 < i || (prev[p].0 == i && prev[p].1 < j));
                        }
                    }
                    assert forall|p: int, q: int|
                        0 <= p < q < out@.len() implies ((#[trigger] out@[p]).0 < (
                        #[trigger] out@[q]).0 || (out@[p].0 == out@[q].0 && out@[p].1
                            < out@[q].1)) by {
                        if q < prev.len() {
                            assert(prev[p].0 < prev[q].0 || (prev[p].0 == prev[q].0 && prev[p].1
                                < prev[q].1));
                        } else if out@ != prev {
                            assert(prev[p].0 < i || (prev[p].0 == i && prev[p].1 < j));
                        }
                    }
                }
                j = j + 1;
            }
            i = i + 1;
        }
        proof {
            assert forall|p: int, q: int| 0 <= p < q < out@.len() implies out@[p] != out@[q] by {
                assert(out@[p].0 < out@[q].0 || (out@[p].0 == out@[q].0 && out@[p].1 < out@[q].1));
            }
        }
        out
    }
}

/// The enumeration of live ids contains exactly the live ids below `k`,
/// in strictly ascending order.
pub proof fn lemma_live_below_props(m: AdjMatrix, k: nat)
    requires
        m.wf(),
        k <= m.total(),
    ensures
        forall|x: usize| #[trigger] m.live_below(k).contains(x) <==> (x < k && m.live(x)),
        forall|p: int, q: int|
            0 <= p < q < m.live_below(k).len() ==> m.live_below(k)[p] < m.live_below(k)[q],
        forall|p: int| 0 <= p < m.live_below(k).len() ==> (#[trigger] m.live_below(k)[p]) < k,
    decreases k,
{
    broadcast use vstd::std_specs::vec::axiom_spec_len;

    lemma_count_le_storage_size(m.total(), m.edge_type);
    assert(m.slots@.len() == vstd::std_specs::vec::spec_vec_len(&m.slots));
    assert(m.total() <= usize::MAX);
    if k > 0 {
        lemma_live_below_props(m, (k - 1) as nat);
        let prev = m.live_below((k - 1) as nat);
        let cur = m.live_below(k);
        assert forall|x: usize| #[trigger] cur.contains(x) implies (x < k && m.live(x)) by {
            if cur != prev && x != (k - 1) as usize {
                let p = choose|p: int| 0 <= p < cur.len() && cur[p] == x;
                assert(prev[p] == x);
                assert(prev.contains(x));
            }
        }
        assert forall|x: usize| (x < k && m.live(x)) implies #[trigger] cur.contains(x) by {
            if x == (k - 1) as usize {
                assert(cur[cur.len() - 1] == x);
            } else {
                assert(prev.contains(x));
                let p = choose|p: int| 0 <= p < prev.len() && prev[p] == x;
                assert(cur[p] == x);
            }
        }
        assert forall|p: int, q: int| 0 <= p < q < cur.len() implies cur[p] < cur[q] by {
            if q < prev.len() {
                assert(prev[p] < prev[q]);
            } else {
                assert(prev[p] < k - 1);
            }
        }
        assert forall|p: int| 0 <= p < cur.len() implies (#[trigger] cur[p]) < k by {
            if p < prev.len() {
                assert(prev[p] < k - 1 + 1);
            }
        }
    }
}

/// A live vertex implies a positive live count: the recycled ids are
/// distinct and all below the matrix width, so they cannot fill the whole
/// width while a live id remains outside them.
proof fn lemma_live_implies_positive_count(m: AdjMatrix, id: usize)
    requires
        m.wf(),
        m.live(id),
    ensures
        m.vertex_count >= 1,
{
    if m.vertex_count == 0 {
        let n = m.total() as int;
        let f = |v: usize| v as int;
        let ints = m.reusable_ids@.map_values(f);
        assert(vstd::relations::injective(f));
        m.reusable_ids@.lemma_no_duplicates_injective(f);
        ints.unique_seq_to_set();
        vstd::seq_lib::seq_to_set_is_finite(ints);
        vstd::set_lib::lemma_int_range(0, n);
        assert(ints.to_set().subset_of(vstd::set_lib::set_int_range(0, n))) by {
            assert forall|x: int| ints.to_set().contains(x)
                implies vstd::set_lib::set_int_range(0, n).contains(x) by {
                let p = choose|p: int| 0 <= p < ints.len() && ints[p] == x;
                assert(m.reusable_ids@[p] < m.total());
            }
        }
        vstd::set_lib::lemma_subset_equality(
            ints.to_set(),
            vstd::set_lib::set_int_range(0, n),
        );
        assert(ints.to_set().contains(id as int));
        let p = choose|p: int| 0 <= p < ints.len() && ints[p] == id as int;
        assert(m.reusable_ids@[p] == id);
        assert(m.is_reusable(id));
    }
}

/// The id-recycling accounting law: for every well-formed storage — and
/// well-formedness is preserved by every mutation — the total vertex count
/// is exactly the live count plus the number of recycled ids, and no id is
/// ever simultaneously live and awaiting reuse.
pub proof fn lemma_vertex_count_accounting(m: AdjMatrix)
    requires
        m.wf(),
    ensures
        m.total() == m.vertex_count + m.reusable_ids@.len(),
        forall|id: usize| !(#[trigger] m.live(id) && m.is_reusable(id)),
{
}

pub proof fn lemma_tri_closed_form(n: nat)
    ensures
        2 * tri(n) == n * (n + 1),
    decreases n,
{
    if n > 0 {
        let m = (n - 1) as nat;
        lemma_tri_closed_form(m);
        assert(2 * tri(n) == n * (n + 1)) by (nonlinear_arith)
            requires
                2 * tri(m) == m * (m + 1),
                tri(n) == tri(m) + n,
                n == m + 1,
        ;
    } else {
        assert(2 * tri(0) == 0 * (0 + 1)) by (nonlinear_arith);
    }
}

/// The backing-storage length law: a well-formed undirected storage of
/// total width `n` holds exactly `n(n+1)/2` slots (stated doubled to avoid
/// division), and a directed one exactly `n * n`.
pub proof fn lemma_backing_storage_length(m: AdjMatrix)
    requires
        m.wf(),
    ensures
        m.edge_type == EdgeType::Undirected ==> 2 * m.slots@.len() == m.total() * (m.total()
            + 1),
        m.edge_type == EdgeType::Directed ==> m.slots@.len() == m.total() * m.total(),
{
    if m.edge_type == EdgeType::Undirected {
        lemma_tri_closed_form(m.total());
    }
}

/// The edge-removal idempotence law: one removal writes the absence
/// sentinel into the pair's slot, so a second removal of the same pair
/// returns the sentinel and leaves the storage unchanged.
pub proof fn lemma_remove_edge_idempotent(m: AdjMatrix, i: usize, j: usize)
    requires
        m.wf(),
        i < m.total(),
        j < m.total(),
    ensures
        ({
            let idx = slot_index(i as nat, j as nat, m.edge_type) as int;
            let once = m.slots@.update(idx, Weight::Infinite);
            &&& once[idx] == Weight::Infinite
            &&& once.update(idx, Weight::Infinite) == once
        }),
{
    lemma_slot_in_bounds(i as nat, j as nat, m.total(), m.edge_type);
    let idx = slot_index(i as nat, j as nat, m.edge_type) as int;
    let once = m.slots@.update(idx, Weight::Infinite);
    assert(once.update(idx, Weight::Infinite) =~= once);
}

} // verus!
