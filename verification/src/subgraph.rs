//! Read-only subgraph projections: a caller-supplied subset of vertices
//! and edges of a backing graph, answering the same queries by delegating
//! to the filtered collections. An edge id is its index in the supplied
//! edge list. Views are transient: a mutation of the backing storage
//! invalidates them.

use vstd::prelude::*;

use crate::storage::AdjMatrix;
use crate::storage::EdgeType;

verus! {

/// Whether a stored `(src, dst, weight)` triple connects `src` to `dst`
/// under the given direction.
pub open spec fn connects(e: (usize, usize, u64), src: usize, dst: usize, et: EdgeType) -> bool {
    if et == EdgeType::Directed {
        e.0 == src && e.1 == dst
    } else {
        (e.0 == src && e.1 == dst) || (e.0 == dst && e.1 == src)
    }
}

/// The `(neighbor, weight)` pairs of the edges leaving `src`, in list
/// order.
pub open spec fn from_list(s: Seq<(usize, usize, u64)>, src: usize, et: EdgeType) -> Seq<
    (usize, u64),
>
    decreases s.len(),
{
    if s.len() == 0 {
        Seq::empty()
    } else {
        let rest = from_list(s.drop_last(), src, et);
        let e = s.last();
        if e.0 == src {
            rest.push((e.1, e.2))
        } else if et == EdgeType::Undirected && e.1 == src {
            rest.push((e.0, e.2))
        } else {
            rest
        }
    }
}

/// The weights of the edges between `src` and `dst`, in list order.
pub open spec fn between_list(
    s: Seq<(usize, usize, u64)>,
    src: usize,
    dst: usize,
    et: EdgeType,
) -> Seq<u64>
    decreases s.len(),
{
    if s.len() == 0 {
        Seq::empty()
    } else {
        let rest = between_list(s.drop_last(), src, dst, et);
        if connects(s.last(), src, dst, et) {
            rest.push(s.last().2)
        } else {
            rest
        }
    }
}

/// A subgraph: the direction inherited from the backing graph, the
/// projected vertex ids, and the projected edges as `(src, dst, weight)`.
pub struct Subgraph {
    pub edge_type: EdgeType,
    pub vertex_list: Vec<usize>,
    pub edge_list: Vec<(usize, usize, u64)>,
}

impl Subgraph {
    pub fn init(
        graph: &AdjMatrix,
        edges: Vec<(usize, usize, u64)>,
        vertices: Vec<usize>,
    ) -> (s: Self)
        ensures
            s.edge_type == graph.edge_type,
            s.edge_list@ == edges@,
            s.vertex_list@ == vertices@,
    {
        Subgraph { edge_type: graph.edge_type, vertex_list: vertices, edge_list: edges }
    }

    pub fn vertices(&self) -> (r: Vec<usize>)
        ensures
            r@ == self.vertex_list@,
    {
        let mut out: Vec<usize> = Vec::new();
        let mut k: usize = 0;
        while k < self.vertex_list.len()
            invariant
                k <= self.vertex_list@.len(),
                out@ == self.vertex_list@.take(k as int),
            decreases self.vertex_list@.len() - k,
        {
            out.push(self.vertex_list[k]);
            proof {
                assert(self.vertex_list@.take(k + 1).drop_last() =~= self.vertex_list@.take(
                    k as int,
                ));
                assert(out@ =~= self.vertex_list@.take(k + 1));
            }
            k = k + 1;
        }
        proof {
            assert(self.vertex_list@.take(self.vertex_list@.len() as int) =~= self.vertex_list@);
        }
        out
    }

    pub fn edges(&self) -> (r: Vec<(usize, usize, u64)>)
        ensures
            r@ == self.edge_list@,
    {
        let mut out: Vec<(usize, usize, u64)> = Vec::new();
        let mut k: usize = 0;
        while k < self.edge_list.len()
            invariant
                k <= self.edge_list@.len(),
                out@ == self.edge_list@.take(k as int),
            decreases self.edge_list@.len() - k,
        {
            out.push(self.edge_list[k]);
            proof {
                assert(self.edge_list@.take(k + 1).drop_last() =~= self.edge_list@.take(k as int));
                assert(out@ =~= self.edge_list@.take(k + 1));
            }
            k = k + 1;
        }
        proof {
            assert(self.edge_list@.take(self.edge_list@.len() as int) =~= self.edge_list@);
        }
        out
    }

    pub fn edges_count(&self) -> (n: usize)
        ensures
            n == self.edge_list@.len(),
    {
        self.edge_list.len()
    }

    /// The edge with the given id, when the id is in range.
    pub fn edge(&self, edge_id: usize) -> (r: Option<(usize, usize, u64)>)
        ensures
            r == if edge_id < self.edge_list@.len() {
                Some(self.edge_list@[edge_id as int])
            } else {
                None::<(usize, usize, u64)>
            },
    {
        if edge_id < self.edge_list.len() {
            Some(self.edge_list[edge_id])
        } else {
            None
        }
    }

    /// The weight of the edge with the given id, when that edge connects
    /// `src` to `dst`.
    pub fn edge_between(&self, src_id: usize, dst_id: usize, edge_id: usize) -> (r: Option<u64>)
        ensures
            r == if edge_id < self.edge_list@.len() && connects(
                self.edge_list@[edge_id as int],
                src_id,
                dst_id,
                self.edge_type,
            ) {
                Some(self.edge_list@[edge_id as int].2)
            } else {
                None::<u64>
            },
    {
        if edge_id >= self.edge_list.len() {
            return None;
        }
        let e = self.edge_list[edge_id];
        let hit = if self.edge_type.is_directed() {
            e.0 == src_id && e.1 == dst_id
        } else {
            (e.0 == src_id && e.1 == dst_id) || (e.0 == dst_id && e.1 == src_id)
        };
        if hit {
            Some(e.2)
        } else {
            None
        }
    }

    /// The weights of every edge between `src` and `dst`, in list order.
    pub fn edges_between(&self, src_id: usize, dst_id: usize) -> (r: Vec<u64>)
        ensures
            r@ == between_list(self.edge_list@, src_id, dst_id, self.edge_type),
    {
        let mut out: Vec<u64> = Vec::new();
        let mut k: usize = 0;
        while k < self.edge_list.len()
            invariant
                k <= self.edge_list@.len(),
                out@ == between_list(self.edge_list@.take(k as int), src_id, dst_id, self.edge_type),
            decreases self.edge_list@.len() - k,
        {
            let e = self.edge_list[k];
            let hit = if self.edge_type.is_directed() {
                e.0 == src_id && e.1 == dst_id
            } else {
                (e.0 == src_id && e.1 == dst_id) || (e.0 == dst_id && e.1 == src_id)
            };
            if hit {
                out.push(e.2);
            }
            proof {
                assert(self.edge_list@.take(k + 1).drop_last() =~= self.edge_list@.take(k as int));
                assert(self.edge_list@.take(k + 1).last() == e);
            }
            k = k + 1;
        }
        proof {
            assert(self.edge_list@.take(self.edge_list@.len() as int) =~= self.edge_list@);
        }
        out
    }

    /// The `(neighbor, weight)` pairs of the edges leaving `src`, in list
    /// order; for an undirected subgraph both endpoints count as sources.
    pub fn edges_from(&self, src_id: usize) -> (r: Vec<(usize, u64)>)
        ensures
            r@ == from_list(self.edge_list@, src_id, self.edge_type),
    {
        let mut out: Vec<(usize, u64)> = Vec::new();
        let mut k: usize = 0;
        while k < self.edge_list.len()
            invariant
                k <= self.edge_list@.len(),
                out@ == from_list(self.edge_list@.take(k as int), src_id, self.edge_type),
            decreases self.edge_list@.len() - k,
        {
            let e = self.edge_list[k];
            if e.0 == src_id {
                out.push((e.1, e.2));
            } else if self.edge_type.is_undirected() && e.1 == src_id {
                out.push((e.0, e.2));
            }
            proof {
                assert(self.edge_list@.take(k + 1).drop_last() =~= self.edge_list@.take(k as int));
                assert(self.edge_list@.take(k + 1).last() == e);
            }
            k = k + 1;
        }
        proof {
            assert(self.edge_list@.take(self.edge_list@.len() as int) =~= self.edge_list@);
        }
        out
    }

    /// The ids adjacent to `src`: the first components of `edges_from`.
    pub fn neighbors(&self, src_id: usize) -> (r: Vec<usize>)
        ensures
            r@ == from_list(self.edge_list@, src_id, self.edge_type).map_values(
                |p: (usize, u64)| p.0,
            ),
    {
        let pairs = self.edges_from(src_id);
        let mut out: Vec<usize> = Vec::new();
        let mut k: usize = 0;
        while k < pairs.len()
            invariant
                k <= pairs@.len(),
                out@ == pairs@.take(k as int).map_values(|p: (usize, u64)| p.0),
            decreases pairs@.len() - k,
        {
            out.push(pairs[k].0);
            proof {
                assert(out@ =~= pairs@.take(k + 1).map_values(|p: (usize, u64)| p.0));
            }
            k = k + 1;
        }
        proof {
            assert(pairs@.take(pairs@.len() as int) =~= pairs@);
        }
        out
    }

    /// Whether any edge connects `src` to `dst`.
    pub fn has_any_edge(&self, src_id: usize, dst_id: usize) -> (r: bool)
        ensures
            r == exists|k: int|
                0 <= k < self.edge_list@.len() && connects(
                    #[trigger] self.edge_list@[k],
                    src_id,
                    dst_id,
                    self.edge_type,
                ),
    {
        let mut k: usize = 0;
        while k < self.edge_list.len()
            invariant
                k <= self.edge_list@.len(),
                forall|p: int|
                    0 <= p < k ==> !connects(
                        #[trigger] self.edge_list@[p],
                        src_id,
                        dst_id,
                        self.edge_type,
                    ),
            decreases self.edge_list@.len() - k,
        {
            let e = self.edge_list[k];
            let hit = if self.edge_type.is_directed() {
                e.0 == src_id && e.1 == dst_id
            } else {
                (e.0 == src_id && e.1 == dst_id) || (e.0 == dst_id && e.1 == src_id)
            };
            if hit {
                return true;
            }
            k = k + 1;
        }
        false
    }

    /// Every edge in a directed reading: a directed subgraph's edges as
    /// they stand, an undirected one's once in each direction.
    pub fn as_directed_edges(&self) -> (r: Vec<(usize, usize, u64)>)
        ensures
            self.edge_type == EdgeType::Directed ==> r@ == self.edge_list@,
            self.edge_type == EdgeType::Undirected ==> r@ == self.edge_list@
                + self.edge_list@.map_values(|e: (usize, usize, u64)| (e.1, e.0, e.2)),
    {
        let mut out = self.edges();
        if self.edge_type.is_directed() {
            return out;
        }
        let mut k: usize = 0;
        while k < self.edge_list.len()
            invariant
                k <= self.edge_list@.len(),
                out@ == self.edge_list@ + self.edge_list@.take(k as int).map_values(
                    |e: (usize, usize, u64)| (e.1, e.0, e.2),
                ),
            decreases self.edge_list@.len() - k,
        {
            let e = self.edge_list[k];
            out.push((e.1, e.0, e.2));
            proof {
                assert(out@ =~= self.edge_list@ + self.edge_list@.take(k + 1).map_values(
                    |x: (usize, usize, u64)| (x.1, x.0, x.2),
                ));
            }
            k = k + 1;
        }
        proof {
            assert(self.edge_list@.take(self.edge_list@.len() as int) =~= self.edge_list@);
        }
        out
    }
}

/// A subgraph with some vertices elected as roots.
pub struct MultiRootSubgraph {
    pub roots: Vec<usize>,
    pub subgraph: Subgraph,
}

impl MultiRootSubgraph {
    /// A projection of `graph` holding the given edges and vertices, with
    /// `roots` elected as its roots.
    pub fn init(
        graph: &AdjMatrix,
        edges: Vec<(usize, usize, u64)>,
        vertices: Vec<usize>,
        roots: Vec<usize>,
    ) -> (s: Self)
        ensures
            s.roots@ == roots@,
            s.subgraph.edge_type == graph.edge_type,
            s.subgraph.edge_list@ == edges@,
            s.subgraph.vertex_list@ == vertices@,
    {
        MultiRootSubgraph { roots, subgraph: Subgraph::init(graph, edges, vertices) }
    }

    /// The roots of the subgraph.
    pub fn roots(&self) -> (r: &Vec<usize>)
        ensures
            r@ == self.roots@,
    {
        &self.roots
    }

    /// Whether `vertex_id` is one of the roots (a linear scan).
    pub fn is_root(&self, vertex_id: usize) -> (r: bool)
        ensures
            r == self.roots@.contains(vertex_id),
    {
        let mut k: usize = 0;
        while k < self.roots.len()
            invariant
                k <= self.roots@.len(),
                forall|p: int| 0 <= p < k ==> self.roots@[p] != vertex_id,
            decreases self.roots@.len() - k,
        {
            if self.roots[k] == vertex_id {
                return true;
            }
            k = k + 1;
        }
        false
    }

    pub fn vertices(&self) -> (r: Vec<usize>)
        ensures
            r@ == self.subgraph.vertex_list@,
    {
        self.subgraph.vertices()
    }

    pub fn neighbors(&self, src_id: usize) -> (r: Vec<usize>)
        ensures
            r@ == from_list(self.subgraph.edge_list@, src_id, self.subgraph.edge_type).map_values(
                |p: (usize, u64)| p.0,
            ),
    {
        self.subgraph.neighbors(src_id)
    }

    pub fn edges_from(&self, src_id: usize) -> (r: Vec<(usize, u64)>)
        ensures
            r@ == from_list(self.subgraph.edge_list@, src_id, self.subgraph.edge_type),
    {
        self.subgraph.edges_from(src_id)
    }

    pub fn edges_between(&self, src_id: usize, dst_id: usize) -> (r: Vec<u64>)
        ensures
            r@ == between_list(
                self.subgraph.edge_list@,
                src_id,
                dst_id,
                self.subgraph.edge_type,
            ),
    {
        self.subgraph.edges_between(src_id, dst_id)
    }

    pub fn edge_between(&self, src_id: usize, dst_id: usize, edge_id: usize) -> (r: Option<u64>)
        ensures
            r == if edge_id < self.subgraph.edge_list@.len() && connects(
                self.subgraph.edge_list@[edge_id as int],
                src_id,
                dst_id,
                self.subgraph.edge_type,
            ) {
                Some(self.subgraph.edge_list@[edge_id as int].2)
            } else {
                None::<u64>
            },
    {
        self.subgraph.edge_between(src_id, dst_id, edge_id)
    }

    pub fn edge(&self, edge_id: usize) -> (r: Option<(usize, usize, u64)>)
        ensures
            r == if edge_id < self.subgraph.edge_list@.len() {
                Some(self.subgraph.edge_list@[edge_id as int])
            } else {
                None::<(usize, usize, u64)>
            },
    {
        self.subgraph.edge(edge_id)
    }

    pub fn has_any_edge(&self, src_id: usize, dst_id: usize) -> (r: bool)
        ensures
            r == exists|k: int|
                0 <= k < self.subgraph.edge_list@.len() && connects(
                    #[trigger] self.subgraph.edge_list@[k],
                    src_id,
                    dst_id,
                    self.subgraph.edge_type,
                ),
    {
        self.subgraph.has_any_edge(src_id, dst_id)
    }

    pub fn edges(&self) -> (r: Vec<(usize, usize, u64)>)
        ensures
            r@ == self.subgraph.edge_list@,
    {
        self.subgraph.edges()
    }

    pub fn as_directed_edges(&self) -> (r: Vec<(usize, usize, u64)>)
        ensures
            self.subgraph.edge_type == EdgeType::Directed ==> r@ == self.subgraph.edge_list@,
            self.subgraph.edge_type == EdgeType::Undirected ==> r@ == self.subgraph.edge_list@
                + self.subgraph.edge_list@.map_values(|e: (usize, usize, u64)| (e.1, e.0, e.2)),
    {
        self.subgraph.as_directed_edges()
    }

    pub fn edges_count(&self) -> (n: usize)
        ensures
            n == self.subgraph.edge_list@.len(),
    {
        self.subgraph.edges_count()
    }
}

} // verus!
