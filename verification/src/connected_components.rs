//! Connected components of an undirected graph, expressed as a listener
//! of the depth-first traversal engine: every discovered vertex joins the
//! component being built, and every exhausted traversal tree seals one
//! component.

use vstd::prelude::*;

use crate::storage::AdjMatrix;
use crate::storage::EdgeType;
use crate::traversal::components_closed;
use crate::traversal::components_connected;
use crate::traversal::components_min_first;
use crate::traversal::partitions_live_set;
use crate::traversal::Dfs;
use crate::traversal::DfsListener;

verus! {

pub struct ConnectedComponents {
    pub current_component: Vec<usize>,
    pub ccs: Vec<Vec<usize>>,
}

impl DfsListener for ConnectedComponents {
    open spec fn pending(&self) -> Seq<usize> {
        self.current_component@
    }

    open spec fn sealed(&self) -> Seq<Seq<usize>> {
        self.ccs@.map_values(|c: Vec<usize>| c@)
    }

    fn on_white(&mut self, real_id: usize) {
        self.current_component.push(real_id);
        proof {
            assert(self.sealed() =~= old(self).sealed());
        }
    }

    fn on_finish(&mut self) {
        let mut comp: Vec<usize> = Vec::new();
        core::mem::swap(&mut comp, &mut self.current_component);
        self.ccs.push(comp);
        proof {
            assert(self.sealed() =~= old(self).sealed().push(old(self).pending()));
            assert(self.pending() =~= Seq::<usize>::empty());
        }
    }
}

impl ConnectedComponents {
    /// An empty accumulator for `graph`, which must be undirected:
    /// components of a directed graph are the strongly-connected-components
    /// algorithms' job, so a directed graph is rejected by contract.
    pub fn init(graph: &AdjMatrix) -> (s: Self)
        requires
            graph.edge_type == EdgeType::Undirected,
        ensures
            s.pending() == Seq::<usize>::empty(),
            s.sealed() == Seq::<Seq<usize>>::empty(),
    {
        let s = ConnectedComponents { current_component: Vec::new(), ccs: Vec::new() };
        proof {
            assert(s.pending() =~= Seq::<usize>::empty());
            assert(s.sealed() =~= Seq::<Seq<usize>>::empty());
        }
        s
    }

    /// Runs the traversal and returns the components: each is the sequence
    /// of real vertex ids of one traversal tree in discovery order, opened
    /// by its discovery root — the component's minimum member — and
    /// together they partition the live vertex set: every live vertex
    /// appears in exactly one component. Each component is closed under
    /// adjacency and internally connected, so two vertices land in the
    /// same component exactly when an undirected path joins them.
    pub fn execute(self, graph: &AdjMatrix) -> (ccs: Vec<Vec<usize>>)
        requires
            graph.wf(),
            graph.edge_type == EdgeType::Undirected,
            self.pending() == Seq::<usize>::empty(),
            self.sealed() == Seq::<Seq<usize>>::empty(),
        ensures
            partitions_live_set(ccs@.map_values(|c: Vec<usize>| c@), *graph),
            components_closed(ccs@.map_values(|c: Vec<usize>| c@), *graph),
            components_connected(ccs@.map_values(|c: Vec<usize>| c@), *graph),
            components_min_first(ccs@.map_values(|c: Vec<usize>| c@)),
    {
        let mut me = self;
        let mut dfs = Dfs::init(graph);
        dfs.execute(graph, &mut me);
        proof {
            assert(me.sealed().skip(0) =~= me.sealed());
        }
        me.ccs
    }
}

} // verus!
