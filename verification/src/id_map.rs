//! Continuous id mapping: a bijection between the real ids of currently
//! live vertices and compact virtual ids `0..live_count`, ordered by
//! ascending real id. The map is a transient view: it is recomputed from a
//! storage snapshot, never patched after a mutation.

use vstd::prelude::*;

use crate::storage::lemma_live_below_props;
use crate::storage::AdjMatrix;

verus! {

pub struct IdMap {
    pub virt_to_real: Vec<usize>,
}

impl IdMap {
    /// Virtual ids index this list; it is strictly ascending, so the map
    /// is a bijection onto the listed real ids.
    pub open spec fn wf(self) -> bool {
        forall|p: int, q: int|
            0 <= p < q < self.virt_to_real@.len() ==> self.virt_to_real@[p]
                < self.virt_to_real@[q]
    }

    pub fn len(&self) -> (n: usize)
        ensures
            n == self.virt_to_real@.len(),
    {
        self.virt_to_real.len()
    }

    /// The virtual id of a mapped real id: its position in the ascending
    /// enumeration.
    pub fn virt_id_of(&self, real_id: usize) -> (v: usize)
        requires
            self.virt_to_real@.contains(real_id),
        ensures
            v < self.virt_to_real@.len(),
            self.virt_to_real@[v as int] == real_id,
    {
        let mut v: usize = 0;
        while v < self.virt_to_real.len()
            invariant
                v <= self.virt_to_real@.len(),
                self.virt_to_real@.contains(real_id),
                forall|p: int| 0 <= p < v ==> self.virt_to_real@[p] != real_id,
            decreases self.virt_to_real@.len() - v,
        {
            if self.virt_to_real[v] == real_id {
                return v;
            }
            v = v + 1;
        }
        proof {
            let p = choose|p: int|
                0 <= p < self.virt_to_real@.len() && self.virt_to_real@[p] == real_id;
            assert(false);
        }
        0
    }

    /// The real id behind a virtual id.
    pub fn real_id_of(&self, virt_id: usize) -> (r: usize)
        requires
            virt_id < self.virt_to_real@.len(),
        ensures
            r == self.virt_to_real@[virt_id as int],
    {
        self.virt_to_real[virt_id]
    }

    /// The real id behind a virtual id, or nothing when the virtual id is
    /// outside the mapped range.
    pub fn get_virt_to_real(&self, virt_id: usize) -> (r: Option<usize>)
        ensures
            r == if virt_id < self.virt_to_real@.len() {
                Some(self.virt_to_real@[virt_id as int])
            } else {
                None::<usize>
            },
    {
        if virt_id < self.virt_to_real.len() {
            Some(self.virt_to_real[virt_id])
        } else {
            None
        }
    }
}

impl AdjMatrix {
    /// Builds the continuous id map of the current live set: virtual id
    /// `v` maps to the `v`-th smallest live real id.
    pub fn continuous_id_map(&self) -> (m: IdMap)
        requires
            self.wf(),
        ensures
            m.virt_to_real@ == self.live_seq(),
            m.wf(),
    {
        let vs = self.vertices();
        proof {
            lemma_live_below_props(*self, self.total());
        }
        IdMap { virt_to_real: vs }
    }
}

} // verus!
