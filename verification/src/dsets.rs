//! Disjoint sets over the virtual id space, for Kruskal's algorithm.
//!
//! Each id carries a set label; two ids are in the same set exactly when
//! their labels are equal, so the sameness check is a single comparison.
//! A union relabels every member of the second set to the first set's
//! label — the arena-indexed replacement for shared mutable set objects.

use vstd::prelude::*;

verus! {

pub struct DisjointSets {
    pub labels: Vec<usize>,
}

impl DisjointSets {
    pub open spec fn spec_same_set(self, a: int, b: int) -> bool
        recommends
            0 <= a < self.labels@.len(),
            0 <= b < self.labels@.len(),
    {
        self.labels@[a] == self.labels@[b]
    }

    /// One singleton set per id in `0..n`.
    pub fn init(n: usize) -> (s: Self)
        ensures
            s.labels@.len() == n,
            forall|i: int| 0 <= i < n ==> (#[trigger] s.labels@[i]) == i,
    {
        let mut labels: Vec<usize> = Vec::new();
        let mut i: usize = 0;
        while i < n
            invariant
                i <= n,
                labels@.len() == i,
                forall|k: int| 0 <= k < i ==> (#[trigger] labels@[k]) == k,
            decreases n - i,
        {
            labels.push(i);
            i = i + 1;
        }
        DisjointSets { labels }
    }

    /// Whether `a` and `b` belong to the same set.
    pub fn same_set(&self, a: usize, b: usize) -> (r: bool)
        requires
            a < self.labels@.len(),
            b < self.labels@.len(),
        ensures
            r == self.spec_same_set(a as int, b as int),
    {
        self.labels[a] == self.labels[b]
    }

    /// Merges the set of `b` into the set of `a`: every member carrying
    /// `b`'s label is repointed to `a`'s label, so subsequent sameness
    /// checks see one merged set.
    pub fn union(&mut self, a: usize, b: usize)
        requires
            a < old(self).labels@.len(),
            b < old(self).labels@.len(),
        ensures
            final(self).labels@.len() == old(self).labels@.len(),
            forall|k: int|
                0 <= k < old(self).labels@.len() ==> (#[trigger] final(self).labels@[k]) == if old(
                    self,
                ).labels@[k] == old(self).labels@[b as int] {
                    old(self).labels@[a as int]
                } else {
                    old(self).labels@[k]
                },
            final(self).spec_same_set(a as int, b as int),
    {
        let la = self.labels[a];
        let lb = self.labels[b];
        let n = self.labels.len();
        let mut k: usize = 0;
        while k < n
            invariant
                k <= n,
                n == self.labels@.len(),
                n == old(self).labels@.len(),
                la == old(self).labels@[a as int],
                lb == old(self).labels@[b as int],
                a < n,
                b < n,
                forall|p: int|
                    0 <= p < k ==> (#[trigger] self.labels@[p]) == if old(self).labels@[p] == lb {
                        la
                    } else {
                        old(self).labels@[p]
                    },
                forall|p: int| k <= p < n ==> (#[trigger] self.labels@[p]) == old(self).labels@[p],
            decreases n - k,
        {
            if self.labels[k] == lb {
                self.labels[k] = la;
            }
            k = k + 1;
        }
    }
}

/// Set sameness is an equivalence relation over the id space: reflexive,
/// symmetric, and transitive — the partition invariant the merge loop
/// maintains.
pub proof fn lemma_same_set_equivalence(s: DisjointSets, a: int, b: int, c: int)
    requires
        0 <= a < s.labels@.len(),
        0 <= b < s.labels@.len(),
        0 <= c < s.labels@.len(),
    ensures
        s.spec_same_set(a, a),
        s.spec_same_set(a, b) ==> s.spec_same_set(b, a),
        s.spec_same_set(a, b) && s.spec_same_set(b, c) ==> s.spec_same_set(a, c),
{
}

/// Merging never separates: ids already in one set are still in one set
/// after any union.
pub proof fn lemma_union_preserves_same_set(
    pre: DisjointSets,
    post: DisjointSets,
    a: int,
    b: int,
    x: int,
    y: int,
)
    requires
        0 <= a < pre.labels@.len(),
        0 <= b < pre.labels@.len(),
        0 <= x < pre.labels@.len(),
        0 <= y < pre.labels@.len(),
        post.labels@.len() == pre.labels@.len(),
        forall|k: int|
            0 <= k < pre.labels@.len() ==> (#[trigger] post.labels@[k]) == if pre.labels@[k]
                == pre.labels@[b] {
                pre.labels@[a]
            } else {
                pre.labels@[k]
            },
        pre.spec_same_set(x, y),
    ensures
        post.spec_same_set(x, y),
{
}

} // verus!
