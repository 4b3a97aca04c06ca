//! A disjoint-set (union-find) forest with union by estimated depth.
//!
//! The elements are labelled `0..len()`. Every element names its parent and
//! lists its children; an element without a parent is the root of its set.
//! Two elements are in one set if the walk along the parent links ends at the
//! same root. A merge hangs the root whose tree is estimated to be shallower
//! under the other root; the estimate looks at a sample of the children of a
//! node that has many, so that a merge stays cheap. Lookups do not compress
//! paths.
//!
//! - [`model`] holds the mathematical model: what a forest is, the root of a
//!   node, the depth estimate, and what each operation makes of a forest.
//! - [`weighted`] holds the executable structure, [`UnionWeighted`], whose
//!   contracts are stated over the model.
//! - [`laws`] states and proves what holds of every forest.
//! - [`lemmas`] holds the facts that the proofs rest on.
//!
//! Every operation that takes a label asks for one below `len()`. Verus holds
//! verified callers to that; in code that it does not check, a call with
//! another label panics before anything is changed.

use vstd::prelude::*;

pub mod laws;
pub mod lemmas;
pub mod model;
pub mod weighted;

pub use crate::weighted::{UnionWeighted, UnionWeightedNode};

verus! {

/// A partition of keys into sets that can be merged and queried.
pub trait UnionFind {
    /// What names an element.
    type K;

    /// The structure is in a state its operations accept.
    spec fn valid(&self) -> bool;

    /// `k` names an element of the structure.
    spec fn has_key(&self, k: Self::K) -> bool;

    /// `k1` and `k2` are in the same set.
    spec fn joined(&self, k1: Self::K, k2: Self::K) -> bool;

    /// Merges the set of `k1` with the set of `k2`. Any two elements are in
    /// one set afterwards if and only if they were before, or one was with
    /// `k1` and the other with `k2`.
    fn union(&mut self, k1: Self::K, k2: Self::K)
        requires
            old(self).valid(),
            old(self).has_key(k1),
            old(self).has_key(k2),
        ensures
            final(self).valid(),
            forall|k: Self::K| #[trigger] final(self).has_key(k) == old(self).has_key(k),
            final(self).joined(k1, k2),
            forall|x: Self::K, y: Self::K|
                old(self).has_key(x) && old(self).has_key(y) ==> (#[trigger] final(self).joined(
                    x,
                    y,
                ) <==> old(self).joined(x, y) || (old(self).joined(x, k1) && old(self).joined(
                    k2,
                    y,
                )) || (old(self).joined(x, k2) && old(self).joined(k1, y))),
    ;

    /// Whether `k1` and `k2` are in the same set.
    fn find(&self, k1: Self::K, k2: Self::K) -> (together: bool)
        requires
            self.valid(),
            self.has_key(k1),
            self.has_key(k2),
        ensures
            together == self.joined(k1, k2),
    ;
}

} // verus!
