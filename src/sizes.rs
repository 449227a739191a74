//! Node sizes as the layout reads them.
use vstd::prelude::*;
use std::collections::HashMap;
use crate::geometry::Vec2;

verus! {

broadcast use vstd::std_specs::hash::group_hash_axioms;

/// A lookup from node to its size, queried afresh on every positioning call.
pub trait NodeSizes {
    /// The size of `node`.
    spec fn size_of(&self, node: u64) -> Vec2;

    /// Returns the size of `node`.
    fn size(&self, node: u64) -> (r: Vec2)
        ensures
            r == self.size_of(node),
    ;
}

/// The size a map gives `node`: its entry, or zero where it has none.
pub open spec fn size_in(m: Map<u64, Vec2>, node: u64) -> Vec2 {
    if m.contains_key(node) {
        m[node]
    } else {
        Vec2 { x: 0, y: 0 }
    }
}

impl NodeSizes for HashMap<u64, Vec2> {
    open spec fn size_of(&self, node: u64) -> Vec2 {
        size_in(self@, node)
    }

    fn size(&self, node: u64) -> (r: Vec2) {
        match self.get(&node) {
            Some(v) => *v,
            None => Vec2::zero(),
        }
    }
}

/// Taking a node's entry out of a size map makes that node zero-sized and
/// leaves every other node's size as it was.
pub proof fn lemma_missing_size_is_zero(m: Map<u64, Vec2>, node: u64)
    ensures
        size_in(m.remove(node), node) == (Vec2 { x: 0, y: 0 }),
        forall|other: u64| other != node ==> #[trigger] size_in(m.remove(node), other) == size_in(m, other),
{
}

} // verus!
