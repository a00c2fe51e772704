//! Interfaces of the dynamic forests.

use vstd::prelude::*;

verus! {

/// A forest on vertices `0..len()` that edges can join and split.
pub trait DynamicForest: Sized {
    type Key;

    /// The internal structure is consistent.
    spec fn wf(&self) -> bool;

    /// The number of vertices.
    spec fn spec_len(&self) -> nat;

    /// Room for one more edge in the node arena.
    spec fn has_room(&self) -> bool;

    fn new(values: &[Self::Key]) -> (r: Self)
        requires
            values@.len() < u32::MAX / 4,
        ensures
            r.wf(),
            r.has_room(),
            r.spec_len() == values@.len(),
    ;

    fn len(&self) -> (r: usize)
        requires
            self.wf(),
        ensures
            r == self.spec_len(),
    ;

    fn is_empty(&self) -> (r: bool)
        requires
            self.wf(),
        ensures
            r == (self.spec_len() == 0),
    {
        self.len() == 0
    }

    /// Link `u` and `v` if they are in different components; `false` if they are already
    /// connected.
    fn link(&mut self, u: usize, v: usize) -> (r: bool)
        requires
            old(self).wf(),
            old(self).has_room(),
            u < old(self).spec_len(),
            v < old(self).spec_len(),
        ensures
            final(self).wf(),
            final(self).spec_len() == old(self).spec_len(),
            u == v ==> !r,
    ;

    /// Cut the edge `(u, v)` if it exists; `false` if there is no such edge.
    fn cut(&mut self, u: usize, v: usize) -> (r: bool)
        requires
            old(self).wf(),
            u < old(self).spec_len(),
            v < old(self).spec_len(),
        ensures
            final(self).wf(),
            final(self).spec_len() == old(self).spec_len(),
            old(self).has_room() ==> final(self).has_room(),
            u == v ==> !r,
    ;

    fn connected(&mut self, u: usize, v: usize) -> (r: bool)
        requires
            old(self).wf(),
            u < old(self).spec_len(),
            v < old(self).spec_len(),
        ensures
            final(self).wf(),
            final(self).spec_len() == old(self).spec_len(),
            old(self).has_room() ==> final(self).has_room(),
            u == v ==> r,
    ;
}

/// Reading and changing the key of one vertex.
pub trait VertexOps: DynamicForest {
    type Act;

    fn vertex_get(&mut self, v: usize) -> (r: Self::Key)
        requires
            old(self).wf(),
            v < old(self).spec_len(),
        ensures
            final(self).wf(),
            final(self).spec_len() == old(self).spec_len(),
            old(self).has_room() ==> final(self).has_room(),
    ;

    fn vertex_set(&mut self, v: usize, key: Self::Key)
        requires
            old(self).wf(),
            v < old(self).spec_len(),
        ensures
            final(self).wf(),
            final(self).spec_len() == old(self).spec_len(),
            old(self).has_room() ==> final(self).has_room(),
    ;

    fn vertex_apply(&mut self, v: usize, act: Self::Act)
        requires
            old(self).wf(),
            v < old(self).spec_len(),
        ensures
            final(self).wf(),
            final(self).spec_len() == old(self).spec_len(),
            old(self).has_room() ==> final(self).has_room(),
    ;
}

/// Aggregates and actions along the path between two vertices.
pub trait PathOps: DynamicForest {
    type Agg;
    type Act;

    fn makeroot(&mut self, v: usize)
        requires
            old(self).wf(),
            v < old(self).spec_len(),
        ensures
            final(self).wf(),
            final(self).spec_len() == old(self).spec_len(),
    ;

    fn find_root(&mut self, v: usize) -> (r: usize)
        requires
            old(self).wf(),
            v < old(self).spec_len(),
        ensures
            final(self).wf(),
            final(self).spec_len() == old(self).spec_len(),
            r < old(self).spec_len(),
    ;

    fn path_fold(&mut self, u: usize, v: usize) -> (r: Option<Self::Agg>)
        requires
            old(self).wf(),
            u < old(self).spec_len(),
            v < old(self).spec_len(),
        ensures
            final(self).wf(),
            final(self).spec_len() == old(self).spec_len(),
            u == v ==> r is Some,
    ;

    fn path_apply(&mut self, u: usize, v: usize, act: Self::Act) -> (r: bool)
        requires
            old(self).wf(),
            u < old(self).spec_len(),
            v < old(self).spec_len(),
        ensures
            final(self).wf(),
            final(self).spec_len() == old(self).spec_len(),
            u == v ==> r,
    ;

    fn path_len(&mut self, u: usize, v: usize) -> (r: Option<usize>)
        requires
            old(self).wf(),
            u < old(self).spec_len(),
            v < old(self).spec_len(),
        ensures
            final(self).wf(),
            final(self).spec_len() == old(self).spec_len(),
            u == v ==> r == Some(1usize),
    ;

    fn path_kth(&mut self, u: usize, v: usize, k: usize) -> (r: Option<usize>)
        requires
            old(self).wf(),
            u < old(self).spec_len(),
            v < old(self).spec_len(),
        ensures
            final(self).wf(),
            final(self).spec_len() == old(self).spec_len(),
            u == v ==> r == if k == 0 { Some(u) } else { None },
            r matches Some(x) ==> x < old(self).spec_len(),
    ;
}

/// Aggregates and actions over the component of a vertex.
pub trait ComponentOps: DynamicForest {
    type Agg;
    type Act;

    fn component_fold(&mut self, v: usize) -> (r: Self::Agg)
        requires
            old(self).wf(),
            v < old(self).spec_len(),
        ensures
            final(self).wf(),
            final(self).spec_len() == old(self).spec_len(),
            old(self).has_room() ==> final(self).has_room(),
    ;

    fn component_apply(&mut self, v: usize, act: Self::Act)
        requires
            old(self).wf(),
            v < old(self).spec_len(),
        ensures
            final(self).wf(),
            final(self).spec_len() == old(self).spec_len(),
            old(self).has_room() ==> final(self).has_room(),
    ;

    fn component_size(&mut self, v: usize) -> (r: usize)
        requires
            old(self).wf(),
            v < old(self).spec_len(),
        ensures
            final(self).wf(),
            final(self).spec_len() == old(self).spec_len(),
            old(self).has_room() ==> final(self).has_room(),
    ;
}

/// Aggregates and actions over the subtree below an edge.
pub trait SubtreeOps: DynamicForest {
    type Agg;
    type Act;

    /// The subtree operations may be asked about the edge `(u, v)`: a forest that records its
    /// edges asks for one recorded at both ends; one that does not accepts any pair.
    spec fn accepts_edge(&self, u: int, v: int) -> bool;

    /// Fold the subtree on the `child` side of the edge `(child, parent)`.
    fn subtree_fold(&mut self, child: usize, parent: usize) -> (r: Self::Agg)
        requires
            old(self).wf(),
            old(self).has_room(),
            old(self).accepts_edge(child as int, parent as int),
            child < old(self).spec_len(),
            parent < old(self).spec_len(),
        ensures
            final(self).wf(),
            final(self).spec_len() == old(self).spec_len(),
    ;

    /// Apply to the subtree on the `child` side of the edge `(child, parent)`.
    fn subtree_apply(&mut self, child: usize, parent: usize, act: Self::Act)
        requires
            old(self).wf(),
            old(self).has_room(),
            old(self).accepts_edge(child as int, parent as int),
            child < old(self).spec_len(),
            parent < old(self).spec_len(),
        ensures
            final(self).wf(),
            final(self).spec_len() == old(self).spec_len(),
    ;
}

} // verus!
