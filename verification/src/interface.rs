//! The operations of a graph that stays free of cycles.

use vstd::prelude::*;
use crate::weight::Weight;
use crate::walks::{Edge, Vertex, reaches, acyclic};
use crate::order::{CycleError, is_topological};
use crate::longest::{is_longest, walks_fit, transformed, vertex_weights, edge_weights};
use crate::dag::{EdgeError, edge_verdict};

verus! {

/// A graph of weighted vertices and weighted edges that refuses every edge
/// which would close a cycle.
pub trait DAGInterface<T: Weight>: Sized {
    /// The invariant that every operation keeps: the shape, and no cycle.
    spec fn valid(&self) -> bool;

    /// The shape alone: ids count up from zero and every edge joins two
    /// existing vertices. It says nothing of cycles.
    spec fn structured(&self) -> bool;

    /// A valid graph has the shape and holds no cycle.
    proof fn lemma_valid(&self)
        requires
            self.valid(),
        ensures
            self.structured(),
            acyclic(self.edge_list()),
    ;

    /// The vertices, in the order of their creation.
    spec fn vertex_list(&self) -> Seq<Vertex<T>>;

    /// The edges, in the order of their insertion.
    spec fn edge_list(&self) -> Seq<Edge<T>>;

    /// Adds a vertex of the given weight and returns its id: the number of
    /// vertices that the graph held before.
    fn add_vertex(&mut self, w: T) -> (id: u64)
        requires
            old(self).valid(),
            old(self).vertex_list().len() < u64::MAX,
        ensures
            final(self).valid(),
            id == old(self).vertex_list().len(),
            final(self).vertex_list() == old(self).vertex_list().push(Vertex { id: id, weight: w }),
            final(self).edge_list() == old(self).edge_list(),
    ;

    /// Adds the edge from `from` to `to`, unless it is a self-loop, names an
    /// unknown vertex or would close a cycle; a refused edge leaves the graph
    /// as it was.
    fn add_edge(&mut self, from: u64, to: u64, weight: T) -> (r: Result<(), EdgeError>)
        requires
            old(self).valid(),
        ensures
            final(self).valid(),
            acyclic(final(self).edge_list()),
            r == edge_verdict(old(self).edge_list(), old(self).vertex_list().len() as int, from, to),
            from == to ==> r == Err::<(), EdgeError>(EdgeError::SelfLoop),
            from != to && (from >= old(self).vertex_list().len() || to >= old(self).vertex_list().len()) ==> r == Err::<(), EdgeError>(
                EdgeError::UnknownVertex,
            ),
            from != to && from < old(self).vertex_list().len() && reaches(old(self).edge_list(), to, from) ==> r == Err::<
                (),
                EdgeError,
            >(EdgeError::CycleDetected),
            final(self).vertex_list() == old(self).vertex_list(),
            r is Ok ==> final(self).edge_list() == old(self).edge_list().push(
                Edge { from: from, to: to, weight: weight },
            ),
            r is Err ==> final(self).edge_list() == old(self).edge_list(),
    ;

    /// The vertex ids in an order in which the origin of every edge stands
    /// before its destination, or `CycleDetected` where the edges hold a
    /// cycle. A valid graph holds none, so it always has an order.
    fn topological_order(&self) -> (r: Result<Vec<u64>, CycleError>)
        requires
            self.structured(),
        ensures
            r is Ok <==> acyclic(self.edge_list()),
            r is Ok ==> is_topological(r->Ok_0@, self.vertex_list().len() as int, self.edge_list()),
            r is Err ==> r == Err::<Vec<u64>, CycleError>(CycleError::CycleDetected),
    ;

    /// The greatest weight of a walk from `from` to `to`, or `None` where
    /// `from` is no vertex of the graph or `to` cannot be reached from it.
    ///
    /// `v_sum` is applied once to the weight of each vertex and `e_sum` once
    /// to the weight of each edge. A walk counts the transformed weight of
    /// every vertex it leaves and of every edge it takes, and the plain
    /// weight of the vertex where it ends; so from a vertex to itself the
    /// answer is that vertex's weight, and neither transform is called.
    fn weight_of_longest_path<F1, F2>(&self, from: u64, to: u64, v_sum: &F1, e_sum: &F2) -> (r: Option<T>)
        where F1: Fn(T) -> T, F2: Fn(T) -> T
        requires
            self.valid(),
            from < self.vertex_list().len() && from != to ==> forall|i: int| 0 <= i < self.vertex_list().len() ==> call_requires(
                v_sum, (#[trigger] self.vertex_list()[i].weight,)),
            from < self.vertex_list().len() && from != to ==> forall|i: int| 0 <= i < self.edge_list().len() ==> call_requires(
                e_sum, (#[trigger] self.edge_list()[i].weight,)),
            from < self.vertex_list().len() && from != to ==> forall|tv: Seq<T>, te: Seq<T>|
                transformed(v_sum, vertex_weights(self.vertex_list()), tv) && transformed(
                    e_sum, edge_weights(self.edge_list()), te) ==> walks_fit(
                    self.vertex_list(), self.edge_list(), tv, te, from, to),
        ensures
            from < self.vertex_list().len() && from == to ==> r == Some(self.vertex_list()[from as int].weight),
            from < self.vertex_list().len() && from != to ==> exists|tv: Seq<T>, te: Seq<T>|
                transformed(v_sum, vertex_weights(self.vertex_list()), tv) && transformed(
                    e_sum, edge_weights(self.edge_list()), te) && is_longest(
                    self.vertex_list(), self.edge_list(), tv, te, from, to, r),
            r is None <==> from >= self.vertex_list().len() || !reaches(self.edge_list(), from, to),
    ;
}

} // verus!
