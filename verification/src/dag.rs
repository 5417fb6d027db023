//! The graph itself: vertices, edges, and the insertion rules that keep it
//! free of cycles.

use vstd::prelude::*;
use crate::order::{CycleError, kahn_order};
use crate::longest::{transformed, vertex_weights, edge_weights, transform_all, longest_path_over};
use crate::weight::Weight;
use crate::interface::DAGInterface;
use crate::walks::{Edge, Vertex, is_walk, reaches, leads_to, acyclic, endpoints_below, out_marked,
    count_false, lemma_count_false_set, lemma_walk_append, lemma_walk_last, lemma_closed_marks, lemma_acyclic_extend};

verus! {

/// Why an edge was refused.
#[derive(Clone, Copy, Debug, PartialEq, Eq)]
pub enum EdgeError {
    /// Both endpoints are the same vertex.
    SelfLoop,
    /// An endpoint was never handed out by `add_vertex`.
    UnknownVertex,
    /// The edge would close a cycle.
    CycleDetected,
}

/// A directed acyclic graph with weighted vertices and weighted edges.
pub struct DAG<T> {
    vertices: Vec<Vertex<T>>,
    edges: Vec<Edge<T>>,
    next_id: u64,
}

/// What `add_edge` answers on a graph with `n` vertices and the given edges.
pub open spec fn edge_verdict<T>(edges: Seq<Edge<T>>, n: int, from: u64, to: u64) -> Result<(), EdgeError> {
    if from == to {
        Err(EdgeError::SelfLoop)
    } else if from >= n || to >= n {
        Err(EdgeError::UnknownVertex)
    } else if reaches(edges, to, from) {
        Err(EdgeError::CycleDetected)
    } else {
        Ok(())
    }
}

/// A vector of `n` entries, each `false`.
pub fn unmarked(n: usize) -> (marks: Vec<bool>)
    ensures
        marks.len() == n,
        forall|i: int| 0 <= i < n ==> !marks[i],
{
    let mut marks: Vec<bool> = Vec::new();
    while marks.len() < n
        invariant
            marks.len() <= n,
            forall|i: int| 0 <= i < marks.len() ==> !marks[i],
        decreases n - marks.len(),
    {
        marks.push(false);
    }
    marks
}

impl<T: Weight> DAG<T> {
    /// The vertices, in the order of their creation.
    pub closed spec fn vertex_seq(&self) -> Seq<Vertex<T>> {
        self.vertices@
    }

    /// The edges, in the order of their insertion.
    pub closed spec fn edge_seq(&self) -> Seq<Edge<T>> {
        self.edges@
    }

    /// The id that the next vertex will get.
    pub closed spec fn next_id(&self) -> u64 {
        self.next_id
    }

    /// The shape of the graph: ids count up from zero, and every edge joins
    /// two existing vertices.
    pub open spec fn shaped(&self) -> bool {
        &&& self.vertex_seq().len() == self.next_id()
        &&& forall|i: int| 0 <= i < self.vertex_seq().len() ==> (#[trigger] self.vertex_seq()[i]).id == i
        &&& endpoints_below(self.edge_seq(), self.next_id() as int)
    }

    /// The graph's invariant: its shape, and no walk along the edges returns
    /// to its origin.
    pub open spec fn wf(&self) -> bool {
        &&& self.shaped()
        &&& acyclic(self.edge_seq())
    }

    /// The vertices carry the ids 0, 1, 2, ... in the order of their creation.
    pub proof fn lemma_ids_count_up(&self, i: int, j: int)
        requires
            self.wf(),
            0 <= i < j < self.vertex_seq().len(),
        ensures
            self.vertex_seq()[0].id == 0,
            self.vertex_seq()[i].id < self.vertex_seq()[j].id,
            self.vertex_seq()[j].id == j,
    {
    }

    /// An empty graph.
    pub fn new() -> (dag: DAG<T>)
        ensures
            dag.wf(),
            dag.next_id() == 0,
            dag.vertex_seq() == Seq::<Vertex<T>>::empty(),
            dag.edge_seq() == Seq::<Edge<T>>::empty(),
    {
        DAG { vertices: Vec::new(), edges: Vec::new(), next_id: 0 }
    }

    /// The vertices, in the order of their creation.
    pub fn vertices(&self) -> (vs: &Vec<Vertex<T>>)
        ensures
            vs@ == self.vertex_seq(),
    {
        &self.vertices
    }

    /// The edges, in the order of their insertion.
    pub fn edges(&self) -> (es: &Vec<Edge<T>>)
        ensures
            es@ == self.edge_seq(),
    {
        &self.edges
    }

    /// Whether one or more edges of a graph with `n` vertices lead from
    /// `current` to `target`: whether an edge from `target` to `current`
    /// would close a cycle. With `current` equal to `target` this asks for a
    /// cycle through that vertex.
    pub fn check_cyclicity(target: u64, current: u64, edges: &Vec<Edge<T>>, n: usize) -> (found: bool)
        requires
            endpoints_below(edges@, n as int),
        ensures
            found == leads_to(edges@, current, target),
            found == (exists|ep: Seq<int>| ep.len() > 0 && is_walk(edges@, current, ep, target)),
    {
        if current >= n as u64 {
            return false;
        }
        let seen = Self::reach_marks(current, edges, n);
        let mut i: usize = 0;
        while i < edges.len()
            invariant
                i <= edges.len(),
                seen.len() == n,
                current < n,
                endpoints_below(edges@, n as int),
                forall|v: u64| v < n ==> (seen[v as int] <==> #[trigger] reaches(edges@, current, v)),
                forall|e: int| 0 <= e < i ==> !((#[trigger] edges[e]).to == target && seen[edges[e].from as int]),
            decreases edges.len() - i,
        {
            let edge = &edges[i];
            if edge.to == target && seen[edge.from as usize] {
                proof {
                    assert(reaches(edges@, current, edge.from));
                    let p = choose|p: Seq<int>| is_walk(edges@, current, p, edge.from);
                    lemma_walk_append(edges@, current, p, i as int);
                    assert(p.push(i as int).len() > 0);
                }
                return true;
            }
            i += 1;
        }
        proof {
            assert forall|ep: Seq<int>| ep.len() > 0 implies !is_walk(edges@, current, ep, target) by {
                if is_walk(edges@, current, ep, target) {
                    lemma_walk_last(edges@, current, ep, target);
                    assert(reaches(edges@, current, edges[ep.last()].from));
                }
            }
        }
        false
    }

    /// Marks the vertices that can be reached from `current`, by a depth-first
    /// search with an explicit stack over `n` vertices.
    pub fn reach_marks(current: u64, edges: &Vec<Edge<T>>, n: usize) -> (seen: Vec<bool>)
        requires
            current < n,
            endpoints_below(edges@, n as int),
        ensures
            seen.len() == n,
            forall|v: u64| v < n ==> (seen[v as int] <==> #[trigger] reaches(edges@, current, v)),
            forall|v: u64| v >= n ==> !(#[trigger] reaches(edges@, current, v)),
    {
        let mut seen = unmarked(n);
        seen.set(current as usize, true);
        let mut stack: Vec<u64> = Vec::new();
        stack.push(current);
        proof {
            assert(is_walk(edges@, current, Seq::<int>::empty(), current));
            assert(stack@[0] == current);
        }
        while stack.len() > 0
            invariant
                seen.len() == n,
                current < n,
                endpoints_below(edges@, n as int),
                seen[current as int],
                forall|i: int| 0 <= i < stack.len() ==> stack[i] < n && seen[stack[i] as int],
                forall|v: u64| v < n && seen[v as int] ==> #[trigger] reaches(edges@, current, v),
                forall|v: u64| v < n && seen[v as int] && !stack@.contains(v) ==> #[trigger] out_marked(edges@, seen@, v),
            decreases 2 * count_false(seen@) + stack.len(),
        {
            let ghost before = 2 * count_false(seen@) + stack.len();
            let ghost stack0 = stack@;
            let v = stack.pop().unwrap();
            proof {
                assert forall|j: int| 0 <= j < stack0.len() - 1 implies stack@.contains(stack0[j]) by {
                    assert(stack@[j] == stack0[j]);
                }
                assert forall|u: u64| u < n && seen[u as int] && !stack@.contains(u) && u != v implies #[trigger] out_marked(edges@, seen@, u) by {
                    if stack0.contains(u) {
                        let k = choose|k: int| 0 <= k < stack0.len() && stack0[k] == u;
                        assert(stack@[k] == u);
                    }
                }
            }
            let mut i: usize = 0;
            while i < edges.len()
                invariant
                    i <= edges.len(),
                    seen.len() == n,
                    current < n,
                    v < n,
                    seen[v as int],
                    endpoints_below(edges@, n as int),
                    seen[current as int],
                    stack0.len() > 0,
                    stack0.last() == v,
                    forall|j: int| 0 <= j < stack0.len() - 1 ==> stack@.contains(stack0[j]),
                    forall|j: int| 0 <= j < stack.len() ==> stack[j] < n && seen[stack[j] as int],
                    forall|u: u64| u < n && seen[u as int] ==> #[trigger] reaches(edges@, current, u),
                    forall|u: u64| u < n && seen[u as int] && !stack@.contains(u) && u != v ==> #[trigger] out_marked(edges@, seen@, u),
                    forall|e: int| 0 <= e < i && (#[trigger] edges[e]).from == v ==> seen[edges[e].to as int],
                    2 * count_false(seen@) + stack.len() < before,
                decreases edges.len() - i,
            {
                let edge = &edges[i];
                if edge.from == v && !seen[edge.to as usize] {
                    let ghost seen0 = seen@;
                    let ghost stack1 = stack@;
                    proof {
                        lemma_count_false_set(seen@, edge.to as int);
                        assert(reaches(edges@, current, v));
                        let ep = choose|ep: Seq<int>| is_walk(edges@, current, ep, v);
                        lemma_walk_append(edges@, current, ep, i as int);
                    }
                    seen.set(edge.to as usize, true);
                    stack.push(edge.to);
                    proof {
                        assert(stack@[stack1.len() as int] == edge.to);
                        assert forall|j: int| 0 <= j < stack0.len() - 1 implies stack@.contains(stack0[j]) by {
                            let k = choose|k: int| 0 <= k < stack1.len() && stack1[k] == stack0[j];
                            assert(stack@[k] == stack0[j]);
                        }
                        assert forall|u: u64| u < n && seen[u as int] && !stack@.contains(u) && u != v implies #[trigger] out_marked(edges@, seen@, u) by {
                            assert(u != edge.to);
                            if stack1.contains(u) {
                                let k = choose|k: int| 0 <= k < stack1.len() && stack1[k] == u;
                                assert(stack@[k] == u);
                            }
                            assert(out_marked(edges@, seen0, u));
                        }
                    }
                }
                i += 1;
            }
            assert(out_marked(edges@, seen@, v));
        }
        proof {
            assert forall|v: u64, ep: Seq<int>| is_walk(edges@, current, ep, v) implies v < n && seen[v as int] by {
                lemma_closed_marks(edges@, seen@, current, ep, v);
            }
        }
        seen
    }

    /// The weight of the vertex `id`.
    pub fn weight_of_vertex(&self, id: u64) -> (w: T)
        requires
            self.wf(),
            id < self.next_id(),
        ensures
            w == self.vertex_seq()[id as int].weight,
    {
        assert(id < self.vertices.len());
        let at = id as usize;
        self.vertices[at].weight.duplicate()
    }

    /// The weights of the vertices, by id.
    fn vertex_weight_list(&self) -> (ws: Vec<T>)
        ensures
            ws@ == vertex_weights(self.vertex_seq()),
    {
        let mut ws: Vec<T> = Vec::new();
        let mut i: usize = 0;
        while i < self.vertices.len()
            invariant
                i <= self.vertices.len(),
                ws.len() == i,
                forall|j: int| 0 <= j < i ==> ws[j] == self.vertices[j].weight,
            decreases self.vertices.len() - i,
        {
            ws.push(self.vertices[i].weight.duplicate());
            i += 1;
        }
        assert(ws@ =~= vertex_weights(self.vertex_seq()));
        ws
    }

    /// The weights of the edges, in the order of insertion.
    fn edge_weight_list(&self) -> (ws: Vec<T>)
        ensures
            ws@ == edge_weights(self.edge_seq()),
    {
        let mut ws: Vec<T> = Vec::new();
        let mut i: usize = 0;
        while i < self.edges.len()
            invariant
                i <= self.edges.len(),
                ws.len() == i,
                forall|j: int| 0 <= j < i ==> ws[j] == self.edges[j].weight,
            decreases self.edges.len() - i,
        {
            ws.push(self.edges[i].weight.duplicate());
            i += 1;
        }
        assert(ws@ =~= edge_weights(self.edge_seq()));
        ws
    }

}

impl<T: Weight> DAGInterface<T> for DAG<T> {
    open spec fn valid(&self) -> bool {
        self.wf()
    }

    open spec fn structured(&self) -> bool {
        self.shaped()
    }

    proof fn lemma_valid(&self) {
    }

    open spec fn vertex_list(&self) -> Seq<Vertex<T>> {
        self.vertex_seq()
    }

    open spec fn edge_list(&self) -> Seq<Edge<T>> {
        self.edge_seq()
    }

    fn add_vertex(&mut self, w: T) -> (id: u64)
    {
        let id = self.next_id;
        self.vertices.push(Vertex { id: id, weight: w });
        self.next_id = id + 1;
        id
    }


    fn add_edge(&mut self, from: u64, to: u64, weight: T) -> (r: Result<(), EdgeError>)
    {
        if from == to {
            return Err(EdgeError::SelfLoop);
        }
        if from >= self.next_id || to >= self.next_id {
            return Err(EdgeError::UnknownVertex);
        }
        proof {
            if reaches(self.edge_seq(), to, from) {
                let ep = choose|ep: Seq<int>| is_walk(self.edge_seq(), to, ep, from);
                assert(ep.len() > 0);
            }
        }
        if Self::check_cyclicity(from, to, &self.edges, self.vertices.len()) {
            return Err(EdgeError::CycleDetected);
        }
        let edge = Edge { from: from, to: to, weight: weight };
        proof {
            lemma_acyclic_extend(self.edge_seq(), edge);
        }
        self.edges.push(edge);
        Ok(())
    }


    fn topological_order(&self) -> (r: Result<Vec<u64>, CycleError>)
    {
        kahn_order(self.vertices.len(), &self.edges)
    }


    fn weight_of_longest_path<F1, F2>(&self, from: u64, to: u64, v_sum: &F1, e_sum: &F2) -> (r: Option<T>)
        where F1: Fn(T) -> T, F2: Fn(T) -> T
    {
        if from >= self.next_id {
            return None;
        }
        if from == to {
            proof {
                assert(is_walk(self.edge_seq(), from, Seq::<int>::empty(), to));
            }
            return Some(self.weight_of_vertex(from));
        }
        let vws = self.vertex_weight_list();
        let ews = self.edge_weight_list();
        proof {
            assert forall|i: int| 0 <= i < vws.len() implies call_requires(v_sum, (#[trigger] vws[i],)) by {
                assert(vws[i] == self.vertex_list()[i].weight);
            }
            assert forall|i: int| 0 <= i < ews.len() implies call_requires(e_sum, (#[trigger] ews[i],)) by {
                assert(ews[i] == self.edge_list()[i].weight);
            }
        }
        let tv = transform_all(v_sum, &vws);
        let te = transform_all(e_sum, &ews);
        proof {
            assert(transformed(v_sum, vertex_weights(self.vertex_list()), tv@));
            assert(transformed(e_sum, edge_weights(self.edge_list()), te@));
        }
        longest_path_over(&self.vertices, &self.edges, &tv, &te, from, to)
    }
}

} // verus!
