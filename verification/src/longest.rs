//! The heaviest walk between two vertices, under weights that the caller has
//! transformed.
//!
//! The weight of a walk counts, for every vertex that the walk leaves, its
//! transformed weight and the transformed weight of the edge taken, and for
//! the vertex where the walk ends its plain weight. A walk without edges
//! therefore weighs what its only vertex weighs, whatever the transforms.

use vstd::prelude::*;
use crate::walks::{Edge, Vertex, is_walk, reaches, acyclic, endpoints_below, lemma_walk_prepend,
    lemma_walk_append};
use crate::order::{kahn_order, is_topological, precedes};
use crate::dag::DAG;
use crate::weight::Weight;

verus! {

/// The weight of the walk `ep` that starts in `a`.
pub open spec fn walk_weight<T: Weight>(vs: Seq<Vertex<T>>, edges: Seq<Edge<T>>, tv: Seq<T>, te: Seq<T>, a: u64, ep: Seq<int>) -> int
    decreases ep.len(),
{
    if ep.len() == 0 {
        vs[a as int].weight.amount()
    } else {
        tv[a as int].amount() + te[ep[0]].amount() + walk_weight(vs, edges, tv, te, edges[ep[0]].to, ep.drop_first())
    }
}

/// `r` is the greatest weight of a walk from `a` to `b`, or `None` where
/// there is no such walk.
pub open spec fn is_longest<T: Weight>(vs: Seq<Vertex<T>>, edges: Seq<Edge<T>>, tv: Seq<T>, te: Seq<T>, a: u64, b: u64, r: Option<T>) -> bool {
    match r {
        None => forall|ep: Seq<int>| !is_walk(edges, a, ep, b),
        Some(w) => {
            &&& exists|ep: Seq<int>| is_walk(edges, a, ep, b) && walk_weight(vs, edges, tv, te, a, ep) == w.amount()
            &&& forall|ep: Seq<int>| is_walk(edges, a, ep, b) ==> walk_weight(vs, edges, tv, te, a, ep) <= w.amount()
        },
    }
}

/// The amount `x` is one that a weight of the type can stand for.
pub open spec fn in_range<T: Weight>(x: int) -> bool {
    T::least() <= x <= T::limit()
}

/// Every walk from `v` to `b` has a weight that the weight type holds, and
/// so has the sum of the first vertex and first edge of each.
pub open spec fn walks_fit_at<T: Weight>(vs: Seq<Vertex<T>>, edges: Seq<Edge<T>>, tv: Seq<T>, te: Seq<T>, v: u64, b: u64) -> bool {
    forall|ep: Seq<int>| #[trigger]
        is_walk(edges, v, ep, b) ==> in_range::<T>(walk_weight(vs, edges, tv, te, v, ep)) && (ep.len() > 0
            ==> in_range::<T>(tv[v as int].amount() + te[ep[0]].amount()))
}

/// The sums that the search for the heaviest walk from `a` to `b` forms are
/// ones that the weight type holds: `walks_fit_at` for every vertex that `a`
/// reaches.
pub open spec fn walks_fit<T: Weight>(vs: Seq<Vertex<T>>, edges: Seq<Edge<T>>, tv: Seq<T>, te: Seq<T>, a: u64, b: u64) -> bool {
    forall|v: u64| #[trigger] reaches(edges, a, v) ==> walks_fit_at(vs, edges, tv, te, v, b)
}

/// `out` holds, entry by entry, a result of `f` on the weights `ws`.
pub open spec fn transformed<T, F: Fn(T) -> T>(f: &F, ws: Seq<T>, out: Seq<T>) -> bool {
    &&& out.len() == ws.len()
    &&& forall|i: int| 0 <= i < ws.len() ==> call_ensures(f, (ws[i],), #[trigger] out[i])
}

/// The weights of the vertices, by id.
pub open spec fn vertex_weights<T: Weight>(vs: Seq<Vertex<T>>) -> Seq<T> {
    Seq::new(vs.len(), |i: int| vs[i].weight)
}

/// The weights of the edges, in the order of insertion.
pub open spec fn edge_weights<T: Weight>(edges: Seq<Edge<T>>) -> Seq<T> {
    Seq::new(edges.len(), |i: int| edges[i].weight)
}

/// Where no weight is negative, a walk weighs no more than any walk that it
/// ends.
pub proof fn lemma_tail_weight<T: Weight>(vs: Seq<Vertex<T>>, edges: Seq<Edge<T>>, tv: Seq<T>, te: Seq<T>, a: u64, p: Seq<int>, b: u64, q: Seq<int>, c: u64)
    requires
        T::least() >= 0,
        is_walk(edges, a, p, b),
        is_walk(edges, b, q, c),
    ensures
        is_walk(edges, a, p + q, c),
        walk_weight(vs, edges, tv, te, a, p + q) >= walk_weight(vs, edges, tv, te, b, q),
    decreases p.len(),
{
    if p.len() == 0 {
        assert(p + q =~= q);
    } else {
        lemma_tail_weight(vs, edges, tv, te, edges[p[0]].to, p.drop_first(), b, q, c);
        T::lemma_bounds(tv[a as int]);
        T::lemma_bounds(te[p[0]]);
        assert((p + q).drop_first() =~= p.drop_first() + q);
    }
}

/// Where no weight is negative, it is enough that the whole walks from `a`
/// to `b` have weights within the limit.
pub proof fn lemma_walks_fit<T: Weight>(vs: Seq<Vertex<T>>, edges: Seq<Edge<T>>, tv: Seq<T>, te: Seq<T>, a: u64, b: u64)
    requires
        T::least() == 0,
        forall|ep: Seq<int>| is_walk(edges, a, ep, b) ==> walk_weight(vs, edges, tv, te, a, ep) <= T::limit(),
    ensures
        walks_fit(vs, edges, tv, te, a, b),
{
    assert forall|v: u64| #[trigger] reaches(edges, a, v) implies walks_fit_at(vs, edges, tv, te, v, b) by {
        let head = choose|p: Seq<int>| is_walk(edges, a, p, v);
        assert forall|ep: Seq<int>| #[trigger] is_walk(edges, v, ep, b) implies in_range::<T>(
            walk_weight(vs, edges, tv, te, v, ep),
        ) && (ep.len() > 0 ==> in_range::<T>(tv[v as int].amount() + te[ep[0]].amount())) by {
            lemma_tail_weight(vs, edges, tv, te, a, head, v, ep, b);
            lemma_weight_bounds(vs, edges, tv, te, v, ep);
            if ep.len() > 0 {
                T::lemma_bounds(tv[v as int]);
                T::lemma_bounds(te[ep[0]]);
                lemma_weight_bounds(vs, edges, tv, te, edges[ep[0]].to, ep.drop_first());
            }
        }
    }
}

/// Where no weight is negative, no walk has a negative weight.
pub proof fn lemma_weight_bounds<T: Weight>(vs: Seq<Vertex<T>>, edges: Seq<Edge<T>>, tv: Seq<T>, te: Seq<T>, a: u64, ep: Seq<int>)
    requires
        T::least() >= 0,
    ensures
        walk_weight(vs, edges, tv, te, a, ep) >= 0,
    decreases ep.len(),
{
    if ep.len() == 0 {
        T::lemma_bounds(vs[a as int].weight);
    } else {
        T::lemma_bounds(tv[a as int]);
        T::lemma_bounds(te[ep[0]]);
        lemma_weight_bounds(vs, edges, tv, te, edges[ep[0]].to, ep.drop_first());
    }
}

/// The results of `f` on each of the weights `ws`, one call for each.
pub fn transform_all<T: Weight, F: Fn(T) -> T>(f: &F, ws: &Vec<T>) -> (out: Vec<T>)
    requires
        forall|i: int| 0 <= i < ws.len() ==> call_requires(f, (#[trigger] ws[i],)),
    ensures
        transformed(f, ws@, out@),
{
    let mut out: Vec<T> = Vec::new();
    let mut i: usize = 0;
    while i < ws.len()
        invariant
            i <= ws.len(),
            out.len() == i,
            forall|j: int| 0 <= j < ws.len() ==> call_requires(f, (#[trigger] ws[j],)),
            forall|j: int| 0 <= j < i ==> call_ensures(f, (ws[j],), #[trigger] out[j]),
        decreases ws.len() - i,
    {
        let t = f(ws[i].duplicate());
        out.push(t);
        i += 1;
    }
    out
}

/// The greatest entry of `v`, where `None` is below every `Some`: `None`
/// exactly where `v` holds no `Some`.
pub fn highest<T: Weight>(v: Vec<Option<T>>) -> (max: Option<T>)
    ensures
        max is None <==> forall|i: int| 0 <= i < v.len() ==> v[i] is None,
        max is Some ==> exists|i: int| 0 <= i < v.len() && v[i] == max,
        forall|i: int| 0 <= i < v.len() && v[i] is Some ==> max is Some && v[i]->Some_0.amount() <= max->Some_0.amount(),
{
    let mut max: Option<T> = None;
    let mut i: usize = 0;
    while i < v.len()
        invariant
            i <= v.len(),
            max is None <==> forall|j: int| 0 <= j < i ==> v[j] is None,
            max is Some ==> exists|j: int| 0 <= j < i && v[j] == max,
            forall|j: int| 0 <= j < i && v[j] is Some ==> max is Some && v[j]->Some_0.amount() <= max->Some_0.amount(),
        decreases v.len() - i,
    {
        let keep = match (&max, &v[i]) {
            (Some(m), Some(x)) => m.exceeds(x),
            (Some(_), None) => true,
            (None, _) => false,
        };
        if !keep {
            max = match &v[i] {
                Some(x) => Some(x.duplicate()),
                None => None,
            };
        }
        i += 1;
    }
    max
}

/// A vector of `n` entries, each `None`.
fn unset<T: Weight>(n: usize) -> (best: Vec<Option<T>>)
    ensures
        best.len() == n,
        forall|i: int| 0 <= i < n ==> best[i] is None,
{
    let mut best: Vec<Option<T>> = Vec::new();
    while best.len() < n
        invariant
            best.len() <= n,
            forall|i: int| 0 <= i < best.len() ==> best[i] is None,
        decreases n - best.len(),
    {
        best.push(None);
    }
    best
}

/// The greatest weight of a walk from `v` to `to`, where `v` is not `to` and
/// `best` holds that weight for every vertex that an edge leads to from `v`.
fn longest_through<T: Weight>(vertices: &Vec<Vertex<T>>, edges: &Vec<Edge<T>>, tv: &Vec<T>, te: &Vec<T>, best: &Vec<Option<T>>, v: u64, to: u64) -> (r: Option<T>)
    requires
        v < vertices.len(),
        v != to,
        endpoints_below(edges@, vertices.len() as int),
        tv.len() == vertices.len(),
        te.len() == edges.len(),
        best.len() == vertices.len(),
        forall|e: int| 0 <= e < edges.len() && (#[trigger] edges[e]).from == v ==> is_longest(
            vertices@, edges@, tv@, te@, edges[e].to, to, best[edges[e].to as int]),
        walks_fit_at(vertices@, edges@, tv@, te@, v, to),
    ensures
        is_longest(vertices@, edges@, tv@, te@, v, to, r),
{
    let mut weights: Vec<Option<T>> = Vec::new();
    let mut i: usize = 0;
    while i < edges.len()
        invariant
            i <= edges.len(),
            v < vertices.len(),
            v != to,
            endpoints_below(edges@, vertices.len() as int),
            tv.len() == vertices.len(),
            te.len() == edges.len(),
            best.len() == vertices.len(),
            forall|e: int| 0 <= e < edges.len() && (#[trigger] edges[e]).from == v ==> is_longest(
                vertices@, edges@, tv@, te@, edges[e].to, to, best[edges[e].to as int]),
            walks_fit_at(vertices@, edges@, tv@, te@, v, to),
            forall|k: int| 0 <= k < weights.len() ==> (#[trigger] weights[k]) is Some && exists|ep: Seq<int>|
                is_walk(edges@, v, ep, to) && walk_weight(vertices@, edges@, tv@, te@, v, ep) == weights[k]->Some_0.amount(),
            forall|ep: Seq<int>| #[trigger] is_walk(edges@, v, ep, to) && ep[0] < i ==> exists|k: int|
                0 <= k < weights.len() && weights[k] is Some && walk_weight(vertices@, edges@, tv@, te@, v, ep)
                    <= (#[trigger] weights[k])->Some_0.amount(),
        decreases edges.len() - i,
    {
        let edge = &edges[i];
        let ghost weights0 = weights@;
        if edge.from == v {
            let ghost mid = edge.to;
            assert(is_longest(vertices@, edges@, tv@, te@, edges[i as int].to, to, best[edges[i as int].to as int]));
            match &best[edge.to as usize] {
                Some(w) => {
                    proof {
                        let tail = choose|ep: Seq<int>| is_walk(edges@, mid, ep, to) && walk_weight(vertices@, edges@, tv@, te@, mid, ep) == w.amount();
                        lemma_walk_prepend(edges@, i as int, tail, to);
                        let whole = seq![i as int] + tail;
                        assert(whole.drop_first() =~= tail);
                        assert(whole[0] == i);
                        assert(walk_weight(vertices@, edges@, tv@, te@, v, whole) == tv[v as int].amount() + te[i as int].amount() + w.amount());
                        assert(is_walk(edges@, v, whole, to));
                    }
                    let step = tv[v as usize].plus(&te[i]);
                    let total = step.plus(w);
                    weights.push(Some(total));
                    proof {
                        assert(weights@[weights0.len() as int] == Some(total));
                        assert forall|k: int| 0 <= k < weights.len() implies (#[trigger] weights[k]) is Some && exists|ep: Seq<int>|
                            is_walk(edges@, v, ep, to) && walk_weight(vertices@, edges@, tv@, te@, v, ep) == weights[k]->Some_0.amount() by {
                            if k < weights0.len() {
                                assert(weights[k] == weights0[k]);
                            }
                        }
                        assert forall|ep: Seq<int>| #[trigger] is_walk(edges@, v, ep, to) && ep[0] < i + 1 implies exists|k: int|
                            0 <= k < weights.len() && weights[k] is Some && walk_weight(vertices@, edges@, tv@, te@, v, ep)
                                <= (#[trigger] weights[k])->Some_0.amount() by {
                            if ep[0] < i {
                                let k = choose|k: int| 0 <= k < weights0.len() && weights0[k] is Some && walk_weight(vertices@, edges@, tv@, te@, v, ep)
                                    <= (#[trigger] weights0[k])->Some_0.amount();
                                assert(weights[k] == weights0[k]);
                            } else {
                                assert(is_walk(edges@, mid, ep.drop_first(), to));
                                assert(walk_weight(vertices@, edges@, tv@, te@, mid, ep.drop_first()) <= w.amount());
                                assert(weights[weights0.len() as int]->Some_0 == total);
                            }
                        }
                    }
                },
                None => {
                    proof {
                        assert forall|ep: Seq<int>| #[trigger] is_walk(edges@, v, ep, to) && ep[0] < i + 1 implies ep[0] < i by {
                            if ep[0] == i {
                                assert(is_walk(edges@, mid, ep.drop_first(), to));
                            }
                        }
                    }
                },
            }
        }
        i += 1;
    }
    let ghost cands = weights@;
    let r = highest(weights);
    proof {
        if r is None {
            assert forall|ep: Seq<int>| !is_walk(edges@, v, ep, to) by {
                if is_walk(edges@, v, ep, to) {
                    let k = choose|k: int| 0 <= k < cands.len() && cands[k] is Some && walk_weight(vertices@, edges@, tv@, te@, v, ep)
                        <= (#[trigger] cands[k])->Some_0.amount();
                }
            }
        } else {
            let k = choose|k: int| 0 <= k < cands.len() && cands[k] == r;
            assert(cands[k] is Some);
            assert forall|ep: Seq<int>| is_walk(edges@, v, ep, to) implies walk_weight(vertices@, edges@, tv@, te@, v, ep) <= r->Some_0.amount() by {
                let j = choose|j: int| 0 <= j < cands.len() && cands[j] is Some && walk_weight(vertices@, edges@, tv@, te@, v, ep)
                    <= (#[trigger] cands[j])->Some_0.amount();
            }
        }
    }
    r
}

/// The greatest weight of a walk from `from` to `to` under the transformed
/// vertex weights `tv` and edge weights `te`; `None` where `from` is no
/// vertex or `to` cannot be reached. The vertices are worked off from the end of a topological order,
/// so each is settled once, after all that its edges lead to.
pub fn longest_path_over<T: Weight>(vertices: &Vec<Vertex<T>>, edges: &Vec<Edge<T>>, tv: &Vec<T>, te: &Vec<T>, from: u64, to: u64) -> (r: Option<T>)
    requires
        endpoints_below(edges@, vertices.len() as int),
        acyclic(edges@),
        tv.len() == vertices.len(),
        te.len() == edges.len(),
        from < vertices.len() ==> walks_fit(vertices@, edges@, tv@, te@, from, to),
    ensures
        from < vertices.len() ==> is_longest(vertices@, edges@, tv@, te@, from, to, r),
        from < vertices.len() && from == to ==> r == Some(vertices[from as int].weight),
        r is None <==> from >= vertices.len() || !reaches(edges@, from, to),
{
    let n = vertices.len();
    if from >= n as u64 {
        return None;
    }
    if from == to {
        let w = vertices[from as usize].weight.duplicate();
        proof {
            assert(is_walk(edges@, from, Seq::<int>::empty(), to));
            assert(walk_weight(vertices@, edges@, tv@, te@, from, Seq::<int>::empty()) == w.amount());
            assert forall|ep: Seq<int>| is_walk(edges@, from, ep, to) implies walk_weight(vertices@, edges@, tv@, te@, from, ep) <= w.amount() by {
                assert(ep.len() == 0);
            }
        }
        return Some(w);
    }
    let marks = DAG::<T>::reach_marks(from, edges, n);
    let order = match kahn_order(n, edges) {
        Ok(order) => order,
        Err(_) => {
            return None;
        },
    };
    let mut best = unset(n);
    let mut k: usize = n;
    while k > 0
        invariant
            k <= n,
            n == vertices.len(),
            from < n,
            from != to,
            best.len() == n,
            marks.len() == n,
            endpoints_below(edges@, n as int),
            tv.len() == n,
            te.len() == edges.len(),
            is_topological(order@, n as int, edges@),
            acyclic(edges@),
            walks_fit(vertices@, edges@, tv@, te@, from, to),
            forall|v: u64| v < n ==> (marks[v as int] <==> #[trigger] reaches(edges@, from, v)),
            forall|j: int| k <= j < n && marks[order[j] as int] ==> is_longest(
                vertices@, edges@, tv@, te@, #[trigger] order[j], to, best[order[j] as int]),
        decreases k,
    {
        k -= 1;
        let v = order[k];
        let ghost best0 = best@;
        if marks[v as usize] {
            let settled = if v == to {
                let w = vertices[v as usize].weight.duplicate();
                proof {
                    assert(is_walk(edges@, v, Seq::<int>::empty(), to));
                    assert(walk_weight(vertices@, edges@, tv@, te@, v, Seq::<int>::empty()) == w.amount());
                    assert forall|ep: Seq<int>| is_walk(edges@, v, ep, to) implies walk_weight(vertices@, edges@, tv@, te@, v, ep) <= w.amount() by {
                        assert(ep.len() == 0);
                    }
                }
                Some(w)
            } else {
                proof {
                    assert(reaches(edges@, from, v));
                    let head = choose|ep: Seq<int>| is_walk(edges@, from, ep, v);
                    assert forall|e: int| 0 <= e < edges.len() && (#[trigger] edges[e]).from == v implies is_longest(
                        vertices@, edges@, tv@, te@, edges[e].to, to, best[edges[e].to as int]) by {
                        let m = edges[e].to;
                        lemma_walk_append(edges@, from, head, e);
                        assert(reaches(edges@, from, m));
                        assert(precedes(order@, v, m));
                        let (i, j) = choose|i: int, j: int| 0 <= i < j < order.len() && order[i] == v && order[j] == m;
                        assert(i == k);
                    }
                    assert(walks_fit_at(vertices@, edges@, tv@, te@, v, to));
                }
                longest_through(vertices, edges, tv, te, &best, v, to)
            };
            best.set(v as usize, settled);
        }
        proof {
            assert forall|j: int| k <= j < n && marks[order[j] as int] implies is_longest(
                vertices@, edges@, tv@, te@, #[trigger] order[j], to, best[order[j] as int]) by {
                if j > k {
                    assert(order[j] != order[k as int]);
                    assert(best[order[j] as int] == best0[order[j] as int]);
                }
            }
        }
    }
    proof {
        assert(is_walk(edges@, from, Seq::<int>::empty(), from));
        assert(reaches(edges@, from, from));
        assert(order@.contains(from));
        let j = choose|j: int| 0 <= j < order.len() && order[j] == from;
        assert(is_longest(vertices@, edges@, tv@, te@, order[j], to, best[order[j] as int]));
    }
    match &best[from as usize] {
        Some(w) => Some(w.duplicate()),
        None => None,
    }
}

} // verus!
