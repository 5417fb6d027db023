//! Topological ordering by repeatedly emitting vertices without incoming
//! edges. The working edge set is the edges whose origin has not been
//! emitted yet; among ready vertices the one made ready last is emitted first.

use vstd::prelude::*;
use crate::walks::{Edge, ranks, has_ranking, acyclic, endpoints_below, count_false, is_walk, reaches,
    lemma_walk_append, lemma_walk_prepend,
    lemma_count_false_set, lemma_count_false_none, lemma_count_false_all, lemma_ranking_acyclic};
use crate::dag::unmarked;

verus! {

/// The edges left over hold a cycle.
#[derive(Clone, Copy, Debug, PartialEq, Eq)]
pub enum CycleError {
    CycleDetected,
}

/// `u` stands somewhere before `v` in `order`.
pub open spec fn precedes(order: Seq<u64>, u: u64, v: u64) -> bool {
    exists|i: int, j: int| 0 <= i < j < order.len() && order[i] == u && order[j] == v
}

/// `order` lists each of the ids below `n` once, and the origin of every edge
/// before its destination.
pub open spec fn is_topological<T>(order: Seq<u64>, n: int, edges: Seq<Edge<T>>) -> bool {
    &&& order.len() == n
    &&& order.no_duplicates()
    &&& forall|i: int| 0 <= i < order.len() ==> (#[trigger] order[i]) < n
    &&& forall|v: u64| v < n ==> #[trigger] order.contains(v)
    &&& forall|e: int| 0 <= e < edges.len() ==> precedes(order, (#[trigger] edges[e]).from, edges[e].to)
}

/// Some edge of the working set ends in `v`.
pub open spec fn has_live_in<T>(edges: Seq<Edge<T>>, emitted: Seq<bool>, v: u64) -> bool {
    exists|e: int| 0 <= e < edges.len() && (#[trigger] edges[e]).to == v && !emitted[edges[e].from as int]
}

/// The bookkeeping of the ready pool: emitted vertices were queued before,
/// the pool holds exactly the queued vertices not yet emitted, and no queued
/// vertex has an incoming edge in the working set.
pub open spec fn pool_ok<T>(n: int, edges: Seq<Edge<T>>, queued: Seq<bool>, emitted: Seq<bool>, ready: Seq<u64>) -> bool {
    &&& queued.len() == n
    &&& emitted.len() == n
    &&& endpoints_below(edges, n)
    &&& forall|v: int| 0 <= v < n && emitted[v] ==> queued[v]
    &&& forall|i: int| 0 <= i < ready.len() ==> (#[trigger] ready[i]) < n && queued[ready[i] as int]
            && !emitted[ready[i] as int]
    &&& ready.no_duplicates()
    &&& forall|v: u64| v < n && queued[v as int] && !emitted[v as int] ==> #[trigger] ready.contains(v)
    &&& forall|e: int| 0 <= e < edges.len() && queued[(#[trigger] edges[e]).to as int] ==> emitted[edges[e].from as int]
}

/// The bookkeeping of the output: it holds exactly the emitted vertices, each
/// once, and every edge into an emitted vertex comes from an earlier one.
pub open spec fn output_ok<T>(n: int, edges: Seq<Edge<T>>, emitted: Seq<bool>, result: Seq<u64>) -> bool {
    &&& emitted.len() == n
    &&& forall|i: int| 0 <= i < result.len() ==> (#[trigger] result[i]) < n && emitted[result[i] as int]
    &&& result.no_duplicates()
    &&& forall|v: u64| v < n && emitted[v as int] ==> #[trigger] result.contains(v)
    &&& forall|e: int| 0 <= e < edges.len() && emitted[(#[trigger] edges[e]).to as int] ==> precedes(
        result,
        edges[e].from,
        edges[e].to,
    )
    &&& result.len() + count_false(emitted) == n
}

/// Whether some edge of the working set ends in `v`.
pub fn has_incoming<T>(v: u64, edges: &Vec<Edge<T>>, emitted: &Vec<bool>) -> (r: bool)
    requires
        endpoints_below(edges@, emitted.len() as int),
    ensures
        r == has_live_in(edges@, emitted@, v),
{
    let mut i: usize = 0;
    while i < edges.len()
        invariant
            i <= edges.len(),
            endpoints_below(edges@, emitted.len() as int),
            forall|e: int| 0 <= e < i ==> !((#[trigger] edges[e]).to == v && !emitted[edges[e].from as int]),
        decreases edges.len() - i,
    {
        let edge = &edges[i];
        if edge.to == v && !emitted[edge.from as usize] {
            return true;
        }
        i += 1;
    }
    false
}

/// Moves every vertex that is still waiting and has no incoming edge in the
/// working set to the end of the ready pool, in ascending order of id.
pub fn split_remaining_v<T>(edges: &Vec<Edge<T>>, emitted: &Vec<bool>, queued: &mut Vec<bool>, ready: &mut Vec<u64>)
    requires
        pool_ok(old(queued).len() as int, edges@, old(queued)@, emitted@, old(ready)@),
    ensures
        pool_ok(old(queued).len() as int, edges@, final(queued)@, emitted@, final(ready)@),
        forall|u: int| 0 <= u < old(queued).len() ==> (final(queued)[u] <==> old(queued)[u] || !has_live_in(
            edges@,
            emitted@,
            u as u64,
        )),
        old(ready)@.len() <= final(ready)@.len(),
        final(ready)@.subrange(0, old(ready)@.len() as int) == old(ready)@,
        forall|i: int, j: int| old(ready)@.len() <= i < j < final(ready)@.len() ==> final(ready)[i] < final(ready)[j],
{
    let n = queued.len();
    let mut v: usize = 0;
    while v < n
        invariant
            v <= n,
            n == old(queued).len(),
            pool_ok(n as int, edges@, queued@, emitted@, ready@),
            old(ready)@.len() <= ready@.len(),
            ready@.subrange(0, old(ready)@.len() as int) == old(ready)@,
            forall|i: int| old(ready)@.len() <= i < ready@.len() ==> ready[i] < v,
            forall|i: int, j: int| old(ready)@.len() <= i < j < ready@.len() ==> ready[i] < ready[j],
            forall|u: int| 0 <= u < n ==> (queued[u] <==> old(queued)[u] || (u < v && !has_live_in(
                edges@,
                emitted@,
                u as u64,
            ))),
        decreases n - v,
    {
        if !queued[v] {
            if !has_incoming(v as u64, edges, emitted) {
                let ghost ready0 = ready@;
                queued.set(v, true);
                ready.push(v as u64);
                proof {
                    assert(ready@[ready0.len() as int] == v as u64);
                    assert(ready@.subrange(0, old(ready)@.len() as int) =~= ready0.subrange(0, old(ready)@.len() as int));
                    assert forall|u: u64| u < n && queued[u as int] && !emitted[u as int] implies #[trigger] ready@.contains(u) by {
                        if u != v as u64 {
                            assert(ready0.contains(u));
                            let k = choose|k: int| 0 <= k < ready0.len() && ready0[k] == u;
                            assert(ready@[k] == u);
                        }
                    }
                }
            }
        }
        v += 1;
    }
}

/// A list of distinct ids below `n` has at most `n` entries.
pub proof fn lemma_distinct_bounded(s: Seq<u64>, n: nat)
    requires
        s.no_duplicates(),
        forall|i: int| 0 <= i < s.len() ==> s[i] < n,
    ensures
        s.len() <= n,
    decreases n,
{
    if s.len() > 0 {
        if n == 0 {
            assert(s[0] < n);
        } else {
            let x = s.last();
            let t = Seq::new((s.len() - 1) as nat, |i: int| if s[i] == n - 1 { x } else { s[i] });
            assert forall|i: int| 0 <= i < t.len() implies t[i] < n - 1 by {
                assert(s[i] != s[s.len() - 1]);
                assert(s[i] < n);
                assert(x < n);
            }
            assert forall|i: int, j: int| 0 <= i < t.len() && 0 <= j < t.len() && i != j implies t[i] != t[j] by {
                assert(s[i] != s[j]);
                assert(s[i] != s[s.len() - 1]);
                assert(s[j] != s[s.len() - 1]);
            }
            lemma_distinct_bounded(t, (n - 1) as nat);
        }
    }
}

/// Where a vertex is waiting, and every waiting vertex has an incoming edge
/// from another waiting vertex, the edges hold a cycle: going back from `h`
/// over such edges, a vertex of `seen` must come again.
proof fn lemma_waiting_cycle<T>(edges: Seq<Edge<T>>, queued: Seq<bool>, emitted: Seq<bool>, seen: Seq<u64>, h: u64)
    requires
        queued.len() == emitted.len(),
        endpoints_below(edges, queued.len() as int),
        forall|v: int| 0 <= v < queued.len() && !queued[v] ==> has_live_in(edges, emitted, v as u64),
        forall|v: int| 0 <= v < queued.len() && queued[v] ==> emitted[v],
        h < queued.len(),
        !queued[h as int],
        seen.no_duplicates(),
        forall|i: int| 0 <= i < seen.len() ==> seen[i] < queued.len(),
        forall|i: int| 0 <= i < seen.len() ==> reaches(edges, h, #[trigger] seen[i]),
    ensures
        !acyclic(edges),
    decreases queued.len() - seen.len(),
{
    lemma_distinct_bounded(seen, queued.len());
    assert(has_live_in(edges, emitted, h));
    let e = choose|e: int| 0 <= e < edges.len() && (#[trigger] edges[e]).to == h && !emitted[edges[e].from as int];
    let w = edges[e].from;
    if seen.contains(w) {
        let i = choose|i: int| 0 <= i < seen.len() && seen[i] == w;
        assert(reaches(edges, h, seen[i]));
        let p = choose|p: Seq<int>| is_walk(edges, h, p, w);
        lemma_walk_append(edges, h, p, e);
        assert(is_walk(edges, h, p.push(e), h) && p.push(e).len() > 0);
    } else {
        let grown = seen.push(w);
        assert forall|i: int| 0 <= i < grown.len() implies reaches(edges, w, #[trigger] grown[i]) by {
            if i < seen.len() {
                assert(reaches(edges, h, seen[i]));
                let p = choose|p: Seq<int>| is_walk(edges, h, p, seen[i]);
                lemma_walk_prepend(edges, e, p, seen[i]);
            } else {
                assert(is_walk(edges, w, Seq::<int>::empty(), w));
            }
        }
        assert forall|i: int, j: int| 0 <= i < grown.len() && 0 <= j < grown.len() && i != j implies grown[i] != grown[j] by {
            if i < seen.len() {
                assert(seen[i] != w);
            }
            if j < seen.len() {
                assert(seen[j] != w);
            }
        }
        lemma_distinct_bounded(grown, queued.len());
        lemma_waiting_cycle(edges, queued, emitted, grown, w);
    }
}

/// In a topological order the origin of an edge stands strictly before its
/// destination, wherever the two are found.
pub proof fn lemma_origin_first<T>(order: Seq<u64>, n: int, edges: Seq<Edge<T>>, e: int, i: int, j: int)
    requires
        is_topological(order, n, edges),
        0 <= e < edges.len(),
        0 <= i < order.len(),
        0 <= j < order.len(),
        order[i] == edges[e].from,
        order[j] == edges[e].to,
    ensures
        i < j,
{
    assert(precedes(order, edges[e].from, edges[e].to));
}

/// A topological order numbers the vertices upwards along every edge, so the
/// edges hold no cycle.
pub proof fn lemma_topological_acyclic<T>(order: Seq<u64>, n: int, edges: Seq<Edge<T>>)
    requires
        is_topological(order, n, edges),
    ensures
        has_ranking(edges),
        acyclic(edges),
{
    let rank = |v: u64| -> nat { if order.contains(v) { order.index_of(v) as nat } else { 0nat } };
    assert forall|e: int| 0 <= e < edges.len() implies rank(#[trigger] edges[e].from) < rank(edges[e].to) by {
        let u = edges[e].from;
        let v = edges[e].to;
        assert(precedes(order, u, v));
        let (i, j) = choose|i: int, j: int| 0 <= i < j < order.len() && order[i] == u && order[j] == v;
        assert(order.contains(u));
        assert(order.contains(v));
        assert(order.index_of(u) == i);
        assert(order.index_of(v) == j);
    }
    assert(ranks(edges, rank));
    lemma_ranking_acyclic(edges);
}

/// A topological order of the ids below `n` under `edges`, or
/// `CycleDetected` where there is none: exactly where the edges hold a cycle.
pub fn kahn_order<T>(n: usize, edges: &Vec<Edge<T>>) -> (r: Result<Vec<u64>, CycleError>)
    requires
        endpoints_below(edges@, n as int),
    ensures
        match r {
            Ok(order) => is_topological(order@, n as int, edges@),
            Err(e) => e == CycleError::CycleDetected && !acyclic(edges@),
        },
        r is Ok <==> acyclic(edges@),
{
    let mut queued = unmarked(n);
    let mut emitted = unmarked(n);
    let mut ready: Vec<u64> = Vec::new();
    let mut result: Vec<u64> = Vec::new();
    proof {
        lemma_count_false_all(emitted@);
    }
    split_remaining_v(edges, &emitted, &mut queued, &mut ready);
    while ready.len() > 0
        invariant
            pool_ok(n as int, edges@, queued@, emitted@, ready@),
            output_ok(n as int, edges@, emitted@, result@),
            forall|u: int| 0 <= u < n && !queued[u] ==> has_live_in(edges@, emitted@, u as u64),
        decreases count_false(emitted@),
    {
        let ghost ready0 = ready@;
        let ghost result0 = result@;
        let ghost emitted0 = emitted@;
        let v = ready.pop().unwrap();
        proof {
            lemma_count_false_set(emitted@, v as int);
        }
        emitted.set(v as usize, true);
        result.push(v);
        proof {
            assert(result@[result0.len() as int] == v);
            assert forall|u: u64| u < n && queued[u as int] && !emitted[u as int] implies #[trigger] ready@.contains(u) by {
                assert(ready0.contains(u));
                let k = choose|k: int| 0 <= k < ready0.len() && ready0[k] == u;
                assert(ready@[k] == u);
            }
            assert forall|u: u64| u < n && emitted[u as int] implies #[trigger] result@.contains(u) by {
                if u != v {
                    assert(result0.contains(u));
                    let k = choose|k: int| 0 <= k < result0.len() && result0[k] == u;
                    assert(result@[k] == u);
                }
            }
            assert forall|e: int| 0 <= e < edges.len() && emitted[(#[trigger] edges[e]).to as int] implies precedes(
                result@,
                edges[e].from,
                edges[e].to,
            ) by {
                let a = edges[e].from;
                let b = edges[e].to;
                if b == v {
                    assert(emitted0[a as int]);
                    assert(result0.contains(a));
                    let k = choose|k: int| 0 <= k < result0.len() && result0[k] == a;
                    assert(result@[k] == a && result@[result0.len() as int] == b);
                } else {
                    assert(precedes(result0, a, b));
                    let (i, j) = choose|i: int, j: int| 0 <= i < j < result0.len() && result0[i] == a && result0[j] == b;
                    assert(result@[i] == a && result@[j] == b);
                }
            }
        }
        split_remaining_v(edges, &emitted, &mut queued, &mut ready);
    }
    proof {
        assert forall|u: int| 0 <= u < n && queued[u] implies emitted[u] by {
            if !emitted[u] {
                assert(ready@.contains(u as u64));
            }
        }
    }
    let mut i: usize = 0;
    while i < edges.len()
        invariant
            i <= edges.len(),
            emitted.len() == n,
            queued.len() == n,
            endpoints_below(edges@, n as int),
            forall|u: int| 0 <= u < n && !queued[u] ==> has_live_in(edges@, emitted@, u as u64),
            forall|u: int| 0 <= u < n && queued[u] ==> emitted[u],
            forall|e: int| 0 <= e < i ==> emitted[(#[trigger] edges[e]).from as int],
        decreases edges.len() - i,
    {
        let edge = &edges[i];
        if !emitted[edge.from as usize] {
            proof {
                assert(is_walk(edges@, edge.from, Seq::<int>::empty(), edge.from));
                lemma_waiting_cycle(edges@, queued@, emitted@, seq![edge.from], edge.from);
            }
            return Err(CycleError::CycleDetected);
        }
        i += 1;
    }
    proof {
        assert forall|u: int| 0 <= u < n implies emitted[u] by {
            if !queued[u] {
                assert(has_live_in(edges@, emitted@, u as u64));
            }
        }
        lemma_count_false_none(emitted@);
        lemma_topological_acyclic(result@, n as int, edges@);
    }
    Ok(result)
}

} // verus!
