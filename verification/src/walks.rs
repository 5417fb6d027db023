//! The mathematical model of the edge list: walks, reachability, rankings.

use vstd::prelude::*;

verus! {

/// A weighted directed edge between two vertex ids.
#[derive(Clone, Debug, PartialEq, Eq)]
pub struct Edge<T> {
    pub from: u64,
    pub to: u64,
    pub weight: T,
}

/// A weighted vertex.
#[derive(Clone, Debug, PartialEq, Eq)]
pub struct Vertex<T> {
    pub id: u64,
    pub weight: T,
}

/// `ep` lists edge indices that lead, one after the other, from `a` to `b`.
pub open spec fn is_walk<T>(edges: Seq<Edge<T>>, a: u64, ep: Seq<int>, b: u64) -> bool
    decreases ep.len(),
{
    if ep.len() == 0 {
        a == b
    } else {
        &&& 0 <= ep[0] < edges.len()
        &&& edges[ep[0]].from == a
        &&& is_walk(edges, edges[ep[0]].to, ep.drop_first(), b)
    }
}

/// `b` can be reached from `a` by following zero or more edges.
pub open spec fn reaches<T>(edges: Seq<Edge<T>>, a: u64, b: u64) -> bool {
    exists|ep: Seq<int>| is_walk(edges, a, ep, b)
}

/// `b` can be reached from `a` by following one or more edges.
pub open spec fn leads_to<T>(edges: Seq<Edge<T>>, a: u64, b: u64) -> bool {
    exists|ep: Seq<int>| ep.len() > 0 && is_walk(edges, a, ep, b)
}

/// No walk of one or more edges returns to its origin.
pub open spec fn acyclic<T>(edges: Seq<Edge<T>>) -> bool {
    forall|a: u64, ep: Seq<int>| ep.len() > 0 ==> !is_walk(edges, a, ep, a)
}

/// `rank` grows strictly along every edge.
pub open spec fn ranks<T>(edges: Seq<Edge<T>>, rank: spec_fn(u64) -> nat) -> bool {
    forall|e: int| 0 <= e < edges.len() ==> rank(#[trigger] edges[e].from) < rank(edges[e].to)
}

/// Some numbering of the vertices grows strictly along every edge.
pub open spec fn has_ranking<T>(edges: Seq<Edge<T>>) -> bool {
    exists|rank: spec_fn(u64) -> nat| ranks(edges, rank)
}

/// Every endpoint of every edge is an id below `n`.
pub open spec fn endpoints_below<T>(edges: Seq<Edge<T>>, n: int) -> bool {
    forall|e: int| 0 <= e < edges.len() ==> (#[trigger] edges[e]).from < n && edges[e].to < n
}

/// Every edge that leaves `v` ends in a marked vertex.
pub open spec fn out_marked<T>(edges: Seq<Edge<T>>, marks: Seq<bool>, v: u64) -> bool {
    forall|e: int| 0 <= e < edges.len() && (#[trigger] edges[e]).from == v ==> marks[edges[e].to as int]
}

/// The number of `false` entries of `s`.
pub open spec fn count_false(s: Seq<bool>) -> nat
    decreases s.len(),
{
    if s.len() == 0 {
        0
    } else {
        count_false(s.drop_last()) + if s.last() { 0nat } else { 1nat }
    }
}

/// Marking an unmarked entry lowers the count of unmarked entries by one.
pub proof fn lemma_count_false_set(s: Seq<bool>, i: int)
    requires
        0 <= i < s.len(),
        !s[i],
    ensures
        count_false(s.update(i, true)) + 1 == count_false(s),
    decreases s.len(),
{
    let t = s.update(i, true);
    if i == s.len() - 1 {
        assert(t.drop_last() =~= s.drop_last());
    } else {
        assert(t.drop_last() =~= s.drop_last().update(i, true));
        lemma_count_false_set(s.drop_last(), i);
    }
}

/// A sequence without `false` entries counts none.
pub proof fn lemma_count_false_none(s: Seq<bool>)
    requires
        forall|i: int| 0 <= i < s.len() ==> s[i],
    ensures
        count_false(s) == 0,
    decreases s.len(),
{
    if s.len() > 0 {
        lemma_count_false_none(s.drop_last());
    }
}

/// A sequence of `false` entries counts each of them.
pub proof fn lemma_count_false_all(s: Seq<bool>)
    requires
        forall|i: int| 0 <= i < s.len() ==> !s[i],
    ensures
        count_false(s) == s.len(),
    decreases s.len(),
{
    if s.len() > 0 {
        lemma_count_false_all(s.drop_last());
    }
}

/// An edge in front of a walk gives a walk.
pub proof fn lemma_walk_prepend<T>(edges: Seq<Edge<T>>, e: int, ep: Seq<int>, b: u64)
    requires
        0 <= e < edges.len(),
        is_walk(edges, edges[e].to, ep, b),
    ensures
        is_walk(edges, edges[e].from, seq![e] + ep, b),
{
    assert((seq![e] + ep).drop_first() =~= ep);
}

/// A walk of one or more edges is a walk to the origin of its last edge,
/// and that edge.
pub proof fn lemma_walk_last<T>(edges: Seq<Edge<T>>, a: u64, ep: Seq<int>, b: u64)
    requires
        is_walk(edges, a, ep, b),
        ep.len() > 0,
    ensures
        0 <= ep.last() < edges.len(),
        edges[ep.last()].to == b,
        is_walk(edges, a, ep.drop_last(), edges[ep.last()].from),
    decreases ep.len(),
{
    let rest = ep.drop_first();
    assert(is_walk(edges, edges[ep[0]].to, rest, b));
    if ep.len() == 1 {
        assert(rest.len() == 0);
        assert(ep.drop_last().len() == 0);
    } else {
        lemma_walk_last(edges, edges[ep[0]].to, rest, b);
        assert(rest.last() == ep.last());
        assert(ep.drop_last().drop_first() =~= rest.drop_last());
        assert(ep.drop_last()[0] == ep[0]);
    }
}

/// An edge behind a walk gives a walk.
pub proof fn lemma_walk_append<T>(edges: Seq<Edge<T>>, a: u64, ep: Seq<int>, e: int)
    requires
        0 <= e < edges.len(),
        is_walk(edges, a, ep, edges[e].from),
    ensures
        is_walk(edges, a, ep.push(e), edges[e].to),
    decreases ep.len(),
{
    if ep.len() == 0 {
        assert(ep.push(e).drop_first() =~= Seq::<int>::empty());
        assert(is_walk(edges, edges[e].to, ep.push(e).drop_first(), edges[e].to));
    } else {
        lemma_walk_append(edges, edges[ep[0]].to, ep.drop_first(), e);
        assert(ep.push(e).drop_first() =~= ep.drop_first().push(e));
    }
}

/// Along a walk of one or more edges the rank grows strictly.
pub proof fn lemma_rank_grows<T>(edges: Seq<Edge<T>>, rank: spec_fn(u64) -> nat, a: u64, ep: Seq<int>, b: u64)
    requires
        ranks(edges, rank),
        is_walk(edges, a, ep, b),
    ensures
        ep.len() > 0 ==> rank(a) < rank(b),
        ep.len() == 0 ==> a == b,
    decreases ep.len(),
{
    if ep.len() > 0 {
        lemma_rank_grows(edges, rank, edges[ep[0]].to, ep.drop_first(), b);
    }
}

/// An edge list that has a ranking holds no cycle.
pub proof fn lemma_ranking_acyclic<T>(edges: Seq<Edge<T>>)
    requires
        has_ranking(edges),
    ensures
        acyclic(edges),
{
    let rank = choose|rank: spec_fn(u64) -> nat| ranks(edges, rank);
    assert forall|a: u64, ep: Seq<int>| ep.len() > 0 implies !is_walk(edges, a, ep, a) by {
        if is_walk(edges, a, ep, a) {
            lemma_rank_grows(edges, rank, a, ep, a);
        }
    }
}

/// A walk that starts in a marked vertex, through a marking that every edge
/// preserves, ends in a marked vertex.
pub proof fn lemma_closed_marks<T>(edges: Seq<Edge<T>>, marks: Seq<bool>, a: u64, ep: Seq<int>, b: u64)
    requires
        endpoints_below(edges, marks.len() as int),
        a < marks.len(),
        marks[a as int],
        forall|v: u64| v < marks.len() && marks[v as int] ==> #[trigger] out_marked(edges, marks, v),
        is_walk(edges, a, ep, b),
    ensures
        b < marks.len(),
        marks[b as int],
    decreases ep.len(),
{
    if ep.len() > 0 {
        assert(out_marked(edges, marks, a));
        lemma_closed_marks(edges, marks, edges[ep[0]].to, ep.drop_first(), b);
    }
}

/// Two walks that meet give one walk.
pub proof fn lemma_walk_concat<T>(edges: Seq<Edge<T>>, a: u64, p: Seq<int>, b: u64, q: Seq<int>, c: u64)
    requires
        is_walk(edges, a, p, b),
        is_walk(edges, b, q, c),
    ensures
        is_walk(edges, a, p + q, c),
    decreases p.len(),
{
    if p.len() == 0 {
        assert(p + q =~= q);
    } else {
        lemma_walk_concat(edges, edges[p[0]].to, p.drop_first(), b, q, c);
        assert((p + q).drop_first() =~= p.drop_first() + q);
    }
}

/// A walk through the edges and one more edge `x` either does without `x`,
/// or the old edges lead from its start to the origin of `x` and from the
/// destination of `x` to its end.
pub proof fn lemma_walk_split<T>(edges: Seq<Edge<T>>, x: Edge<T>, s: u64, ep: Seq<int>, t: u64)
    requires
        is_walk(edges.push(x), s, ep, t),
    ensures
        reaches(edges, s, t) || (reaches(edges, s, x.from) && reaches(edges, x.to, t)),
    decreases ep.len(),
{
    if ep.len() == 0 {
        assert(is_walk(edges, s, Seq::<int>::empty(), t));
    } else {
        let grown = edges.push(x);
        let m = grown[ep[0]].to;
        lemma_walk_split(edges, x, m, ep.drop_first(), t);
        if ep[0] < edges.len() {
            assert(grown[ep[0]] == edges[ep[0]]);
            if reaches(edges, m, t) {
                let q = choose|q: Seq<int>| is_walk(edges, m, q, t);
                lemma_walk_prepend(edges, ep[0], q, t);
            } else {
                let q = choose|q: Seq<int>| is_walk(edges, m, q, x.from);
                lemma_walk_prepend(edges, ep[0], q, x.from);
            }
        } else {
            assert(grown[ep[0]] == x);
            assert(is_walk(edges, s, Seq::<int>::empty(), x.from));
        }
    }
}

/// Where `to` does not reach `from`, the new edge from `from` to `to` closes
/// no cycle.
pub proof fn lemma_acyclic_extend<T>(edges: Seq<Edge<T>>, x: Edge<T>)
    requires
        acyclic(edges),
        x.from != x.to,
        !reaches(edges, x.to, x.from),
    ensures
        acyclic(edges.push(x)),
{
    let grown = edges.push(x);
    assert forall|a: u64, ep: Seq<int>| ep.len() > 0 implies !is_walk(grown, a, ep, a) by {
        if is_walk(grown, a, ep, a) {
            let m = grown[ep[0]].to;
            lemma_walk_split(edges, x, m, ep.drop_first(), a);
            if ep[0] < edges.len() {
                assert(grown[ep[0]] == edges[ep[0]]);
                if reaches(edges, m, a) {
                    let q = choose|q: Seq<int>| is_walk(edges, m, q, a);
                    lemma_walk_prepend(edges, ep[0], q, a);
                    assert(is_walk(edges, a, seq![ep[0]] + q, a));
                } else {
                    let q = choose|q: Seq<int>| is_walk(edges, m, q, x.from);
                    let p = choose|p: Seq<int>| is_walk(edges, x.to, p, a);
                    lemma_walk_prepend(edges, ep[0], q, x.from);
                    lemma_walk_concat(edges, x.to, p, a, seq![ep[0]] + q, x.from);
                }
            } else {
                assert(grown[ep[0]] == x);
                if !reaches(edges, m, a) {
                    let p = choose|p: Seq<int>| is_walk(edges, x.to, p, a);
                }
            }
        }
    }
}

} // verus!
