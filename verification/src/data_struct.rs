//! A node graph in which every node lists its parents and its children.

use vstd::prelude::*;

verus! {

/// Whether `x` occurs in `v`.
pub fn holds(v: &Vec<u32>, x: u32) -> (r: bool)
    ensures
        r == v@.contains(x),
{
    let mut i: usize = 0;
    while i < v.len()
        invariant
            i <= v.len(),
            forall|j: int| 0 <= j < i ==> v[j] != x,
        decreases v.len() - i,
    {
        if v[i] == x {
            return true;
        }
        i += 1;
    }
    false
}

/// What a list of ids becomes when `x` joins it: nothing is listed twice.
pub open spec fn with_id(ids: Seq<u32>, x: u32) -> Seq<u32> {
    if ids.contains(x) {
        ids
    } else {
        ids.push(x)
    }
}

/// What `with_id` holds: what the list held, and `x`.
pub proof fn lemma_with_id(ids: Seq<u32>, x: u32, c: u32)
    ensures
        with_id(ids, x).contains(c) <==> ids.contains(c) || c == x,
{
    if ids.contains(x) {
    } else {
        let grown = ids.push(x);
        assert(grown[ids.len() as int] == x);
        if ids.contains(c) {
            let k = choose|k: int| 0 <= k < ids.len() && ids[k] == c;
            assert(grown[k] == c);
        }
    }
}

/// `with_id` keeps the list in front and puts a new id behind it.
pub proof fn lemma_with_id_grows(ids: Seq<u32>, x: u32)
    ensures
        with_id(ids, x) == ids || (!ids.contains(x) && with_id(ids, x) == ids.push(x)),
{
}

/// A node with its time stamp and its edges in both directions.
pub struct Node {
    node_id: u32,
    timestamp: u64,
    parents: Vec<u32>,
    children: Vec<u32>,
}

impl Node {
    /// The node's id.
    pub closed spec fn id_spec(&self) -> u32 {
        self.node_id
    }

    /// The node's time stamp.
    pub closed spec fn time_spec(&self) -> u64 {
        self.timestamp
    }

    /// The ids of the node's parents, in the order in which they were listed.
    pub closed spec fn parent_seq(&self) -> Seq<u32> {
        self.parents@
    }

    /// The ids of the node's children, in the order in which they were listed.
    pub closed spec fn child_seq(&self) -> Seq<u32> {
        self.children@
    }

    /// A node without parents or children.
    pub fn new(id: u32, time: u64) -> (node: Node)
        ensures
            node.id_spec() == id,
            node.time_spec() == time,
            node.parent_seq() == Seq::<u32>::empty(),
            node.child_seq() == Seq::<u32>::empty(),
    {
        Node { node_id: id, timestamp: time, parents: Vec::new(), children: Vec::new() }
    }

    /// Lists `parent_id` among the parents, unless it is listed already.
    pub fn add_parent(&mut self, parent_id: u32)
        ensures
            final(self).parent_seq() == with_id(old(self).parent_seq(), parent_id),
            final(self).child_seq() == old(self).child_seq(),
            final(self).id_spec() == old(self).id_spec(),
            final(self).time_spec() == old(self).time_spec(),
    {
        if !holds(&self.parents, parent_id) {
            self.parents.push(parent_id);
        }
    }

    /// Lists `child_id` among the children, unless it is listed already.
    pub fn add_child(&mut self, child_id: u32)
        ensures
            final(self).child_seq() == with_id(old(self).child_seq(), child_id),
            final(self).parent_seq() == old(self).parent_seq(),
            final(self).id_spec() == old(self).id_spec(),
            final(self).time_spec() == old(self).time_spec(),
    {
        if !holds(&self.children, child_id) {
            self.children.push(child_id);
        }
    }

    /// The node's id.
    pub fn node_id(&self) -> (id: u32)
        ensures
            id == self.id_spec(),
    {
        self.node_id
    }

    /// The node's time stamp.
    pub fn timestamp(&self) -> (time: u64)
        ensures
            time == self.time_spec(),
    {
        self.timestamp
    }

    /// The ids of the node's parents.
    pub fn parents(&self) -> (ids: &Vec<u32>)
        ensures
            ids@ == self.parent_seq(),
    {
        &self.parents
    }

    /// The ids of the node's children.
    pub fn children(&self) -> (ids: &Vec<u32>)
        ensures
            ids@ == self.child_seq(),
    {
        &self.children
    }
}

/// The number of nodes among the first `k`, the very first left out, that
/// have no children.
pub open spec fn leaves_below(nodes: Seq<Node>, k: int) -> int
    decreases k,
{
    if k <= 1 {
        0
    } else {
        leaves_below(nodes, k - 1) + if nodes[k - 1].child_seq().len() == 0 { 1int } else { 0int }
    }
}

/// Every parent stands before its child, and every child after its parent,
/// in the list of nodes. The searches for a depth or a distance follow the
/// links and count on this to come to an end; `Graph::is_ordered` tests it.
pub open spec fn linked(nodes: Seq<Node>) -> bool {
    &&& forall|i: int, k: int|
        0 <= i < nodes.len() && 0 <= k < nodes[i].parent_seq().len() ==> (#[trigger] nodes[i].parent_seq()[k]) < i
    &&& forall|i: int, k: int|
        0 <= i < nodes.len() && 0 <= k < nodes[i].child_seq().len() ==> i < (#[trigger] nodes[i].child_seq()[k])
            < nodes.len()
}

/// The least number of steps from the node at `i` up to a node without
/// parents, going through the first `k` of its parents only; 0 where it has
/// none. `lemma_depth_least` and `lemma_depth_attained` show that it is the
/// least.
pub open spec fn depth_over(nodes: Seq<Node>, i: int, k: int) -> int
    decreases i, k,
{
    if k <= 0 || i < 0 || i >= nodes.len() {
        0
    } else {
        let p = nodes[i].parent_seq()[k - 1] as int;
        let rest = depth_over(nodes, i, k - 1);
        if 0 <= p < i {
            let d = depth_over(nodes, p, nodes[p].parent_seq().len() as int) + 1;
            if rest == 0 || d < rest {
                d
            } else {
                rest
            }
        } else {
            rest
        }
    }
}

/// The least number of steps from the node at `a` down to the node at `b`,
/// from a node to one of its children; `None` where `b` cannot be reached.
/// `lemma_hops_least` and `lemma_hops_attained` show that it is the least.
pub open spec fn hops(nodes: Seq<Node>, a: u32, b: u32) -> Option<int>
    decreases nodes.len() - a, 1int + nodes[a as int].child_seq().len(),
{
    if a == b {
        Some(0)
    } else if a >= nodes.len() {
        None
    } else if nodes[a as int].child_seq().contains(b) {
        Some(1)
    } else {
        hops_over(nodes, a, b, nodes[a as int].child_seq().len() as int)
    }
}

/// The same through the first `k` children of the node at `a` only.
pub open spec fn hops_over(nodes: Seq<Node>, a: u32, b: u32, k: int) -> Option<int>
    decreases nodes.len() - a, k,
{
    if k <= 0 || a >= nodes.len() || k > nodes[a as int].child_seq().len() {
        None
    } else {
        let c = nodes[a as int].child_seq()[k - 1];
        let rest = hops_over(nodes, a, b, k - 1);
        if a < c < nodes.len() {
            match (hops(nodes, c, b), rest) {
                (Some(d), Some(r)) => Some(if d + 1 < r { d + 1 } else { r }),
                (Some(d), None) => Some(d + 1),
                (None, _) => rest,
            }
        } else {
            rest
        }
    }
}

/// `path` lists the nodes that follow `a` on a way down to `b`, each a child
/// of the one before it; its length is the number of steps.
pub open spec fn descends(nodes: Seq<Node>, a: u32, path: Seq<u32>, b: u32) -> bool
    decreases path.len(),
{
    if path.len() == 0 {
        a == b
    } else {
        &&& a < nodes.len()
        &&& nodes[a as int].child_seq().contains(path[0])
        &&& descends(nodes, path[0], path.drop_first(), b)
    }
}

/// Among the first `k` children of `a`, one from which `b` is reached bounds
/// the steps through them.
proof fn lemma_hops_over_least(nodes: Seq<Node>, a: u32, b: u32, k: int, x: int)
    requires
        linked(nodes),
        a < nodes.len(),
        0 <= x < k <= nodes[a as int].child_seq().len(),
        hops(nodes, nodes[a as int].child_seq()[x], b) is Some,
    ensures
        hops_over(nodes, a, b, k) is Some,
        hops_over(nodes, a, b, k)->Some_0 <= hops(nodes, nodes[a as int].child_seq()[x], b)->Some_0 + 1,
    decreases k,
{
    let c = nodes[a as int].child_seq()[k - 1];
    assert(a < c < nodes.len());
    if x < k - 1 {
        lemma_hops_over_least(nodes, a, b, k - 1, x);
    }
}

/// No way down from `a` to `b` has fewer steps than `hops` says.
pub proof fn lemma_hops_least(nodes: Seq<Node>, a: u32, path: Seq<u32>, b: u32)
    requires
        linked(nodes),
        descends(nodes, a, path, b),
    ensures
        hops(nodes, a, b) is Some,
        hops(nodes, a, b)->Some_0 <= path.len(),
    decreases path.len(),
{
    if path.len() > 0 {
        let c = path[0];
        lemma_hops_least(nodes, c, path.drop_first(), b);
        if a != b && !nodes[a as int].child_seq().contains(b) {
            let children = nodes[a as int].child_seq();
            let x = choose|x: int| 0 <= x < children.len() && children[x] == c;
            lemma_hops_over_least(nodes, a, b, children.len() as int, x);
        }
    }
}

/// The steps through the first `k` children of `a` are one more than the
/// steps from one of them.
proof fn lemma_hops_over_attained(nodes: Seq<Node>, a: u32, b: u32, k: int) -> (x: int)
    requires
        linked(nodes),
        a < nodes.len(),
        0 <= k <= nodes[a as int].child_seq().len(),
        hops_over(nodes, a, b, k) is Some,
    ensures
        0 <= x < k,
        hops(nodes, nodes[a as int].child_seq()[x], b) == Some(hops_over(nodes, a, b, k)->Some_0 - 1),
    decreases k,
{
    let c = nodes[a as int].child_seq()[k - 1];
    assert(a < c < nodes.len());
    let rest = hops_over(nodes, a, b, k - 1);
    let here = hops(nodes, c, b);
    if here is Some && (rest is None || here->Some_0 + 1 < rest->Some_0) {
        k - 1
    } else {
        lemma_hops_over_attained(nodes, a, b, k - 1)
    }
}

/// Some way down from `a` to `b` has exactly as many steps as `hops` says.
pub proof fn lemma_hops_attained(nodes: Seq<Node>, a: u32, b: u32) -> (path: Seq<u32>)
    requires
        linked(nodes),
        hops(nodes, a, b) is Some,
    ensures
        descends(nodes, a, path, b),
        path.len() == hops(nodes, a, b)->Some_0,
    decreases nodes.len() - a,
{
    if a == b {
        Seq::<u32>::empty()
    } else if nodes[a as int].child_seq().contains(b) {
        let path = seq![b];
        assert(path.drop_first() =~= Seq::<u32>::empty());
        assert(descends(nodes, b, path.drop_first(), b));
        path
    } else {
        let children = nodes[a as int].child_seq();
        let x = lemma_hops_over_attained(nodes, a, b, children.len() as int);
        let c = children[x];
        assert(a < c < nodes.len());
        let rest = lemma_hops_attained(nodes, c, b);
        let path = seq![c] + rest;
        assert(path.drop_first() =~= rest);
        assert(children.contains(c));
        path
    }
}

/// The depth of the node at `i`: through all of its parents.
pub open spec fn depth(nodes: Seq<Node>, i: int) -> int {
    depth_over(nodes, i, nodes[i].parent_seq().len() as int)
}

/// `path` lists the nodes that follow `a` on a way up, each a parent of the
/// one before it, to a node without parents; its length is the number of
/// steps.
pub open spec fn ascends(nodes: Seq<Node>, a: int, path: Seq<u32>) -> bool
    decreases path.len(),
{
    &&& 0 <= a < nodes.len()
    &&& if path.len() == 0 {
        nodes[a].parent_seq().len() == 0
    } else {
        nodes[a].parent_seq().contains(path[0]) && ascends(nodes, path[0] as int, path.drop_first())
    }
}

/// A depth is never negative, and at least 1 once a parent is counted.
proof fn lemma_depth_sign(nodes: Seq<Node>, i: int, k: int)
    requires
        linked(nodes),
        0 <= i < nodes.len(),
        0 <= k <= nodes[i].parent_seq().len(),
    ensures
        depth_over(nodes, i, k) >= 0,
        k >= 1 ==> depth_over(nodes, i, k) >= 1,
    decreases i, k,
{
    if k >= 1 {
        let p = nodes[i].parent_seq()[k - 1] as int;
        assert(0 <= p < i);
        lemma_depth_sign(nodes, p, nodes[p].parent_seq().len() as int);
        lemma_depth_sign(nodes, i, k - 1);
    }
}

/// Among the first `k` parents of `i`, each bounds the depth through them.
proof fn lemma_depth_over_least(nodes: Seq<Node>, i: int, k: int, x: int)
    requires
        linked(nodes),
        0 <= i < nodes.len(),
        0 <= x < k <= nodes[i].parent_seq().len(),
    ensures
        depth_over(nodes, i, k) <= depth(nodes, nodes[i].parent_seq()[x] as int) + 1,
    decreases k,
{
    let p = nodes[i].parent_seq()[k - 1] as int;
    assert(0 <= p < i);
    lemma_depth_sign(nodes, i, k - 1);
    if x < k - 1 {
        lemma_depth_over_least(nodes, i, k - 1, x);
    }
}

/// No way up from `a` to a node without parents has fewer steps than the
/// depth of `a`.
pub proof fn lemma_depth_least(nodes: Seq<Node>, a: int, path: Seq<u32>)
    requires
        linked(nodes),
        ascends(nodes, a, path),
    ensures
        depth(nodes, a) <= path.len(),
    decreases path.len(),
{
    if path.len() > 0 {
        let parents = nodes[a].parent_seq();
        let x = choose|x: int| 0 <= x < parents.len() && parents[x] == path[0];
        lemma_depth_least(nodes, path[0] as int, path.drop_first());
        lemma_depth_over_least(nodes, a, parents.len() as int, x);
    }
}

/// The depth through the first `k` parents of `i` is one more than the depth
/// of one of them.
proof fn lemma_depth_over_attained(nodes: Seq<Node>, i: int, k: int) -> (x: int)
    requires
        linked(nodes),
        0 <= i < nodes.len(),
        1 <= k <= nodes[i].parent_seq().len(),
    ensures
        0 <= x < k,
        depth_over(nodes, i, k) == depth(nodes, nodes[i].parent_seq()[x] as int) + 1,
    decreases k,
{
    let p = nodes[i].parent_seq()[k - 1] as int;
    assert(0 <= p < i);
    let rest = depth_over(nodes, i, k - 1);
    let d = depth(nodes, p) + 1;
    if rest == 0 || d < rest {
        k - 1
    } else {
        lemma_depth_over_attained(nodes, i, k - 1)
    }
}

/// Some way up from `a` to a node without parents has exactly as many steps
/// as the depth of `a`.
pub proof fn lemma_depth_attained(nodes: Seq<Node>, a: int) -> (path: Seq<u32>)
    requires
        linked(nodes),
        0 <= a < nodes.len(),
    ensures
        ascends(nodes, a, path),
        path.len() == depth(nodes, a),
    decreases a,
{
    let parents = nodes[a].parent_seq();
    if parents.len() == 0 {
        Seq::<u32>::empty()
    } else {
        let x = lemma_depth_over_attained(nodes, a, parents.len() as int);
        let p = parents[x];
        assert(p < a);
        let rest = lemma_depth_attained(nodes, p as int);
        let path = seq![p] + rest;
        assert(path.drop_first() =~= rest);
        assert(parents.contains(p));
        path
    }
}

/// What a graph file says of one node: the two earlier nodes that it refers
/// to, counted from 1, and its time stamp.
#[derive(Clone, Copy, Debug, PartialEq, Eq)]
pub struct Record {
    pub first: u32,
    pub second: u32,
    pub timestamp: u64,
}

/// Record `i` describes node `i + 1`, and the nodes it refers to are among
/// those that the records describe.
pub open spec fn records_ok(records: Seq<Record>) -> bool {
    &&& records.len() < u32::MAX
    &&& forall|i: int|
        0 <= i < records.len() ==> 1 <= (#[trigger] records[i]).first <= records.len() + 1 && 1 <= records[i].second
            <= records.len() + 1
}

/// Every record refers to nodes that stand before its own.
pub open spec fn refer_back(records: Seq<Record>) -> bool {
    forall|i: int| 0 <= i < records.len() ==> (#[trigger] records[i]).first <= i + 1 && records[i].second <= i + 1
}

/// The record of node `c` refers to node `j`.
pub open spec fn refers(records: Seq<Record>, c: int, j: int) -> bool {
    &&& 1 <= c <= records.len()
    &&& (records[c - 1].first - 1 == j || records[c - 1].second - 1 == j)
}

/// `nodes` is what the records describe, with the links of the first `k`
/// records made: node 0 without parents, then one node for each record, a
/// child of the nodes it refers to. Children are listed in ascending order.
pub open spec fn built_from(nodes: Seq<Node>, records: Seq<Record>, k: int) -> bool {
    &&& nodes.len() == records.len() + 1
    &&& nodes[0].id_spec() == 0
    &&& nodes[0].time_spec() == 0
    &&& nodes[0].parent_seq() == Seq::<u32>::empty()
    &&& forall|i: int|
        0 <= i < records.len() ==> (#[trigger] nodes[i + 1]).id_spec() == i + 1 && nodes[i + 1].time_spec()
            == records[i].timestamp && nodes[i + 1].parent_seq() == (if i < k {
            with_id(seq![(records[i].first - 1) as u32], (records[i].second - 1) as u32)
        } else {
            Seq::<u32>::empty()
        })
    &&& forall|j: int, c: u32|
        0 <= j <= records.len() ==> ((#[trigger] nodes[j].child_seq().contains(c)) <==> c <= k && refers(
            records,
            c as int,
            j,
        ))
    &&& forall|j: int, a: int, b: int|
        0 <= j <= records.len() && 0 <= a < b < nodes[j].child_seq().len() ==> (#[trigger] nodes[j].child_seq()[a]) < (
        #[trigger] nodes[j].child_seq()[b])
}

/// The first `i` records have their nodes, and no link is made yet.
pub open spec fn bare(nodes: Seq<Node>, records: Seq<Record>, i: int) -> bool {
    &&& nodes.len() == i + 1
    &&& nodes[0].id_spec() == 0
    &&& nodes[0].time_spec() == 0
    &&& forall|m: int|
        0 <= m < i ==> (#[trigger] nodes[m + 1]).id_spec() == m + 1 && nodes[m + 1].time_spec() == records[m].timestamp
    &&& forall|j: int|
        0 <= j <= i ==> (#[trigger] nodes[j]).parent_seq() == Seq::<u32>::empty() && nodes[j].child_seq() == Seq::<
            u32,
        >::empty()
}

/// The depths of the nodes without children among the first `k`, the very
/// first left out, summed up.
pub open spec fn leaf_depths_below(nodes: Seq<Node>, k: int) -> int
    decreases k,
{
    if k <= 1 {
        0
    } else {
        leaf_depths_below(nodes, k - 1) + if nodes[k - 1].child_seq().len() == 0 {
            depth_over(nodes, k - 1, nodes[k - 1].parent_seq().len() as int)
        } else {
            0int
        }
    }
}

/// The nodes, in the order in which they were added.
pub struct Graph {
    nodes: Vec<Node>,
}

impl Graph {
    /// The nodes, in the order in which they were added.
    pub closed spec fn node_seq(&self) -> Seq<Node> {
        self.nodes@
    }

    /// A graph without nodes.
    pub fn new() -> (graph: Graph)
        ensures
            graph.ordered(),
            graph.node_seq() == Seq::<Node>::empty(),
    {
        Graph { nodes: Vec::new() }
    }

    /// The graph that the records describe: first a node for each record,
    /// then the links, record by record. Records may refer to later nodes;
    /// where none does, every link leads from an earlier node to a later one.
    pub fn from_records(records: &Vec<Record>) -> (graph: Graph)
        requires
            records_ok(records@),
        ensures
            built_from(graph.node_seq(), records@, records.len() as int),
            refer_back(records@) ==> graph.ordered(),
    {
        let mut graph = Graph::new();
        graph.add_node(0, 0);
        let mut i: usize = 0;
        while i < records.len()
            invariant
                i <= records.len(),
                records_ok(records@),
                graph.ordered(),
                bare(graph.node_seq(), records@, i as int),
            decreases records.len() - i,
        {
            let ghost before = graph.node_seq();
            graph.add_node((i + 1) as u32, records[i].timestamp);
            proof {
                let added = graph.node_seq();
                assert forall|j: int| 0 <= j <= i implies added[j] == before[j] by {
                    assert(added.drop_last()[j] == before[j]);
                }
            }
            i += 1;
        }
        let mut k: usize = 0;
        while k < records.len()
            invariant
                k <= records.len(),
                records_ok(records@),
                refer_back(records@) ==> graph.ordered(),
                built_from(graph.node_seq(), records@, k as int),
            decreases records.len() - k,
        {
            let record = records[k];
            let child: u32 = (k + 1) as u32;
            let ghost before = graph.node_seq();
            graph.connect(child, record.first - 1);
            let ghost half = graph.node_seq();
            graph.connect(child, record.second - 1);
            proof {
                let now = graph.node_seq();
                let p = (record.first - 1) as u32;
                let q = (record.second - 1) as u32;
                assert(half[child as int].parent_seq() =~= seq![p]);
                assert forall|j: int| 0 <= j <= records.len() implies (#[trigger] half[j]).child_seq() == (if j == p {
                    with_id(before[j].child_seq(), child)
                } else {
                    before[j].child_seq()
                }) by {}
                assert forall|j: int| 0 <= j <= records.len() implies (#[trigger] now[j]).child_seq() == (if j == q {
                    with_id(half[j].child_seq(), child)
                } else {
                    half[j].child_seq()
                }) by {}
                assert forall|j: int, c: u32| 0 <= j <= records.len() implies ((#[trigger] now[j].child_seq().contains(c))
                    <==> c <= k + 1 && refers(records@, c as int, j)) by {
                    assert(before[j].child_seq().contains(c) <==> c <= k && refers(records@, c as int, j));
                    lemma_with_id(before[j].child_seq(), child, c);
                    lemma_with_id(half[j].child_seq(), child, c);
                    assert(half[j].child_seq() == (if j == p {
                        with_id(before[j].child_seq(), child)
                    } else {
                        before[j].child_seq()
                    }));
                }
                assert forall|j: int, a: int, b: int|
                    0 <= j <= records.len() && 0 <= a < b < now[j].child_seq().len() implies (
                    #[trigger] now[j].child_seq()[a]) < (#[trigger] now[j].child_seq()[b]) by {
                    lemma_with_id_grows(before[j].child_seq(), child);
                    lemma_with_id_grows(half[j].child_seq(), child);
                    assert(half[j].child_seq() == (if j == p {
                        with_id(before[j].child_seq(), child)
                    } else {
                        before[j].child_seq()
                    }));
                    assert forall|x: int| 0 <= x < before[j].child_seq().len() implies before[j].child_seq()[x] <= k by {
                        assert(before[j].child_seq().contains(before[j].child_seq()[x]));
                    }
                }
                assert forall|m: int| 0 <= m < records.len() implies (#[trigger] now[m + 1]).id_spec() == m + 1 && now[m
                    + 1].time_spec() == records[m].timestamp && now[m + 1].parent_seq() == (if m < k + 1 {
                    with_id(seq![(records[m].first - 1) as u32], (records[m].second - 1) as u32)
                } else {
                    Seq::<u32>::empty()
                }) by {
                    assert(before[m + 1].id_spec() == m + 1);
                    if m != k {
                        assert(half[m + 1].parent_seq() == before[m + 1].parent_seq());
                        assert(now[m + 1].parent_seq() == half[m + 1].parent_seq());
                    }
                }
                assert(now[0].parent_seq() == before[0].parent_seq()) by {
                    assert(half[0].parent_seq() == before[0].parent_seq());
                }
            }
            k += 1;
        }
        graph
    }

    /// Appends a node without parents or children.
    pub fn add_node(&mut self, id: u32, timestamp: u64)
        ensures
            old(self).ordered() ==> final(self).ordered(),
            final(self).node_seq().len() == old(self).node_seq().len() + 1,
            final(self).node_seq().drop_last() == old(self).node_seq(),
            final(self).node_seq().last().id_spec() == id,
            final(self).node_seq().last().time_spec() == timestamp,
            final(self).node_seq().last().parent_seq() == Seq::<u32>::empty(),
            final(self).node_seq().last().child_seq() == Seq::<u32>::empty(),
    {
        self.nodes.push(Node::new(id, timestamp));
        assert(self.nodes@.drop_last() =~= old(self).nodes@);
    }

    /// Every link of the graph leads from an earlier node to a later one.
    pub open spec fn ordered(&self) -> bool {
        linked(self.node_seq())
    }

    /// Makes `parent` a parent of `child`, and `child` a child of `parent`;
    /// the other nodes stay as they are. A link from an earlier node to a
    /// later one keeps the graph ordered.
    pub fn connect(&mut self, child: u32, parent: u32)
        requires
            child < old(self).node_seq().len(),
            parent < old(self).node_seq().len(),
        ensures
            old(self).ordered() && parent < child ==> final(self).ordered(),
            final(self).node_seq().len() == old(self).node_seq().len(),
            forall|i: int|
                0 <= i < old(self).node_seq().len() && i != child && i != parent ==> final(self).node_seq()[i] == old(
                    self,
                ).node_seq()[i],
            forall|i: int|
                0 <= i < old(self).node_seq().len() ==> (#[trigger] final(self).node_seq()[i]).id_spec() == old(
                    self,
                ).node_seq()[i].id_spec() && final(self).node_seq()[i].time_spec() == old(self).node_seq()[i].time_spec(),
            final(self).node_seq()[child as int].parent_seq() == with_id(
                old(self).node_seq()[child as int].parent_seq(),
                parent,
            ),
            final(self).node_seq()[parent as int].child_seq() == with_id(
                old(self).node_seq()[parent as int].child_seq(),
                child,
            ),
            child != parent ==> final(self).node_seq()[child as int].child_seq() == old(
                self,
            ).node_seq()[child as int].child_seq(),
            child != parent ==> final(self).node_seq()[parent as int].parent_seq() == old(
                self,
            ).node_seq()[parent as int].parent_seq(),
    {
        self.nodes[child as usize].add_parent(parent);
        self.nodes[parent as usize].add_child(child);
    }

    /// Whether every link leads from an earlier node to a later one.
    pub fn is_ordered(&self) -> (r: bool)
        ensures
            r == self.ordered(),
    {
        let n = self.nodes.len();
        let mut i: usize = 0;
        while i < n
            invariant
                i <= n,
                n == self.nodes.len(),
                forall|a: int, k: int|
                    0 <= a < i && 0 <= k < self.nodes[a].parent_seq().len() ==> (
                    #[trigger] self.nodes[a].parent_seq()[k]) < a,
                forall|a: int, k: int|
                    0 <= a < i && 0 <= k < self.nodes[a].child_seq().len() ==> a < (
                    #[trigger] self.nodes[a].child_seq()[k]) < n,
            decreases n - i,
        {
            let node = &self.nodes[i];
            let mut k: usize = 0;
            while k < node.parents.len()
                invariant
                    k <= node.parents.len(),
                    i < n,
                    n == self.nodes.len(),
                    *node == self.nodes[i as int],
                    forall|x: int| 0 <= x < k ==> (#[trigger] node.parent_seq()[x]) < i,
                decreases node.parents.len() - k,
            {
                if node.parents[k] as usize >= i {
                    assert(!(self.nodes@[i as int].parent_seq()[k as int] < i));
                    return false;
                }
                k += 1;
            }
            let mut c: usize = 0;
            while c < node.children.len()
                invariant
                    c <= node.children.len(),
                    i < n,
                    n == self.nodes.len(),
                    *node == self.nodes[i as int],
                    forall|x: int| 0 <= x < c ==> i < (#[trigger] node.child_seq()[x]) < n,
                decreases node.children.len() - c,
            {
                if node.children[c] as usize <= i || node.children[c] as usize >= n {
                    assert(!(i < self.nodes@[i as int].child_seq()[c as int] < n));
                    return false;
                }
                c += 1;
            }
            i += 1;
        }
        true
    }

    /// The depths of the nodes without children, the first node left out,
    /// summed up.
    pub fn sum_leaf_depth(&self) -> (sum: u64)
        requires
            self.ordered(),
            self.node_seq().len() <= u32::MAX,
        ensures
            sum == leaf_depths_below(self.node_seq(), self.node_seq().len() as int),
    {
        let mut sum: u64 = 0;
        let mut k: usize = 1;
        if self.nodes.len() == 0 {
            return 0;
        }
        while k < self.nodes.len()
            invariant
                1 <= k <= self.nodes.len(),
                self.nodes.len() <= u32::MAX,
                linked(self.nodes@),
                sum == leaf_depths_below(self.nodes@, k as int),
                sum <= k * 0x1_0000_0000,
            decreases self.nodes.len() - k,
        {
            if self.nodes[k].children.len() == 0 {
                let depth = Self::get_depth(&self.nodes, k as u32);
                sum = sum + depth as u64;
            }
            k += 1;
        }
        sum
    }

    /// The least number of steps from the node `node_id` up to a node
    /// without parents. The search follows the parents and ends because each
    /// stands before its child; on links that lead onwards it need not end,
    /// so those are left out.
    pub fn get_depth(nodes: &Vec<Node>, node_id: u32) -> (depth: u32)
        requires
            linked(nodes@),
            node_id < nodes.len(),
        ensures
            depth == depth_over(nodes@, node_id as int, nodes[node_id as int].parent_seq().len() as int),
            depth <= node_id,
        decreases node_id,
    {
        let node = &nodes[node_id as usize];
        let mut depth: u32 = 0;
        let mut k: usize = 0;
        while k < node.parents.len()
            invariant
                k <= node.parents.len(),
                linked(nodes@),
                node_id < nodes.len(),
                *node == nodes[node_id as int],
                depth == depth_over(nodes@, node_id as int, k as int),
                depth <= node_id,
            decreases node.parents.len() - k,
        {
            let p = node.parents[k];
            assert(nodes[node_id as int].parent_seq()[k as int] < node_id);
            let d = Self::get_depth(nodes, p) + 1;
            if depth == 0 || d < depth {
                depth = d;
            }
            k += 1;
        }
        depth
    }

    /// The least number of steps from `a` down to `b`, or `Err(0)` where `b`
    /// is no descendant of `a`. The search follows the children and ends
    /// because each stands after its parent; on links that lead back it need
    /// not end, so those are left out.
    pub fn hops_from(nodes: &Vec<Node>, a: u32, b: u32) -> (r: Result<u32, u32>)
        requires
            linked(nodes@),
            a < nodes.len(),
            b < nodes.len(),
        ensures
            match r {
                Ok(d) => hops(nodes@, a, b) == Some(d as int) && a + d <= b,
                Err(e) => e == 0 && hops(nodes@, a, b) is None,
            },
        decreases nodes.len() - a,
    {
        if a == b {
            return Ok(0);
        }
        let node = &nodes[a as usize];
        if holds(&node.children, b) {
            proof {
                let k = choose|k: int| 0 <= k < node.child_seq().len() && node.child_seq()[k] == b;
                assert(nodes[a as int].child_seq()[k] == b);
            }
            return Ok(1);
        }
        let mut distance: Result<u32, u32> = Err(0);
        let mut k: usize = 0;
        while k < node.children.len()
            invariant
                k <= node.children.len(),
                linked(nodes@),
                a < nodes.len(),
                b < nodes.len(),
                a != b,
                *node == nodes[a as int],
                match distance {
                    Ok(d) => hops_over(nodes@, a, b, k as int) == Some(d as int) && a + d <= b,
                    Err(e) => e == 0 && hops_over(nodes@, a, b, k as int) is None,
                },
            decreases node.children.len() - k,
        {
            let c = node.children[k];
            assert(a < nodes[a as int].child_seq()[k as int] < nodes.len());
            match Self::hops_from(nodes, c, b) {
                Ok(d) => {
                    let through: u32 = d + 1;
                    distance = match distance {
                        Ok(best) => Ok(if through < best { through } else { best }),
                        Err(_) => Ok(through),
                    };
                },
                Err(_) => {},
            }
            k += 1;
        }
        distance
    }

    /// The least number of steps from `node1_id` down to `node2_id`, or
    /// `Err(0)` where the second is no descendant of the first. The search
    /// follows the children and ends because each stands after its parent;
    /// a graph with links that lead back, on which it need not end, is left
    /// out.
    pub fn get_depth_between_nodes(&mut self, node1_id: u32, node2_id: u32) -> (r: Result<u32, u32>)
        requires
            old(self).ordered(),
            node1_id < old(self).node_seq().len(),
            node2_id < old(self).node_seq().len(),
        ensures
            final(self).node_seq() == old(self).node_seq(),
            match r {
                Ok(d) => hops(old(self).node_seq(), node1_id, node2_id) == Some(d as int),
                Err(e) => e == 0 && hops(old(self).node_seq(), node1_id, node2_id) is None,
            },
    {
        Self::hops_from(&self.nodes, node1_id, node2_id)
    }

    /// The nodes, in the order in which they were added.
    pub fn nodes(&self) -> (nodes: &Vec<Node>)
        ensures
            nodes@ == self.node_seq(),
    {
        &self.nodes
    }

    /// The adjacency matrix: row `i` holds a 1 in column `j` where `j` is a
    /// child of the node at `i`, and a 0 elsewhere.
    pub fn get_graph_matrix(&mut self) -> (matrix: Vec<Vec<u32>>)
        requires
            old(self).node_seq().len() <= u32::MAX,
        ensures
            final(self).node_seq() == old(self).node_seq(),
            matrix.len() == old(self).node_seq().len(),
            forall|i: int| 0 <= i < matrix.len() ==> (#[trigger] matrix[i]).len() == matrix.len(),
            forall|i: int, j: int| 0 <= i < matrix.len() && 0 <= j < matrix.len() ==> (#[trigger] matrix[i][j]) == (
            if old(self).node_seq()[i].child_seq().contains(j as u32) { 1u32 } else { 0u32 }),
    {
        let n = self.nodes.len();
        let mut access_matrix: Vec<Vec<u32>> = Vec::new();
        let mut i: usize = 0;
        while i < n
            invariant
                i <= n,
                n == self.nodes.len(),
                n <= u32::MAX,
                self.nodes@ == old(self).nodes@,
                access_matrix.len() == i,
                forall|a: int| 0 <= a < i ==> (#[trigger] access_matrix[a]).len() == n,
                forall|a: int, b: int| 0 <= a < i && 0 <= b < n ==> (#[trigger] access_matrix[a][b]) == (
                if self.nodes[a].child_seq().contains(b as u32) { 1u32 } else { 0u32 }),
            decreases n - i,
        {
            let mut column: Vec<u32> = Vec::new();
            let mut j: usize = 0;
            while j < n
                invariant
                    j <= n,
                    i < n,
                    n == self.nodes.len(),
                    n <= u32::MAX,
                    column.len() == j,
                    forall|b: int| 0 <= b < j ==> (#[trigger] column[b]) == (
                    if self.nodes[i as int].child_seq().contains(b as u32) { 1u32 } else { 0u32 }),
                decreases n - j,
            {
                if holds(&self.nodes[i].children, j as u32) {
                    column.push(1);
                } else {
                    column.push(0);
                }
                j += 1;
            }
            access_matrix.push(column);
            i += 1;
        }
        access_matrix
    }

    /// The number of nodes without children, the first node left out.
    pub fn get_num_of_leaves(&self) -> (num_leaf: u32)
        requires
            self.node_seq().len() <= u32::MAX,
        ensures
            num_leaf == leaves_below(self.node_seq(), self.node_seq().len() as int),
    {
        let mut num_leaf: u32 = 0;
        let mut k: usize = 1;
        if self.nodes.len() == 0 {
            return 0;
        }
        while k < self.nodes.len()
            invariant
                1 <= k <= self.nodes.len(),
                self.nodes.len() <= u32::MAX,
                num_leaf == leaves_below(self.nodes@, k as int),
                num_leaf < k,
            decreases self.nodes.len() - k,
        {
            if self.nodes[k].children.len() == 0 {
                num_leaf = num_leaf + 1;
            }
            k += 1;
        }
        num_leaf
    }
}

} // verus!
