pub mod paths;

use crate::network::graph::container::edges::HalfEdge;
use crate::network::graph::container::nodes::Node;
use crate::network::graph::container::{EdgeContainer, NodeContainer};
use crate::network::{EdgeIdx, NodeIdx};
use crate::units::MetricU32;
use paths::HashPath;
use vstd::prelude::*;

verus! {

//------------------------------------------------------------------------------------------------//
// Path

/// A path from a src to a dst storing predecessors and successors.
pub struct Path<M> {
    core: HashPath<M>,
}

impl Path<MetricU32> {
    pub closed spec fn src(&self) -> NodeIdx {
        self.core.src()
    }

    pub closed spec fn dst(&self) -> NodeIdx {
        self.core.dst()
    }

    pub closed spec fn path_cost(&self) -> MetricU32 {
        self.core.path_cost()
    }

    /// The predecessor of every node of the path but its source, keyed by node-index.
    pub closed spec fn preds(&self) -> Map<usize, NodeIdx> {
        self.core.preds()
    }

    /// The successor of every node of the path but its destination, keyed by node-index.
    pub closed spec fn succs(&self) -> Map<usize, NodeIdx> {
        self.core.succs()
    }

    pub fn src_idx(&self) -> (r: NodeIdx)
        ensures
            r == self.src(),
    {
        self.core.get_src()
    }

    pub fn dst_idx(&self) -> (r: NodeIdx)
        ensures
            r == self.dst(),
    {
        self.core.get_dst()
    }

    pub fn cost(&self) -> (r: MetricU32)
        ensures
            r == self.path_cost(),
    {
        self.core.get_cost()
    }

    /// The index of the predecessor-node.
    pub fn pred_node_idx(&self, idx: NodeIdx) -> (r: Option<NodeIdx>)
        ensures
            r == (if self.preds().contains_key(idx.0) {
                Some(self.preds()[idx.0])
            } else {
                None
            }),
    {
        self.core.pred_node_idx(idx)
    }

    /// The index of the successor-node.
    pub fn succ_node_idx(&self, idx: NodeIdx) -> (r: Option<NodeIdx>)
        ensures
            r == (if self.succs().contains_key(idx.0) {
                Some(self.succs()[idx.0])
            } else {
                None
            }),
    {
        self.core.succ_node_idx(idx)
    }
}

//------------------------------------------------------------------------------------------------//
// graph-facts

/// The `k`-th edge leaving `u` leads to `v`.
pub open spec fn edge_to(edges: EdgeContainer, u: NodeIdx, v: NodeIdx, k: int) -> bool {
    match edges.leaving_indices(u) {
        Some(l) => 0 <= k < l.len() && match edges.half_edge_at(l[k].0) {
            Some(h) => h.dst_idx == v,
            None => false,
        },
        None => false,
    }
}

/// The graph has an edge from `u` to `v`.
pub open spec fn has_edge(edges: EdgeContainer, u: NodeIdx, v: NodeIdx) -> bool {
    exists|k: int| #[trigger] edge_to(edges, u, v, k)
}

/// `w` is a walk in the graph from `src` to `dst`, and every node of it but the first has its
/// predecessor on the walk recorded in `preds`.
pub open spec fn is_recorded_walk(
    edges: EdgeContainer,
    w: Seq<NodeIdx>,
    preds: Map<usize, NodeIdx>,
    src: NodeIdx,
    dst: NodeIdx,
) -> bool {
    &&& w.len() >= 1
    &&& w[0] == src
    &&& w[w.len() - 1] == dst
    &&& forall|i: int|
        0 <= i < w.len() - 1 ==> has_edge(edges, #[trigger] w[i], w[i + 1]) && preds.contains_key(
            w[i + 1].0,
        ) && preds[w[i + 1].0] == w[i]
}

/// The sum of all costs.
pub open spec fn cost_sum(s: Seq<MetricU32>) -> int
    decreases s.len(),
{
    if s.len() == 0 {
        0
    } else {
        cost_sum(s.drop_last()) + s.last().0
    }
}

proof fn lemma_cost_sum_update(s: Seq<MetricU32>, i: int, x: MetricU32)
    requires
        0 <= i < s.len(),
    ensures
        cost_sum(s.update(i, x)) == cost_sum(s) - s[i].0 + x.0,
    decreases s.len(),
{
    if i == s.len() - 1 {
        assert(s.update(i, x).drop_last() =~= s.drop_last());
    } else {
        lemma_cost_sum_update(s.drop_last(), i, x);
        assert(s.update(i, x).drop_last() =~= s.drop_last().update(i, x));
    }
}

proof fn lemma_cost_sum_nonneg(s: Seq<MetricU32>)
    ensures
        cost_sum(s) >= 0,
    decreases s.len(),
{
    if s.len() > 0 {
        lemma_cost_sum_nonneg(s.drop_last());
    }
}

/// The cost-function gives every half-edge one cost only.
pub open spec fn deterministic_costs<CF: Fn(&HalfEdge) -> MetricU32>(cost_fn: CF) -> bool {
    forall|h: &HalfEdge, a: MetricU32, b: MetricU32|
        #![trigger cost_fn.ensures((h,), a), cost_fn.ensures((h,), b)]
        cost_fn.ensures((h,), a) && cost_fn.ensures((h,), b) ==> a == b
}

/// The estimation-function estimates nothing: every estimation is zero.
pub open spec fn zero_estimates<Co, EF: Fn(&Node<Co>, &Node<Co>) -> MetricU32>(estimate_fn: EF) -> bool {
    forall|a: &Node<Co>, b: &Node<Co>, r: MetricU32| #[trigger] estimate_fn.ensures((a, b), r) ==> r.0 == 0
}

/// The node of index `v` as the node-container creates it.
pub open spec fn node_at<Co>(nodes: &NodeContainer<Co>, v: usize) -> Node<Co> {
    Node { idx: NodeIdx(v), id: nodes.node_ids@[v as int], coord: nodes.node_coords@[v as int] }
}

/// The estimation-function never overestimates: every estimation from a node to `dst` is at most
/// the cost of every walk from that node to `dst`.
pub open spec fn admissible_estimates<
    Co,
    CF: Fn(&HalfEdge) -> MetricU32,
    EF: Fn(&Node<Co>, &Node<Co>) -> MetricU32,
>(
    edges: EdgeContainer,
    cost_fn: CF,
    estimate_fn: EF,
    nodes: &NodeContainer<Co>,
    dst: &Node<Co>,
) -> bool {
    forall|v: usize, r: MetricU32, es: Seq<EdgeIdx>, cs: Seq<MetricU32>|
        #![trigger estimate_fn.ensures((&node_at(nodes, v), dst), r), is_costed_walk(edges, cost_fn, es, cs, NodeIdx(v), dst.idx)]
        v < nodes.node_ids@.len() && estimate_fn.ensures((&node_at(nodes, v), dst), r)
            && is_costed_walk(edges, cost_fn, es, cs, NodeIdx(v), dst.idx) ==> r.0 <= cost_sum(cs)
}

/// Estimating nothing never overestimates.
pub proof fn lemma_zero_estimates_admissible<
    Co,
    CF: Fn(&HalfEdge) -> MetricU32,
    EF: Fn(&Node<Co>, &Node<Co>) -> MetricU32,
>(edges: EdgeContainer, cost_fn: CF, estimate_fn: EF, nodes: &NodeContainer<Co>, dst: &Node<Co>)
    requires
        zero_estimates::<Co, EF>(estimate_fn),
    ensures
        admissible_estimates(edges, cost_fn, estimate_fn, nodes, dst),
{
    assert forall|v: usize, r: MetricU32, es: Seq<EdgeIdx>, cs: Seq<MetricU32>|
        v < nodes.node_ids@.len() && #[trigger] estimate_fn.ensures((&node_at(nodes, v), dst), r)
            && #[trigger] is_costed_walk(edges, cost_fn, es, cs, NodeIdx(v), dst.idx) implies r.0
        <= cost_sum(cs) by {
        lemma_cost_sum_nonneg(cs);
    }
}

/// Every edge-index of the container has a half-edge.
pub open spec fn edges_complete(edges: EdgeContainer) -> bool {
    let m = edges.edge_dsts@.len();
    &&& edges.lane_count@.len() == m
    &&& edges.meters@.len() == m
    &&& edges.maxspeed@.len() == m
    &&& forall|i: int| 0 <= i < edges.xwd_to_fwd_map@.len() ==> (#[trigger] edges.xwd_to_fwd_map@[i]).0 < m
}

/// The `i`-th node of the walk that starts in `src` and takes the edges `es`.
pub open spec fn walk_node(edges: EdgeContainer, src: NodeIdx, es: Seq<EdgeIdx>, i: int) -> NodeIdx {
    if i == 0 {
        src
    } else {
        edges.edge_dsts@[es[i - 1].0 as int]
    }
}

/// `es` is a walk from `src` to `dst`, every edge leaving the node before it, and `cs[i]` is a
/// cost that `cost_fn` gives the `i`-th edge.
#[verifier::opaque]
pub open spec fn is_costed_walk<CF: Fn(&HalfEdge) -> MetricU32>(
    edges: EdgeContainer,
    cost_fn: CF,
    es: Seq<EdgeIdx>,
    cs: Seq<MetricU32>,
    src: NodeIdx,
    dst: NodeIdx,
) -> bool {
    &&& es.len() == cs.len()
    &&& walk_node(edges, src, es, es.len() as int) == dst
    &&& forall|i: int|
        0 <= i < es.len() ==> {
            let u = walk_node(edges, src, es, i);
            &&& edges.leaving_indices(u) is Some
            &&& edges.leaving_indices(u)->0.contains(#[trigger] es[i])
            &&& edges.half_edge_at(es[i].0) is Some
            &&& cost_fn.ensures((&edges.half_edge_at(es[i].0)->0,), cs[i])
        }
}

/// The first `done` edges leaving `x` lead to nodes whose known cost is at most the cost of `x`
/// plus the edge's cost.
spec fn relaxed_upto<CF: Fn(&HalfEdge) -> MetricU32>(
    edges: EdgeContainer,
    cost_fn: CF,
    costs: Seq<MetricU32>,
    x: usize,
    done: int,
) -> bool {
    edges.leaving_indices(NodeIdx(x)) matches Some(l) ==> forall|k: int, c: MetricU32|
        0 <= k < l.len() && k < done && #[trigger] cost_fn.ensures((&edges.half_edge_at(l[k].0)->0,), c)
            ==> costs[edges.edge_dsts@[l[k].0 as int].0 as int].0 <= costs[x as int].0 + c.0
}

/// Every edge leaving `x` leads to a node whose known cost is at most the cost of `x` plus the
/// edge's cost.
spec fn relaxed<CF: Fn(&HalfEdge) -> MetricU32>(
    edges: EdgeContainer,
    cost_fn: CF,
    costs: Seq<MetricU32>,
    x: usize,
) -> bool {
    edges.leaving_indices(NodeIdx(x)) matches Some(l) ==> forall|k: int, c: MetricU32|
        0 <= k < l.len() && #[trigger] cost_fn.ensures((&edges.half_edge_at(l[k].0)->0,), c)
            ==> costs[edges.edge_dsts@[l[k].0 as int].0 as int].0 <= costs[x as int].0 + c.0
}

/// Every settled node has all its leaving edges relaxed.
#[verifier::opaque]
spec fn settled_ok<CF: Fn(&HalfEdge) -> MetricU32>(
    edges: EdgeContainer,
    cost_fn: CF,
    costs: Seq<MetricU32>,
    settled: Set<usize>,
) -> bool {
    forall|x: usize| #[trigger] settled.contains(x) ==> x < costs.len() && relaxed(edges, cost_fn, costs, x)
}

/// The cost-node's estimation is at most the cost of every walk from its node to `dst`.
spec fn estimate_below<CF: Fn(&HalfEdge) -> MetricU32>(
    edges: EdgeContainer,
    cost_fn: CF,
    c: CostNode,
    dst: NodeIdx,
) -> bool {
    forall|es: Seq<EdgeIdx>, cs: Seq<MetricU32>|
        #[trigger] is_costed_walk(edges, cost_fn, es, cs, c.idx, dst) ==> c.estimation.0 <= cost_sum(cs)
}

/// The queue's entries cost less than the maximum and do not overestimate, and every node that is
/// reached but not settled has an entry that costs at most its known cost.
spec fn frontier_ok<CF: Fn(&HalfEdge) -> MetricU32>(
    edges: EdgeContainer,
    cost_fn: CF,
    dst: NodeIdx,
    costs: Seq<MetricU32>,
    queue: Seq<CostNode>,
    settled: Set<usize>,
) -> bool {
    &&& forall|i: int|
        0 <= i < queue.len() ==> (#[trigger] queue[i]).cost.0 < u32::MAX && estimate_below(
            edges,
            cost_fn,
            queue[i],
            dst,
        )
    &&& forall|y: usize|
        y < costs.len() && !settled.contains(y) && #[trigger] costs[y as int].0 < u32::MAX ==> exists|i: int|
            0 <= i < queue.len() && (#[trigger] queue[i]).idx.0 == y && queue[i].cost.0 <= costs[y as int].0
}

proof fn lemma_cost_sum_prefix(s: Seq<MetricU32>, j: int)
    requires
        0 <= j <= s.len(),
    ensures
        cost_sum(s.take(j)) <= cost_sum(s),
    decreases s.len() - j,
{
    if j < s.len() {
        lemma_cost_sum_prefix(s, j + 1);
        assert(s.take(j + 1).drop_last() =~= s.take(j));
    } else {
        assert(s.take(j) =~= s);
    }
}

proof fn lemma_cost_sum_split(s: Seq<MetricU32>, j: int)
    requires
        0 <= j <= s.len(),
    ensures
        cost_sum(s) == cost_sum(s.take(j)) + cost_sum(s.skip(j)),
    decreases s.len(),
{
    if j == s.len() {
        assert(s.take(j) =~= s);
        assert(s.skip(j) =~= Seq::<MetricU32>::empty());
    } else {
        let d = s.drop_last();
        lemma_cost_sum_split(d, j);
        assert(d.take(j) =~= s.take(j));
        assert(s.skip(j).drop_last() =~= d.skip(j));
        assert(s.skip(j).last() == s.last());
    }
}

/// The part of a costed walk after its `j`-th node is a costed walk from that node, and the
/// walk's cost is the sum of the costs of both parts.
#[verifier::spinoff_prover]
proof fn lemma_walk_suffix<CF: Fn(&HalfEdge) -> MetricU32>(
    edges: EdgeContainer,
    cost_fn: CF,
    es: Seq<EdgeIdx>,
    cs: Seq<MetricU32>,
    src: NodeIdx,
    dst: NodeIdx,
    j: int,
)
    requires
        is_costed_walk(edges, cost_fn, es, cs, src, dst),
        0 <= j <= es.len(),
    ensures
        is_costed_walk(edges, cost_fn, es.skip(j), cs.skip(j), walk_node(edges, src, es, j), dst),
        cost_sum(cs) == cost_sum(cs.take(j)) + cost_sum(cs.skip(j)),
{
    reveal(is_costed_walk);
    lemma_cost_sum_split(cs, j);
    let y = walk_node(edges, src, es, j);
    let es2 = es.skip(j);
    let cs2 = cs.skip(j);
    assert forall|i: int| 0 <= i <= es2.len() implies #[trigger] walk_node(edges, y, es2, i) == walk_node(
        edges,
        src,
        es,
        j + i,
    ) by {
        if i > 0 {
            assert(es2[i - 1] == es[j + i - 1]);
        }
    }
    assert(walk_node(edges, y, es2, es2.len() as int) == walk_node(edges, src, es, es.len() as int));
    assert forall|i: int| 0 <= i < es2.len() implies {
        let u = walk_node(edges, y, es2, i);
        &&& edges.leaving_indices(u) is Some
        &&& edges.leaving_indices(u)->0.contains(#[trigger] es2[i])
        &&& edges.half_edge_at(es2[i].0) is Some
        &&& cost_fn.ensures((&edges.half_edge_at(es2[i].0)->0,), cs2[i])
    } by {
        let k = j + i;
        assert(walk_node(edges, y, es2, i) == walk_node(edges, src, es, k));
        assert(es2[i] == es[k]);
        assert(cs2[i] == cs[k]);
        assert(edges.leaving_indices(walk_node(edges, src, es, k))->0.contains(es[k]));
    }
}

/// Along a walk whose first `j` nodes are settled, the `j`-th node's known cost is at most the
/// cost of the walk up to it.
proof fn lemma_settled_prefix<CF: Fn(&HalfEdge) -> MetricU32>(
    edges: EdgeContainer,
    cost_fn: CF,
    costs: Seq<MetricU32>,
    settled: Set<usize>,
    es: Seq<EdgeIdx>,
    cs: Seq<MetricU32>,
    src: NodeIdx,
    dst: NodeIdx,
    j: int,
)
    requires
        deterministic_costs(cost_fn),
        settled_ok(edges, cost_fn, costs, settled),
        is_costed_walk(edges, cost_fn, es, cs, src, dst),
        src.0 < costs.len(),
        costs[src.0 as int].0 == 0,
        forall|e: int| 0 <= e < edges.edge_dsts@.len() ==> (#[trigger] edges.edge_dsts@[e]).0 < costs.len(),
        0 <= j <= es.len(),
        forall|i: int| 0 <= i < j ==> settled.contains(#[trigger] walk_node(edges, src, es, i).0),
    ensures
        walk_node(edges, src, es, j).0 < costs.len(),
        costs[walk_node(edges, src, es, j).0 as int].0 <= cost_sum(cs.take(j)),
    decreases j,
{
    if j > 0 {
        lemma_settled_prefix(edges, cost_fn, costs, settled, es, cs, src, dst, j - 1);
        reveal(settled_ok);
        reveal(is_costed_walk);
        let u = walk_node(edges, src, es, j - 1);
        assert(settled.contains(u.0));
        assert(relaxed(edges, cost_fn, costs, u.0));
        assert(NodeIdx(u.0) == u);
        let l = edges.leaving_indices(u)->0;
        assert(l.contains(es[j - 1]));
        let k = choose|k: int| 0 <= k < l.len() && l[k] == es[j - 1];
        assert(cost_fn.ensures((&edges.half_edge_at(l[k].0)->0,), cs[j - 1]));
        assert(costs[edges.edge_dsts@[l[k].0 as int].0 as int].0 <= costs[u.0 as int].0 + cs[j - 1].0);
        assert(walk_node(edges, src, es, j) == edges.edge_dsts@[l[k].0 as int]);
        assert(cs.take(j).drop_last() =~= cs.take(j - 1));
        assert(cs.take(j).last() == cs[j - 1]);
    } else {
        assert(cs.take(0) =~= Seq::<MetricU32>::empty());
    }
}

/// A walk that ends outside the settled nodes leaves them somewhere: at its `r`-th node, whose
/// known cost is at most the cost of the walk up to it.
proof fn lemma_walk_leaves_settled<CF: Fn(&HalfEdge) -> MetricU32>(
    edges: EdgeContainer,
    cost_fn: CF,
    costs: Seq<MetricU32>,
    settled: Set<usize>,
    es: Seq<EdgeIdx>,
    cs: Seq<MetricU32>,
    src: NodeIdx,
    dst: NodeIdx,
    j: int,
) -> (r: int)
    requires
        deterministic_costs(cost_fn),
        settled_ok(edges, cost_fn, costs, settled),
        is_costed_walk(edges, cost_fn, es, cs, src, dst),
        src.0 < costs.len(),
        costs[src.0 as int].0 == 0,
        forall|e: int| 0 <= e < edges.edge_dsts@.len() ==> (#[trigger] edges.edge_dsts@[e]).0 < costs.len(),
        !settled.contains(dst.0),
        0 <= j <= es.len(),
        forall|i: int| 0 <= i < j ==> settled.contains(#[trigger] walk_node(edges, src, es, i).0),
    ensures
        0 <= r <= es.len(),
        es.len() == cs.len(),
        walk_node(edges, src, es, r).0 < costs.len(),
        !settled.contains(walk_node(edges, src, es, r).0),
        costs[walk_node(edges, src, es, r).0 as int].0 <= cost_sum(cs.take(r)),
    decreases es.len() - j,
{
    reveal(is_costed_walk);
    let u = walk_node(edges, src, es, j);
    if !settled.contains(u.0) || j == es.len() {
        lemma_settled_prefix(edges, cost_fn, costs, settled, es, cs, src, dst, j);
        j
    } else {
        lemma_walk_leaves_settled(edges, cost_fn, costs, settled, es, cs, src, dst, j + 1)
    }
}


/// Lowering known costs of other nodes keeps `x` relaxed.
proof fn lemma_relaxed_lowered<CF: Fn(&HalfEdge) -> MetricU32>(
    edges: EdgeContainer,
    cost_fn: CF,
    costs: Seq<MetricU32>,
    lowered: Seq<MetricU32>,
    x: usize,
    done: int,
)
    requires
        lowered.len() == costs.len(),
        x < costs.len(),
        lowered[x as int] == costs[x as int],
        forall|w: int| 0 <= w < costs.len() ==> (#[trigger] lowered[w]).0 <= costs[w].0,
        forall|e: int| 0 <= e < edges.edge_dsts@.len() ==> (#[trigger] edges.edge_dsts@[e]).0 < costs.len(),
        edges_complete(edges),
        edges.offsets_in_range(),
    ensures
        relaxed(edges, cost_fn, costs, x) ==> relaxed(edges, cost_fn, lowered, x),
        relaxed_upto(edges, cost_fn, costs, x, done) ==> relaxed_upto(edges, cost_fn, lowered, x, done),
{
    if let Some(l) = edges.leaving_indices(NodeIdx(x)) {
        assert forall|k: int| 0 <= k < l.len() implies (#[trigger] l[k]).0 < edges.edge_dsts@.len() by {
            lemma_leaving_in_map(edges, NodeIdx(x), k);
        }
        assert forall|k: int| 0 <= k < l.len() implies edges.edge_dsts@[(#[trigger] l[k]).0 as int].0
            < costs.len() by {
            lemma_leaving_in_map(edges, NodeIdx(x), k);
        }
    }
}

/// The `k`-th edge leaving a node is an edge of the container.
proof fn lemma_leaving_in_map(edges: EdgeContainer, x: NodeIdx, k: int)
    requires
        edges_complete(edges),
        edges.offsets_in_range(),
        edges.leaving_indices(x) is Some,
        0 <= k < edges.leaving_indices(x)->0.len(),
    ensures
        edges.leaving_indices(x)->0[k].0 < edges.edge_dsts@.len(),
        edges.half_edge_at(edges.leaving_indices(x)->0[k].0) is Some,
{
    let o = edges.offsets@;
    assert(o[x.0 as int] <= edges.xwd_to_fwd_map@.len());
    assert(o[x.0 + 1] <= edges.xwd_to_fwd_map@.len());
    assert(edges.leaving_indices(x)->0[k] == edges.xwd_to_fwd_map@[o[x.0 as int] + k]);
}

/// Without leaving edges, a node is relaxed; with a complete container, a node whose leaving
/// edges are not all half-edges has none.
proof fn lemma_no_leaving_edges<CF: Fn(&HalfEdge) -> MetricU32>(
    edges: EdgeContainer,
    cost_fn: CF,
    costs: Seq<MetricU32>,
    x: NodeIdx,
)
    requires
        edges_complete(edges),
        edges.offsets_in_range(),
        edges.leaving_indices(x) matches Some(l) ==> !(forall|k: int|
            0 <= k < l.len() ==> edges.half_edge_at(#[trigger] l[k].0) is Some),
    ensures
        edges.leaving_indices(x) is None,
        relaxed(edges, cost_fn, costs, x.0),
{
    if let Some(l) = edges.leaving_indices(x) {
        assert forall|k: int| 0 <= k < l.len() implies edges.half_edge_at(#[trigger] l[k].0) is Some by {
            lemma_leaving_in_map(edges, x, k);
        }
    }
    assert(NodeIdx(x.0) == x);
}

//------------------------------------------------------------------------------------------------//
// CostNode

#[derive(Copy, Clone, Debug)]
struct CostNode {
    idx: NodeIdx,
    cost: MetricU32,
    estimation: MetricU32,
    pred_idx: Option<NodeIdx>,
}

/// `a` comes before `b`: it has a smaller sum of cost and estimation, or the same sum and a
/// smaller index.
spec fn costnode_before(a: CostNode, b: CostNode) -> bool {
    a.cost.0 + a.estimation.0 < b.cost.0 + b.estimation.0 || (a.cost.0 + a.estimation.0
        == b.cost.0 + b.estimation.0 && a.idx.0 <= b.idx.0)
}

/// Removes a first cost-node (by sum of cost and estimation, then by index) from the queue.
fn pop_min(queue: &mut Vec<CostNode>) -> (r: Option<CostNode>)
    ensures
        old(queue)@.len() == 0 ==> r is None && final(queue)@ == old(queue)@,
        old(queue)@.len() > 0 ==> (r matches Some(c) && final(queue)@.len() == old(queue)@.len() - 1
            && old(queue)@.contains(c) && (forall|x: CostNode| #[trigger] final(queue)@.contains(x)
            ==> old(queue)@.contains(x)) && (forall|i: int|
            0 <= i < old(queue)@.len() ==> costnode_before(c, #[trigger] old(queue)@[i])) && (forall|
            i: int,
        |
            0 <= i < old(queue)@.len() && old(queue)@[i] != c ==> final(queue)@.contains(
                #[trigger] old(queue)@[i],
            ))),
{
    if queue.len() == 0 {
        return None;
    }
    let mut best: usize = 0;
    let mut i: usize = 1;
    while i < queue.len()
        invariant
            queue@ == old(queue)@,
            best < i <= queue@.len(),
            forall|j: int| 0 <= j < i ==> costnode_before(queue@[best as int], #[trigger] queue@[j]),
        decreases queue@.len() - i,
    {
        let a = queue[best];
        let b = queue[i];
        let sa: u64 = a.cost.0 as u64 + a.estimation.0 as u64;
        let sb: u64 = b.cost.0 as u64 + b.estimation.0 as u64;
        if sb < sa || (sb == sa && b.idx.0 < a.idx.0) {
            best = i;
        }
        i = i + 1;
    }
    let ghost q = queue@;
    let c = queue.swap_remove(best);
    proof {
        assert(q.contains(c));
        assert forall|i: int| 0 <= i < q.len() && q[i] != c implies queue@.contains(#[trigger] q[i]) by {
            if i == q.len() - 1 {
                assert(queue@[best as int] == q[i]);
            } else {
                assert(queue@[i] == q[i]);
            }
        }
        assert forall|x: CostNode| #[trigger] queue@.contains(x) implies q.contains(x) by {
            let j = choose|j: int| 0 <= j < queue@.len() && queue@[j] == x;
            if j == best {
                assert(q[q.len() - 1] == x);
            } else {
                assert(q[j] == x);
            }
        }
    }
    Some(c)
}


/// Taking a cost-node from the queue keeps the frontier, once its node counts as settled; a
/// stale cost-node (costing more than its node's known cost) can be taken anyway.
#[verifier::spinoff_prover]
#[verifier::rlimit(30)]
proof fn lemma_frontier_after_pop<CF: Fn(&HalfEdge) -> MetricU32>(
    edges: EdgeContainer,
    cost_fn: CF,
    dst: NodeIdx,
    costs: Seq<MetricU32>,
    q: Seq<CostNode>,
    q2: Seq<CostNode>,
    settled: Set<usize>,
    c: CostNode,
)
    requires
        frontier_ok(edges, cost_fn, dst, costs, q, settled),
        q.contains(c),
        forall|x: CostNode| #[trigger] q2.contains(x) ==> q.contains(x),
        forall|i: int| 0 <= i < q.len() && q[i] != c ==> q2.contains(#[trigger] q[i]),
    ensures
        frontier_ok(edges, cost_fn, dst, costs, q2, settled.insert(c.idx.0)),
        c.cost.0 > costs[c.idx.0 as int].0 ==> frontier_ok(edges, cost_fn, dst, costs, q2, settled),
{
    assert forall|i: int| 0 <= i < q2.len() implies (#[trigger] q2[i]).cost.0 < u32::MAX && estimate_below(
        edges,
        cost_fn,
        q2[i],
        dst,
    ) by {
        assert(q2.contains(q2[i]));
        let j = choose|j: int| 0 <= j < q.len() && q[j] == q2[i];
        assert(q[j].cost.0 < u32::MAX);
    }
    assert forall|y: usize|
        y < costs.len() && !settled.insert(c.idx.0).contains(y) && #[trigger] costs[y as int].0 < u32::MAX implies exists|i: int|
            0 <= i < q2.len() && (#[trigger] q2[i]).idx.0 == y && q2[i].cost.0 <= costs[y as int].0 by {
        let i = choose|i: int| 0 <= i < q.len() && (#[trigger] q[i]).idx.0 == y && q[i].cost.0 <= costs[y as int].0;
        assert(q2.contains(q[i]));
        let i2 = choose|i2: int| 0 <= i2 < q2.len() && q2[i2] == q[i];
        assert(q2[i2].idx.0 == y);
    }
    if c.cost.0 > costs[c.idx.0 as int].0 {
        assert forall|y: usize|
            y < costs.len() && !settled.contains(y) && #[trigger] costs[y as int].0 < u32::MAX implies exists|i: int|
                0 <= i < q2.len() && (#[trigger] q2[i]).idx.0 == y && q2[i].cost.0 <= costs[y as int].0 by {
            let i = choose|i: int| 0 <= i < q.len() && (#[trigger] q[i]).idx.0 == y && q[i].cost.0 <= costs[y as int].0;
            assert(q[i] != c);
            assert(q2.contains(q[i]));
            let i2 = choose|i2: int| 0 <= i2 < q2.len() && q2[i2] == q[i];
            assert(q2[i2].idx.0 == y);
        }
    }
}

/// Lowering the known cost of `v` and queueing it keeps the frontier, once `v` no longer counts
/// as settled.
#[verifier::spinoff_prover]
#[verifier::rlimit(30)]
proof fn lemma_frontier_after_push<CF: Fn(&HalfEdge) -> MetricU32>(
    edges: EdgeContainer,
    cost_fn: CF,
    dst: NodeIdx,
    costs: Seq<MetricU32>,
    queue: Seq<CostNode>,
    settled: Set<usize>,
    u: usize,
    entry: CostNode,
)
    requires
        frontier_ok(edges, cost_fn, dst, costs, queue, settled.insert(u)),
        entry.idx.0 < costs.len(),
        entry.idx.0 != u,
        entry.cost.0 < costs[entry.idx.0 as int].0,
        estimate_below(edges, cost_fn, entry, dst),
    ensures
        frontier_ok(
            edges,
            cost_fn,
            dst,
            costs.update(entry.idx.0 as int, entry.cost),
            queue.push(entry),
            settled.remove(entry.idx.0).insert(u),
        ),
{
    let v = entry.idx.0;
    let costs2 = costs.update(v as int, entry.cost);
    let queue2 = queue.push(entry);
    let settled2 = settled.remove(v).insert(u);
    assert forall|i: int| 0 <= i < queue2.len() implies (#[trigger] queue2[i]).cost.0 < u32::MAX && estimate_below(
        edges,
        cost_fn,
        queue2[i],
        dst,
    ) by {
        if i < queue.len() {
            assert(queue2[i] == queue[i]);
        }
    }
    assert forall|y: usize|
        y < costs2.len() && !settled2.contains(y) && #[trigger] costs2[y as int].0 < u32::MAX implies exists|i: int|
            0 <= i < queue2.len() && (#[trigger] queue2[i]).idx.0 == y && queue2[i].cost.0 <= costs2[y as int].0 by {
        if y == v {
            assert(queue2[queue.len() as int] == entry);
        } else {
            assert(!settled.insert(u).contains(y));
            assert(costs2[y as int] == costs[y as int]);
            assert(costs[y as int].0 < u32::MAX);
            let i = choose|i: int| 0 <= i < queue.len() && (#[trigger] queue[i]).idx.0 == y && queue[i].cost.0 <= costs[y as int].0;
            assert(queue2[i] == queue[i]);
        }
    }
}


/// An edge that lowered its destination's cost is relaxed; every other settled node stays relaxed,
/// and the destination is no longer settled.
#[verifier::spinoff_prover]
#[verifier::rlimit(30)]
proof fn lemma_relax_improved<CF: Fn(&HalfEdge) -> MetricU32>(
    edges: EdgeContainer,
    cost_fn: CF,
    costs: Seq<MetricU32>,
    lowered: Seq<MetricU32>,
    settled: Set<usize>,
    l: Seq<EdgeIdx>,
    u: usize,
    j: int,
    c: MetricU32,
)
    requires
        deterministic_costs(cost_fn),
        edges_complete(edges),
        edges.offsets_in_range(),
        forall|e: int| 0 <= e < edges.edge_dsts@.len() ==> (#[trigger] edges.edge_dsts@[e]).0 < costs.len(),
        settled_ok(edges, cost_fn, costs, settled),
        relaxed_upto(edges, cost_fn, costs, u, j),
        edges.leaving_indices(NodeIdx(u)) == Some(l),
        0 <= j < l.len(),
        u < costs.len(),
        cost_fn.ensures((&edges.half_edge_at(l[j].0)->0,), c),
        ({
            let v = edges.edge_dsts@[l[j].0 as int].0;
            &&& v != u
            &&& costs[u as int].0 + c.0 < costs[v as int].0
            &&& lowered == costs.update(v as int, MetricU32((costs[u as int].0 + c.0) as u32))
        }),
    ensures
        settled_ok(edges, cost_fn, lowered, settled.remove(edges.edge_dsts@[l[j].0 as int].0)),
        relaxed_upto(edges, cost_fn, lowered, u, j + 1),
{
    let v = edges.edge_dsts@[l[j].0 as int].0;
    lemma_leaving_in_map(edges, NodeIdx(u), j);
    reveal(settled_ok);
    assert forall|x: usize| #[trigger] settled.remove(v).contains(x) implies relaxed(edges, cost_fn, lowered, x) by {
        assert(settled.contains(x));
        lemma_relaxed_lowered(edges, cost_fn, costs, lowered, x, 0);
    }
    lemma_relaxed_lowered(edges, cost_fn, costs, lowered, u, j);
    assert forall|k: int, c2: MetricU32|
        0 <= k < l.len() && k < j + 1 && #[trigger] cost_fn.ensures((&edges.half_edge_at(l[k].0)->0,), c2) implies lowered[edges.edge_dsts@[l[k].0 as int].0 as int].0
        <= lowered[u as int].0 + c2.0 by {
        if k == j {
            assert(c2 == c);
        }
    }
}

/// An edge that did not lower its destination's cost is relaxed.
proof fn lemma_relax_kept<CF: Fn(&HalfEdge) -> MetricU32>(
    edges: EdgeContainer,
    cost_fn: CF,
    costs: Seq<MetricU32>,
    l: Seq<EdgeIdx>,
    u: usize,
    j: int,
    c: MetricU32,
)
    requires
        deterministic_costs(cost_fn),
        relaxed_upto(edges, cost_fn, costs, u, j),
        edges.leaving_indices(NodeIdx(u)) == Some(l),
        0 <= j < l.len(),
        cost_fn.ensures((&edges.half_edge_at(l[j].0)->0,), c),
        costs[edges.edge_dsts@[l[j].0 as int].0 as int].0 <= costs[u as int].0 + c.0,
    ensures
        relaxed_upto(edges, cost_fn, costs, u, j + 1),
{
    assert forall|k: int, c2: MetricU32|
        0 <= k < l.len() && k < j + 1 && #[trigger] cost_fn.ensures((&edges.half_edge_at(l[k].0)->0,), c2) implies costs[edges.edge_dsts@[l[k].0 as int].0 as int].0
        <= costs[u as int].0 + c2.0 by {
        if k == j {
            assert(c2 == c);
        }
    }
}

/// A node whose leaving edges are all relaxed can be settled.
proof fn lemma_settle<CF: Fn(&HalfEdge) -> MetricU32>(
    edges: EdgeContainer,
    cost_fn: CF,
    costs: Seq<MetricU32>,
    settled: Set<usize>,
    l: Seq<EdgeIdx>,
    u: usize,
)
    requires
        settled_ok(edges, cost_fn, costs, settled),
        edges.leaving_indices(NodeIdx(u)) == Some(l),
        relaxed_upto(edges, cost_fn, costs, u, l.len() as int),
        u < costs.len(),
    ensures
        settled_ok(edges, cost_fn, costs, settled.insert(u)),
{
    reveal(settled_ok);
    assert(relaxed(edges, cost_fn, costs, u));
}

/// Once the destination is taken from the queue, no walk to it costs less than its cost-node:
/// every walk leaves the settled nodes at a node that is queued with at most the walk's cost.
proof fn lemma_popped_is_cheapest<CF: Fn(&HalfEdge) -> MetricU32>(
    edges: EdgeContainer,
    cost_fn: CF,
    costs: Seq<MetricU32>,
    q: Seq<CostNode>,
    settled: Set<usize>,
    current: CostNode,
    src: NodeIdx,
    dst: NodeIdx,
)
    requires
        deterministic_costs(cost_fn),
        settled_ok(edges, cost_fn, costs, settled),
        frontier_ok(edges, cost_fn, dst, costs, q, settled),
        q.contains(current),
        forall|i: int| 0 <= i < q.len() ==> costnode_before(current, #[trigger] q[i]),
        !settled.contains(dst.0),
        src.0 < costs.len(),
        costs[src.0 as int].0 == 0,
        forall|e: int| 0 <= e < edges.edge_dsts@.len() ==> (#[trigger] edges.edge_dsts@[e]).0 < costs.len(),
    ensures
        forall|es: Seq<EdgeIdx>, cs: Seq<MetricU32>|
            #[trigger] is_costed_walk(edges, cost_fn, es, cs, src, dst) ==> current.cost.0 <= cost_sum(cs),
{
    assert forall|es: Seq<EdgeIdx>, cs: Seq<MetricU32>|
        #[trigger] is_costed_walk(edges, cost_fn, es, cs, src, dst) implies current.cost.0 <= cost_sum(cs) by {
        let j = lemma_walk_leaves_settled(edges, cost_fn, costs, settled, es, cs, src, dst, 0);
        let y = walk_node(edges, src, es, j);
        lemma_walk_suffix(edges, cost_fn, es, cs, src, dst, j);
        lemma_cost_sum_nonneg(cs.skip(j));
        if costs[y.0 as int].0 < u32::MAX {
            let i = choose|i: int| 0 <= i < q.len() && (#[trigger] q[i]).idx.0 == y.0 && q[i].cost.0 <= costs[y.0 as int].0;
            assert(costnode_before(current, q[i]));
            assert(q[i].idx == y);
            assert(estimate_below(edges, cost_fn, q[i], dst));
            assert(q[i].estimation.0 <= cost_sum(cs.skip(j)));
        }
    }
}


/// Once the queue is empty, every walk to the destination costs at least `u32::MAX`: it leaves
/// the settled nodes at a node that was never reached.
proof fn lemma_no_walk_left<CF: Fn(&HalfEdge) -> MetricU32>(
    edges: EdgeContainer,
    cost_fn: CF,
    costs: Seq<MetricU32>,
    q: Seq<CostNode>,
    settled: Set<usize>,
    src: NodeIdx,
    dst: NodeIdx,
)
    requires
        deterministic_costs(cost_fn),
        settled_ok(edges, cost_fn, costs, settled),
        frontier_ok(edges, cost_fn, dst, costs, q, settled),
        q.len() == 0,
        !settled.contains(dst.0),
        src.0 < costs.len(),
        costs[src.0 as int].0 == 0,
        forall|e: int| 0 <= e < edges.edge_dsts@.len() ==> (#[trigger] edges.edge_dsts@[e]).0 < costs.len(),
    ensures
        forall|es: Seq<EdgeIdx>, cs: Seq<MetricU32>|
            #[trigger] is_costed_walk(edges, cost_fn, es, cs, src, dst) ==> cost_sum(cs) >= u32::MAX,
{
    assert forall|es: Seq<EdgeIdx>, cs: Seq<MetricU32>|
        #[trigger] is_costed_walk(edges, cost_fn, es, cs, src, dst) implies cost_sum(cs) >= u32::MAX by {
        let j = lemma_walk_leaves_settled(edges, cost_fn, costs, settled, es, cs, src, dst, 0);
        let y = walk_node(edges, src, es, j).0;
        lemma_cost_sum_prefix(cs, j);
        if costs[y as int].0 < u32::MAX {
            let i = choose|i: int| 0 <= i < q.len() && (#[trigger] q[i]).idx.0 == y && q[i].cost.0 <= costs[y as int].0;
        }
    }
}


/// Every recorded predecessor `u` of a node `v` reaches it along the recorded edge, which leaves
/// `u`, at the recorded cost: the known cost of `v` is at least that of `u` plus the edge's.
spec fn preds_costed<CF: Fn(&HalfEdge) -> MetricU32>(
    edges: EdgeContainer,
    cost_fn: CF,
    costs: Seq<MetricU32>,
    preds: Seq<Option<NodeIdx>>,
    pred_edges: Seq<EdgeIdx>,
    pred_costs: Seq<MetricU32>,
) -> bool {
    &&& pred_edges.len() == preds.len()
    &&& pred_costs.len() == preds.len()
    &&& forall|v: int|
        0 <= v < preds.len() && (#[trigger] preds[v]) is Some ==> {
            let u = preds[v]->0;
            let e = pred_edges[v];
            &&& u.0 < preds.len()
            &&& edges.leaving_indices(u) is Some
            &&& edges.leaving_indices(u)->0.contains(e)
            &&& edges.half_edge_at(e.0) is Some
            &&& edges.edge_dsts@[e.0 as int].0 == v
            &&& cost_fn.ensures((&edges.half_edge_at(e.0)->0,), pred_costs[v])
            &&& costs[u.0 as int].0 + pred_costs[v].0 <= costs[v].0
        }
}

/// Recording `u` as predecessor of `v` along the `j`-th edge leaving `u` keeps the recorded
/// walks costed.
#[verifier::spinoff_prover]
#[verifier::rlimit(30)]
proof fn lemma_preds_costed_after_relax<CF: Fn(&HalfEdge) -> MetricU32>(
    edges: EdgeContainer,
    cost_fn: CF,
    costs: Seq<MetricU32>,
    preds: Seq<Option<NodeIdx>>,
    pred_edges: Seq<EdgeIdx>,
    pred_costs: Seq<MetricU32>,
    l: Seq<EdgeIdx>,
    j: int,
    u: NodeIdx,
    c: MetricU32,
    new_cost: MetricU32,
)
    requires
        preds_costed(edges, cost_fn, costs, preds, pred_edges, pred_costs),
        preds.len() == costs.len(),
        edges.leaving_indices(u) == Some(l),
        0 <= j < l.len(),
        edges.half_edge_at(l[j].0) is Some,
        edges.edge_dsts@[l[j].0 as int].0 < costs.len(),
        edges.edge_dsts@[l[j].0 as int].0 != u.0,
        u.0 < costs.len(),
        cost_fn.ensures((&edges.half_edge_at(l[j].0)->0,), c),
        new_cost.0 == costs[u.0 as int].0 + c.0,
        new_cost.0 < costs[edges.edge_dsts@[l[j].0 as int].0 as int].0,
    ensures
        ({
            let v = edges.edge_dsts@[l[j].0 as int].0 as int;
            preds_costed(
                edges,
                cost_fn,
                costs.update(v, new_cost),
                preds.update(v, Some(u)),
                pred_edges.update(v, l[j]),
                pred_costs.update(v, c),
            )
        }),
{
    let v = edges.edge_dsts@[l[j].0 as int].0 as int;
    let costs2 = costs.update(v, new_cost);
    let preds2 = preds.update(v, Some(u));
    let pe2 = pred_edges.update(v, l[j]);
    let pc2 = pred_costs.update(v, c);
    assert(l.contains(l[j]));
    assert forall|x: int| 0 <= x < preds2.len() && (#[trigger] preds2[x]) is Some implies {
        let y = preds2[x]->0;
        let e = pe2[x];
        &&& y.0 < preds2.len()
        &&& edges.leaving_indices(y) is Some
        &&& edges.leaving_indices(y)->0.contains(e)
        &&& edges.half_edge_at(e.0) is Some
        &&& edges.edge_dsts@[e.0 as int].0 == x
        &&& cost_fn.ensures((&edges.half_edge_at(e.0)->0,), pc2[x])
        &&& costs2[y.0 as int].0 + pc2[x].0 <= costs2[x].0
    } by {
        if x != v {
            assert(preds[x] is Some);
            let y = preds[x]->0;
            assert(costs[y.0 as int].0 + pred_costs[x].0 <= costs[x].0);
            assert(costs2[y.0 as int].0 <= costs[y.0 as int].0);
        }
    }
}

proof fn lemma_walk_cost_telescopes(
    costs: Seq<MetricU32>,
    cs: Seq<MetricU32>,
    w: Seq<NodeIdx>,
    i: int,
)
    requires
        w.len() == cs.len() + 1,
        0 <= i < w.len(),
        forall|k: int| 0 <= k < w.len() ==> (#[trigger] w[k]).0 < costs.len(),
        costs[w[0].0 as int].0 == 0,
        forall|k: int| 0 <= k < cs.len() ==> costs[w[k].0 as int].0 + (#[trigger] cs[k]).0 <= costs[w[k + 1].0 as int].0,
    ensures
        cost_sum(cs.take(i)) <= costs[w[i].0 as int].0,
    decreases i,
{
    if i > 0 {
        lemma_walk_cost_telescopes(costs, cs, w, i - 1);
        assert(cs.take(i).drop_last() =~= cs.take(i - 1));
        assert(cs.take(i).last() == cs[i - 1]);
    } else {
        assert(cs.take(0) =~= Seq::<MetricU32>::empty());
    }
}

/// The recorded predecessors of a node form a costed walk to it, which costs at most its known
/// cost.
#[verifier::spinoff_prover]
#[verifier::rlimit(30)]
proof fn lemma_recorded_walk_costed<CF: Fn(&HalfEdge) -> MetricU32>(
    edges: EdgeContainer,
    cost_fn: CF,
    costs: Seq<MetricU32>,
    preds: Seq<Option<NodeIdx>>,
    pred_edges: Seq<EdgeIdx>,
    pred_costs: Seq<MetricU32>,
    w: Seq<NodeIdx>,
    src: NodeIdx,
    dst: NodeIdx,
) -> (r: (Seq<EdgeIdx>, Seq<MetricU32>))
    requires
        preds_costed(edges, cost_fn, costs, preds, pred_edges, pred_costs),
        preds.len() == costs.len(),
        w.len() >= 1,
        w[0] == src,
        w[w.len() - 1] == dst,
        forall|i: int| 0 <= i < w.len() ==> (#[trigger] w[i]).0 < costs.len(),
        forall|i: int| 1 <= i < w.len() ==> preds[(#[trigger] w[i]).0 as int] == Some(w[i - 1]),
        costs[src.0 as int].0 == 0,
    ensures
        is_costed_walk(edges, cost_fn, r.0, r.1, src, dst),
        cost_sum(r.1) <= costs[dst.0 as int].0,
        r.0.len() == w.len() - 1,
        forall|i: int| 0 <= i < w.len() ==> walk_node(edges, src, r.0, i) == w[i],
{
    let n = (w.len() - 1) as nat;
    let es = Seq::new(n, |i: int| pred_edges[w[i + 1].0 as int]);
    let cs = Seq::new(n, |i: int| pred_costs[w[i + 1].0 as int]);
    assert forall|i: int| 0 <= i < w.len() implies walk_node(edges, src, es, i) == w[i] by {
        if i > 0 {
            assert(preds[w[i].0 as int] == Some(w[i - 1]));
            assert(edges.edge_dsts@[es[i - 1].0 as int].0 == w[i].0);
        }
    }
    assert forall|k: int| 0 <= k < cs.len() implies costs[w[k].0 as int].0 + (#[trigger] cs[k]).0 <= costs[w[k + 1].0 as int].0 by {
        let x = w[k + 1];
        assert(preds[x.0 as int] == Some(w[k]));
    }
    lemma_walk_cost_telescopes(costs, cs, w, n as int);
    assert(cs.take(n as int) =~= cs);
    reveal(is_costed_walk);
    assert forall|i: int| 0 <= i < es.len() implies {
        let u = walk_node(edges, src, es, i);
        &&& edges.leaving_indices(u) is Some
        &&& edges.leaving_indices(u)->0.contains(#[trigger] es[i])
        &&& edges.half_edge_at(es[i].0) is Some
        &&& cost_fn.ensures((&edges.half_edge_at(es[i].0)->0,), cs[i])
    } by {
        assert(walk_node(edges, src, es, i) == w[i]);
        let x = w[i + 1];
        assert(preds[x.0 as int] == Some(w[i]));
    }
    assert(walk_node(edges, src, es, es.len() as int) == w[w.len() - 1]);
    (es, cs)
}

//------------------------------------------------------------------------------------------------//
// Astar

/// A generic Astar-implementation using a cost- and an estimation-function; it keeps its
/// allocated data for repeated calls.
pub struct GenericAstar<CF, EF> {
    cost_fn: CF,
    estimate_fn: EF,
    costs: Vec<MetricU32>,
    predecessors: Vec<Option<NodeIdx>>,
    queue: Vec<CostNode>,
}

impl<CF, EF> GenericAstar<CF, EF> {
    pub fn from(cost_fn: CF, estimate_fn: EF) -> (a: GenericAstar<CF, EF>)
        ensures
            a.cost_fn() == cost_fn,
            a.estimate_fn() == estimate_fn,
    {
        GenericAstar {
            cost_fn,
            estimate_fn,
            costs: Vec::new(),
            predecessors: Vec::new(),
            queue: Vec::new(),
        }
    }

    pub closed spec fn cost_fn(&self) -> CF {
        self.cost_fn
    }

    pub closed spec fn estimate_fn(&self) -> EF {
        self.estimate_fn
    }

    /// Resizes the data-structures storing routing-data, resetting all costs and predecessors.
    fn resize(&mut self, new_len: usize)
        ensures
            final(self).costs@ == Seq::new(new_len as nat, |i: int| MetricU32(u32::MAX)),
            final(self).predecessors@ == Seq::new(new_len as nat, |i: int| None::<NodeIdx>),
            final(self).queue@.len() == 0,
            final(self).cost_fn == old(self).cost_fn,
            final(self).estimate_fn == old(self).estimate_fn,
    {
        let mut costs: Vec<MetricU32> = Vec::new();
        let mut predecessors: Vec<Option<NodeIdx>> = Vec::new();
        let mut i: usize = 0;
        while i < new_len
            invariant
                i <= new_len,
                costs@ == Seq::new(i as nat, |i: int| MetricU32(u32::MAX)),
                predecessors@ == Seq::new(i as nat, |i: int| None::<NodeIdx>),
            decreases new_len - i,
        {
            costs.push(MetricU32(u32::MAX));
            predecessors.push(None);
            i = i + 1;
            proof {
                assert(costs@ =~= Seq::new(i as nat, |i: int| MetricU32(u32::MAX)));
                assert(predecessors@ =~= Seq::new(i as nat, |i: int| None::<NodeIdx>));
            }
        }
        self.costs = costs;
        self.predecessors = predecessors;
        self.queue = Vec::new();
    }
}

/// The search-state is consistent: every recorded predecessor comes before its node, with a
/// smaller cost, or the same cost and an earlier stamp; it leads along an edge; and it is the
/// source or has a predecessor itself.
spec fn search_consistent(
    edges: EdgeContainer,
    costs: Seq<MetricU32>,
    preds: Seq<Option<NodeIdx>>,
    stamps: Seq<nat>,
    src: NodeIdx,
) -> bool {
    &&& preds.len() == costs.len()
    &&& stamps.len() == costs.len()
    &&& src.0 < costs.len()
    &&& costs[src.0 as int].0 == 0
    &&& preds[src.0 as int] is None
    &&& forall|v: int|
        0 <= v < preds.len() && (#[trigger] preds[v]) is Some ==> {
            let u = preds[v]->0;
            &&& u.0 < costs.len()
            &&& costs[u.0 as int].0 < costs[v].0 || (costs[u.0 as int].0 == costs[v].0 && stamps[u.0 as int]
                < stamps[v])
            &&& has_edge(edges, u, NodeIdx(v as usize))
            &&& (u == src || preds[u.0 as int] is Some)
        }
}

/// The cost-node's node is a node, and the source or one with a predecessor; its cost is at
/// least the node's known cost.
spec fn queued_ok(
    c: CostNode,
    costs: Seq<MetricU32>,
    preds: Seq<Option<NodeIdx>>,
    src: NodeIdx,
) -> bool {
    &&& c.idx.0 < preds.len()
    &&& c.idx.0 < costs.len()
    &&& (c.idx == src || preds[c.idx.0 as int] is Some)
    &&& c.cost.0 >= costs[c.idx.0 as int].0
}

/// Every successor-link has the predecessor-link back, and every predecessor-link the
/// successor-link back.
pub open spec fn links_inverse(preds: Map<usize, NodeIdx>, succs: Map<usize, NodeIdx>) -> bool {
    &&& forall|x: usize|
        #[trigger] succs.contains_key(x) ==> preds.contains_key(succs[x].0) && preds[succs[x].0] == NodeIdx(x)
    &&& forall|y: usize|
        #[trigger] preds.contains_key(y) ==> succs.contains_key(preds[y].0) && succs[preds[y].0] == NodeIdx(y)
}

/// The node-index `x` is that of a node of `w` in the positions `lo..hi`.
spec fn on_walk(w: Seq<NodeIdx>, x: usize, lo: int, hi: int) -> bool {
    exists|i: int| lo <= i < hi && (#[trigger] w[i]).0 == x
}

/// The links of a walk: the predecessors are linked from the nodes after the first, the
/// successors from those before the last, each to its neighbour on the walk.
spec fn walk_links(preds: Map<usize, NodeIdx>, succs: Map<usize, NodeIdx>, w: Seq<NodeIdx>) -> bool {
    &&& forall|y: usize| #[trigger] preds.contains_key(y) ==> on_walk(w, y, 1, w.len() as int)
    &&& forall|x: usize| #[trigger] succs.contains_key(x) ==> on_walk(w, x, 0, w.len() - 1)
    &&& forall|i: int|
        0 <= i < w.len() - 1 ==> preds.contains_key((#[trigger] w[i + 1]).0) && preds[w[i + 1].0] == w[i]
    &&& forall|i: int|
        0 <= i < w.len() - 1 ==> succs.contains_key((#[trigger] w[i]).0) && succs[w[i].0] == w[i + 1]
}

/// The nodes of the walk strictly increase in (cost, stamp).
spec fn walk_ranked(costs: Seq<MetricU32>, stamps: Seq<nat>, w: Seq<NodeIdx>) -> bool {
    forall|i: int, j: int|
        0 <= i < j < w.len() ==> ranked_below(costs, stamps, (#[trigger] w[i]).0 as int, (#[trigger] w[j]).0 as int)
}

/// Linking a new first node in front of a walk keeps its links.
proof fn lemma_walk_links_prepend(
    preds: Map<usize, NodeIdx>,
    succs: Map<usize, NodeIdx>,
    w: Seq<NodeIdx>,
    pred: NodeIdx,
    costs: Seq<MetricU32>,
    stamps: Seq<nat>,
)
    requires
        w.len() >= 1,
        walk_links(preds, succs, w),
        walk_ranked(costs, stamps, w),
        ranked_below(costs, stamps, pred.0 as int, w[0].0 as int),
    ensures
        walk_links(preds.insert(w[0].0, pred), succs.insert(pred.0, w[0]), seq![pred] + w),
        walk_ranked(costs, stamps, seq![pred] + w),
{
    let w2 = seq![pred] + w;
    let p2 = preds.insert(w[0].0, pred);
    let s2 = succs.insert(pred.0, w[0]);
    assert forall|i: int, j: int| 0 <= i < j < w2.len() implies ranked_below(
        costs,
        stamps,
        (#[trigger] w2[i]).0 as int,
        (#[trigger] w2[j]).0 as int,
    ) by {
        if i == 0 {
            assert(w2[j] == w[j - 1]);
            if j > 1 {
                assert(ranked_below(costs, stamps, w[0].0 as int, w[j - 1].0 as int));
            }
        } else {
            assert(w2[i] == w[i - 1] && w2[j] == w[j - 1]);
        }
    }
    assert forall|k: int| 0 <= k < w.len() implies (#[trigger] w[k]).0 != pred.0 by {
        if k > 0 {
            assert(ranked_below(costs, stamps, w[0].0 as int, w[k].0 as int));
        }
    }
    assert forall|y: usize| #[trigger] p2.contains_key(y) implies on_walk(w2, y, 1, w2.len() as int) by {
        if y == w[0].0 {
            assert(w2[1] == w[0]);
        } else {
            assert(on_walk(w, y, 1, w.len() as int));
            let i = choose|i: int| 1 <= i < w.len() && (#[trigger] w[i]).0 == y;
            assert(w2[i + 1] == w[i]);
        }
    }
    assert forall|x: usize| #[trigger] s2.contains_key(x) implies on_walk(w2, x, 0, w2.len() - 1) by {
        if x == pred.0 {
            assert(w2[0] == pred);
        } else {
            assert(on_walk(w, x, 0, w.len() - 1));
            let i = choose|i: int| 0 <= i < w.len() - 1 && (#[trigger] w[i]).0 == x;
            assert(w2[i + 1] == w[i]);
        }
    }
    assert forall|i: int| 0 <= i < w2.len() - 1 implies p2.contains_key((#[trigger] w2[i + 1]).0) && p2[w2[i
        + 1].0] == w2[i] by {
        if i > 0 {
            assert(w2[i + 1] == w[i] && w2[i] == w[i - 1]);
            assert(w[i].0 != w[0].0) by {
                assert(ranked_below(costs, stamps, w[0].0 as int, w[i].0 as int));
            }
        }
    }
    assert forall|i: int| 0 <= i < w2.len() - 1 implies s2.contains_key((#[trigger] w2[i]).0) && s2[w2[i].0]
        == w2[i + 1] by {
        if i > 0 {
            assert(w2[i] == w[i - 1] && w2[i + 1] == w[i]);
        }
    }
}

/// The links of a walk of distinct nodes are inverse to each other, and its last node has no
/// successor.
proof fn lemma_walk_links_inverse(
    preds: Map<usize, NodeIdx>,
    succs: Map<usize, NodeIdx>,
    w: Seq<NodeIdx>,
    costs: Seq<MetricU32>,
    stamps: Seq<nat>,
)
    requires
        w.len() >= 1,
        walk_links(preds, succs, w),
        walk_ranked(costs, stamps, w),
    ensures
        links_inverse(preds, succs),
        !succs.contains_key(w[w.len() - 1].0),
{
    assert forall|x: usize| #[trigger] succs.contains_key(x) implies preds.contains_key(succs[x].0)
        && preds[succs[x].0] == NodeIdx(x) by {
        let i = choose|i: int| 0 <= i < w.len() - 1 && (#[trigger] w[i]).0 == x;
        assert(w[i] == NodeIdx(x));
    }
    assert forall|y: usize| #[trigger] preds.contains_key(y) implies succs.contains_key(preds[y].0)
        && succs[preds[y].0] == NodeIdx(y) by {
        let i = choose|i: int| 1 <= i < w.len() && (#[trigger] w[i]).0 == y;
        assert(w[i] == NodeIdx(y));
        assert(w[(i - 1) + 1] == w[i]);
    }
    if succs.contains_key(w[w.len() - 1].0) {
        let i = choose|i: int| 0 <= i < w.len() - 1 && (#[trigger] w[i]).0 == w[w.len() - 1].0;
        assert(ranked_below(costs, stamps, w[i].0 as int, w[w.len() - 1].0 as int));
    }
}

/// The lexicographic order of (cost, stamp).
spec fn ranked_below(costs: Seq<MetricU32>, stamps: Seq<nat>, a: int, b: int) -> bool {
    costs[a].0 < costs[b].0 || (costs[a].0 == costs[b].0 && stamps[a] < stamps[b])
}

impl<CF, EF> GenericAstar<CF, EF> {
    /// Follows the predecessors from `dst` back to `src` and records them in a path.
    fn build_path(
        &self,
        src: NodeIdx,
        dst: NodeIdx,
        cost: MetricU32,
        fwd_edges: &EdgeContainer,
        Ghost(stamps): Ghost<Seq<nat>>,
    ) -> (p: Path<MetricU32>)
        requires
            search_consistent(*fwd_edges, self.costs@, self.predecessors@, stamps, src),
            dst.0 < self.costs@.len(),
            dst == src || self.predecessors@[dst.0 as int] is Some,
        ensures
            p.src() == src,
            p.dst() == dst,
            p.path_cost() == cost,
            !p.preds().contains_key(src.0),
            links_inverse(p.preds(), p.succs()),
            !p.succs().contains_key(dst.0),
            exists|w: Seq<NodeIdx>|
                {
                    &&& is_recorded_walk(*fwd_edges, w, p.preds(), src, dst)
                    &&& forall|i: int| 0 <= i < w.len() ==> (#[trigger] w[i]).0 < self.costs@.len()
                    &&& forall|i: int|
                        1 <= i < w.len() ==> self.predecessors@[(#[trigger] w[i]).0 as int] == Some(
                            w[i - 1],
                        )
                },
    {
        let mut path = Path { core: HashPath::new(src, dst) };
        path.core.set_cost(cost);
        let mut cur = dst;
        let ghost mut w: Seq<NodeIdx> = seq![dst];
        let ghost costs = self.costs@;
        let ghost preds = self.predecessors@;
        loop
            invariant
                search_consistent(*fwd_edges, costs, preds, stamps, src),
                costs == self.costs@,
                preds == self.predecessors@,
                cur.0 < costs.len(),
                cur == src || preds[cur.0 as int] is Some,
                path.src() == src,
                path.dst() == dst,
                path.path_cost() == cost,
                !path.preds().contains_key(src.0),
                walk_links(path.preds(), path.succs(), w),
                walk_ranked(costs, stamps, w),
                w.len() >= 1,
                w[0] == cur,
                w[w.len() - 1] == dst,
                forall|i: int| 0 <= i < w.len() ==> (#[trigger] w[i]).0 < costs.len(),
                forall|i: int| 1 <= i < w.len() ==> ranked_below(costs, stamps, cur.0 as int, (#[trigger] w[i]).0 as int),
                forall|i: int|
                    0 <= i < w.len() - 1 ==> has_edge(*fwd_edges, #[trigger] w[i], w[i + 1])
                        && path.preds().contains_key(w[i + 1].0) && path.preds()[w[i + 1].0] == w[i],
                forall|i: int| 1 <= i < w.len() ==> preds[(#[trigger] w[i]).0 as int] == Some(w[i - 1]),
            ensures
                cur == src,
                !path.preds().contains_key(src.0),
                walk_links(path.preds(), path.succs(), w),
                walk_ranked(costs, stamps, w),
                w.len() >= 1,
                w[0] == src,
                w[w.len() - 1] == dst,
                forall|i: int| 0 <= i < w.len() ==> (#[trigger] w[i]).0 < costs.len(),
                forall|i: int|
                    0 <= i < w.len() - 1 ==> has_edge(*fwd_edges, #[trigger] w[i], w[i + 1])
                        && path.preds().contains_key(w[i + 1].0) && path.preds()[w[i + 1].0] == w[i],
                forall|i: int| 1 <= i < w.len() ==> preds[(#[trigger] w[i]).0 as int] == Some(w[i - 1]),
            decreases costs[cur.0 as int].0, stamps[cur.0 as int],
        {
            match self.predecessors[cur.0] {
                Some(pred) => {
                    let ghost old_w = w;
                    let ghost old_preds = path.preds();
                    let ghost old_succs = path.succs();
                    proof {
                        assert(preds[cur.0 as int] == Some(pred));
                        assert(cur.0 != src.0);
                        assert(ranked_below(costs, stamps, pred.0 as int, cur.0 as int));
                        lemma_walk_links_prepend(old_preds, old_succs, w, pred, costs, stamps);
                    }
                    path.core.add_pred_succ(pred, cur);
                    proof {
                        w = seq![pred] + w;
                        assert forall|i: int| 1 <= i < w.len() implies ranked_below(costs, stamps, pred.0 as int, (#[trigger] w[i]).0 as int) by {
                            if i > 1 {
                                assert(old_w[i - 1] == w[i]);
                                assert(ranked_below(costs, stamps, cur.0 as int, old_w[i - 1].0 as int));
                            }
                        }
                        assert forall|i: int|
                            0 <= i < w.len() - 1 implies has_edge(*fwd_edges, #[trigger] w[i], w[i + 1])
                                && path.preds().contains_key(w[i + 1].0) && path.preds()[w[i + 1].0] == w[i] by {
                            if i > 0 {
                                assert(old_w[i - 1] == w[i]);
                                assert(old_w[i] == w[i + 1]);
                                assert(ranked_below(costs, stamps, cur.0 as int, old_w[i].0 as int));
                                assert(w[i + 1].0 != cur.0);
                            }
                        }
                        assert forall|i: int| 1 <= i < w.len() implies preds[(#[trigger] w[i]).0 as int] == Some(w[i - 1]) by {
                            if i > 1 {
                                assert(old_w[i - 2] == w[i - 1]);
                                assert(old_w[i - 1] == w[i]);
                            }
                        }
                    }
                    cur = pred;
                },
                None => {
                    break ;
                },
            }
        }
        proof {
            assert(is_recorded_walk(*fwd_edges, w, path.preds(), src, dst));
            lemma_walk_links_inverse(path.preds(), path.succs(), w, costs, stamps);
        }
        path
    }
}

impl<CF: Fn(&HalfEdge) -> MetricU32, EF> GenericAstar<CF, EF> {
    /// Searches a best path from `src` to `dst`: the node of smallest cost plus estimation is
    /// expanded first, and the search ends when `dst` is taken from the queue. A sum of costs
    /// beyond `u32::MAX` is never smaller than a known cost, so it is not taken.
    ///
    /// A found path is recorded by predecessors that form a walk from `src` to `dst` costing at
    /// most the path's cost. With a cost-function that gives every half-edge one cost, estimations
    /// that never exceed the cost of a walk to `dst` (no estimation at all is Dijkstra's
    /// algorithm) and a container whose edges all have half-edges, a found path costs at most as
    /// much as every walk from `src` to `dst` (so its walk is a cheapest one), and where none is
    /// found, every such walk costs at least `u32::MAX`.
    #[verifier::spinoff_prover]
    #[verifier::rlimit(40)]
    pub fn compute_best_path<Co: Copy>(
        &mut self,
        src: &Node<Co>,
        dst: &Node<Co>,
        nodes: &NodeContainer<Co>,
        fwd_edges: &EdgeContainer,
    ) -> (r: Option<Path<MetricU32>>)
        where
            EF: Fn(&Node<Co>, &Node<Co>) -> MetricU32,
        requires
            nodes.node_coords@.len() == nodes.node_ids@.len(),
            src.idx.0 < nodes.node_ids@.len(),
            dst.idx.0 < nodes.node_ids@.len(),
            fwd_edges.offsets_in_range(),
            forall|e: int|
                0 <= e < fwd_edges.edge_dsts@.len() ==> (#[trigger] fwd_edges.edge_dsts@[e]).0
                    < nodes.node_ids@.len(),
            forall|h: &HalfEdge| #[trigger] old(self).cost_fn().requires((h,)),
            forall|a: &Node<Co>, b: &Node<Co>| #[trigger] old(self).estimate_fn().requires((a, b)),
        ensures
            final(self).cost_fn() == old(self).cost_fn(),
            final(self).estimate_fn() == old(self).estimate_fn(),
            r matches Some(p) ==> p.src() == src.idx && p.dst() == dst.idx && exists|w: Seq<NodeIdx>|
                is_recorded_walk(*fwd_edges, w, p.preds(), src.idx, dst.idx),
            r matches Some(p) ==> !p.preds().contains_key(src.idx.0),
            r matches Some(p) ==> links_inverse(p.preds(), p.succs()) && !p.succs().contains_key(dst.idx.0),
            r matches Some(p) ==> (deterministic_costs(old(self).cost_fn()) && admissible_estimates(*fwd_edges, old(self).cost_fn(), old(self).estimate_fn(), nodes, dst) && edges_complete(*fwd_edges) ==> forall|
                es: Seq<EdgeIdx>,
                cs: Seq<MetricU32>,
            |
                #[trigger] is_costed_walk(*fwd_edges, old(self).cost_fn(), es, cs, src.idx, dst.idx)
                    ==> p.path_cost().0 <= cost_sum(cs)),
            r matches Some(p) ==> exists|es: Seq<EdgeIdx>, cs: Seq<MetricU32>|
                {
                    &&& #[trigger] is_costed_walk(*fwd_edges, old(self).cost_fn(), es, cs, src.idx, dst.idx)
                    &&& cost_sum(cs) <= p.path_cost().0
                    &&& forall|i: int|
                        1 <= i <= es.len() ==> p.preds().contains_key(
                            #[trigger] walk_node(*fwd_edges, src.idx, es, i).0,
                        ) && p.preds()[walk_node(*fwd_edges, src.idx, es, i).0] == walk_node(
                            *fwd_edges,
                            src.idx,
                            es,
                            i - 1,
                        )
                },
            r matches Some(p) ==> (deterministic_costs(old(self).cost_fn()) && admissible_estimates(*fwd_edges, old(self).cost_fn(), old(self).estimate_fn(), nodes, dst) && edges_complete(*fwd_edges) ==> exists|
                es: Seq<EdgeIdx>,
                cs: Seq<MetricU32>,
            |
                #[trigger] is_costed_walk(*fwd_edges, old(self).cost_fn(), es, cs, src.idx, dst.idx)
                    && cost_sum(cs) == p.path_cost().0),
            r is None ==> (deterministic_costs(old(self).cost_fn()) && admissible_estimates(*fwd_edges, old(self).cost_fn(), old(self).estimate_fn(), nodes, dst) && edges_complete(*fwd_edges) ==> forall|es: Seq<EdgeIdx>, cs: Seq<MetricU32>|
                #[trigger] is_costed_walk(*fwd_edges, old(self).cost_fn(), es, cs, src.idx, dst.idx)
                    ==> cost_sum(cs) >= u32::MAX),
    {
        let ghost opt = deterministic_costs(self.cost_fn) && admissible_estimates(*fwd_edges, self.cost_fn, self.estimate_fn, nodes, dst)
            && edges_complete(*fwd_edges);
        let ghost mut settled: Set<usize> = Set::empty();
        let n = nodes.count();
        self.resize(n);
        let src_idx = src.idx();
        let dst_idx = dst.idx();
        self.queue.push(
            CostNode { idx: src_idx, cost: MetricU32(0), estimation: MetricU32(0), pred_idx: None },
        );
        self.costs.set(src_idx.0, MetricU32(0));
        let ghost mut stamps: Seq<nat> = Seq::new(n as nat, |i: int| 0nat);
        let ghost mut pred_edges: Seq<EdgeIdx> = Seq::new(n as nat, |i: int| EdgeIdx(0));
        let ghost mut pred_costs: Seq<MetricU32> = Seq::new(n as nat, |i: int| MetricU32(0));
        let ghost mut t: nat = 1;
        proof {
            lemma_cost_sum_nonneg(self.costs@);
            assert forall|h: &HalfEdge| #[trigger] self.cost_fn().requires((h,)) by {
                assert(old(self).cost_fn().requires((h,)));
            }
            assert forall|a: &Node<Co>, b: &Node<Co>| #[trigger] self.estimate_fn().requires((a, b)) by {
                assert(old(self).estimate_fn().requires((a, b)));
            }
            reveal(settled_ok);
            assert forall|es: Seq<EdgeIdx>, cs: Seq<MetricU32>|
                #[trigger] is_costed_walk(*fwd_edges, self.cost_fn(), es, cs, self.queue@[0].idx, dst_idx) implies self.queue@[0].estimation.0
                <= cost_sum(cs) by {
                lemma_cost_sum_nonneg(cs);
            }
            assert(estimate_below(*fwd_edges, self.cost_fn(), self.queue@[0], dst_idx));
            assert forall|y: usize|
                y < self.costs@.len() && !settled.contains(y) && #[trigger] self.costs@[y as int].0
                    < u32::MAX implies exists|i: int|
                    0 <= i < self.queue@.len() && (#[trigger] self.queue@[i]).idx.0 == y
                        && self.queue@[i].cost.0 <= self.costs@[y as int].0 by {
                assert(y == src_idx.0);
                assert(self.queue@[0].idx.0 == y);
            }
        }
        while self.queue.len() > 0
            invariant
                n == nodes.node_ids@.len(),
                nodes.node_coords@.len() == nodes.node_ids@.len(),
                src_idx == src.idx,
                dst_idx == dst.idx,
                src_idx.0 < n,
                dst_idx.0 < n,
                self.costs@.len() == n,
                fwd_edges.offsets_in_range(),
                forall|e: int|
                    0 <= e < fwd_edges.edge_dsts@.len() ==> (#[trigger] fwd_edges.edge_dsts@[e]).0 < n,
                forall|h: &HalfEdge| #[trigger] self.cost_fn().requires((h,)),
                forall|a: &Node<Co>, b: &Node<Co>| #[trigger] self.estimate_fn().requires((a, b)),
                self.cost_fn() == old(self).cost_fn(),
                self.estimate_fn() == old(self).estimate_fn(),
                search_consistent(*fwd_edges, self.costs@, self.predecessors@, stamps, src_idx),
                preds_costed(*fwd_edges, self.cost_fn(), self.costs@, self.predecessors@, pred_edges, pred_costs),
                forall|i: int| 0 <= i < stamps.len() ==> #[trigger] stamps[i] < t,
                forall|i: int| 0 <= i < self.queue@.len() ==> queued_ok(#[trigger] self.queue@[i], self.costs@, self.predecessors@, src_idx),
                opt == (deterministic_costs(self.cost_fn()) && admissible_estimates(*fwd_edges, self.cost_fn(), self.estimate_fn(), nodes, dst)
                    && edges_complete(*fwd_edges)),
                opt ==> settled_ok(*fwd_edges, self.cost_fn(), self.costs@, settled),
                opt ==> frontier_ok(*fwd_edges, self.cost_fn(), dst_idx, self.costs@, self.queue@, settled),
                !settled.contains(dst_idx.0),
            decreases 2 * cost_sum(self.costs@) + self.queue@.len(),
        {
            let ghost measure = 2 * cost_sum(self.costs@) + self.queue@.len();
            let ghost q = self.queue@;
            let current = match pop_min(&mut self.queue) {
                Some(c) => c,
                None => {
                    proof {
                        assert(false);
                    }
                    return None;
                },
            };
            proof {
                lemma_cost_sum_nonneg(self.costs@);
                let i = choose|i: int| 0 <= i < q.len() && q[i] == current;
                assert(queued_ok(q[i], self.costs@, self.predecessors@, src_idx));
                assert forall|i: int| 0 <= i < self.queue@.len() implies queued_ok(#[trigger] self.queue@[i], self.costs@, self.predecessors@, src_idx) by {
                    assert(self.queue@.contains(self.queue@[i]));
                    assert(q.contains(self.queue@[i]));
                    let j = choose|j: int| 0 <= j < q.len() && q[j] == self.queue@[i];
                    assert(queued_ok(q[j], self.costs@, self.predecessors@, src_idx));
                }
            }

            proof {
                let i = choose|i: int| 0 <= i < q.len() && q[i] == current;
                assert(queued_ok(q[i], self.costs@, self.predecessors@, src_idx));
                if opt {
                    lemma_frontier_after_pop(*fwd_edges, self.cost_fn, dst_idx, self.costs@, q, self.queue@, settled, current);
                }
            }
            // if shortest path found -> create path
            if current.idx.0 == dst_idx.0 {
                let path = self.build_path(src_idx, dst_idx, current.cost, fwd_edges, Ghost(stamps));
                proof {
                    let w = choose|w: Seq<NodeIdx>|
                        {
                            &&& is_recorded_walk(*fwd_edges, w, path.preds(), src_idx, dst_idx)
                            &&& forall|i: int| 0 <= i < w.len() ==> (#[trigger] w[i]).0 < self.costs@.len()
                            &&& forall|i: int|
                                1 <= i < w.len() ==> self.predecessors@[(#[trigger] w[i]).0 as int]
                                    == Some(w[i - 1])
                        };
                    let (es, cs) = lemma_recorded_walk_costed(
                        *fwd_edges,
                        self.cost_fn,
                        self.costs@,
                        self.predecessors@,
                        pred_edges,
                        pred_costs,
                        w,
                        src_idx,
                        dst_idx,
                    );
                    let iq = choose|i: int| 0 <= i < q.len() && q[i] == current;
                    assert(queued_ok(q[iq], self.costs@, self.predecessors@, src_idx));
                    assert forall|i: int| 1 <= i <= es.len() implies path.preds().contains_key(
                        #[trigger] walk_node(*fwd_edges, src_idx, es, i).0,
                    ) && path.preds()[walk_node(*fwd_edges, src_idx, es, i).0] == walk_node(
                        *fwd_edges,
                        src_idx,
                        es,
                        i - 1,
                    ) by {
                        assert(walk_node(*fwd_edges, src_idx, es, i) == w[i]);
                        assert(walk_node(*fwd_edges, src_idx, es, i - 1) == w[i - 1]);
                        assert(has_edge(*fwd_edges, w[i - 1], w[(i - 1) + 1]));
                    }
                    assert(is_costed_walk(*fwd_edges, self.cost_fn, es, cs, src_idx, dst_idx));
                    if opt {
                        lemma_popped_is_cheapest(
                            *fwd_edges,
                            self.cost_fn,
                            self.costs@,
                            q,
                            settled,
                            current,
                            src_idx,
                            dst_idx,
                        );
                        assert(current.cost.0 <= cost_sum(cs));
                    }
                }
                return Some(path);
            }
            // first occurrence has lowest cost -> check if current has already been visited
            if current.cost.0 > self.costs[current.idx.0].0 {
                continue;
            }
            // update costs and add predecessors of nodes, which are dst of current's leaving edges
            let leaving_edges = match fwd_edges.starting_from(current.idx) {
                Some(e) => e,
                None => {
                    proof {
                        if opt {
                            lemma_no_leaving_edges(*fwd_edges, self.cost_fn, self.costs@, current.idx);
                            reveal(settled_ok);
                        }
                        settled = settled.insert(current.idx.0);
                    }
                    continue;
                },
            };
            let ghost l = fwd_edges.leaving_indices(current.idx)->0;
            let u = current.idx;
            proof {
                assert(relaxed_upto(*fwd_edges, self.cost_fn, self.costs@, u.0, 0));
            }
            let mut j: usize = 0;
            while j < leaving_edges.len()
                invariant
                    n == nodes.node_ids@.len(),
                    nodes.node_coords@.len() == nodes.node_ids@.len(),
                    src_idx.0 < n,
                    dst_idx.0 < n,
                    u == current.idx,
                    dst_idx == dst.idx,
                    u.0 < n,
                    u == src_idx || self.predecessors@[u.0 as int] is Some,
                    self.costs@[u.0 as int].0 == current.cost.0,
                    self.costs@.len() == n,
                    fwd_edges.leaving_indices(u) == Some(l),
                    NodeIdx(u.0) == u,
                    u.0 != dst_idx.0,
                    opt == (deterministic_costs(self.cost_fn()) && admissible_estimates(*fwd_edges, self.cost_fn(), self.estimate_fn(), nodes, dst) && edges_complete(*fwd_edges)),
                    opt ==> settled_ok(*fwd_edges, self.cost_fn(), self.costs@, settled),
                    opt ==> relaxed_upto(*fwd_edges, self.cost_fn(), self.costs@, u.0, j as int),
                    opt ==> frontier_ok(*fwd_edges, self.cost_fn(), dst_idx, self.costs@, self.queue@, settled.insert(u.0)),
                    !settled.contains(dst_idx.0),
                    leaving_edges@.len() == l.len(),
                    forall|k: int|
                        0 <= k < l.len() ==> Some(#[trigger] leaving_edges@[k]) == fwd_edges.half_edge_at(l[k].0),
                    fwd_edges.offsets_in_range(),
                    forall|e: int|
                        0 <= e < fwd_edges.edge_dsts@.len() ==> (#[trigger] fwd_edges.edge_dsts@[e]).0 < n,
                    forall|h: &HalfEdge| #[trigger] self.cost_fn().requires((h,)),
                    forall|a: &Node<Co>, b: &Node<Co>| #[trigger] self.estimate_fn().requires((a, b)),
                    self.cost_fn() == old(self).cost_fn(),
                    self.estimate_fn() == old(self).estimate_fn(),
                    search_consistent(*fwd_edges, self.costs@, self.predecessors@, stamps, src_idx),
                    preds_costed(*fwd_edges, self.cost_fn(), self.costs@, self.predecessors@, pred_edges, pred_costs),
                    forall|i: int| 0 <= i < stamps.len() ==> #[trigger] stamps[i] < t,
                    forall|i: int| 0 <= i < self.queue@.len() ==> queued_ok(#[trigger] self.queue@[i], self.costs@, self.predecessors@, src_idx),
                    2 * cost_sum(self.costs@) + self.queue@.len() < measure,
                    j <= leaving_edges@.len(),
                decreases leaving_edges@.len() - j,
            {
                let leaving_edge = leaving_edges[j];
                let v = leaving_edge.dst_idx;
                proof {
                    assert(Some(leaving_edges@[j as int]) == fwd_edges.half_edge_at(l[j as int].0));
                    assert(fwd_edges.edge_dsts@[l[j as int].0 as int] == v);
                }
                let c = (self.cost_fn)(&leaving_edge);
                let old_cost = self.costs[v.0];
                let ghost before_costs = self.costs@;
                let ghost before_queue = self.queue@;
                if (current.cost.0 as u64) + (c.0 as u64) < (old_cost.0 as u64) {
                    let new_cost = MetricU32(current.cost.0 + c.0);
                    let ghost old_costs = self.costs@;
                    let ghost old_preds = self.predecessors@;
                    let ghost old_stamps = stamps;
                    proof {
                        assert(v.0 != src_idx.0);
                        assert(v.0 != u.0);
                        assert(edge_to(*fwd_edges, u, v, j as int));
                    }
                    proof {
                        lemma_preds_costed_after_relax(
                            *fwd_edges,
                            self.cost_fn,
                            old_costs,
                            old_preds,
                            pred_edges,
                            pred_costs,
                            l,
                            j as int,
                            u,
                            c,
                            new_cost,
                        );
                        pred_edges = pred_edges.update(v.0 as int, l[j as int]);
                        pred_costs = pred_costs.update(v.0 as int, c);
                    }
                    self.predecessors.set(v.0, Some(u));
                    self.costs.set(v.0, new_cost);
                    proof {
                        stamps = stamps.update(v.0 as int, t);
                        t = t + 1;
                        lemma_cost_sum_update(old_costs, v.0 as int, new_cost);
                        assert(NodeIdx(v.0 as int as usize) == v);
                        assert forall|x: int|
                            0 <= x < self.predecessors@.len() && (#[trigger] self.predecessors@[x]) is Some implies {
                                let y = self.predecessors@[x]->0;
                                &&& y.0 < self.costs@.len()
                                &&& self.costs@[y.0 as int].0 < self.costs@[x].0 || (self.costs@[y.0 as int].0
                                    == self.costs@[x].0 && stamps[y.0 as int] < stamps[x])
                                &&& has_edge(*fwd_edges, y, NodeIdx(x as usize))
                                &&& (y == src_idx || self.predecessors@[y.0 as int] is Some)
                            } by {
                            if x != v.0 {
                                assert(old_preds[x] is Some);
                                let y = old_preds[x]->0;
                                assert(self.predecessors@[x] == old_preds[x]);
                                if y == v {
                                    assert(old_costs[v.0 as int].0 <= old_costs[x].0);
                                }
                            }
                        }
                        assert(search_consistent(*fwd_edges, self.costs@, self.predecessors@, stamps, src_idx));
                    }
                    let dst_node = nodes.create(v);
                    let estimation = (self.estimate_fn)(&dst_node, dst);
                    let entry = CostNode { idx: v, cost: new_cost, estimation, pred_idx: Some(u) };
                    self.queue.push(entry);
                    proof {
                        if opt {
                            assert(dst_node == node_at(nodes, v.0));
                            assert(NodeIdx(v.0) == v);
                            assert forall|es: Seq<EdgeIdx>, cs: Seq<MetricU32>|
                                #[trigger] is_costed_walk(*fwd_edges, self.cost_fn, es, cs, entry.idx, dst_idx) implies entry.estimation.0
                                <= cost_sum(cs) by {
                                assert(self.estimate_fn.ensures((&node_at(nodes, v.0), dst), estimation));
                                assert(is_costed_walk(*fwd_edges, self.cost_fn, es, cs, NodeIdx(v.0), dst.idx));
                            }
                            lemma_frontier_after_push(*fwd_edges, self.cost_fn, dst_idx, before_costs, before_queue, settled, u.0, entry);
                            lemma_relax_improved(
                                *fwd_edges, self.cost_fn, before_costs, self.costs@, settled, l, u.0, j as int, c,
                            );
                        }
                        settled = settled.remove(v.0);
                        assert forall|i: int| 0 <= i < self.queue@.len() implies queued_ok(#[trigger] self.queue@[i], self.costs@, self.predecessors@, src_idx) by {
                            if i < self.queue@.len() - 1 {
                                let x = self.queue@[i];
                                assert(queued_ok(x, old_costs, old_preds, src_idx));
                            }
                        }
                    }
                }
                else {
                    proof {
                        if opt {
                            lemma_relax_kept(*fwd_edges, self.cost_fn, self.costs@, l, u.0, j as int, c);
                        }
                    }
                }
                j = j + 1;
            }
            proof {
                lemma_cost_sum_nonneg(self.costs@);
                if opt {
                    lemma_settle(*fwd_edges, self.cost_fn, self.costs@, settled, l, u.0);
                }
                settled = settled.insert(u.0);
            }
        }
        proof {
            if opt {
                lemma_no_walk_left(
                    *fwd_edges,
                    self.cost_fn,
                    self.costs@,
                    self.queue@,
                    settled,
                    src_idx,
                    dst_idx,
                );
            }
        }
        None
    }
}

} // verus!
