pub mod id;
pub mod idx;

use crate::helpers::sorting::{
    lemma_map_same_elements, lemma_sort_by_le_multiset, lemma_sort_by_le_sorted, merge_sort, sort_by_le,
};
use crate::network::geo::Coordinate;
use std::collections::BTreeMap;
use vstd::prelude::*;
use vstd::relations::sorted_by;
use vstd::std_specs::cmp::OrdSpec;
use vstd::std_specs::iter::IteratorSpec;

verus! {

broadcast use {
    vstd::std_specs::btree::group_btree_axioms,
    vstd::laws_cmp::group_laws_cmp,
    vstd::seq_lib::group_to_multiset_ensures,
};

//------------------------------------------------------------------------------------------------//
// graphbuilder

/// A node as collected while building: its coordinate may still be unknown, and it may not belong
/// to any edge.
#[derive(Copy, Clone, Debug)]
pub struct ProtoNode {
    pub id: i64,
    pub coord: Option<Coordinate>,
    pub is_edge_node: bool,
}

/// An edge as collected while building, referring to its nodes by their ids.
#[derive(Copy, Clone, Debug)]
pub struct ProtoEdge {
    pub way_id: Option<i64>,
    pub src_id: i64,
    pub dst_id: i64,
    pub meters: Option<u32>,
    pub maxspeed: u16,
}

/// The map of proto-nodes after the node `id` has been marked as part of an edge
/// (and added without coordinate, if it was unknown).
pub open spec fn mark_edge_node(m: Map<i64, ProtoNode>, id: i64) -> Map<i64, ProtoNode> {
    m.insert(
        id,
        if m.contains_key(id) {
            ProtoNode { is_edge_node: true, ..m[id] }
        } else {
            ProtoNode { id, coord: None, is_edge_node: true }
        },
    )
}

/// The map of proto-nodes after the coordinate of node `id` has been set
/// (and the node added, if it was unknown).
pub open spec fn set_coord(m: Map<i64, ProtoNode>, id: i64, coord: Coordinate) -> Map<
    i64,
    ProtoNode,
> {
    m.insert(
        id,
        if m.contains_key(id) {
            ProtoNode { coord: Some(coord), ..m[id] }
        } else {
            ProtoNode { id, coord: Some(coord), is_edge_node: false }
        },
    )
}

/// A call on the builder: pushing a node with its coordinate, or pushing an edge.
pub enum BuildStep {
    Node { id: i64, coord: Coordinate },
    Edge { edge: ProtoEdge },
}

/// The proto-nodes after the steps, starting from `m`: a node sets the coordinate, an edge marks
/// its source and then its destination.
pub open spec fn apply_steps(m: Map<i64, ProtoNode>, steps: Seq<BuildStep>) -> Map<i64, ProtoNode>
    decreases steps.len(),
{
    if steps.len() == 0 {
        m
    } else {
        let before = apply_steps(m, steps.drop_last());
        match steps.last() {
            BuildStep::Node { id, coord } => set_coord(before, id, coord),
            BuildStep::Edge { edge } => mark_edge_node(mark_edge_node(before, edge.src_id), edge.dst_id),
        }
    }
}

/// The coordinate of the last step that pushed the node `id`, if any did.
pub open spec fn last_coord(steps: Seq<BuildStep>, id: i64) -> Option<Coordinate>
    decreases steps.len(),
{
    if steps.len() == 0 {
        None
    } else {
        match steps.last() {
            BuildStep::Node { id: i, coord } => if i == id {
                Some(coord)
            } else {
                last_coord(steps.drop_last(), id)
            },
            _ => last_coord(steps.drop_last(), id),
        }
    }
}

/// Some step pushed an edge from or to the node `id`.
pub open spec fn pushed_endpoint(steps: Seq<BuildStep>, id: i64) -> bool {
    exists|k: int|
        0 <= k < steps.len() && (#[trigger] steps[k] matches BuildStep::Edge { edge } && (edge.src_id
            == id || edge.dst_id == id))
}

/// After any pushes on a new builder, a node is known with the coordinate of its last push, and
/// it belongs to an edge exactly if some pushed edge starts or ends at it.
pub proof fn lemma_build_steps(steps: Seq<BuildStep>, id: i64)
    ensures
        ({
            let m = apply_steps(Map::empty(), steps);
            &&& m.contains_key(id) <==> (last_coord(steps, id) is Some || pushed_endpoint(steps, id))
            &&& m.contains_key(id) ==> m[id].id == id && m[id].coord == last_coord(steps, id)
            &&& (m.contains_key(id) && m[id].is_edge_node) <==> pushed_endpoint(steps, id)
        }),
    decreases steps.len(),
{
    if steps.len() > 0 {
        let d = steps.drop_last();
        lemma_build_steps(d, id);
        assert forall|k: int| 0 <= k < d.len() implies d[k] == #[trigger] steps[k] by {}
        if pushed_endpoint(d, id) {
            let k = choose|k: int|
                0 <= k < d.len() && (#[trigger] d[k] matches BuildStep::Edge { edge } && (edge.src_id == id
                    || edge.dst_id == id));
            assert(steps[k] == d[k]);
        }
        if pushed_endpoint(steps, id) && !pushed_endpoint(d, id) {
            let k = choose|k: int|
                0 <= k < steps.len() && (#[trigger] steps[k] matches BuildStep::Edge { edge } && (edge.src_id
                    == id || edge.dst_id == id));
            if k < d.len() {
                assert(d[k] == steps[k]);
            }
        }
        if steps.last() matches BuildStep::Edge { edge } && (edge.src_id == id || edge.dst_id == id) {
            assert(steps[steps.len() - 1] == steps.last());
        }
    }
}

/// After any pushes on a new builder, the finalized graph's nodes are exactly the nodes that a
/// pushed edge starts or ends at and that were pushed with a coordinate, each with the coordinate
/// of its last push.
pub proof fn lemma_finalized_nodes(nodes: Seq<Node>, steps: Seq<BuildStep>)
    requires
        nodes_from_protos(nodes, apply_steps(Map::empty(), steps)),
    ensures
        forall|id: i64|
            (exists|i: int| 0 <= i < nodes.len() && #[trigger] nodes[i].id == id) <==> (pushed_endpoint(
                steps,
                id,
            ) && last_coord(steps, id) is Some),
        forall|i: int| 0 <= i < nodes.len() ==> last_coord(steps, #[trigger] nodes[i].id) == Some(nodes[i].coord),
{
    let m = apply_steps(Map::empty(), steps);
    assert forall|id: i64|
        (exists|i: int| 0 <= i < nodes.len() && #[trigger] nodes[i].id == id) <==> (pushed_endpoint(
            steps,
            id,
        ) && last_coord(steps, id) is Some) by {
        lemma_build_steps(steps, id);
        if exists|i: int| 0 <= i < nodes.len() && #[trigger] nodes[i].id == id {
            let i = choose|i: int| 0 <= i < nodes.len() && #[trigger] nodes[i].id == id;
            assert(is_graph_node(m, nodes[i].id));
        }
        if pushed_endpoint(steps, id) && last_coord(steps, id) is Some {
            assert(is_graph_node(m, id));
        }
    }
    assert forall|i: int| 0 <= i < nodes.len() implies last_coord(steps, #[trigger] nodes[i].id) == Some(
        nodes[i].coord,
    ) by {
        lemma_build_steps(steps, nodes[i].id);
    }
}

/// Some of the edges starts or ends at the node `id`.
pub open spec fn edge_endpoint(edges: Seq<ProtoEdge>, id: i64) -> bool {
    exists|k: int| 0 <= k < edges.len() && ((#[trigger] edges[k]).src_id == id || edges[k].dst_id == id)
}

/// Some of the edges starts or ends at a node that does not become a node of the graph.
pub open spec fn has_missing_node(m: Map<i64, ProtoNode>, edges: Seq<ProtoEdge>) -> bool {
    exists|k: int|
        0 <= k < edges.len() && !(is_graph_node(m, (#[trigger] edges[k]).src_id) && is_graph_node(
            m,
            edges[k].dst_id,
        ))
}

/// Sorting keeps the edges.
pub proof fn lemma_sorted_edges_kept(edges: Seq<ProtoEdge>)
    ensures
        sorted_edges(edges).len() == edges.len(),
        forall|p: ProtoEdge| sorted_edges(edges).contains(p) <==> edges.contains(p),
{
    broadcast use vstd::seq_lib::group_to_multiset_ensures;

    let sle = |a: ProtoEdge, b: ProtoEdge| edge_le(a, b);
    lemma_sort_by_le_multiset(edges, sle);
    assert(sorted_edges(edges) == sort_by_le(edges, sle));
    assert forall|p: ProtoEdge| sorted_edges(edges).contains(p) <==> edges.contains(p) by {
        assert(sorted_edges(edges).to_multiset().count(p) == edges.to_multiset().count(p));
    }
}

/// The ids of the nodes an edge of the graph connects, and its speed-limit.
pub open spec fn edge_ends(nodes: Seq<Node>, e: Edge) -> (i64, i64, u16) {
    (nodes[e.src_idx as int].id, nodes[e.dst_idx as int].id, e.maxspeed)
}

/// The ids of the nodes a pushed edge connects, and its speed-limit.
pub open spec fn proto_ends(p: ProtoEdge) -> (i64, i64, u16) {
    (p.src_id, p.dst_id, p.maxspeed)
}

/// The graph keeps one edge per pushed edge: counted with multiplicity, its edges connect the same
/// nodes at the same speed-limits as the pushed ones.
pub proof fn lemma_finalized_edges<F: Fn(Coordinate, Coordinate) -> u32>(
    graph_edges: Seq<Edge>,
    nodes: Seq<Node>,
    edges: Seq<ProtoEdge>,
    dist: F,
)
    requires
        graph_edges.len() == edges.len(),
        forall|k: int|
            0 <= k < graph_edges.len() ==> edge_from_proto(
                #[trigger] graph_edges[k],
                sorted_edges(edges)[k],
                k,
                nodes,
                dist,
            ),
    ensures
        graph_edges.map_values(|e: Edge| edge_ends(nodes, e)).to_multiset() == edges.map_values(
            |p: ProtoEdge| proto_ends(p),
        ).to_multiset(),
{
    let sle = |a: ProtoEdge, b: ProtoEdge| edge_le(a, b);
    lemma_sort_by_le_multiset(edges, sle);
    let sorted = sorted_edges(edges);
    assert(sorted == sort_by_le(edges, sle));
    let pf = |p: ProtoEdge| proto_ends(p);
    assert(graph_edges.map_values(|e: Edge| edge_ends(nodes, e)) =~= sorted.map_values(pf)) by {
        assert forall|k: int| 0 <= k < graph_edges.len() implies edge_ends(nodes, #[trigger] graph_edges[k])
            == pf(sorted[k]) by {
            assert(edge_from_proto(graph_edges[k], sorted[k], k, nodes, dist));
        }
    }
    lemma_map_same_elements(sorted, edges, pf);
}

/// Proto-edges are ordered by src-id first, then by dst-id.
pub open spec fn edge_le(a: ProtoEdge, b: ProtoEdge) -> bool {
    a.src_id < b.src_id || (a.src_id == b.src_id && a.dst_id <= b.dst_id)
}

/// The proto-edges, stably sorted by (src-id, dst-id).
pub open spec fn sorted_edges(s: Seq<ProtoEdge>) -> Seq<ProtoEdge> {
    sort_by_le(s, |a: ProtoEdge, b: ProtoEdge| edge_le(a, b))
}

/// A proto-node becomes a node of the graph iff it belongs to an edge and has a coordinate.
pub open spec fn is_graph_node(m: Map<i64, ProtoNode>, id: i64) -> bool {
    m.contains_key(id) && m[id].is_edge_node && m[id].coord is Some
}

/// Every node belonging to an edge has a coordinate.
pub open spec fn edge_nodes_located(m: Map<i64, ProtoNode>) -> bool {
    forall|id: i64| m.contains_key(id) && #[trigger] m[id].is_edge_node ==> m[id].coord is Some
}

/// The nodes of a graph are exactly the graph-nodes of `m`, sorted by id.
pub open spec fn nodes_from_protos(nodes: Seq<Node>, m: Map<i64, ProtoNode>) -> bool {
    &&& forall|i: int, j: int| 0 <= i < j < nodes.len() ==> nodes[i].id < nodes[j].id
    &&& forall|i: int|
        0 <= i < nodes.len() ==> is_graph_node(m, #[trigger] nodes[i].id) && m[nodes[i].id].coord
            == Some(nodes[i].coord)
    &&& forall|id: i64| is_graph_node(m, id) ==> exists|i: int| 0 <= i < nodes.len() && #[trigger] nodes[i].id == id
}

/// The ids of the nodes that belong to the graph.
pub open spec fn graph_node_ids(m: Map<i64, ProtoNode>) -> Set<i64> {
    Set::new(|id: i64| is_graph_node(m, id))
}

/// The graph has one node per id of a graph-node.
proof fn lemma_node_count(nodes: Seq<Node>, m: Map<i64, ProtoNode>)
    requires
        nodes_from_protos(nodes, m),
    ensures
        nodes.len() == graph_node_ids(m).len(),
        graph_node_ids(m).finite(),
{
    let ids = nodes.map_values(|n: Node| n.id);
    assert(ids.no_duplicates()) by {
        assert forall|i: int, j: int| 0 <= i < ids.len() && 0 <= j < ids.len() && i != j implies ids[i] != ids[j] by {
            if i < j {
                assert(nodes[i].id < nodes[j].id);
            } else {
                assert(nodes[j].id < nodes[i].id);
            }
        }
    }
    assert(ids.to_set() =~= graph_node_ids(m)) by {
        assert forall|id: i64| ids.to_set().contains(id) implies is_graph_node(m, id) by {
            let i = choose|i: int| 0 <= i < ids.len() && ids[i] == id;
            assert(is_graph_node(m, nodes[i].id));
        }
        assert forall|id: i64| is_graph_node(m, id) implies ids.to_set().contains(id) by {
            let i = choose|i: int| 0 <= i < nodes.len() && #[trigger] nodes[i].id == id;
            assert(ids[i] == id);
        }
    }
    ids.unique_seq_to_set();
    vstd::seq_lib::seq_to_set_is_finite(ids);
}

/// The graph-edge `e` at position `k` results from the sorted proto-edge `p`.
pub open spec fn edge_from_proto<F: Fn(Coordinate, Coordinate) -> u32>(
    e: Edge,
    p: ProtoEdge,
    k: int,
    nodes: Seq<Node>,
    dist: F,
) -> bool {
    &&& e.id == match p.way_id {
        Some(w) => w,
        None => k as i64,
    }
    &&& e.src_idx < nodes.len()
    &&& e.dst_idx < nodes.len()
    &&& nodes[e.src_idx as int].id == p.src_id
    &&& nodes[e.dst_idx as int].id == p.dst_id
    &&& e.maxspeed == p.maxspeed
    &&& match p.meters {
        Some(m) => e.meters == m,
        None => dist.ensures((nodes[e.src_idx as int].coord, nodes[e.dst_idx as int].coord), e.meters),
    }
}

/// Finalizing stops at the `k`-th sorted proto-edge: all edges before have both nodes in the
/// graph, and its src (`is_src`) or else its dst, named by `id`, is missing.
pub open spec fn error_at(
    m: Map<i64, ProtoNode>,
    sorted: Seq<ProtoEdge>,
    k: int,
    is_src: bool,
    id: i64,
    way_id: Option<i64>,
) -> bool {
    &&& way_id == sorted[k].way_id
    &&& forall|j: int|
        0 <= j < k ==> is_graph_node(m, #[trigger] sorted[j].src_id) && is_graph_node(
            m,
            sorted[j].dst_id,
        )
    &&& if is_src {
        id == sorted[k].src_id && !is_graph_node(m, sorted[k].src_id)
    } else {
        id == sorted[k].dst_id && is_graph_node(m, sorted[k].src_id) && !is_graph_node(
            m,
            sorted[k].dst_id,
        )
    }
}

/// Building fails with `e` at some sorted proto-edge.
pub open spec fn build_error(
    m: Map<i64, ProtoNode>,
    edges: Seq<ProtoEdge>,
    e: (bool, i64, Option<i64>),
) -> bool {
    exists|k: int| 0 <= k < edges.len() && #[trigger] error_at(m, sorted_edges(edges), k, e.0, e.1, e.2)
}

/// Collects proto-nodes and proto-edges and creates the offset-graph.
pub struct GraphBuilder {
    proto_nodes: BTreeMap<i64, ProtoNode>,
    proto_edges: Vec<ProtoEdge>,
}

impl GraphBuilder {
    /// The proto-nodes, keyed by their id.
    pub closed spec fn node_map(&self) -> Map<i64, ProtoNode> {
        self.proto_nodes@
    }

    /// The proto-edges in the order they were pushed.
    pub closed spec fn edge_seq(&self) -> Seq<ProtoEdge> {
        self.proto_edges@
    }

    pub closed spec fn wf(&self) -> bool {
        &&& forall|id: i64| #[trigger]
            self.proto_nodes@.contains_key(id) ==> self.proto_nodes@[id].id == id
        &&& forall|k: int|
            0 <= k < self.proto_edges@.len() ==> {
                let e = #[trigger] self.proto_edges@[k];
                &&& self.proto_nodes@.contains_key(e.src_id)
                &&& self.proto_nodes@[e.src_id].is_edge_node
                &&& self.proto_nodes@.contains_key(e.dst_id)
                &&& self.proto_nodes@[e.dst_id].is_edge_node
            }
        &&& forall|id: i64|
            #![trigger self.proto_nodes@[id]]
            self.proto_nodes@.contains_key(id) && self.proto_nodes@[id].is_edge_node ==> edge_endpoint(
                self.proto_edges@,
                id,
            )
    }

    pub fn new() -> (b: GraphBuilder)
        ensures
            b.wf(),
            b.node_map() == Map::<i64, ProtoNode>::empty(),
            b.edge_seq() == Seq::<ProtoEdge>::empty(),
    {
        GraphBuilder { proto_nodes: BTreeMap::new(), proto_edges: Vec::new() }
    }

    /// Adds the node, or updates its coordinate if it has been added already.
    pub fn push_node(&mut self, id: i64, coord: Coordinate) -> (r: &mut Self)
        requires
            old(self).wf(),
        ensures
            r.wf(),
            r.node_map() == set_coord(old(self).node_map(), id, coord),
            r.edge_seq() == old(self).edge_seq(),
            *final(self) == *final(r),
    {
        match self.proto_nodes.get(&id) {
            Some(pn) => {
                let new_pn = ProtoNode { coord: Some(coord), ..*pn };
                self.proto_nodes.insert(id, new_pn);
            },
            None => {
                self.proto_nodes.insert(id, ProtoNode { id, coord: Some(coord), is_edge_node: false });
            },
        }
        self
    }

    /// Whether the node of the given id belongs to an edge: whether a pushed edge starts or ends
    /// at it.
    pub fn is_node_in_edge(&self, id: i64) -> (r: bool)
        ensures
            r == (self.node_map().contains_key(id) && self.node_map()[id].is_edge_node),
            self.wf() ==> (r <==> edge_endpoint(self.edge_seq(), id)),
    {
        proof {
            if self.wf() && edge_endpoint(self.edge_seq(), id) {
                let k = choose|k: int|
                    0 <= k < self.proto_edges@.len() && ((#[trigger] self.proto_edges@[k]).src_id == id
                        || self.proto_edges@[k].dst_id == id);
                let e = self.proto_edges@[k];
                assert(self.proto_nodes@.contains_key(e.src_id) && self.proto_nodes@.contains_key(e.dst_id));
            }
            if self.wf() && self.proto_nodes@.contains_key(id) {
                assert(self.proto_nodes@[id].is_edge_node ==> edge_endpoint(self.proto_edges@, id));
            }
        }
        match self.proto_nodes.get(&id) {
            Some(pn) => pn.is_edge_node,
            None => false,
        }
    }

    fn mark_as_edge_node(&mut self, id: i64)
        ensures
            final(self).proto_nodes@ == mark_edge_node(old(self).proto_nodes@, id),
            final(self).proto_edges@ == old(self).proto_edges@,
    {
        match self.proto_nodes.get(&id) {
            Some(pn) => {
                let new_pn = ProtoNode { is_edge_node: true, ..*pn };
                self.proto_nodes.insert(id, new_pn);
            },
            None => {
                self.proto_nodes.insert(id, ProtoNode { id, coord: None, is_edge_node: true });
            },
        }
    }

    /// Adds an edge and marks its nodes as belonging to an edge.
    pub fn push_edge(
        &mut self,
        way_id: Option<i64>,
        src_id: i64,
        dst_id: i64,
        meters: Option<u32>,
        maxspeed: u16,
    ) -> (r: &mut Self)
        requires
            old(self).wf(),
        ensures
            r.wf(),
            r.edge_seq() == old(self).edge_seq().push(
                ProtoEdge { way_id, src_id, dst_id, meters, maxspeed },
            ),
            r.node_map() == mark_edge_node(mark_edge_node(old(self).node_map(), src_id), dst_id),
            *final(self) == *final(r),
    {
        let ghost old_edges = self.proto_edges@;
        self.mark_as_edge_node(src_id);
        self.mark_as_edge_node(dst_id);
        self.proto_edges.push(ProtoEdge { way_id, src_id, dst_id, meters, maxspeed });
        proof {
            let n = old_edges.len() as int;
            assert(self.proto_edges@[n].src_id == src_id && self.proto_edges@[n].dst_id == dst_id);
            assert forall|id: i64|
                #![trigger self.proto_nodes@[id]]
                self.proto_nodes@.contains_key(id) && self.proto_nodes@[id].is_edge_node implies edge_endpoint(
                    self.proto_edges@,
                    id,
                ) by {
                if id != src_id && id != dst_id {
                    assert(old(self).proto_nodes@[id] == self.proto_nodes@[id]);
                    let k = choose|k: int|
                        0 <= k < old_edges.len() && ((#[trigger] old_edges[k]).src_id == id || old_edges[k].dst_id
                            == id);
                    assert(self.proto_edges@[k] == old_edges[k]);
                }
            }
        }
        self
    }

    /// Creates the graph, computing the length of edges without one from their nodes'
    /// coordinates with `dist`.
    ///
    /// Every node belonging to an edge has to have a coordinate.
    pub fn finalize<F: Fn(Coordinate, Coordinate) -> u32>(self, dist: &F) -> (graph: Graph)
        requires
            self.wf(),
            edge_nodes_located(self.node_map()),
            forall|a: Coordinate, b: Coordinate| #[trigger] dist.requires((a, b)),
        ensures
            graph.wf(),
            nodes_from_protos(graph.view_nodes(), self.node_map()),
            graph_node_ids(self.node_map()).finite(),
            graph.view_nodes().len() == graph_node_ids(self.node_map()).len(),
            forall|id: i64|
                (exists|i: int| 0 <= i < graph.view_nodes().len() && #[trigger] graph.view_nodes()[i].id == id)
                    <==> edge_endpoint(self.edge_seq(), id),
            graph.view_edges().len() == self.edge_seq().len(),
            forall|k: int|
                0 <= k < graph.view_edges().len() ==> edge_from_proto(
                    #[trigger] graph.view_edges()[k],
                    sorted_edges(self.edge_seq())[k],
                    k,
                    graph.view_nodes(),
                    *dist,
                ),
            graph.view_offsets().len() == if graph.view_edges().len() == 0 {
                2
            } else {
                graph.view_edges().last().src_idx + 2
            },
    {
        match self.build(dist) {
            Ok(graph) => {
                proof {
                    lemma_node_count(graph.view_nodes(), self.node_map());
                    let nodes = graph.view_nodes();
                    let m = self.proto_nodes@;
                    assert forall|id: i64|
                        (exists|i: int| 0 <= i < nodes.len() && #[trigger] nodes[i].id == id) <==> edge_endpoint(
                            self.proto_edges@,
                            id,
                        ) by {
                        if exists|i: int| 0 <= i < nodes.len() && #[trigger] nodes[i].id == id {
                            let i = choose|i: int| 0 <= i < nodes.len() && #[trigger] nodes[i].id == id;
                            assert(is_graph_node(m, nodes[i].id));
                            assert(m[id].is_edge_node);
                        }
                        if edge_endpoint(self.proto_edges@, id) {
                            let k = choose|k: int|
                                0 <= k < self.proto_edges@.len() && ((#[trigger] self.proto_edges@[k]).src_id == id
                                    || self.proto_edges@[k].dst_id == id);
                            let e = self.proto_edges@[k];
                            assert(m.contains_key(e.src_id) && m[e.src_id].is_edge_node);
                            assert(m.contains_key(e.dst_id) && m[e.dst_id].is_edge_node);
                            assert(is_graph_node(m, id));
                        }
                    }
                }
                graph
            },
            Err(_) => {
                assert(false);
                Graph::new()
            }
        }
    }

    /// Creates the graph, or names the first (sorted) edge whose src (`true`) or dst (`false`)
    /// is no node of the graph.
    #[verifier::spinoff_prover]
    #[verifier::rlimit(40)]
    pub fn build<F: Fn(Coordinate, Coordinate) -> u32>(self, dist: &F) -> (r: Result<
        Graph,
        (bool, i64, Option<i64>),
    >)
        requires
            self.wf(),
            forall|a: Coordinate, b: Coordinate| #[trigger] dist.requires((a, b)),
        ensures
            edge_nodes_located(self.node_map()) ==> r is Ok,
            r matches Ok(graph) ==> {
                    &&& graph.wf()
                    &&& nodes_from_protos(graph.view_nodes(), self.node_map())
                    &&& graph.view_edges().len() == self.edge_seq().len()
                    &&& forall|k: int|
                        0 <= k < graph.view_edges().len() ==> edge_from_proto(
                            #[trigger] graph.view_edges()[k],
                            sorted_edges(self.edge_seq())[k],
                            k,
                            graph.view_nodes(),
                            *dist,
                        )
                    &&& graph.view_offsets().len() == if graph.view_edges().len() == 0 {
                        2
                    } else {
                        graph.view_edges().last().src_idx + 2
                    }
                },
            r matches Err(e) ==> build_error(self.node_map(), self.edge_seq(), e),
    {
        let ghost m = self.proto_nodes@;
        let mut graph = Graph::new();

        //----------------------------------------------------------------------------------------//
        // add nodes to graph which belong to edges (sorted by asc id)
        graph.nodes = collect_nodes(&self.proto_nodes);

        //----------------------------------------------------------------------------------------//
        // sort edges by ascending src-id, then by ascending dst-id (stable)
        let le_edges = |a: ProtoEdge, b: ProtoEdge| -> (r: bool)
            ensures
                r == edge_le(a, b),
            { a.src_id < b.src_id || (a.src_id == b.src_id && a.dst_id <= b.dst_id) };
        let ghost sle = |a: ProtoEdge, b: ProtoEdge| edge_le(a, b);
        let proto_edges = merge_sort(&self.proto_edges, &le_edges, Ghost(sle));
        let ghost sorted = proto_edges@;
        proof {
            lemma_edge_le_order();
            lemma_sort_by_le_sorted(self.proto_edges@, sle);
            lemma_sort_by_le_multiset(self.proto_edges@, sle);
            assert(sorted == sorted_edges(self.proto_edges@));
            assert forall|k: int| 0 <= k < sorted.len() implies {
                let e = #[trigger] sorted[k];
                &&& m.contains_key(e.src_id)
                &&& m[e.src_id].is_edge_node
                &&& m.contains_key(e.dst_id)
                &&& m[e.dst_id].is_edge_node
            } by {
                let e = sorted[k];
                assert(sorted.contains(e));
                assert(sorted.to_multiset().count(e) > 0);
                assert(self.proto_edges@.contains(e));
                let j = choose|j: int| 0 <= j < self.proto_edges@.len() && self.proto_edges@[j] == e;
                assert(self.proto_edges@[j] == e);
            }
        }

        //----------------------------------------------------------------------------------------//
        // build offset-array and edges
        let edge_count = proto_edges.len();
        let mut node_idx: usize = 0;
        let mut offset: usize = 0;
        graph.offsets.push(offset);
        let mut edge_idx: usize = 0;
        while edge_idx < edge_count
            invariant
                edge_count == proto_edges@.len(),
                m == self.node_map(),
                sorted.len() == self.edge_seq().len(),
                proto_edges@ == sorted,
                sorted == sorted_edges(self.proto_edges@),
                sorted_by(sorted, sle),
                sle == (|a: ProtoEdge, b: ProtoEdge| edge_le(a, b)),
                forall|k: int|
                    0 <= k < sorted.len() ==> {
                        let e = #[trigger] sorted[k];
                        &&& m.contains_key(e.src_id)
                        &&& m[e.src_id].is_edge_node
                        &&& m.contains_key(e.dst_id)
                        &&& m[e.dst_id].is_edge_node
                    },
                forall|a: Coordinate, b: Coordinate| #[trigger] dist.requires((a, b)),
                nodes_from_protos(graph.nodes@, m),
                edge_idx <= edge_count,
                offset == edge_idx,
                graph.edges@.len() == edge_idx,
                forall|k: int|
                    0 <= k < edge_idx ==> edge_from_proto(
                        #[trigger] graph.edges@[k],
                        sorted[k],
                        k,
                        graph.nodes@,
                        *dist,
                    ),
                forall|k: int|
                    0 <= k < edge_idx ==> is_graph_node(m, #[trigger] sorted[k].src_id)
                        && is_graph_node(m, sorted[k].dst_id),
                node_idx == if edge_idx == 0 {
                    0
                } else {
                    graph.edges@[edge_idx - 1].src_idx
                },
                graph.offsets@.len() == node_idx + 1,
                offsets_match(graph.offsets@, graph.edges@),
                edges_sorted(graph.edges@),
            decreases edge_count - edge_idx,
        {
            let proto_edge = proto_edges[edge_idx];
            proof {
                let k = edge_idx as int;
                assert(self.node_map() == m);
                assert(sorted_edges(self.edge_seq()) == sorted);
                assert(m[sorted[k].src_id].is_edge_node);
                assert(m[sorted[k].dst_id].is_edge_node);
                assert forall|j: int| 0 <= j < k implies is_graph_node(
                    self.node_map(),
                    #[trigger] sorted_edges(self.edge_seq())[j].src_id,
                ) && is_graph_node(self.node_map(), sorted_edges(self.edge_seq())[j].dst_id) by {
                    assert(is_graph_node(m, sorted[j].src_id));
                }
            }
            // set way-id to index
            let edge_way_id = match proto_edge.way_id {
                Some(id) => id,
                None => #[verifier::truncate] (edge_idx as i64),
            };

            // find source-index in sorted vec of nodes
            let src_idx = match graph.node_idx_from(proto_edge.src_id) {
                Ok(idx) => idx,
                Err(_) => {
                    proof {
                        lemma_not_graph_node(graph.nodes@, m, proto_edge.src_id);
                        let k = edge_idx as int;
                        assert(sorted[k].src_id == proto_edge.src_id);
                        assert(m[proto_edge.src_id].is_edge_node);
                        assert(!edge_nodes_located(m));
                        let p = sorted_edges(self.edge_seq())[k];
                        assert(p == sorted[k]);
                        assert(!is_graph_node(self.node_map(), p.src_id));
                        assert(error_at(self.node_map(), sorted_edges(self.edge_seq()), k, true, proto_edge.src_id, proto_edge.way_id));
                        lemma_build_error(self.node_map(), self.edge_seq(), k, (true, proto_edge.src_id, proto_edge.way_id));
                    }
                    return Err((true, proto_edge.src_id, proto_edge.way_id));
                },
            };

            // find destination-index in sorted vec of nodes
            let dst_idx = match graph.node_idx_from(proto_edge.dst_id) {
                Ok(idx) => idx,
                Err(_) => {
                    proof {
                        lemma_not_graph_node(graph.nodes@, m, proto_edge.dst_id);
                        assert(graph.nodes@[src_idx as int].id == proto_edge.src_id);
                        let k = edge_idx as int;
                        assert(sorted[k].dst_id == proto_edge.dst_id);
                        assert(m[proto_edge.dst_id].is_edge_node);
                        assert(!edge_nodes_located(m));
                        let p = sorted_edges(self.edge_seq())[k];
                        assert(p == sorted[k]);
                        assert(is_graph_node(self.node_map(), p.src_id));
                        assert(!is_graph_node(self.node_map(), p.dst_id));
                        assert(error_at(self.node_map(), sorted_edges(self.edge_seq()), k, false, proto_edge.dst_id, proto_edge.way_id));
                        lemma_build_error(self.node_map(), self.edge_seq(), k, (false, proto_edge.dst_id, proto_edge.way_id));
                    }
                    return Err((false, proto_edge.dst_id, proto_edge.way_id));
                },
            };

            // calculate distance if not provided
            let meters = match proto_edge.meters {
                Some(meters) => meters,
                None => {
                    let src_coord = graph.nodes[src_idx].coord;
                    let dst_coord = graph.nodes[dst_idx].coord;
                    dist(src_coord, dst_coord)
                },
            };

            // add new edge to graph
            let edge = Edge {
                id: edge_way_id,
                src_idx,
                dst_idx,
                meters,
                maxspeed: proto_edge.maxspeed,
            };

            proof {
                if edge_idx > 0 {
                    let prev = graph.edges@[edge_idx - 1];
                    assert(sle(sorted[edge_idx - 1], sorted[edge_idx as int]));
                    lemma_idx_order(graph.nodes@, prev.src_idx as int, src_idx as int);
                    lemma_idx_order(graph.nodes@, prev.dst_idx as int, dst_idx as int);
                    assert forall|k: int| 0 <= k < edge_idx implies edge_idx_le(
                        #[trigger] graph.edges@[k],
                        edge,
                    ) by {
                        let ek = graph.edges@[k];
                        assert(sle(sorted[k], sorted[edge_idx as int]));
                        lemma_idx_order(graph.nodes@, ek.src_idx as int, src_idx as int);
                        lemma_idx_order(graph.nodes@, ek.dst_idx as int, dst_idx as int);
                    }
                }
            }

            // if coming edges have new src
            // then update offset of new src
            let ghost nodes_before = graph.nodes@;
            let ghost edges_before = graph.edges@;
            while node_idx != src_idx
                invariant
                    graph.nodes@ == nodes_before,
                    graph.edges@ == edges_before,
                    node_idx <= src_idx,
                    offset == edge_idx,
                    graph.offsets@.len() == node_idx + 1,
                    graph.edges@.len() == edge_idx,
                    offsets_match(graph.offsets@, graph.edges@),
                    forall|k: int| 0 <= k < edge_idx ==> #[trigger] graph.edges@[k].src_idx < node_idx
                        || node_idx == (if edge_idx == 0 {
                        0
                    } else {
                        graph.edges@[edge_idx - 1].src_idx
                    }),
                    edges_sorted(graph.edges@),
                    forall|k: int| 0 <= k < edge_idx ==> edge_idx_le(#[trigger] graph.edges@[k], edge),
                decreases src_idx - node_idx,
            {
                proof {
                    assert forall|k: int| 0 <= k < edge_idx implies #[trigger] graph.edges@[k].src_idx
                        <= node_idx by {
                        if edge_idx > 0 {
                            assert(edge_idx_le(graph.edges@[k], graph.edges@[edge_idx - 1])
                                || k == edge_idx - 1);
                        }
                    }
                }
                node_idx = node_idx + 1;
                graph.offsets.push(offset);
            }
            graph.edges.push(edge);
            offset = offset + 1;
            edge_idx = edge_idx + 1;
        }
        // last node needs an upper bound as well for `leaving_edges(...)`
        graph.offsets.push(offset);
        Ok(graph)
    }
}

proof fn lemma_build_error(
    m: Map<i64, ProtoNode>,
    edges: Seq<ProtoEdge>,
    k: int,
    e: (bool, i64, Option<i64>),
)
    requires
        0 <= k < edges.len(),
        error_at(m, sorted_edges(edges), k, e.0, e.1, e.2),
    ensures
        build_error(m, edges, e),
{
}

proof fn lemma_edge_le_order()
    ensures
        vstd::relations::transitive(|a: ProtoEdge, b: ProtoEdge| edge_le(a, b)),
        vstd::relations::strongly_connected(|a: ProtoEdge, b: ProtoEdge| edge_le(a, b)),
{
}

/// In a sequence of nodes with strictly increasing ids, positions are ordered like ids.
proof fn lemma_idx_order(nodes: Seq<Node>, a: int, b: int)
    requires
        forall|i: int, j: int| 0 <= i < j < nodes.len() ==> nodes[i].id < nodes[j].id,
        0 <= a < nodes.len(),
        0 <= b < nodes.len(),
    ensures
        nodes[a].id < nodes[b].id <==> a < b,
        nodes[a].id == nodes[b].id <==> a == b,
{
}

proof fn lemma_not_graph_node(nodes: Seq<Node>, m: Map<i64, ProtoNode>, id: i64)
    requires
        nodes_from_protos(nodes, m),
        forall|i: int| 0 <= i < nodes.len() ==> nodes[i].id != id,
    ensures
        !is_graph_node(m, id),
{
}

/// Keys handed out by the iterator of a `BTreeMap` are strictly increasing.
proof fn lemma_increasing_keys(ks: Seq<i64>)
    requires
        vstd::std_specs::btree::increasing_seq(ks),
    ensures
        forall|i: int, j: int| 0 <= i < j < ks.len() ==> ks[i] < ks[j],
{
    assert forall|i: int, j: int| 0 <= i < j < ks.len() implies ks[i] < ks[j] by {
        assert(ks[i].cmp_spec(&ks[j]) is Less);
    }
}

/// Collects the graph-nodes from the proto-nodes, sorted by id.
fn collect_nodes(proto_nodes: &BTreeMap<i64, ProtoNode>) -> (nodes: Vec<Node>)
    requires
        forall|id: i64| #[trigger]
            proto_nodes@.contains_key(id) ==> proto_nodes@[id].id == id,
    ensures
        nodes_from_protos(nodes@, proto_nodes@),
{
    let ghost m = proto_nodes@;
    let mut nodes: Vec<Node> = Vec::new();
    let iter = proto_nodes.iter();
    let ghost s = iter.remaining();
    let ghost ks = s.map_values(|kv: (&i64, &ProtoNode)| *kv.0);
    proof {
        lemma_increasing_keys(ks);
    }
    for (id, pn) in it: iter
        invariant
            it.seq() == s,
            ks == s.map_values(|kv: (&i64, &ProtoNode)| *kv.0),
            forall|i: int, j: int| 0 <= i < j < ks.len() ==> ks[i] < ks[j],
            forall|i: int| 0 <= i < s.len() ==> m.contains_key(*s[i].0) && m[*s[i].0] == *s[i].1,
            forall|id: i64| #[trigger] m.contains_key(id) ==> m[id].id == id,
            forall|i: int, j: int| 0 <= i < j < nodes.len() ==> nodes[i].id < nodes[j].id,
            forall|i: int|
                0 <= i < nodes.len() ==> is_graph_node(m, #[trigger] nodes[i].id)
                    && m[nodes[i].id].coord == Some(nodes[i].coord),
            forall|i: int, j: int|
                0 <= i < nodes.len() && it.index() <= j < s.len() ==> nodes[i].id < ks[j],
            forall|j: int|
                0 <= j < it.index() && is_graph_node(m, #[trigger] ks[j]) ==> exists|i: int|
                    0 <= i < nodes.len() && #[trigger] nodes[i].id == ks[j],
    {
        let ghost idx = it.index();
        let ghost old_nodes = nodes@;
        assert(ks[idx] == *id);
        assert(m[*id] == *pn);
        if pn.is_edge_node {
            if let Some(coord) = pn.coord {
                nodes.push(Node { id: *id, coord });
                assert(nodes@[nodes.len() - 1].id == ks[idx]);
            }
        }
        assert forall|j: int|
            0 <= j < idx + 1 && is_graph_node(m, #[trigger] ks[j]) implies exists|i: int|
            0 <= i < nodes.len() && #[trigger] nodes[i].id == ks[j] by {
            if j < idx {
                let i = choose|i: int| 0 <= i < old_nodes.len() && #[trigger] old_nodes[i].id == ks[j];
                assert(nodes@[i] == old_nodes[i]);
            } else {
                assert(nodes@[nodes.len() - 1].id == ks[idx]);
            }
        }
    }
    proof {
        assert forall|id: i64| is_graph_node(m, id) implies exists|i: int|
            0 <= i < nodes.len() && #[trigger] nodes[i].id == id by {
            assert(s.contains((&id, &m[id])));
            let j = choose|j: int| 0 <= j < s.len() && s[j] == (&id, &m[id]);
            assert(ks[j] == id);
        }
    }
    nodes
}

//------------------------------------------------------------------------------------------------//
// offset-graph

#[derive(Copy, Clone, Debug)]
pub struct Node {
    pub id: i64,
    pub coord: Coordinate,
}

impl Node {
    pub fn id(&self) -> (r: i64)
        ensures
            r == self.id,
    {
        self.id
    }

    pub fn coord(&self) -> (r: &Coordinate)
        ensures
            *r == self.coord,
    {
        &self.coord
    }
}

#[derive(Copy, Clone, Debug)]
pub struct Edge {
    pub id: i64,
    pub src_idx: usize,
    pub dst_idx: usize,
    pub meters: u32,
    pub maxspeed: u16,
}

impl Edge {
    pub fn id(&self) -> (r: i64)
        ensures
            r == self.id,
    {
        self.id
    }

    pub fn src_idx(&self) -> (r: usize)
        ensures
            r == self.src_idx,
    {
        self.src_idx
    }

    pub fn dst_idx(&self) -> (r: usize)
        ensures
            r == self.dst_idx,
    {
        self.dst_idx
    }

    pub fn meters(&self) -> (r: u32)
        ensures
            r == self.meters,
    {
        self.meters
    }

    pub fn maxspeed(&self) -> (r: u16)
        ensures
            r == self.maxspeed,
    {
        self.maxspeed
    }
}

/// Edges are ordered by src-idx first, then by dst-idx.
pub open spec fn edge_idx_le(a: Edge, b: Edge) -> bool {
    a.src_idx < b.src_idx || (a.src_idx == b.src_idx && a.dst_idx <= b.dst_idx)
}

pub open spec fn edges_sorted(edges: Seq<Edge>) -> bool {
    forall|i: int, j: int| 0 <= i < j < edges.len() ==> edge_idx_le(#[trigger] edges[i], #[trigger] edges[j])
}

/// The offset of node `i` is the number of edges leaving a node of smaller index.
pub open spec fn offsets_match(offsets: Seq<usize>, edges: Seq<Edge>) -> bool {
    forall|i: int|
        0 <= i < offsets.len() ==> {
            &&& #[trigger] offsets[i] <= edges.len()
            &&& forall|k: int| 0 <= k < offsets[i] ==> #[trigger] edges[k].src_idx < i
            &&& forall|k: int| offsets[i] <= k < edges.len() ==> #[trigger] edges[k].src_idx >= i
        }
}

/// An offset-graph: the edges leaving node `i` are stored in `edges[offsets[i]..offsets[i+1]]`.
#[derive(Debug)]
pub struct Graph {
    nodes: Vec<Node>,
    edges: Vec<Edge>,
    offsets: Vec<usize>,
}

impl Graph {
    pub closed spec fn view_nodes(&self) -> Seq<Node> {
        self.nodes@
    }

    pub closed spec fn view_edges(&self) -> Seq<Edge> {
        self.edges@
    }

    pub closed spec fn view_offsets(&self) -> Seq<usize> {
        self.offsets@
    }

    pub closed spec fn wf(&self) -> bool {
        &&& forall|i: int, j: int|
            0 <= i < j < self.nodes@.len() ==> self.nodes@[i].id < self.nodes@[j].id
        &&& forall|k: int|
            0 <= k < self.edges@.len() ==> #[trigger] self.edges@[k].src_idx < self.nodes@.len()
                && self.edges@[k].dst_idx < self.nodes@.len()
        &&& edges_sorted(self.edges@)
        &&& self.offsets@.len() >= 1
        &&& self.offsets@[self.offsets@.len() - 1] == self.edges@.len()
        &&& offsets_match(self.offsets@, self.edges@)
    }

    fn new() -> (g: Graph)
        ensures
            g.nodes@.len() == 0,
            g.edges@.len() == 0,
            g.offsets@.len() == 0,
    {
        Graph { nodes: Vec::new(), edges: Vec::new(), offsets: Vec::new() }
    }

    //--------------------------------------------------------------------------------------------//
    // id <-> idx

    /// Binary search for the node of the given id: `Ok` with its index, or `Err` with the index
    /// where it would have to be inserted.
    pub fn node_idx_from(&self, id: i64) -> (r: Result<usize, usize>)
        requires
            forall|i: int, j: int|
                0 <= i < j < self.view_nodes().len() ==> self.view_nodes()[i].id
                    < self.view_nodes()[j].id,
        ensures
            match r {
                Ok(idx) => idx < self.view_nodes().len() && self.view_nodes()[idx as int].id == id,
                Err(idx) => {
                    &&& idx <= self.view_nodes().len()
                    &&& forall|k: int| 0 <= k < idx ==> self.view_nodes()[k].id < id
                    &&& forall|k: int|
                        idx <= k < self.view_nodes().len() ==> self.view_nodes()[k].id > id
                },
            },
    {
        let mut lo: usize = 0;
        let mut hi: usize = self.nodes.len();
        while lo < hi
            invariant
                lo <= hi <= self.nodes@.len(),
                forall|i: int, j: int|
                    0 <= i < j < self.view_nodes().len() ==> self.view_nodes()[i].id
                        < self.view_nodes()[j].id,
                forall|k: int| 0 <= k < lo ==> self.nodes@[k].id < id,
                forall|k: int| hi <= k < self.nodes@.len() ==> self.nodes@[k].id > id,
            decreases hi - lo,
        {
            let mid = lo + (hi - lo) / 2;
            let mid_id = self.nodes[mid].id;
            assert(self.view_nodes()[mid as int].id == mid_id);
            if mid_id == id {
                return Ok(mid);
            } else if mid_id < id {
                lo = mid + 1;
            } else {
                hi = mid;
            }
        }
        Err(lo)
    }

    //--------------------------------------------------------------------------------------------//
    // getter

    pub fn node_count(&self) -> (r: usize)
        ensures
            r == self.view_nodes().len(),
    {
        self.nodes.len()
    }

    pub fn edge_count(&self) -> (r: usize)
        ensures
            r == self.view_edges().len(),
    {
        self.edges.len()
    }

    /// The edge at the given position of the sorted edges.
    pub fn edge_at(&self, idx: usize) -> (r: &Edge)
        requires
            idx < self.view_edges().len(),
        ensures
            *r == self.view_edges()[idx as int],
    {
        &self.edges[idx]
    }

    /// The offset-array: the edges leaving node `i` lie between the `i`-th and the next offset.
    pub fn offsets(&self) -> (r: &Vec<usize>)
        ensures
            r@ == self.view_offsets(),
    {
        &self.offsets
    }

    pub fn node(&self, idx: usize) -> (r: &Node)
        requires
            idx < self.view_nodes().len(),
        ensures
            *r == self.view_nodes()[idx as int],
    {
        &self.nodes[idx]
    }

    /// An edge from `src_idx` to `dst_idx`, if there is one.
    pub fn edge(&self, src_idx: usize, dst_idx: usize) -> (r: Option<&Edge>)
        requires
            self.wf(),
        ensures
            r is Some <==> exists|k: int|
                0 <= k < self.view_edges().len() && #[trigger] self.view_edges()[k].src_idx
                    == src_idx && self.view_edges()[k].dst_idx == dst_idx,
            r matches Some(e) ==> self.view_edges().contains(*e) && e.src_idx == src_idx
                && e.dst_idx == dst_idx,
    {
        match self.leaving_edges(src_idx) {
            Some(leaving_edges) => {
                let mut lo: usize = 0;
                let mut hi: usize = leaving_edges.len();
                while lo < hi
                    invariant
                        lo <= hi <= leaving_edges@.len(),
                        forall|i: int, j: int|
                            0 <= i < j < leaving_edges@.len() ==> edge_idx_le(
                                #[trigger] leaving_edges@[i],
                                #[trigger] leaving_edges@[j],
                            ),
                        forall|i: int|
                            0 <= i < leaving_edges@.len() ==> #[trigger] leaving_edges@[i].src_idx
                                == src_idx,
                        forall|k: int| 0 <= k < lo ==> #[trigger] leaving_edges@[k].dst_idx < dst_idx,
                        forall|e: Edge| #[trigger]
                            leaving_edges@.contains(e) ==> self.view_edges().contains(e) && e.src_idx
                                == src_idx,
                        forall|k: int|
                            hi <= k < leaving_edges@.len() ==> #[trigger] leaving_edges@[k].dst_idx
                                > dst_idx,
                    decreases hi - lo,
                {
                    let mid = lo + (hi - lo) / 2;
                    let mid_dst = leaving_edges[mid].dst_idx;
                    if mid_dst == dst_idx {
                        let ghost e = leaving_edges@[mid as int];
                        proof {
                            assert(leaving_edges@.contains(e));
                            let k = choose|k: int| 0 <= k < self.view_edges().len() && self.view_edges()[k] == e;
                            assert(self.view_edges()[k].src_idx == src_idx);
                        }
                        return Some(&leaving_edges[mid]);
                    } else if mid_dst < dst_idx {
                        lo = mid + 1;
                    } else {
                        hi = mid;
                    }
                }
                proof {
                    assert forall|k: int|
                        0 <= k < self.view_edges().len() && #[trigger] self.view_edges()[k].src_idx
                            == src_idx implies self.view_edges()[k].dst_idx != dst_idx by {
                        assert(leaving_edges@.contains(self.view_edges()[k]));
                    }
                }
                None
            },
            None => None,
        }
    }

    /// The edges leaving the given node, if it has any.
    pub fn leaving_edges(&self, node_idx: usize) -> (r: Option<&[Edge]>)
        requires
            self.wf(),
        ensures
            r is None <==> forall|k: int|
                0 <= k < self.view_edges().len() ==> #[trigger] self.view_edges()[k].src_idx
                    != node_idx,
            r matches Some(s) ==> {
                &&& node_idx + 1 < self.view_offsets().len()
                &&& self.view_offsets()[node_idx as int] < self.view_offsets()[node_idx + 1]
                    <= self.view_edges().len()
                &&& forall|k: int|
                    0 <= k < self.view_edges().len() ==> (self.view_offsets()[node_idx as int] <= k
                        < self.view_offsets()[node_idx + 1] <==> #[trigger] self.view_edges()[k].src_idx
                        == node_idx)
                &&& s@ == self.view_edges().subrange(
                    self.view_offsets()[node_idx as int] as int,
                    self.view_offsets()[node_idx + 1] as int,
                )
                &&& forall|e: Edge| #[trigger]
                    s@.contains(e) <==> self.view_edges().contains(e) && e.src_idx == node_idx
                &&& forall|i: int, j: int|
                    0 <= i < j < s@.len() ==> edge_idx_le(#[trigger] s@[i], #[trigger] s@[j])
            },
    {
        // Use offset-array to get indices for the graph's edges belonging to the given node
        if node_idx < self.offsets.len() {
            // (idx + 1) guaranteed by offset-array-length
            if node_idx + 1 < self.offsets.len() {
                let i0 = self.offsets[node_idx];
                let i1 = self.offsets[node_idx + 1];
                // check if i0 and i1 are equal
                // <-> if node has leaving edges
                if i0 < i1 {
                    let s = vstd::slice::slice_subrange(self.edges.as_slice(), i0, i1);
                    proof {
                        let es = self.edges@;
                        assert forall|k: int| i0 <= k < i1 implies #[trigger] es[k].src_idx == node_idx by {
                            assert(self.offsets@[node_idx as int] == i0);
                            assert(self.offsets@[node_idx + 1] == i1);
                        }
                        assert forall|k: int|
                            0 <= k < es.len() implies (i0 <= k < i1 <==> #[trigger] es[k].src_idx
                                == node_idx) by {
                            assert(self.offsets@[node_idx as int] == i0);
                            assert(self.offsets@[node_idx + 1] == i1);
                        }
                        assert forall|e: Edge| #[trigger]
                            s@.contains(e) <==> es.contains(e) && e.src_idx == node_idx by {
                            if s@.contains(e) {
                                let k = choose|k: int| 0 <= k < s@.len() && s@[k] == e;
                                assert(es[i0 + k] == e);
                            }
                            if es.contains(e) && e.src_idx == node_idx {
                                let k = choose|k: int| 0 <= k < es.len() && es[k] == e;
                                assert(s@[k - i0] == e);
                            }
                        }
                        assert forall|i: int, j: int|
                            0 <= i < j < s@.len() implies edge_idx_le(
                            #[trigger] s@[i],
                            #[trigger] s@[j],
                        ) by {
                            assert(s@[i] == es[i0 + i]);
                            assert(s@[j] == es[i0 + j]);
                        }
                    }
                    proof {
                        assert(self.view_edges()[i0 as int].src_idx == node_idx);
                    }
                    return Some(s);
                } else {
                    proof {
                        assert forall|k: int| 0 <= k < self.view_edges().len() implies #[trigger] self.view_edges()[k].src_idx
                            != node_idx by {
                            assert(self.offsets@[node_idx as int] == i0);
                            assert(self.offsets@[node_idx + 1] == i1);
                        }
                    }
                    return None;
                }
            }
        }
        proof {
            let es = self.edges@;
            let last = self.offsets@.len() - 1;
            assert forall|k: int| 0 <= k < es.len() implies #[trigger] es[k].src_idx
                != node_idx by {
                assert(self.offsets@[last] == es.len());
                assert(es[k].src_idx < last);
            }
        }
        None
    }
}

} // verus!
