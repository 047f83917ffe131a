use crate::network::geo::Coordinate;
use crate::routing::graph::{
    build_error, edge_endpoint, edge_from_proto, edge_nodes_located, error_at, has_missing_node, is_graph_node,
    lemma_sorted_edges_kept, mark_edge_node, nodes_from_protos, set_coord, sorted_edges, Graph,
};
use vstd::prelude::*;

verus! {

/// A node as collected while building.
pub type ProtoNode = crate::routing::graph::ProtoNode;

/// An edge as collected while building.
pub type ProtoEdge = crate::routing::graph::ProtoEdge;

/// Why finalizing the graph failed: the first (sorted) edge whose source or destination is no
/// node of the graph, with the id of that node and the edge's way-id.
#[derive(Copy, Clone, Debug, PartialEq, Eq, Structural)]
pub enum BuildError {
    MissingSrc { src_id: i64, way_id: Option<i64> },
    MissingDst { dst_id: i64, way_id: Option<i64> },
}

/// The error that stands for a failed build, as reported by the offset-graph's builder.
pub open spec fn error_of(e: (bool, i64, Option<i64>)) -> BuildError {
    if e.0 {
        BuildError::MissingSrc { src_id: e.1, way_id: e.2 }
    } else {
        BuildError::MissingDst { dst_id: e.1, way_id: e.2 }
    }
}

/// Collects proto-nodes and proto-edges and creates the offset-graph, reporting missing nodes
/// as errors.
pub struct GraphBuilder {
    inner: crate::routing::graph::GraphBuilder,
}

impl GraphBuilder {
    pub closed spec fn node_map(&self) -> Map<i64, ProtoNode> {
        self.inner.node_map()
    }

    pub closed spec fn edge_seq(&self) -> Seq<ProtoEdge> {
        self.inner.edge_seq()
    }

    pub closed spec fn wf(&self) -> bool {
        self.inner.wf()
    }

    pub fn new() -> (b: GraphBuilder)
        ensures
            b.wf(),
            b.node_map() == Map::<i64, ProtoNode>::empty(),
            b.edge_seq() == Seq::<ProtoEdge>::empty(),
    {
        GraphBuilder { inner: crate::routing::graph::GraphBuilder::new() }
    }

    /// Adds the node, or updates its coordinate if it has been added already.
    pub fn push_node(&mut self, id: i64, coord: Coordinate) -> (r: &mut Self)
        requires
            old(self).wf(),
        ensures
            r.wf(),
            r.node_map() == set_coord(old(self).node_map(), id, coord),
            r.edge_seq() == old(self).edge_seq(),
            *final(self) == *final(r),
    {
        self.inner.push_node(id, coord);
        self
    }

    /// Whether the node of the given id belongs to an edge: whether a pushed edge starts or ends
    /// at it.
    pub fn is_node_in_edge(&self, id: i64) -> (r: bool)
        ensures
            r == (self.node_map().contains_key(id) && self.node_map()[id].is_edge_node),
            self.wf() ==> (r <==> edge_endpoint(self.edge_seq(), id)),
    {
        self.inner.is_node_in_edge(id)
    }

    /// Adds an edge and marks its nodes as belonging to an edge.
    pub fn push_edge(
        &mut self,
        way_id: Option<i64>,
        src_id: i64,
        dst_id: i64,
        meters: Option<u32>,
        maxspeed: u16,
    ) -> (r: &mut Self)
        requires
            old(self).wf(),
        ensures
            r.wf(),
            r.edge_seq() == old(self).edge_seq().push(
                ProtoEdge { way_id, src_id, dst_id, meters, maxspeed },
            ),
            r.node_map() == mark_edge_node(mark_edge_node(old(self).node_map(), src_id), dst_id),
            *final(self) == *final(r),
    {
        self.inner.push_edge(way_id, src_id, dst_id, meters, maxspeed);
        self
    }

    /// Creates the graph, computing the length of edges without one from their nodes'
    /// coordinates with `dist`; fails on the first (sorted) edge whose source or destination is
    /// no node of the graph, since it belongs to an edge but has no coordinate.
    pub fn finalize<F: Fn(Coordinate, Coordinate) -> u32>(self, dist: &F) -> (r: Result<
        Graph,
        BuildError,
    >)
        requires
            self.wf(),
            forall|a: Coordinate, b: Coordinate| #[trigger] dist.requires((a, b)),
        ensures
            edge_nodes_located(self.node_map()) ==> r is Ok,
            r is Err <==> has_missing_node(self.node_map(), self.edge_seq()),
            r matches Ok(graph) ==> {
                &&& graph.wf()
                &&& nodes_from_protos(graph.view_nodes(), self.node_map())
                &&& graph.view_edges().len() == self.edge_seq().len()
                &&& forall|k: int|
                    0 <= k < graph.view_edges().len() ==> edge_from_proto(
                        #[trigger] graph.view_edges()[k],
                        sorted_edges(self.edge_seq())[k],
                        k,
                        graph.view_nodes(),
                        *dist,
                    )
            },
            r matches Err(e) ==> exists|raw: (bool, i64, Option<i64>)|
                #[trigger] build_error(self.node_map(), self.edge_seq(), raw) && e == error_of(raw),
    {
        let ghost m = self.node_map();
        let ghost edges = self.edge_seq();
        proof {
            lemma_sorted_edges_kept(edges);
        }
        match self.inner.build(dist) {
            Ok(graph) => {
                proof {
                    let sorted = sorted_edges(edges);
                    let nodes = graph.view_nodes();
                    assert forall|k: int| 0 <= k < edges.len() implies is_graph_node(
                        m,
                        (#[trigger] edges[k]).src_id,
                    ) && is_graph_node(m, edges[k].dst_id) by {
                        assert(edges.contains(edges[k]));
                        let j = choose|j: int| 0 <= j < sorted.len() && sorted[j] == edges[k];
                        let e = graph.view_edges()[j];
                        assert(edge_from_proto(e, sorted[j], j, nodes, *dist));
                        assert(is_graph_node(m, nodes[e.src_idx as int].id));
                        assert(is_graph_node(m, nodes[e.dst_idx as int].id));
                    }
                }
                Ok(graph)
            },
            Err(raw) => {
                proof {
                    let sorted = sorted_edges(edges);
                    assert(build_error(m, edges, raw));
                    let k = choose|k: int| 0 <= k < edges.len() && #[trigger] error_at(m, sorted_edges(edges), k, raw.0, raw.1, raw.2);
                    assert(error_at(m, sorted, k, raw.0, raw.1, raw.2));
                    assert(!(is_graph_node(m, sorted[k].src_id) && is_graph_node(m, sorted[k].dst_id)));
                    assert(sorted.contains(sorted[k]));
                    assert(edges.contains(sorted[k]));
                    let i = choose|i: int| 0 <= i < edges.len() && edges[i] == sorted[k];
                    assert(!(is_graph_node(m, edges[i].src_id) && is_graph_node(m, edges[i].dst_id)));
                }
                let e = if raw.0 {
                    BuildError::MissingSrc { src_id: raw.1, way_id: raw.2 }
                } else {
                    BuildError::MissingDst { dst_id: raw.1, way_id: raw.2 }
                };
                assert(build_error(self.node_map(), self.edge_seq(), raw) && e == error_of(raw));
                Err(e)
            },
        }
    }
}

} // verus!
