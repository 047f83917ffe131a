use crate::network::graph::{Graph, Node};
use crate::network::NodeIdx;
use vstd::prelude::*;

verus! {

/// A source and a destination of a route.
#[derive(Copy, Clone, Debug)]
pub struct RoutePair<T> {
    pub src: T,
    pub dst: T,
}

impl RoutePair<i64> {
    /// The indices of both nodes, which have to be part of the graph.
    pub fn into_idx<C: Copy, M>(self, graph: &Graph<C, M>) -> (r: RoutePair<NodeIdx>)
        requires
            graph.wf(),
            graph.view_node_ids().contains(self.src),
            graph.view_node_ids().contains(self.dst),
        ensures
            r.src.0 < graph.view_node_ids().len(),
            r.dst.0 < graph.view_node_ids().len(),
            graph.view_node_ids()[r.src.0 as int] == self.src,
            graph.view_node_ids()[r.dst.0 as int] == self.dst,
    {
        let nodes = graph.nodes();
        let src = match nodes.idx_from(self.src) {
            Ok(idx) => idx,
            Err(_) => {
                proof {
                    let k = choose|k: int| 0 <= k < nodes.node_ids@.len() && nodes.node_ids@[k] == self.src;
                    assert(nodes.node_ids@[k] == self.src);
                }
                NodeIdx(0)
            },
        };
        let dst = match nodes.idx_from(self.dst) {
            Ok(idx) => idx,
            Err(_) => {
                proof {
                    let k = choose|k: int| 0 <= k < nodes.node_ids@.len() && nodes.node_ids@[k] == self.dst;
                    assert(nodes.node_ids@[k] == self.dst);
                }
                NodeIdx(0)
            },
        };
        RoutePair { src, dst }
    }

    /// Both nodes, which have to be part of the graph.
    pub fn into_node<C: Copy, M>(self, graph: &Graph<C, M>) -> (r: RoutePair<Node<C>>)
        requires
            graph.wf(),
            graph.view_node_ids().contains(self.src),
            graph.view_node_ids().contains(self.dst),
        ensures
            r.src.id == self.src,
            r.dst.id == self.dst,
            r.src == graph.nodes_spec().node_at(r.src.idx),
            r.dst == graph.nodes_spec().node_at(r.dst.idx),
            r.src.idx.0 < graph.view_node_ids().len(),
            r.dst.idx.0 < graph.view_node_ids().len(),
    {
        let nodes = graph.nodes();
        let src = match nodes.create_from(self.src) {
            Some(node) => node,
            None => {
                proof {
                    assert(false);
                }
                nodes.create(NodeIdx(0))
            },
        };
        let dst = match nodes.create_from(self.dst) {
            Some(node) => node,
            None => {
                proof {
                    assert(false);
                }
                nodes.create(NodeIdx(0))
            },
        };
        RoutePair { src, dst }
    }
}

impl RoutePair<NodeIdx> {
    /// Both nodes, whose indices have to be part of the graph.
    pub fn into_node<C: Copy, M>(self, graph: &Graph<C, M>) -> (r: RoutePair<Node<C>>)
        requires
            graph.wf(),
            self.src.0 < graph.view_node_ids().len(),
            self.dst.0 < graph.view_node_ids().len(),
        ensures
            r.src == graph.nodes_spec().node_at(self.src),
            r.dst == graph.nodes_spec().node_at(self.dst),
    {
        let nodes = graph.nodes();
        RoutePair { src: nodes.create(self.src), dst: nodes.create(self.dst) }
    }
}

} // verus!
