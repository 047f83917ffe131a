pub mod building;
pub mod container;
pub mod indexing;

pub use indexing::{EdgeIdx, EdgeIdxIterator, MetricIdx, NodeIdx, NodeIdxIterator};

use building::offsets_partition;
use container::nodes::{ids_sorted, search_id};
use vstd::prelude::*;

verus! {

/// Why a request to the graph could not be answered.
#[derive(Copy, Clone, Debug, PartialEq, Eq, Structural)]
pub enum GraphError {
    /// No edge of the graph has the given id.
    UnknownEdgeId(usize),
}

/// The ids of the id-map are strictly increasing.
pub open spec fn id_map_sorted(map: Seq<(usize, EdgeIdx)>) -> bool {
    forall|i: int, j: int| 0 <= i < j < map.len() ==> map[i].0 < map[j].0
}

/// The id-map holds exactly the ids of the edges, each with the edge's index.
#[verifier::opaque]
pub open spec fn id_map_fits(map: Seq<(usize, EdgeIdx)>, edge_ids: Seq<Option<usize>>) -> bool {
    &&& forall|k: int|
        0 <= k < map.len() ==> {
            let (id, e) = #[trigger] map[k];
            e.0 < edge_ids.len() && edge_ids[e.0 as int] == Some(id)
        }
    &&& forall|e: int|
        0 <= e < edge_ids.len() && (#[trigger] edge_ids[e]) is Some ==> map.contains(
            (edge_ids[e]->0, EdgeIdx(e as usize)),
        )
}

/// The values are increasing.
pub open spec fn nondecreasing(s: Seq<usize>) -> bool {
    forall|i: int, j: int| 0 <= i <= j < s.len() ==> s[i] <= s[j]
}

/// A node created from the graph's node-arrays.
#[derive(Copy, Clone, Debug)]
pub struct Node<C> {
    pub idx: NodeIdx,
    pub id: i64,
    pub coord: C,
    pub level: usize,
}

impl<C: Copy> Node<C> {
    pub fn id(&self) -> (r: i64)
        ensures
            r == self.id,
    {
        self.id
    }

    pub fn idx(&self) -> (r: NodeIdx)
        ensures
            r == self.idx,
    {
        self.idx
    }

    pub fn coord(&self) -> (r: C)
        ensures
            r == self.coord,
    {
        self.coord
    }

    pub fn ch_level(&self) -> (r: usize)
        ensures
            r == self.level,
    {
        self.level
    }
}

/// A shallow container for accessing nodes: it only refers to the graph's node-arrays.
pub struct NodeAccessor<'a, C> {
    pub node_ids: &'a Vec<i64>,
    pub node_coords: &'a Vec<C>,
    pub node_ch_levels: &'a Vec<usize>,
}

impl<'a, C: Copy> NodeAccessor<'a, C> {
    /// The node-arrays have one entry per node and the ids are strictly increasing.
    pub open spec fn wf(&self) -> bool {
        &&& ids_sorted(self.node_ids@)
        &&& self.node_coords@.len() == self.node_ids@.len()
        &&& self.node_ch_levels@.len() == self.node_ids@.len()
    }

    /// Iterates over all node-indices.
    pub fn iter(&self) -> (it: NodeIdxIterator)
        ensures
            it.remaining() == Seq::new(self.node_ids@.len(), |i: int| NodeIdx(i as usize)),
    {
        let it = NodeIdxIterator::from_range(0, self.node_ids.len());
        proof {
            assert(it.remaining() =~= Seq::new(self.node_ids@.len(), |i: int| NodeIdx(i as usize)));
        }
        it
    }

    pub fn count(&self) -> (r: usize)
        ensures
            r == self.node_ids@.len(),
    {
        self.node_ids.len()
    }

    pub fn id(&self, idx: NodeIdx) -> (r: i64)
        requires
            idx.0 < self.node_ids@.len(),
        ensures
            r == self.node_ids@[idx.0 as int],
    {
        self.node_ids[idx.0]
    }

    pub fn coord(&self, idx: NodeIdx) -> (r: C)
        requires
            idx.0 < self.node_coords@.len(),
        ensures
            r == self.node_coords@[idx.0 as int],
    {
        self.node_coords[idx.0]
    }

    pub fn level(&self, idx: NodeIdx) -> (r: usize)
        requires
            idx.0 < self.node_ch_levels@.len(),
        ensures
            r == self.node_ch_levels@[idx.0 as int],
    {
        self.node_ch_levels[idx.0]
    }

    /// The index of the node of the given id (`Ok`), or where it would be inserted (`Err`).
    pub fn idx_from(&self, id: i64) -> (r: Result<NodeIdx, NodeIdx>)
        requires
            ids_sorted(self.node_ids@),
        ensures
            match r {
                Ok(idx) => idx.0 < self.node_ids@.len() && self.node_ids@[idx.0 as int] == id,
                Err(idx) => {
                    &&& idx.0 <= self.node_ids@.len()
                    &&& forall|k: int| 0 <= k < idx.0 ==> self.node_ids@[k] < id
                    &&& forall|k: int| idx.0 <= k < self.node_ids@.len() ==> self.node_ids@[k] > id
                },
            },
    {
        match search_id(self.node_ids, id) {
            Ok(idx) => Ok(NodeIdx(idx)),
            Err(idx) => Err(NodeIdx(idx)),
        }
    }

    /// The node of the given id, if the graph has it.
    pub fn create_from(&self, id: i64) -> (r: Option<Node<C>>)
        requires
            self.wf(),
        ensures
            r is Some <==> self.node_ids@.contains(id),
            r matches Some(node) ==> node.id == id && node.idx.0 < self.node_ids@.len() && node
                == self.node_at(node.idx),
    {
        let idx = match self.idx_from(id) {
            Ok(idx) => idx,
            Err(_) => {
                proof {
                    if self.node_ids@.contains(id) {
                        let k = choose|k: int| 0 <= k < self.node_ids@.len() && self.node_ids@[k] == id;
                        assert(self.node_ids@[k] == id);
                    }
                }
                return None;
            },
        };
        Some(self.create(idx))
    }

    /// The node at the given index.
    pub open spec fn node_at(&self, idx: NodeIdx) -> Node<C> {
        Node {
            idx,
            id: self.node_ids@[idx.0 as int],
            coord: self.node_coords@[idx.0 as int],
            level: self.node_ch_levels@[idx.0 as int],
        }
    }

    pub fn create(&self, idx: NodeIdx) -> (r: Node<C>)
        requires
            self.wf(),
            idx.0 < self.node_ids@.len(),
        ensures
            r == self.node_at(idx),
    {
        let id = self.id(idx);
        let coord = self.coord(idx);
        let level = self.level(idx);
        Node { id, idx, coord, level }
    }
}

/// A shallow container for accessing metrics: it only refers to the graph's metric-array.
pub struct MetricAccessor<'a, M> {
    pub metrics: &'a Vec<M>,
}

impl<'a, M> MetricAccessor<'a, M> {
    /// The metrics of the given edge.
    pub fn get(&self, edge_idx: EdgeIdx) -> (r: &'a M)
        requires
            edge_idx.0 < self.metrics@.len(),
        ensures
            *r == self.metrics@[edge_idx.0 as int],
    {
        &self.metrics[edge_idx.0]
    }
}

/// A shallow container for accessing (forward- or backward-) edges: it only refers to the
/// graph's edge-arrays.
pub struct EdgeAccessor<'a, M> {
    pub edge_ids: &'a Vec<Option<usize>>,
    pub edge_ids_to_idx_map: &'a Vec<(usize, EdgeIdx)>,
    pub edge_dsts: &'a Vec<NodeIdx>,
    pub offsets: &'a Vec<usize>,
    /// indirect mapping to save memory
    pub xwd_to_fwd_map: &'a Vec<EdgeIdx>,
    pub metrics: MetricAccessor<'a, M>,
    /// shortcuts
    pub sc_offsets: &'a Vec<usize>,
    pub sc_edges: &'a Vec<[EdgeIdx; 2]>,
}

/// An edge of the graph, seen from its source.
pub struct HalfEdge<'a, M> {
    pub idx: EdgeIdx,
    pub edge_accessor: &'a EdgeAccessor<'a, M>,
}

impl<'a, M> EdgeAccessor<'a, M> {
    /// The edge-arrays fit together: offsets and mappings stay within them, shortcut-offsets
    /// increase up to the number of shortcuts and the id-map is sorted.
    pub open spec fn wf(&self) -> bool {
        let m = self.edge_dsts@.len();
        &&& self.edge_ids@.len() == m
        &&& self.metrics.metrics@.len() == m
        &&& self.xwd_to_fwd_map@.len() == m
        &&& forall|i: int| 0 <= i < m ==> (#[trigger] self.xwd_to_fwd_map@[i]).0 < m
        &&& forall|i: int| 0 <= i < self.offsets@.len() ==> #[trigger] self.offsets@[i] <= m
        &&& self.sc_offsets@.len() == m + 1
        &&& nondecreasing(self.sc_offsets@)
        &&& self.sc_offsets@[m as int] == self.sc_edges@.len()
        &&& id_map_sorted(self.edge_ids_to_idx_map@)
    }

    /// The indices of the edges leaving node `idx` (none, if the node has no offsets).
    pub open spec fn leaving(&self, idx: NodeIdx) -> Seq<EdgeIdx> {
        if idx.0 + 1 < self.offsets@.len() && self.offsets@[idx.0 as int] <= self.offsets@[idx.0 + 1] {
            self.xwd_to_fwd_map@.subrange(
                self.offsets@[idx.0 as int] as int,
                self.offsets@[idx.0 + 1] as int,
            )
        } else {
            Seq::empty()
        }
    }

    /// Whether the edge replaces two other edges.
    pub open spec fn spec_is_shortcut(&self, idx: EdgeIdx) -> bool {
        self.sc_offsets@[idx.0 + 1] != self.sc_offsets@[idx.0 as int]
    }

    pub fn iter(&self) -> (it: EdgeIdxIterator)
        ensures
            it.remaining() == Seq::new(self.edge_dsts@.len(), |i: int| EdgeIdx(i as usize)),
    {
        let it = EdgeIdxIterator::from_range(0, self.edge_dsts.len());
        proof {
            assert(it.remaining() =~= Seq::new(self.edge_dsts@.len(), |i: int| EdgeIdx(i as usize)));
        }
        it
    }

    pub fn count(&self) -> (r: usize)
        ensures
            r == self.edge_dsts@.len(),
    {
        self.edge_dsts.len()
    }

    pub fn half_edge(&'a self, idx: EdgeIdx) -> (r: HalfEdge<'a, M>)
        ensures
            r.idx == idx,
            *r.edge_accessor == *self,
    {
        HalfEdge { idx, edge_accessor: self }
    }

    pub fn try_id(&self, idx: EdgeIdx) -> (r: Option<usize>)
        requires
            idx.0 < self.edge_ids@.len(),
        ensures
            r == self.edge_ids@[idx.0 as int],
    {
        self.edge_ids[idx.0]
    }

    /// The id of an edge that has one.
    pub fn id(&self, idx: EdgeIdx) -> (r: usize)
        requires
            idx.0 < self.edge_ids@.len(),
            self.edge_ids@[idx.0 as int] is Some,
        ensures
            Some(r) == self.edge_ids@[idx.0 as int],
    {
        match self.edge_ids[idx.0] {
            Some(id) => id,
            None => {
                proof {
                    assert(false);
                }
                0
            },
        }
    }

    /// The index of the edge of the given id, found by binary search in the id-map.
    pub fn try_idx_from(&self, id: usize) -> (r: Result<EdgeIdx, GraphError>)
        requires
            id_map_sorted(self.edge_ids_to_idx_map@),
        ensures
            r matches Ok(e) ==> self.edge_ids_to_idx_map@.contains((id, e)),
            r is Err <==> forall|k: int|
                0 <= k < self.edge_ids_to_idx_map@.len() ==> (#[trigger] self.edge_ids_to_idx_map@[k]).0
                    != id,
            r matches Err(e) ==> e == GraphError::UnknownEdgeId(id),
    {
        let map = self.edge_ids_to_idx_map;
        let mut lo: usize = 0;
        let mut hi: usize = map.len();
        while lo < hi
            invariant
                map@ == self.edge_ids_to_idx_map@,
                lo <= hi <= map@.len(),
                id_map_sorted(map@),
                forall|k: int| 0 <= k < lo ==> (#[trigger] map@[k]).0 < id,
                forall|k: int| hi <= k < map@.len() ==> (#[trigger] map@[k]).0 > id,
            decreases hi - lo,
        {
            let mid = lo + (hi - lo) / 2;
            let (edge_id, edge_idx) = map[mid];
            if edge_id == id {
                proof {
                    assert(map@[mid as int] == (id, edge_idx));
                    assert(map@.contains((id, edge_idx)));
                    assert(map@[mid as int].0 == id);
                }
                return Ok(edge_idx);
            } else if edge_id < id {
                lo = mid + 1;
            } else {
                hi = mid;
            }
        }
        Err(GraphError::UnknownEdgeId(id))
    }

    /// The index of the edge of the given id, which the graph has.
    pub fn idx_from(&self, id: usize) -> (r: EdgeIdx)
        requires
            id_map_sorted(self.edge_ids_to_idx_map@),
            exists|k: int|
                0 <= k < self.edge_ids_to_idx_map@.len() && (#[trigger] self.edge_ids_to_idx_map@[k]).0
                    == id,
        ensures
            self.edge_ids_to_idx_map@.contains((id, r)),
    {
        match self.try_idx_from(id) {
            Ok(edge_idx) => edge_idx,
            Err(_) => {
                proof {
                    assert(false);
                }
                EdgeIdx(0)
            },
        }
    }

    pub fn dst_idx(&self, idx: EdgeIdx) -> (r: NodeIdx)
        requires
            idx.0 < self.edge_dsts@.len(),
        ensures
            r == self.edge_dsts@[idx.0 as int],
    {
        self.edge_dsts[idx.0]
    }

    pub fn metrics(&self) -> (r: &MetricAccessor<'a, M>)
        ensures
            *r == self.metrics,
    {
        &self.metrics
    }

    /// Whether the edge replaces two other edges.
    pub fn is_shortcut(&self, idx: EdgeIdx) -> (r: bool)
        requires
            self.wf(),
            idx.0 < self.edge_dsts@.len(),
        ensures
            r == self.spec_is_shortcut(idx),
    {
        proof {
            assert(idx.0 + 1 < self.sc_offsets@.len());
            assert(self.sc_offsets@[idx.0 as int] <= self.sc_offsets@[idx.0 + 1]);
        }
        let len = self.sc_offsets.len();
        assert(idx.0 + 1 < len);
        let next = idx.0 + 1;
        self.sc_offsets[next] - self.sc_offsets[idx.0] != 0
    }

    /// The two edges that the given shortcut replaces.
    pub fn sc_edges(&self, idx: EdgeIdx) -> (r: Option<&'a [EdgeIdx; 2]>)
        requires
            self.wf(),
            idx.0 < self.edge_dsts@.len(),
        ensures
            r is Some <==> self.spec_is_shortcut(idx),
            r matches Some(sc) ==> *sc == self.sc_edges@[self.sc_offsets@[idx.0 as int] as int],
    {
        if self.is_shortcut(idx) {
            Some(&self.sc_edges[self.sc_offsets[idx.0]])
        } else {
            None
        }
    }

    /// The edges leaving the given node.
    pub fn starting_from(&'a self, idx: NodeIdx) -> (r: Vec<HalfEdge<'a, M>>)
        requires
            self.wf(),
            idx.0 + 1 < self.offsets@.len(),
        ensures
            r@.len() == self.leaving(idx).len(),
            forall|k: int|
                0 <= k < r@.len() ==> (#[trigger] r@[k]).idx == self.leaving(idx)[k]
                    && *r@[k].edge_accessor == *self,
    {
        let indices = self.offset_indices(idx);
        let mut edges: Vec<HalfEdge<'a, M>> = Vec::new();
        let mut i: usize = 0;
        while i < indices.len()
            invariant
                indices@ == self.leaving(idx),
                i <= indices@.len(),
                edges@.len() == i,
                forall|k: int|
                    0 <= k < i ==> (#[trigger] edges@[k]).idx == indices@[k] && *edges@[k].edge_accessor
                        == *self,
            decreases indices@.len() - i,
        {
            edges.push(self.half_edge(indices[i]));
            i = i + 1;
        }
        edges
    }

    /// The first edge leaving `src_idx` towards `dst_idx`; it uses linear search, but only on the
    /// source's leaving edges.
    pub fn between(&'a self, src_idx: NodeIdx, dst_idx: NodeIdx) -> (r: Option<HalfEdge<'a, M>>)
        requires
            self.wf(),
            src_idx.0 + 1 < self.offsets@.len(),
        ensures
            r is None <==> forall|k: int|
                0 <= k < self.leaving(src_idx).len() ==> self.edge_dsts@[(#[trigger] self.leaving(
                    src_idx,
                )[k]).0 as int] != dst_idx,
            r matches Some(h) ==> *h.edge_accessor == *self && exists|k: int|
                0 <= k < self.leaving(src_idx).len() && #[trigger] self.leaving(src_idx)[k] == h.idx
                    && self.edge_dsts@[h.idx.0 as int] == dst_idx && forall|j: int|
                    0 <= j < k ==> self.edge_dsts@[(#[trigger] self.leaving(src_idx)[j]).0 as int]
                        != dst_idx,
    {
        let indices = self.offset_indices(src_idx);
        let ghost l = self.leaving(src_idx);
        let mut i: usize = 0;
        while i < indices.len()
            invariant
                indices@ == l,
                l == self.leaving(src_idx),
                self.wf(),
                i <= l.len(),
                forall|j: int| 0 <= j < i ==> self.edge_dsts@[(#[trigger] l[j]).0 as int] != dst_idx,
            decreases l.len() - i,
        {
            let edge_idx = indices[i];
            if self.dst_idx(edge_idx).0 == dst_idx.0 {
                return Some(self.half_edge(edge_idx));
            }
            i = i + 1;
        }
        None
    }

    /// The indices of the edges leaving the given node, mapped to forward-indices; a node beyond
    /// the offset-array has none.
    fn offset_indices(&self, idx: NodeIdx) -> (r: Vec<EdgeIdx>)
        requires
            self.wf(),
        ensures
            r@ == self.leaving(idx),
    {
        let idx = idx.0;
        if idx >= self.offsets.len() || idx + 1 >= self.offsets.len() {
            return Vec::new();
        }
        let i0 = self.offsets[idx];
        let i1 = self.offsets[idx + 1];
        let mut edge_indices: Vec<EdgeIdx> = Vec::new();
        if i0 > i1 {
            return edge_indices;
        }
        let mut i: usize = i0;
        proof {
            assert(self.offsets@[idx + 1] <= self.edge_dsts@.len());
        }
        while i < i1
            invariant
                i0 <= i <= i1 <= self.xwd_to_fwd_map@.len(),
                edge_indices@ == self.xwd_to_fwd_map@.subrange(i0 as int, i as int),
            decreases i1 - i,
        {
            edge_indices.push(self.xwd_to_fwd_map[i]);
            i = i + 1;
            proof {
                assert(edge_indices@ =~= self.xwd_to_fwd_map@.subrange(i0 as int, i as int));
            }
        }
        edge_indices
    }
}

impl<'a, M> HalfEdge<'a, M> {
    pub fn idx(&self) -> (r: EdgeIdx)
        ensures
            r == self.idx,
    {
        self.idx
    }

    pub fn dst_idx(&self) -> (r: NodeIdx)
        requires
            self.idx.0 < self.edge_accessor.edge_dsts@.len(),
        ensures
            r == self.edge_accessor.edge_dsts@[self.idx.0 as int],
    {
        self.edge_accessor.dst_idx(self.idx)
    }

    pub fn is_shortcut(&self) -> (r: bool)
        requires
            self.edge_accessor.wf(),
            self.idx.0 < self.edge_accessor.edge_dsts@.len(),
        ensures
            r == self.edge_accessor.spec_is_shortcut(self.idx),
    {
        self.edge_accessor.is_shortcut(self.idx)
    }

    pub fn sc_edges(&self) -> (r: Option<&'a [EdgeIdx; 2]>)
        requires
            self.edge_accessor.wf(),
            self.idx.0 < self.edge_accessor.edge_dsts@.len(),
        ensures
            r is Some <==> self.edge_accessor.spec_is_shortcut(self.idx),
            r matches Some(sc) ==> *sc == self.edge_accessor.sc_edges@[self.edge_accessor.sc_offsets@[self.idx.0 as int] as int],
    {
        self.edge_accessor.sc_edges(self.idx)
    }

    pub fn metrics(&self) -> (r: &'a M)
        requires
            self.idx.0 < self.edge_accessor.metrics.metrics@.len(),
        ensures
            *r == self.edge_accessor.metrics.metrics@[self.idx.0 as int],
    {
        self.edge_accessor.metrics.get(self.idx)
    }
}

/// Stores graph-data as offset-graph in arrays and provides shallow accessors to them.
///
/// All data is stored with respect to the forward-graph: edges are sorted by (src-idx, dst-idx).
/// The edges leaving node `i` are `offsets[i]..offsets[i+1]`; the backward-edges are accessed
/// through their own offset-array and a mapping to forward-indices. Nodes after the last node
/// with leaving edges have no offsets.
pub struct Graph<C, M> {
    // nodes, ids sorted
    node_ids: Vec<i64>,
    // node-metrics
    node_coords: Vec<C>,
    node_ch_levels: Vec<usize>,
    // edges: offset-graph and mappings
    fwd_dsts: Vec<NodeIdx>,
    fwd_offsets: Vec<usize>,
    fwd_to_fwd_map: Vec<EdgeIdx>,
    bwd_dsts: Vec<NodeIdx>,
    bwd_offsets: Vec<usize>,
    bwd_to_fwd_map: Vec<EdgeIdx>,
    // edge-metrics (sorted according to fwd_dsts)
    metrics: Vec<M>,
    // mapping from id to edge-idx, sorted by id
    edge_ids: Vec<Option<usize>>,
    edge_ids_to_idx_map: Vec<(usize, EdgeIdx)>,
    // shortcuts (contraction-hierarchies)
    sc_offsets: Vec<usize>,
    sc_edges: Vec<[EdgeIdx; 2]>,
}

/// A position within the offsets of group `i` belongs to group `i`.
proof fn lemma_leaving_in_group(offsets: Seq<usize>, groups: Seq<usize>, i: int, k: int)
    requires
        offsets_partition(offsets, groups),
        0 <= i,
        i + 1 < offsets.len(),
        offsets[i] <= offsets[i + 1],
        0 <= k < offsets[i + 1] - offsets[i],
    ensures
        offsets[i] + k < groups.len(),
        groups[offsets[i] + k] == i,
{
    assert(offsets[i + 1] <= offsets[offsets.len() - 1]);
    let p = offsets[i] + k;
    assert(offsets[i] <= p < offsets[i + 1]);
}

/// Every position lies within the offsets of its group.
proof fn lemma_position_in_group(offsets: Seq<usize>, groups: Seq<usize>, p: int, i: int)
    requires
        offsets_partition(offsets, groups),
        0 <= p < groups.len(),
        0 <= i < offsets.len(),
        offsets[i] <= p,
    ensures
        groups[p] + 1 < offsets.len(),
        offsets[groups[p] as int] <= p < offsets[groups[p] + 1],
    decreases offsets.len() - i,
{
    if i + 1 < offsets.len() {
        if p < offsets[i + 1] {
            assert(groups[p] == i);
        } else {
            lemma_position_in_group(offsets, groups, p, i + 1);
        }
    } else {
        assert(offsets[offsets.len() - 1] == groups.len());
    }
}

/// The node-index of every position, taken as `usize`.
pub open spec fn node_indices(s: Seq<NodeIdx>) -> Seq<usize> {
    Seq::new(s.len(), |k: int| s[k].0)
}

/// Some position of the mapping maps to the forward-position `e`.
pub open spec fn maps_to(map: Seq<EdgeIdx>, e: usize) -> bool {
    exists|p: int| 0 <= p < map.len() && (#[trigger] map[p]).0 == e
}

/// The mapping maps its positions one-to-one onto the forward-positions.
pub open spec fn map_is_permutation(map: Seq<EdgeIdx>) -> bool {
    &&& forall|p: int, q: int| 0 <= p < q < map.len() ==> #[trigger] map[p] != #[trigger] map[q]
    &&& forall|e: usize| e < map.len() ==> #[trigger] maps_to(map, e)
}

/// The node-index at the forward-position that each backward-position maps to.
pub open spec fn mapped_node_indices(s: Seq<NodeIdx>, map: Seq<EdgeIdx>) -> Seq<usize> {
    Seq::new(map.len(), |k: int| s[map[k].0 as int].0)
}

impl<C: Copy, M> Graph<C, M> {
    pub closed spec fn view_node_ids(&self) -> Seq<i64> {
        self.node_ids@
    }

    pub closed spec fn view_node_coords(&self) -> Seq<C> {
        self.node_coords@
    }

    pub closed spec fn view_node_ch_levels(&self) -> Seq<usize> {
        self.node_ch_levels@
    }

    /// The source of every forward-edge.
    pub closed spec fn view_srcs(&self) -> Seq<NodeIdx> {
        self.bwd_dsts@
    }

    /// The destination of every forward-edge.
    pub closed spec fn view_dsts(&self) -> Seq<NodeIdx> {
        self.fwd_dsts@
    }

    pub closed spec fn view_edge_ids(&self) -> Seq<Option<usize>> {
        self.edge_ids@
    }

    pub closed spec fn view_metrics(&self) -> Seq<M> {
        self.metrics@
    }

    /// The pairs of edge-id and edge-index, sorted by id.
    pub closed spec fn view_id_map(&self) -> Seq<(usize, EdgeIdx)> {
        self.edge_ids_to_idx_map@
    }

    pub closed spec fn view_sc_offsets(&self) -> Seq<usize> {
        self.sc_offsets@
    }

    pub closed spec fn view_sc_edges(&self) -> Seq<[EdgeIdx; 2]> {
        self.sc_edges@
    }

    #[verifier::opaque]
    pub closed spec fn wf_nodes(&self) -> bool {
        let n = self.node_ids@.len();
        &&& ids_sorted(self.node_ids@)
        &&& self.node_coords@.len() == n
        &&& self.node_ch_levels@.len() == n
    }

    #[verifier::opaque]
    pub closed spec fn wf_edges(&self) -> bool {
        let n = self.node_ids@.len();
        let m = self.fwd_dsts@.len();
        &&& self.bwd_dsts@.len() == m
        &&& self.metrics@.len() == m
        &&& self.edge_ids@.len() == m
        &&& self.fwd_to_fwd_map@.len() == m
        &&& self.bwd_to_fwd_map@.len() == m
        &&& forall|k: int|
            0 <= k < m ==> (#[trigger] self.fwd_dsts@[k]).0 < n && self.bwd_dsts@[k].0 < n
        &&& forall|k: int| 0 <= k < m ==> #[trigger] self.fwd_to_fwd_map@[k] == EdgeIdx(k as usize)
        &&& forall|k: int| 0 <= k < m ==> (#[trigger] self.bwd_to_fwd_map@[k]).0 < m
    }

    #[verifier::opaque]
    pub closed spec fn wf_offsets(&self) -> bool {
        &&& self.fwd_offsets@.len() == self.node_ids@.len() + 1
        &&& self.bwd_offsets@.len() == self.node_ids@.len() + 1
        &&& map_is_permutation(self.bwd_to_fwd_map@)
        &&& offsets_partition(self.fwd_offsets@, node_indices(self.bwd_dsts@))
        &&& offsets_partition(
            self.bwd_offsets@,
            mapped_node_indices(self.fwd_dsts@, self.bwd_to_fwd_map@),
        )
    }

    #[verifier::opaque]
    pub closed spec fn wf_shortcuts(&self) -> bool {
        let m = self.fwd_dsts@.len();
        &&& self.sc_offsets@.len() == m + 1
        &&& nondecreasing(self.sc_offsets@)
        &&& self.sc_offsets@[m as int] == self.sc_edges@.len()
    }

    #[verifier::opaque]
    pub closed spec fn wf_ids(&self) -> bool {
        let m = self.fwd_dsts@.len();
        &&& id_map_sorted(self.edge_ids_to_idx_map@)
        &&& forall|k: int|
            0 <= k < self.edge_ids_to_idx_map@.len() ==> {
                let (id, e) = #[trigger] self.edge_ids_to_idx_map@[k];
                e.0 < m && self.edge_ids@[e.0 as int] == Some(id)
            }
        &&& forall|e: int|
            0 <= e < m && (#[trigger] self.edge_ids@[e]) is Some ==> self.edge_ids_to_idx_map@.contains(
                (self.edge_ids@[e]->0, EdgeIdx(e as usize)),
            )
    }

    /// The graph's arrays fit together (see the type's documentation).
    pub closed spec fn wf(&self) -> bool {
        &&& self.wf_nodes()
        &&& self.wf_edges()
        &&& self.wf_offsets()
        &&& self.wf_shortcuts()
        &&& self.wf_ids()
    }

    /// Puts the arrays of a graph together.
    pub(crate) fn from_parts(
        node_ids: Vec<i64>,
        node_coords: Vec<C>,
        node_ch_levels: Vec<usize>,
        fwd_dsts: Vec<NodeIdx>,
        fwd_offsets: Vec<usize>,
        fwd_to_fwd_map: Vec<EdgeIdx>,
        bwd_dsts: Vec<NodeIdx>,
        bwd_offsets: Vec<usize>,
        bwd_to_fwd_map: Vec<EdgeIdx>,
        metrics: Vec<M>,
        edge_ids: Vec<Option<usize>>,
        edge_ids_to_idx_map: Vec<(usize, EdgeIdx)>,
        sc_offsets: Vec<usize>,
        sc_edges: Vec<[EdgeIdx; 2]>,
    ) -> (g: Graph<C, M>)
        requires
            ids_sorted(node_ids@),
            node_coords@.len() == node_ids@.len(),
            node_ch_levels@.len() == node_ids@.len(),
            bwd_dsts@.len() == fwd_dsts@.len(),
            metrics@.len() == fwd_dsts@.len(),
            edge_ids@.len() == fwd_dsts@.len(),
            fwd_to_fwd_map@.len() == fwd_dsts@.len(),
            bwd_to_fwd_map@.len() == fwd_dsts@.len(),
            forall|k: int|
                0 <= k < fwd_dsts@.len() ==> (#[trigger] fwd_dsts@[k]).0 < node_ids@.len()
                    && bwd_dsts@[k].0 < node_ids@.len(),
            forall|k: int|
                0 <= k < fwd_dsts@.len() ==> #[trigger] fwd_to_fwd_map@[k] == EdgeIdx(k as usize),
            forall|k: int| 0 <= k < fwd_dsts@.len() ==> (#[trigger] bwd_to_fwd_map@[k]).0 < fwd_dsts@.len(),
            fwd_offsets@.len() == node_ids@.len() + 1,
            bwd_offsets@.len() == node_ids@.len() + 1,
            map_is_permutation(bwd_to_fwd_map@),
            offsets_partition(fwd_offsets@, node_indices(bwd_dsts@)),
            offsets_partition(bwd_offsets@, mapped_node_indices(fwd_dsts@, bwd_to_fwd_map@)),
            sc_offsets@.len() == fwd_dsts@.len() + 1,
            nondecreasing(sc_offsets@),
            sc_offsets@[fwd_dsts@.len() as int] == sc_edges@.len(),
            id_map_sorted(edge_ids_to_idx_map@),
            id_map_fits(edge_ids_to_idx_map@, edge_ids@),
        ensures
            g.wf(),
            g.view_node_ids() == node_ids@,
            g.view_node_coords() == node_coords@,
            g.view_node_ch_levels() == node_ch_levels@,
            g.view_srcs() == bwd_dsts@,
            g.view_dsts() == fwd_dsts@,
            g.view_edge_ids() == edge_ids@,
            g.view_metrics() == metrics@,
            g.view_sc_offsets() == sc_offsets@,
            g.view_id_map() == edge_ids_to_idx_map@,
            g.view_sc_edges() == sc_edges@,
    {
        let g = Graph {
            node_ids,
            node_coords,
            node_ch_levels,
            fwd_dsts,
            fwd_offsets,
            fwd_to_fwd_map,
            bwd_dsts,
            bwd_offsets,
            bwd_to_fwd_map,
            metrics,
            edge_ids,
            edge_ids_to_idx_map,
            sc_offsets,
            sc_edges,
        };
        proof {
            reveal(Graph::wf_nodes);
            reveal(Graph::wf_edges);
            reveal(Graph::wf_offsets);
            reveal(Graph::wf_shortcuts);
            reveal(Graph::wf_ids);
            reveal(id_map_fits);
        }
        g
    }

    /// The node-accessor of the graph, as a value of the specification.
    pub closed spec fn nodes_spec(&self) -> NodeAccessor<'_, C> {
        NodeAccessor {
            node_ids: &self.node_ids,
            node_coords: &self.node_coords,
            node_ch_levels: &self.node_ch_levels,
        }
    }

    pub fn nodes<'a>(&'a self) -> (r: NodeAccessor<'a, C>)
        requires
            self.wf(),
        ensures
            r.wf(),
            r.node_ids@ == self.view_node_ids(),
            r.node_coords@ == self.view_node_coords(),
            r.node_ch_levels@ == self.view_node_ch_levels(),
            r == self.nodes_spec(),
    {
        proof {
            reveal(Graph::wf_nodes);
        }
        NodeAccessor {
            node_ids: &self.node_ids,
            node_coords: &self.node_coords,
            node_ch_levels: &self.node_ch_levels,
        }
    }

    /// The accessor of the forward-edges, as a value of the specification.
    pub closed spec fn fwd_spec(&self) -> EdgeAccessor<'_, M> {
        EdgeAccessor {
            edge_ids: &self.edge_ids,
            edge_ids_to_idx_map: &self.edge_ids_to_idx_map,
            edge_dsts: &self.fwd_dsts,
            offsets: &self.fwd_offsets,
            xwd_to_fwd_map: &self.fwd_to_fwd_map,
            metrics: MetricAccessor { metrics: &self.metrics },
            sc_offsets: &self.sc_offsets,
            sc_edges: &self.sc_edges,
        }
    }

    /// The accessor of the backward-edges, as a value of the specification.
    pub closed spec fn bwd_spec(&self) -> EdgeAccessor<'_, M> {
        EdgeAccessor {
            edge_ids: &self.edge_ids,
            edge_ids_to_idx_map: &self.edge_ids_to_idx_map,
            edge_dsts: &self.bwd_dsts,
            offsets: &self.bwd_offsets,
            xwd_to_fwd_map: &self.bwd_to_fwd_map,
            metrics: MetricAccessor { metrics: &self.metrics },
            sc_offsets: &self.sc_offsets,
            sc_edges: &self.sc_edges,
        }
    }

    /// Forward- and backward-edges describe the same edges: every node of the graph has offsets
    /// in both; edge `e` leaves exactly its source forwards and exactly its destination
    /// backwards, so it leads from `u` to `v` forwards iff it leads from `v` to `u` backwards; and
    /// a node lists no edge exactly if none starts (or, backwards, ends) at it.
    #[verifier::spinoff_prover]
    pub proof fn lemma_fwd_bwd_correspond(&self)
        requires
            self.wf(),
        ensures
            self.fwd_spec().offsets@.len() == self.view_node_ids().len() + 1,
            self.bwd_spec().offsets@.len() == self.view_node_ids().len() + 1,
            self.view_srcs().len() == self.view_dsts().len(),
            self.fwd_spec().edge_dsts@ == self.view_dsts(),
            self.bwd_spec().edge_dsts@ == self.view_srcs(),
            forall|i: usize, e: int|
                0 <= e < self.view_dsts().len() ==> (#[trigger] self.fwd_spec().leaving(NodeIdx(i)).contains(
                    EdgeIdx(e as usize),
                ) <==> self.view_srcs()[e] == NodeIdx(i)),
            forall|i: usize, e: int|
                0 <= e < self.view_dsts().len() ==> (#[trigger] self.bwd_spec().leaving(NodeIdx(i)).contains(
                    EdgeIdx(e as usize),
                ) <==> self.view_dsts()[e] == NodeIdx(i)),
            forall|i: usize, k: int|
                0 <= k < self.fwd_spec().leaving(NodeIdx(i)).len() ==> (#[trigger] self.fwd_spec().leaving(
                    NodeIdx(i),
                )[k]).0 < self.view_dsts().len(),
            forall|i: usize, k: int|
                0 <= k < self.bwd_spec().leaving(NodeIdx(i)).len() ==> (#[trigger] self.bwd_spec().leaving(
                    NodeIdx(i),
                )[k]).0 < self.view_dsts().len(),
            forall|u: usize, v: usize, e: int|
                0 <= e < self.view_dsts().len() ==> ((#[trigger] self.fwd_spec().leaving(NodeIdx(u)).contains(
                    EdgeIdx(e as usize),
                ) && self.view_dsts()[e] == NodeIdx(v)) <==> (#[trigger] self.bwd_spec().leaving(
                    NodeIdx(v),
                ).contains(EdgeIdx(e as usize)) && self.view_srcs()[e] == NodeIdx(u))),
            forall|i: usize|
                #![trigger self.fwd_spec().leaving(NodeIdx(i))]
                (self.fwd_spec().leaving(NodeIdx(i)).len() == 0 <==> forall|e: int|
                    0 <= e < self.view_dsts().len() ==> self.view_srcs()[e] != NodeIdx(i)),
            forall|i: usize|
                #![trigger self.bwd_spec().leaving(NodeIdx(i))]
                (self.bwd_spec().leaving(NodeIdx(i)).len() == 0 <==> forall|e: int|
                    0 <= e < self.view_dsts().len() ==> self.view_dsts()[e] != NodeIdx(i)),
    {
        self.lemma_fwd_listing();
        self.lemma_bwd_listing();
        reveal(Graph::wf_edges);
        reveal(Graph::wf_offsets);
    }

    /// Every edge is listed forwards under its source, and only there.
    #[verifier::spinoff_prover]
    #[verifier::rlimit(80)]
    proof fn lemma_fwd_listing(&self)
        requires
            self.wf(),
        ensures
            forall|i: usize, e: int|
                0 <= e < self.view_dsts().len() ==> (#[trigger] self.fwd_spec().leaving(NodeIdx(i)).contains(
                    EdgeIdx(e as usize),
                ) <==> self.view_srcs()[e] == NodeIdx(i)),
            forall|i: usize, k: int|
                0 <= k < self.fwd_spec().leaving(NodeIdx(i)).len() ==> (#[trigger] self.fwd_spec().leaving(
                    NodeIdx(i),
                )[k]).0 < self.view_dsts().len(),
            forall|i: usize|
                #![trigger self.fwd_spec().leaving(NodeIdx(i))]
                (self.fwd_spec().leaving(NodeIdx(i)).len() == 0 <==> forall|e: int|
                    0 <= e < self.view_dsts().len() ==> self.view_srcs()[e] != NodeIdx(i)),
    {
        reveal(Graph::wf_edges);
        reveal(Graph::wf_offsets);
        let m = self.fwd_dsts@.len();
        let f = self.fwd_spec();
        let fo = self.fwd_offsets@;
        let fg = node_indices(self.bwd_dsts@);
        assert forall|i: int| 0 <= i < fo.len() implies #[trigger] fo[i] <= m by {
            assert(fo[i] <= fo[fo.len() - 1]);
        }
        assert forall|i: usize, k: int| 0 <= k < f.leaving(NodeIdx(i)).len() implies {
            let e = #[trigger] f.leaving(NodeIdx(i))[k];
            e.0 < m && self.bwd_dsts@[e.0 as int] == NodeIdx(i)
        } by {
            lemma_leaving_in_group(fo, fg, i as int, k);
            assert(f.leaving(NodeIdx(i))[k] == self.fwd_to_fwd_map@[fo[i as int] + k]);
        }
        assert forall|i: usize, e: int|
            0 <= e < m implies (#[trigger] f.leaving(NodeIdx(i)).contains(EdgeIdx(e as usize))
            <==> self.bwd_dsts@[e] == NodeIdx(i)) by {
            if f.leaving(NodeIdx(i)).contains(EdgeIdx(e as usize)) {
                let k = choose|k: int| 0 <= k < f.leaving(NodeIdx(i)).len() && f.leaving(NodeIdx(i))[k] == EdgeIdx(e as usize);
                assert(f.leaving(NodeIdx(i))[k] == EdgeIdx(e as usize));
            }
            if self.bwd_dsts@[e] == NodeIdx(i) {
                lemma_position_in_group(fo, fg, e, 0);
                let l = f.leaving(NodeIdx(i));
                assert(l[e - fo[i as int]] == self.fwd_to_fwd_map@[e]);
            }
        }
        assert forall|i: usize|
            #![trigger f.leaving(NodeIdx(i))]
            (f.leaving(NodeIdx(i)).len() == 0 <==> forall|e: int|
                0 <= e < self.view_dsts().len() ==> self.view_srcs()[e] != NodeIdx(i)) by {
            if f.leaving(NodeIdx(i)).len() != 0 {
                let e = f.leaving(NodeIdx(i))[0];
                assert(e.0 < m && self.bwd_dsts@[e.0 as int] == NodeIdx(i));
                assert(self.view_srcs()[e.0 as int] == NodeIdx(i));
            }
            if exists|e: int| 0 <= e < self.view_dsts().len() && self.view_srcs()[e] == NodeIdx(i) {
                let e = choose|e: int| 0 <= e < self.view_dsts().len() && self.view_srcs()[e] == NodeIdx(i);
                assert(f.leaving(NodeIdx(i)).contains(EdgeIdx(e as usize)));
            }
        }
    }

    /// Every edge is listed backwards under its destination, and only there.
    #[verifier::spinoff_prover]
    #[verifier::rlimit(80)]
    proof fn lemma_bwd_listing(&self)
        requires
            self.wf(),
        ensures
            forall|i: usize, e: int|
                0 <= e < self.view_dsts().len() ==> (#[trigger] self.bwd_spec().leaving(NodeIdx(i)).contains(
                    EdgeIdx(e as usize),
                ) <==> self.view_dsts()[e] == NodeIdx(i)),
            forall|i: usize, k: int|
                0 <= k < self.bwd_spec().leaving(NodeIdx(i)).len() ==> (#[trigger] self.bwd_spec().leaving(
                    NodeIdx(i),
                )[k]).0 < self.view_dsts().len(),
            forall|i: usize|
                #![trigger self.bwd_spec().leaving(NodeIdx(i))]
                (self.bwd_spec().leaving(NodeIdx(i)).len() == 0 <==> forall|e: int|
                    0 <= e < self.view_dsts().len() ==> self.view_dsts()[e] != NodeIdx(i)),
    {
        reveal(Graph::wf_edges);
        reveal(Graph::wf_offsets);
        let m = self.fwd_dsts@.len();
        let b = self.bwd_spec();
        let bo = self.bwd_offsets@;
        let bg = mapped_node_indices(self.fwd_dsts@, self.bwd_to_fwd_map@);
        let map = self.bwd_to_fwd_map@;
        assert forall|i: int| 0 <= i < bo.len() implies #[trigger] bo[i] <= m by {
            assert(bo[i] <= bo[bo.len() - 1]);
        }
        assert forall|i: usize, k: int| 0 <= k < b.leaving(NodeIdx(i)).len() implies {
            let e = #[trigger] b.leaving(NodeIdx(i))[k];
            e.0 < m && self.fwd_dsts@[e.0 as int] == NodeIdx(i)
        } by {
            lemma_leaving_in_group(bo, bg, i as int, k);
            assert(b.leaving(NodeIdx(i))[k] == map[bo[i as int] + k]);
        }
        assert forall|i: usize, e: int|
            0 <= e < m implies (#[trigger] b.leaving(NodeIdx(i)).contains(EdgeIdx(e as usize))
            <==> self.fwd_dsts@[e] == NodeIdx(i)) by {
            if b.leaving(NodeIdx(i)).contains(EdgeIdx(e as usize)) {
                let k = choose|k: int| 0 <= k < b.leaving(NodeIdx(i)).len() && b.leaving(NodeIdx(i))[k] == EdgeIdx(e as usize);
                assert(b.leaving(NodeIdx(i))[k] == EdgeIdx(e as usize));
            }
            if self.fwd_dsts@[e] == NodeIdx(i) {
                assert(maps_to(map, e as usize));
                let p = choose|p: int| 0 <= p < map.len() && (#[trigger] map[p]).0 == e as usize;
                lemma_position_in_group(bo, bg, p, 0);
                assert(map[p] == EdgeIdx(e as usize));
                let l = b.leaving(NodeIdx(i));
                assert(l[p - bo[i as int]] == map[p]);
            }
        }
        assert forall|i: usize|
            #![trigger b.leaving(NodeIdx(i))]
            (b.leaving(NodeIdx(i)).len() == 0 <==> forall|e: int|
                0 <= e < self.view_dsts().len() ==> self.view_dsts()[e] != NodeIdx(i)) by {
            if b.leaving(NodeIdx(i)).len() != 0 {
                let e = b.leaving(NodeIdx(i))[0];
                assert(e.0 < m && self.fwd_dsts@[e.0 as int] == NodeIdx(i));
                assert(self.view_dsts()[e.0 as int] == NodeIdx(i));
            }
            if exists|e: int| 0 <= e < self.view_dsts().len() && self.view_dsts()[e] == NodeIdx(i) {
                let e = choose|e: int| 0 <= e < self.view_dsts().len() && self.view_dsts()[e] == NodeIdx(i);
                assert(b.leaving(NodeIdx(i)).contains(EdgeIdx(e as usize)));
            }
        }
    }

    /// The forward-edges: the edges leaving a node lead to their destinations.
    #[verifier::spinoff_prover]
    pub fn fwd_edges<'a>(&'a self) -> (r: EdgeAccessor<'a, M>)
        requires
            self.wf(),
        ensures
            r.wf(),
            r.edge_dsts@ == self.view_dsts(),
            r.edge_ids@ == self.view_edge_ids(),
            r.edge_ids_to_idx_map@ == self.view_id_map(),
            r.metrics.metrics@ == self.view_metrics(),
            r.sc_offsets@ == self.view_sc_offsets(),
            r.sc_edges@ == self.view_sc_edges(),
            r == self.fwd_spec(),
            r.offsets@.len() == self.view_node_ids().len() + 1,
            forall|i: usize, k: int|
                0 <= k < r.leaving(NodeIdx(i)).len() ==> {
                    let e = #[trigger] r.leaving(NodeIdx(i))[k];
                    e.0 < self.view_dsts().len() && self.view_srcs()[e.0 as int] == NodeIdx(i)
                },
            forall|e: int|
                0 <= e < self.view_dsts().len() ==> r.leaving(#[trigger] self.view_srcs()[e]).contains(
                    EdgeIdx(e as usize),
                ),
            forall|i: usize| #[trigger] r.leaving(NodeIdx(i)).no_duplicates(),
    {
        let r = EdgeAccessor {
            edge_ids: &self.edge_ids,
            edge_ids_to_idx_map: &self.edge_ids_to_idx_map,
            edge_dsts: &self.fwd_dsts,
            offsets: &self.fwd_offsets,
            xwd_to_fwd_map: &self.fwd_to_fwd_map,
            metrics: MetricAccessor { metrics: &self.metrics },
            sc_offsets: &self.sc_offsets,
            sc_edges: &self.sc_edges,
        };
        proof {
            reveal(Graph::wf_edges);
            reveal(Graph::wf_offsets);
            reveal(Graph::wf_shortcuts);
            reveal(Graph::wf_ids);
            let o = self.fwd_offsets@;
            assert forall|i: int| 0 <= i < o.len() implies #[trigger] o[i] <= self.fwd_dsts@.len() by {
                assert(o[i] <= o[o.len() - 1]);
            }
            let groups = node_indices(self.bwd_dsts@);
            assert forall|i: usize, k: int|
                0 <= k < r.leaving(NodeIdx(i)).len() implies {
                    let e = #[trigger] r.leaving(NodeIdx(i))[k];
                    e.0 < self.view_dsts().len() && self.view_srcs()[e.0 as int] == NodeIdx(i)
                } by {
                let idx = NodeIdx(i);
                lemma_leaving_in_group(self.fwd_offsets@, groups, idx.0 as int, k);
                let p = self.fwd_offsets@[idx.0 as int] + k;
                assert(r.leaving(idx)[k] == self.fwd_to_fwd_map@[p]);
            }
            assert forall|e: int| 0 <= e < self.view_dsts().len() implies r.leaving(
                #[trigger] self.view_srcs()[e],
            ).contains(EdgeIdx(e as usize)) by {
                lemma_position_in_group(o, groups, e, 0);
                let i = groups[e] as int;
                assert(NodeIdx(i as usize) == self.view_srcs()[e]);
                let l = r.leaving(NodeIdx(i as usize));
                assert(l[e - o[i]] == self.fwd_to_fwd_map@[e]);
            }
            assert forall|i: usize| #[trigger] r.leaving(NodeIdx(i)).no_duplicates() by {
                let l = r.leaving(NodeIdx(i));
                if i + 1 < o.len() && o[i as int] <= o[i + 1] {
                    assert forall|a: int, b: int| 0 <= a < l.len() && 0 <= b < l.len() && a != b implies l[a]
                        != l[b] by {
                        assert(l[a] == self.fwd_to_fwd_map@[o[i as int] + a]);
                        assert(l[b] == self.fwd_to_fwd_map@[o[i as int] + b]);
                    }
                }
            }
        }
        r
    }

    /// The backward-edges: the edges leaving a node lead to the sources of the forward-edges
    /// that enter it.
    #[verifier::spinoff_prover]
    pub fn bwd_edges<'a>(&'a self) -> (r: EdgeAccessor<'a, M>)
        requires
            self.wf(),
        ensures
            r.wf(),
            r.edge_dsts@ == self.view_srcs(),
            self.view_srcs().len() == self.view_dsts().len(),
            r.edge_ids@ == self.view_edge_ids(),
            r.edge_ids_to_idx_map@ == self.view_id_map(),
            r.metrics.metrics@ == self.view_metrics(),
            r.sc_offsets@ == self.view_sc_offsets(),
            r.sc_edges@ == self.view_sc_edges(),
            r == self.bwd_spec(),
            r.offsets@.len() == self.view_node_ids().len() + 1,
            forall|i: usize, k: int|
                0 <= k < r.leaving(NodeIdx(i)).len() ==> {
                    let e = #[trigger] r.leaving(NodeIdx(i))[k];
                    e.0 < self.view_dsts().len() && self.view_dsts()[e.0 as int] == NodeIdx(i)
                },
            forall|e: int|
                0 <= e < self.view_dsts().len() ==> r.leaving(#[trigger] self.view_dsts()[e]).contains(
                    EdgeIdx(e as usize),
                ),
            forall|i: usize| #[trigger] r.leaving(NodeIdx(i)).no_duplicates(),
    {
        let r = EdgeAccessor {
            edge_ids: &self.edge_ids,
            edge_ids_to_idx_map: &self.edge_ids_to_idx_map,
            edge_dsts: &self.bwd_dsts,
            offsets: &self.bwd_offsets,
            xwd_to_fwd_map: &self.bwd_to_fwd_map,
            metrics: MetricAccessor { metrics: &self.metrics },
            sc_offsets: &self.sc_offsets,
            sc_edges: &self.sc_edges,
        };
        proof {
            reveal(Graph::wf_edges);
            reveal(Graph::wf_offsets);
            reveal(Graph::wf_shortcuts);
            reveal(Graph::wf_ids);
            let o = self.bwd_offsets@;
            assert forall|i: int| 0 <= i < o.len() implies #[trigger] o[i] <= self.fwd_dsts@.len() by {
                assert(o[i] <= o[o.len() - 1]);
            }
            let groups = mapped_node_indices(self.fwd_dsts@, self.bwd_to_fwd_map@);
            assert forall|i: usize, k: int|
                0 <= k < r.leaving(NodeIdx(i)).len() implies {
                    let e = #[trigger] r.leaving(NodeIdx(i))[k];
                    e.0 < self.view_dsts().len() && self.view_dsts()[e.0 as int] == NodeIdx(i)
                } by {
                let idx = NodeIdx(i);
                lemma_leaving_in_group(self.bwd_offsets@, groups, idx.0 as int, k);
                let p = self.bwd_offsets@[idx.0 as int] + k;
                assert(r.leaving(idx)[k] == self.bwd_to_fwd_map@[p]);
            }
            let map = self.bwd_to_fwd_map@;
            assert forall|e: int| 0 <= e < self.view_dsts().len() implies r.leaving(
                #[trigger] self.view_dsts()[e],
            ).contains(EdgeIdx(e as usize)) by {
                assert(maps_to(map, e as usize));
                let p = choose|p: int| 0 <= p < map.len() && (#[trigger] map[p]).0 == e as usize;
                lemma_position_in_group(o, groups, p, 0);
                let i = groups[p] as int;
                assert(map[p] == EdgeIdx(e as usize));
                assert(NodeIdx(i as usize) == self.view_dsts()[e]);
                let l = r.leaving(NodeIdx(i as usize));
                assert(l[p - o[i]] == map[p]);
            }
            assert forall|i: usize| #[trigger] r.leaving(NodeIdx(i)).no_duplicates() by {
                let l = r.leaving(NodeIdx(i));
                if i + 1 < o.len() && o[i as int] <= o[i + 1] {
                    assert forall|a: int, b: int| 0 <= a < l.len() && 0 <= b < l.len() && a != b implies l[a]
                        != l[b] by {
                        assert(l[a] == map[o[i as int] + a]);
                        assert(l[b] == map[o[i as int] + b]);
                    }
                }
            }
        }
        r
    }

    pub fn metrics<'a>(&'a self) -> (r: MetricAccessor<'a, M>)
        ensures
            r.metrics@ == self.view_metrics(),
    {
        MetricAccessor { metrics: &self.metrics }
    }
}

/// The positions that a listing of `count` entries shows when it shows at most `limit` lines:
/// all of them if they fit, else the first `limit - 1`, a gap (`None`) where more than one is
/// left out, and the last one.
pub open spec fn listed(count: nat, limit: nat) -> Seq<Option<usize>> {
    if count <= limit {
        Seq::new(count, |i: int| Some(i as usize))
    } else {
        Seq::new((limit - 1) as nat, |i: int| Some(i as usize)).push(None).push(Some((count - 1) as usize))
    }
}

/// Lists the positions of `count` entries that are shown when at most `limit` of them are.
pub fn listed_positions(count: usize, limit: usize) -> (r: Vec<Option<usize>>)
    requires
        limit >= 1,
    ensures
        r@ == listed(count as nat, limit as nat),
{
    let mut r: Vec<Option<usize>> = Vec::new();
    let mut i: usize = 0;
    while i < limit
        invariant_except_break
            limit >= 1,
            i < limit,
            i <= count,
            r@ == Seq::new(i as nat, |k: int| Some(k as usize)),
        ensures
            r@ == listed(count as nat, limit as nat),
        decreases limit - i,
    {
        if i < count {
            if i == limit - 1 {
                if i + 1 < count {
                    r.push(None);
                }
                r.push(Some(count - 1));
                proof {
                    if count <= limit {
                        assert(r@ =~= listed(count as nat, limit as nat));
                    } else {
                        assert(r@ =~= listed(count as nat, limit as nat));
                    }
                }
                break;
            }
            r.push(Some(i));
            proof {
                assert(r@ =~= Seq::new((i + 1) as nat, |k: int| Some(k as usize)));
            }
            i = i + 1;
        } else {
            proof {
                assert(r@ =~= listed(count as nat, limit as nat));
            }
            break;
        }
    }
    r
}

} // verus!
