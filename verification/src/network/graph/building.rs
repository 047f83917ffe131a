use super::container::nodes::{ids_sorted, search_id};
use super::{
    id_map_fits, id_map_sorted, map_is_permutation, mapped_node_indices, maps_to, node_indices, nondecreasing,
    EdgeIdx, Graph, NodeIdx,
};
use crate::helpers::sorting::{
    lemma_counted_twice, lemma_same_elements, lemma_sort_by_le_multiset, lemma_sort_by_le_sorted,
    lemma_twice_counted, merge_sort, sort_by_le,
};
use vstd::prelude::*;
use vstd::relations::sorted_by;

verus! {


/// The contraction-level a node gets when none is given.
pub const DEFAULT_CH_LEVEL: usize = 0;

/// Why finalizing a graph failed.
#[derive(Copy, Clone, Debug, PartialEq, Eq, Structural)]
pub enum BuildError {
    /// The node of this id belongs to an edge, but no coordinate was given for it.
    NodeWithoutCoord(i64),
    /// A metric is smaller than accuracy allows it.
    MetricTooSmall,
    /// The graph contains multiple edges of the same id.
    DuplicateEdgeId,
}

/// A node as read from the map-data.
#[derive(Copy, Clone, Debug)]
pub struct ProtoNode<C> {
    pub id: i64,
    pub coord: C,
    pub ch_level: Option<usize>,
}

/// An edge as read from the map-data, referring to its nodes by their ids.
#[derive(Clone, Debug)]
pub struct ProtoEdge<M> {
    pub id: Option<usize>,
    pub src_id: i64,
    pub dst_id: i64,
    pub metrics: M,
}

/// An edge, which may replace two other edges (a shortcut of contraction-hierarchies).
pub struct ProtoShortcut<M> {
    pub proto_edge: ProtoEdge<M>,
    pub sc_edges: Option<[EdgeIdx; 2]>,
}

impl<M> ProtoEdge<M> {
    /// The edge as an edge that replaces no other edges.
    pub fn into_shortcut(self) -> (sc: ProtoShortcut<M>)
        ensures
            sc.proto_edge == self,
            sc.sc_edges is None,
    {
        ProtoShortcut { proto_edge: self, sc_edges: None }
    }
}

/// A proto-edge as stored while collecting: its position, and its shortcut's position.
#[derive(Copy, Clone, Debug)]
struct ProtoEdgeA {
    idx: usize,
    id: Option<usize>,
    src_id: i64,
    dst_id: i64,
    sc_edges: Option<usize>,
}

/// The key of an edge: its id, and the ids of its source and destination.
pub type EdgeKey = (Option<usize>, i64, i64);

/// Collects proto-edges and the ids of their nodes.
pub struct EdgeBuilder<M> {
    node_ids: Vec<i64>,
    proto_edges: Vec<ProtoEdgeA>,
    proto_metrics: Vec<Option<M>>,
    proto_shortcuts: Vec<[EdgeIdx; 2]>,
}

/// The edges were collected in order, each with its metrics, and each shortcut of its own.
spec fn collected<M>(
    edges: Seq<ProtoEdgeA>,
    metrics: Seq<Option<M>>,
    shortcuts: Seq<[EdgeIdx; 2]>,
) -> bool {
    &&& metrics.len() == edges.len()
    &&& forall|k: int| 0 <= k < edges.len() ==> (#[trigger] edges[k]).idx == k
    &&& forall|k: int| 0 <= k < metrics.len() ==> (#[trigger] metrics[k]) is Some
    &&& forall|k: int|
        0 <= k < edges.len() && (#[trigger] edges[k]).sc_edges is Some ==> edges[k].sc_edges->0
            < shortcuts.len()
    &&& forall|a: int, b: int|
        0 <= a < b < edges.len() && (#[trigger] edges[a]).sc_edges is Some ==> (#[trigger] edges[b]).sc_edges
            != edges[a].sc_edges
}

/// The shortcut of every edge, by the edges it replaces.
spec fn shortcuts_of(edges: Seq<ProtoEdgeA>, shortcuts: Seq<[EdgeIdx; 2]>) -> Seq<Option<[EdgeIdx; 2]>> {
    edges.map_values(
        |e: ProtoEdgeA|
            match e.sc_edges {
                Some(s) => Some(shortcuts[s as int]),
                None => None,
            },
    )
}

/// Every shortcut replaces edges among the first `len` ones.
pub open spec fn shortcuts_within(shortcuts: Seq<Option<[EdgeIdx; 2]>>, len: int) -> bool {
    forall|i: int|
        0 <= i < shortcuts.len() && (#[trigger] shortcuts[i]) is Some ==> shortcuts[i]->0[0].0 < len
            && shortcuts[i]->0[1].0 < len
}

impl<M> EdgeBuilder<M> {
    /// The keys of the collected edges, in the order they were inserted.
    pub closed spec fn keys(&self) -> Seq<EdgeKey> {
        self.proto_edges@.map_values(|e: ProtoEdgeA| (e.id, e.src_id, e.dst_id))
    }

    /// The collected node-ids (with duplicates).
    pub closed spec fn node_ids(&self) -> Seq<i64> {
        self.node_ids@
    }

    /// The metrics of the collected edges, in the order they were inserted.
    pub closed spec fn metrics(&self) -> Seq<M> {
        self.proto_metrics@.map_values(|m: Option<M>| m->0)
    }

    /// The shortcuts of the collected edges, in the order they were inserted.
    pub closed spec fn shortcuts(&self) -> Seq<Option<[EdgeIdx; 2]>> {
        shortcuts_of(self.proto_edges@, self.proto_shortcuts@)
    }

    pub closed spec fn wf(&self) -> bool {
        &&& collected(self.proto_edges@, self.proto_metrics@, self.proto_shortcuts@)
        &&& forall|k: int|
            0 <= k < self.proto_edges@.len() ==> self.node_ids@.contains(
                (#[trigger] self.proto_edges@[k]).src_id,
            ) && self.node_ids@.contains(self.proto_edges@[k].dst_id)
        &&& forall|i: int|
            0 <= i < self.node_ids@.len() ==> proto_endpoint(self.proto_edges@, #[trigger] self.node_ids@[i])
    }
}


/// Some collected edge starts or ends at the node of the given id.
#[verifier::opaque]
spec fn proto_endpoint(edges: Seq<ProtoEdgeA>, id: i64) -> bool {
    exists|k: int| 0 <= k < edges.len() && ((#[trigger] edges[k]).src_id == id || edges[k].dst_id == id)
}

/// Inserting an edge and remembering its node-ids keeps every remembered id an endpoint.
proof fn lemma_insert_endpoints(
    old_ids: Seq<i64>,
    ids: Seq<i64>,
    old_edges: Seq<ProtoEdgeA>,
    edges: Seq<ProtoEdgeA>,
    src_id: i64,
    dst_id: i64,
)
    requires
        ids == old_ids + remembered_ids(old_ids, src_id, dst_id),
        edges.len() == old_edges.len() + 1,
        forall|k: int| 0 <= k < old_edges.len() ==> edges[k] == old_edges[k],
        edges[old_edges.len() as int].src_id == src_id,
        edges[old_edges.len() as int].dst_id == dst_id,
        forall|i: int| 0 <= i < old_ids.len() ==> proto_endpoint(old_edges, #[trigger] old_ids[i]),
    ensures
        forall|i: int| 0 <= i < ids.len() ==> proto_endpoint(edges, #[trigger] ids[i]),
{
    reveal(proto_endpoint);
    let r = remembered_ids(old_ids, src_id, dst_id);
    let new_k = old_edges.len() as int;
    assert forall|j: int| 0 <= j < r.len() implies #[trigger] r[j] == src_id || r[j] == dst_id by {}
    assert forall|i: int| 0 <= i < ids.len() implies proto_endpoint(edges, #[trigger] ids[i]) by {
        if i < old_ids.len() {
            assert(ids[i] == old_ids[i]);
            assert(proto_endpoint(old_edges, old_ids[i]));
            let k = choose|k: int|
                0 <= k < old_edges.len() && ((#[trigger] old_edges[k]).src_id == old_ids[i]
                    || old_edges[k].dst_id == old_ids[i]);
            assert(edges[k] == old_edges[k]);
        } else {
            assert(ids[i] == r[i - old_ids.len()]);
            assert(edges[new_k].src_id == ids[i] || edges[new_k].dst_id == ids[i]);
        }
    }
}

/// Some edge of the given keys starts or ends at the node of the given id.
pub open spec fn is_endpoint(keys: Seq<EdgeKey>, id: i64) -> bool {
    exists|k: int| 0 <= k < keys.len() && ((#[trigger] keys[k]).1 == id || keys[k].2 == id)
}

/// The ids that inserting an edge from `src_id` to `dst_id` remembers: both, if less than two
/// ids are remembered; otherwise each one that is none of the last two remembered ids.
pub open spec fn remembered_ids(ids: Seq<i64>, src_id: i64, dst_id: i64) -> Seq<i64> {
    let n = ids.len();
    if n < 2 {
        seq![src_id, dst_id]
    } else {
        let last_two = ids.subrange(n - 2, n as int);
        (if last_two.contains(src_id) {
            Seq::empty()
        } else {
            seq![src_id]
        }) + (if last_two.contains(dst_id) {
            Seq::empty()
        } else {
            seq![dst_id]
        })
    }
}

impl<M> EdgeBuilder<M> {
    /// Adds an edge and remembers the ids of its nodes.
    ///
    /// Most of the time, nodes are added for consecutive edges of one street, so duplicates are
    /// next to each other: an id is only remembered if it is none of the last two remembered ids.
    #[verifier::spinoff_prover]
    #[verifier::rlimit(40)]
    pub fn insert(&mut self, proto_edge: ProtoShortcut<M>)
        requires
            old(self).wf(),
        ensures
            final(self).wf(),
            final(self).keys() == old(self).keys().push(
                (proto_edge.proto_edge.id, proto_edge.proto_edge.src_id, proto_edge.proto_edge.dst_id),
            ),
            final(self).metrics() == old(self).metrics().push(proto_edge.proto_edge.metrics),
            final(self).shortcuts() == old(self).shortcuts().push(proto_edge.sc_edges),
            final(self).node_ids() == old(self).node_ids() + remembered_ids(
                old(self).node_ids(),
                proto_edge.proto_edge.src_id,
                proto_edge.proto_edge.dst_id,
            ),
    {
        let ProtoShortcut { proto_edge, sc_edges } = proto_edge;
        let ProtoEdge { id, src_id, dst_id, metrics } = proto_edge;
        let ghost old_ids = self.node_ids@;
        let n = self.node_ids.len();
        if n < 2 {
            self.node_ids.push(src_id);
            assert(self.node_ids@[n as int] == src_id);
            self.node_ids.push(dst_id);
            assert(self.node_ids@[n + 1] == dst_id);
            assert(self.node_ids@[n as int] == src_id);
            assert(self.node_ids@ =~= old_ids + remembered_ids(old_ids, src_id, dst_id));
        } else {
            let w0 = self.node_ids[n - 2];
            let w1 = self.node_ids[n - 1];
            let ghost last_two = old_ids.subrange(n - 2, n as int);
            proof {
                assert(last_two =~= seq![w0, w1]);
                assert(last_two.contains(src_id) <==> (w0 == src_id || w1 == src_id)) by {
                    if w0 == src_id {
                        assert(last_two[0] == src_id);
                    }
                    if w1 == src_id {
                        assert(last_two[1] == src_id);
                    }
                }
                assert(last_two.contains(dst_id) <==> (w0 == dst_id || w1 == dst_id)) by {
                    if w0 == dst_id {
                        assert(last_two[0] == dst_id);
                    }
                    if w1 == dst_id {
                        assert(last_two[1] == dst_id);
                    }
                }
            }
            if !(w0 == src_id || w1 == src_id) {
                self.node_ids.push(src_id);
                assert(self.node_ids@[n as int] == src_id);
            }
            assert(self.node_ids@.contains(src_id)) by {
                if w0 == src_id {
                    assert(self.node_ids@[n - 2] == src_id);
                } else if w1 == src_id {
                    assert(self.node_ids@[n - 1] == src_id);
                } else {
                    assert(self.node_ids@[n as int] == src_id);
                }
            }
            let ghost mid = self.node_ids@;
            if !(w0 == dst_id || w1 == dst_id) {
                self.node_ids.push(dst_id);
                assert(self.node_ids@[mid.len() as int] == dst_id);
            }
            assert(self.node_ids@.contains(dst_id)) by {
                if w0 == dst_id {
                    assert(self.node_ids@[n - 2] == dst_id);
                } else if w1 == dst_id {
                    assert(self.node_ids@[n - 1] == dst_id);
                } else {
                    assert(self.node_ids@[mid.len() as int] == dst_id);
                }
            }
            assert(self.node_ids@.contains(src_id)) by {
                let j = choose|j: int| 0 <= j < mid.len() && mid[j] == src_id;
                assert(self.node_ids@[j] == src_id);
            }
            assert(self.node_ids@ =~= old_ids + remembered_ids(old_ids, src_id, dst_id));
        }
        proof {
            assert(self.node_ids@.subrange(0, old_ids.len() as int) =~= old_ids);
            assert forall|k: int|
                0 <= k < old_ids.len() implies self.node_ids@[k] == old_ids[k] by {
                assert(self.node_ids@.subrange(0, old_ids.len() as int)[k] == old_ids[k]);
            }
            assert forall|x: i64| old_ids.contains(x) implies self.node_ids@.contains(x) by {
                let j = choose|j: int| 0 <= j < old_ids.len() && old_ids[j] == x;
                assert(self.node_ids@[j] == x);
            }
        }
        let idx = self.proto_edges.len();
        let ghost old_edges = self.proto_edges@;
        let ghost old_shortcuts = self.proto_shortcuts@;
        match sc_edges {
            Some(sc_edges) => {
                // save index to shortcut in proto-edge
                self.proto_edges.push(
                    ProtoEdgeA { idx, id, src_id, dst_id, sc_edges: Some(self.proto_shortcuts.len()) },
                );
                self.proto_shortcuts.push(sc_edges);
            },
            None => {
                self.proto_edges.push(ProtoEdgeA { idx, id, src_id, dst_id, sc_edges: None });
            },
        }
        let ghost old_metrics = self.proto_metrics@;
        self.proto_metrics.push(Some(metrics));
        proof {
            assert(self.keys() =~= old(self).keys().push((id, src_id, dst_id)));
            assert forall|k: int| 0 <= k < old_edges.len() implies (#[trigger] old_edges[k]).sc_edges
                matches Some(x) ==> x < old_shortcuts.len() && self.proto_shortcuts@[x as int]
                == old_shortcuts[x as int] by {
                assert(self.proto_edges@[k] == old_edges[k]);
            }
            assert(self.shortcuts() =~= old(self).shortcuts().push(sc_edges));
            lemma_insert_endpoints(old_ids, self.node_ids@, old_edges, self.proto_edges@, src_id, dst_id);
            assert forall|a: int, b: int|
                0 <= a < b < self.proto_edges@.len() && (#[trigger] self.proto_edges@[a]).sc_edges is Some implies (
                #[trigger] self.proto_edges@[b]).sc_edges != self.proto_edges@[a].sc_edges by {
                if b < old_edges.len() {
                    assert(old_edges[a] == self.proto_edges@[a]);
                    assert(old_edges[b] == self.proto_edges@[b]);
                } else {
                    assert(old_edges[a] == self.proto_edges@[a]);
                }
            }

            assert(self.proto_metrics@.map_values(|m: Option<M>| m->0) =~= old_metrics.map_values(
                |m: Option<M>| m->0,
            ).push(metrics));
            assert forall|k: int| 0 <= k < self.proto_edges@.len() implies self.node_ids@.contains(
                (#[trigger] self.proto_edges@[k]).src_id,
            ) && self.node_ids@.contains(self.proto_edges@[k].dst_id) by {
                if k < old_edges.len() {
                    assert(self.proto_edges@[k] == old_edges[k]);
                    assert(old_ids.contains(old_edges[k].src_id));
                    assert(old_ids.contains(old_edges[k].dst_id));
                }
            }
        }
    }

    /// Sorts the node-ids and removes duplicates; no coordinate is known yet.
    pub fn next<C: Copy>(self) -> (nb: NodeBuilder<C, M>)
        requires
            self.wf(),
        ensures
            nb.wf(),
            nb.keys() == self.keys(),
            nb.metrics() == self.metrics(),
            nb.shortcuts() == self.shortcuts(),
            forall|id: i64| nb.node_ids().contains(id) <==> self.node_ids().contains(id),
            forall|i: int| 0 <= i < nb.node_coords().len() ==> (#[trigger] nb.node_coords()[i]) is None,
            forall|i: int|
                0 <= i < nb.node_ch_levels().len() ==> #[trigger] nb.node_ch_levels()[i]
                    == DEFAULT_CH_LEVEL,
    {
        let node_ids = sorted_unique(&self.node_ids);
        let n = node_ids.len();
        let mut node_coords: Vec<Option<C>> = Vec::new();
        let mut node_ch_levels: Vec<usize> = Vec::new();
        let mut i: usize = 0;
        while i < n
            invariant
                i <= n,
                node_coords@.len() == i,
                node_ch_levels@.len() == i,
                forall|j: int| 0 <= j < i ==> (#[trigger] node_coords@[j]) is None,
                forall|j: int| 0 <= j < i ==> #[trigger] node_ch_levels@[j] == DEFAULT_CH_LEVEL,
            decreases n - i,
        {
            node_coords.push(None);
            node_ch_levels.push(DEFAULT_CH_LEVEL);
            i = i + 1;
        }
        let nb = NodeBuilder {
            node_ids,
            node_coords,
            node_ch_levels,
            proto_edges: self.proto_edges,
            proto_metrics: self.proto_metrics,
            proto_shortcuts: self.proto_shortcuts,
        };
        proof {
            assert forall|k: int| 0 <= k < nb.proto_edges@.len() implies nb.node_ids@.contains(
                (#[trigger] nb.proto_edges@[k]).src_id,
            ) && nb.node_ids@.contains(nb.proto_edges@[k].dst_id) by {
                assert(self.node_ids@.contains(self.proto_edges@[k].src_id));
                assert(self.node_ids@.contains(self.proto_edges@[k].dst_id));
            }
            assert forall|i: int| 0 <= i < nb.node_ids@.len() implies proto_endpoint(
                nb.proto_edges@,
                #[trigger] nb.node_ids@[i],
            ) by {
                assert(nb.node_ids@.contains(nb.node_ids@[i]));
                let j = choose|j: int| 0 <= j < self.node_ids@.len() && self.node_ids@[j] == nb.node_ids@[i];
                assert(proto_endpoint(self.proto_edges@, self.node_ids@[j]));
                assert(nb.proto_edges@ == self.proto_edges@);
            }
        }
        nb
    }
}

/// The ids, sorted and without duplicates.
fn sorted_unique(ids: &Vec<i64>) -> (r: Vec<i64>)
    ensures
        ids_sorted(r@),
        forall|id: i64| r@.contains(id) <==> ids@.contains(id),
{
    let le = |a: i64, b: i64| -> (r: bool)
        ensures
            r == (a <= b),
        { a <= b };
    let ghost sle = |a: i64, b: i64| a <= b;
    let sorted = merge_sort(ids, &le, Ghost(sle));
    proof {
        broadcast use {vstd::seq_lib::group_to_multiset_ensures, vstd::multiset::group_multiset_axioms};

        assert(vstd::relations::transitive(sle));
        assert(vstd::relations::strongly_connected(sle));
        lemma_sort_by_le_sorted(ids@, sle);
        lemma_sort_by_le_multiset(ids@, sle);
        assert forall|id: i64| sorted@.contains(id) <==> ids@.contains(id) by {
            assert(sorted@.to_multiset().count(id) == ids@.to_multiset().count(id));
        }
    }
    let mut r: Vec<i64> = Vec::new();
    let mut i: usize = 0;
    while i < sorted.len()
        invariant
            i <= sorted@.len(),
            sorted_by(sorted@, sle),
            sle == (|a: i64, b: i64| a <= b),
            ids_sorted(r@),
            forall|id: i64| r@.contains(id) <==> sorted@.take(i as int).contains(id),
            i > 0 ==> r@.len() > 0 && r@[r@.len() - 1] == sorted@[i - 1],
            i == 0 ==> r@.len() == 0,
        decreases sorted@.len() - i,
    {
        let x = sorted[i];
        let ghost old_r = r@;
        if r.len() == 0 || r[r.len() - 1] != x {
            proof {
                if r@.len() > 0 {
                    assert(sle(sorted@[i - 1], sorted@[i as int]));
                }
            }
            r.push(x);
        }
        proof {
            assert(sorted@.take(i + 1) =~= sorted@.take(i as int).push(x));
            assert forall|id: i64| r@.contains(id) <==> sorted@.take(i + 1).contains(id) by {
                if r@.contains(id) && id != x {
                    let j = choose|j: int| 0 <= j < r@.len() && r@[j] == id;
                    assert(old_r[j] == id);
                    assert(old_r.contains(id));
                    let t0 = sorted@.take(i as int);
                    let j2 = choose|j2: int| 0 <= j2 < t0.len() && t0[j2] == id;
                    assert(sorted@.take(i + 1)[j2] == id);
                }
                if sorted@.take(i + 1).contains(id) && id != x {
                    let t = sorted@.take(i + 1);
                    let j = choose|j: int| 0 <= j < t.len() && t[j] == id;
                    assert(j < i);
                    assert(sorted@.take(i as int)[j] == id);
                    assert(sorted@.take(i as int).contains(id));
                    assert(old_r.contains(id));
                    let j3 = choose|j3: int| 0 <= j3 < old_r.len() && old_r[j3] == id;
                    assert(r@[j3] == id);
                }
                if id == x {
                    assert(r@[r@.len() - 1] == x);
                    assert(sorted@.take(i + 1)[i as int] == x);
                }
            }
        }
        i = i + 1;
    }
    proof {
        assert(sorted@.take(sorted@.len() as int) =~= sorted@);
    }
    r
}

/// Adds coordinates (and contraction-levels) to the collected node-ids.
pub struct NodeBuilder<C, M> {
    node_ids: Vec<i64>,
    node_coords: Vec<Option<C>>,
    node_ch_levels: Vec<usize>,
    proto_edges: Vec<ProtoEdgeA>,
    proto_metrics: Vec<Option<M>>,
    proto_shortcuts: Vec<[EdgeIdx; 2]>,
}

impl<C: Copy, M> NodeBuilder<C, M> {
    pub closed spec fn keys(&self) -> Seq<EdgeKey> {
        self.proto_edges@.map_values(|e: ProtoEdgeA| (e.id, e.src_id, e.dst_id))
    }

    /// The metrics of the collected edges, in the order they were inserted.
    pub closed spec fn metrics(&self) -> Seq<M> {
        self.proto_metrics@.map_values(|m: Option<M>| m->0)
    }

    pub closed spec fn node_ids(&self) -> Seq<i64> {
        self.node_ids@
    }

    pub closed spec fn node_coords(&self) -> Seq<Option<C>> {
        self.node_coords@
    }

    pub closed spec fn node_ch_levels(&self) -> Seq<usize> {
        self.node_ch_levels@
    }

    /// The shortcuts of the collected edges, in the order they were inserted.
    pub closed spec fn shortcuts(&self) -> Seq<Option<[EdgeIdx; 2]>> {
        shortcuts_of(self.proto_edges@, self.proto_shortcuts@)
    }

    pub closed spec fn wf(&self) -> bool {
        &&& ids_sorted(self.node_ids@)
        &&& self.node_coords@.len() == self.node_ids@.len()
        &&& self.node_ch_levels@.len() == self.node_ids@.len()
        &&& collected(self.proto_edges@, self.proto_metrics@, self.proto_shortcuts@)
        &&& forall|k: int|
            0 <= k < self.proto_edges@.len() ==> self.node_ids@.contains(
                (#[trigger] self.proto_edges@[k]).src_id,
            ) && self.node_ids@.contains(self.proto_edges@[k].dst_id)
        &&& forall|i: int|
            0 <= i < self.node_ids@.len() ==> proto_endpoint(self.proto_edges@, #[trigger] self.node_ids@[i])
    }

    /// Sets the coordinate (and the level, if given) of a node that belongs to an edge;
    /// returns whether it does.
    pub fn insert(&mut self, proto_node: ProtoNode<C>) -> (r: bool)
        requires
            old(self).wf(),
        ensures
            final(self).wf(),
            final(self).keys() == old(self).keys(),
            final(self).metrics() == old(self).metrics(),
            final(self).shortcuts() == old(self).shortcuts(),
            final(self).node_ids() == old(self).node_ids(),
            r == old(self).node_ids().contains(proto_node.id),
            r == is_endpoint(old(self).keys(), proto_node.id),
            !r ==> final(self).node_coords() == old(self).node_coords() && final(self).node_ch_levels()
                == old(self).node_ch_levels(),
            r ==> exists|i: int|
                0 <= i < old(self).node_ids().len() && old(self).node_ids()[i] == proto_node.id
                    && final(self).node_coords() == old(self).node_coords().update(
                    i,
                    Some(proto_node.coord),
                ) && final(self).node_ch_levels() == match proto_node.ch_level {
                    Some(level) => old(self).node_ch_levels().update(i, level),
                    None => old(self).node_ch_levels(),
                },
    {
        proof {
            reveal(proto_endpoint);
            let keys = self.keys();
            let id = proto_node.id;
            if self.node_ids@.contains(id) {
                let i = choose|i: int| 0 <= i < self.node_ids@.len() && self.node_ids@[i] == id;
                assert(proto_endpoint(self.proto_edges@, self.node_ids@[i]));
                let k = choose|k: int|
                    0 <= k < self.proto_edges@.len() && ((#[trigger] self.proto_edges@[k]).src_id == id
                        || self.proto_edges@[k].dst_id == id);
                assert(keys[k] == (self.proto_edges@[k].id, self.proto_edges@[k].src_id, self.proto_edges@[k].dst_id));
            }
            if is_endpoint(keys, id) {
                let k = choose|k: int| 0 <= k < keys.len() && ((#[trigger] keys[k]).1 == id || keys[k].2 == id);
                assert(keys[k] == (self.proto_edges@[k].id, self.proto_edges@[k].src_id, self.proto_edges@[k].dst_id));
                assert(self.node_ids@.contains(self.proto_edges@[k].src_id));
            }
        }
        match search_id(&self.node_ids, proto_node.id) {
            Ok(idx) => {
                self.node_coords.set(idx, Some(proto_node.coord));
                if let Some(ch_level) = proto_node.ch_level {
                    self.node_ch_levels.set(idx, ch_level);
                }
                proof {
                    assert(old(self).node_ids()[idx as int] == proto_node.id);
                }
                true
            },
            Err(_) => false,
        }
    }

    /// Finishes adding nodes.
    pub fn next(self) -> (r: Result<GraphBuilder<C, M>, BuildError>)
        requires
            self.wf(),
        ensures
            r matches Ok(gb) && gb.wf() && gb.keys() == self.keys() && gb.metrics() == self.metrics()
                && gb.shortcuts() == self.shortcuts() && gb.node_ids() == self.node_ids() && gb.node_coords() == self.node_coords()
                && gb.node_ch_levels() == self.node_ch_levels(),
    {
        Ok(
            GraphBuilder {
                node_ids: self.node_ids,
                node_coords: self.node_coords,
                node_ch_levels: self.node_ch_levels,
                proto_edges: self.proto_edges,
                proto_metrics: self.proto_metrics,
                proto_shortcuts: self.proto_shortcuts,
            },
        )
    }
}

/// Creates the graph from the collected edges and nodes.
pub struct GraphBuilder<C, M> {
    node_ids: Vec<i64>,
    node_coords: Vec<Option<C>>,
    node_ch_levels: Vec<usize>,
    proto_edges: Vec<ProtoEdgeA>,
    proto_metrics: Vec<Option<M>>,
    proto_shortcuts: Vec<[EdgeIdx; 2]>,
}

impl<C: Copy, M> GraphBuilder<C, M> {
    pub closed spec fn keys(&self) -> Seq<EdgeKey> {
        self.proto_edges@.map_values(|e: ProtoEdgeA| (e.id, e.src_id, e.dst_id))
    }

    /// The metrics of the collected edges, in the order they were inserted.
    pub closed spec fn metrics(&self) -> Seq<M> {
        self.proto_metrics@.map_values(|m: Option<M>| m->0)
    }

    pub closed spec fn node_ids(&self) -> Seq<i64> {
        self.node_ids@
    }

    pub closed spec fn node_coords(&self) -> Seq<Option<C>> {
        self.node_coords@
    }

    pub closed spec fn node_ch_levels(&self) -> Seq<usize> {
        self.node_ch_levels@
    }

    /// The shortcuts of the collected edges, in the order they were inserted.
    pub closed spec fn shortcuts(&self) -> Seq<Option<[EdgeIdx; 2]>> {
        shortcuts_of(self.proto_edges@, self.proto_shortcuts@)
    }

    pub closed spec fn wf(&self) -> bool {
        &&& ids_sorted(self.node_ids@)
        &&& self.node_coords@.len() == self.node_ids@.len()
        &&& self.node_ch_levels@.len() == self.node_ids@.len()
        &&& collected(self.proto_edges@, self.proto_metrics@, self.proto_shortcuts@)
        &&& forall|k: int|
            0 <= k < self.proto_edges@.len() ==> self.node_ids@.contains(
                (#[trigger] self.proto_edges@[k]).src_id,
            ) && self.node_ids@.contains(self.proto_edges@[k].dst_id)
        &&& forall|i: int|
            0 <= i < self.node_ids@.len() ==> proto_endpoint(self.proto_edges@, #[trigger] self.node_ids@[i])
    }

    /// Starts collecting edges.
    pub fn new() -> (eb: EdgeBuilder<M>)
        ensures
            eb.wf(),
            eb.keys() == Seq::<EdgeKey>::empty(),
            eb.shortcuts() == Seq::<Option<[EdgeIdx; 2]>>::empty(),
            eb.node_ids() == Seq::<i64>::empty(),
    {
        let eb = EdgeBuilder {
            node_ids: Vec::new(),
            proto_edges: Vec::new(),
            proto_metrics: Vec::new(),
            proto_shortcuts: Vec::new(),
        };
        proof {
            assert(eb.keys() =~= Seq::<EdgeKey>::empty());
            assert(eb.shortcuts() =~= Seq::<Option<[EdgeIdx; 2]>>::empty());
        }
        eb
    }
}

//------------------------------------------------------------------------------------------------//
// finalizing, step by step

/// A proto-edge whose nodes are given by their indices.
#[derive(Copy, Clone, Debug)]
struct ProtoEdgeB {
    idx: usize,
    id: Option<usize>,
    src_idx: usize,
    dst_idx: usize,
    sc_edges: Option<usize>,
}

/// Forward-order: by source, then by destination.
spec fn fwd_le(a: ProtoEdgeB, b: ProtoEdgeB) -> bool {
    a.src_idx < b.src_idx || (a.src_idx == b.src_idx && a.dst_idx <= b.dst_idx)
}

/// Backward-order: by destination, then by source.
spec fn bwd_le(a: ProtoEdgeB, b: ProtoEdgeB) -> bool {
    a.dst_idx < b.dst_idx || (a.dst_idx == b.dst_idx && a.src_idx <= b.src_idx)
}

/// The coordinates, if every node has one; otherwise the id of the first node without one.
fn unwrap_coords<C: Copy>(node_ids: &Vec<i64>, node_coords: &Vec<Option<C>>) -> (r: Result<
    Vec<C>,
    BuildError,
>)
    requires
        node_coords@.len() == node_ids@.len(),
    ensures
        r is Ok <==> forall|i: int| 0 <= i < node_coords@.len() ==> (#[trigger] node_coords@[i]) is Some,
        r matches Ok(coords) ==> coords@.len() == node_coords@.len() && forall|i: int|
            0 <= i < coords@.len() ==> node_coords@[i] == Some(#[trigger] coords@[i]),
        r matches Err(e) ==> exists|i: int|
            0 <= i < node_coords@.len() && (#[trigger] node_coords@[i]) is None && e
                == BuildError::NodeWithoutCoord(node_ids@[i]) && forall|j: int|
                0 <= j < i ==> (#[trigger] node_coords@[j]) is Some,
{
    let mut coords: Vec<C> = Vec::new();
    let mut i: usize = 0;
    while i < node_coords.len()
        invariant
            node_coords@.len() == node_ids@.len(),
            i <= node_coords@.len(),
            coords@.len() == i,
            forall|j: int| 0 <= j < i ==> node_coords@[j] == Some(#[trigger] coords@[j]),
        decreases node_coords@.len() - i,
    {
        match node_coords[i] {
            Some(coord) => coords.push(coord),
            None => {
                // should not happen if the map-data is okay
                proof {
                    assert forall|j: int| 0 <= j < i implies (#[trigger] node_coords@[j]) is Some by {
                        assert(node_coords@[j] == Some(coords@[j]));
                    }
                }
                return Err(BuildError::NodeWithoutCoord(node_ids[i]));
            },
        }
        i = i + 1;
    }
    proof {
        assert forall|j: int| 0 <= j < node_coords@.len() implies (#[trigger] node_coords@[j]) is Some by {
            assert(node_coords@[j] == Some(coords@[j]));
        }
    }
    Ok(coords)
}

/// Replaces the edges' node-ids by node-indices.
fn to_idx_edges(node_ids: &Vec<i64>, proto_edges: &Vec<ProtoEdgeA>) -> (r: Vec<ProtoEdgeB>)
    requires
        ids_sorted(node_ids@),
        forall|k: int|
            0 <= k < proto_edges@.len() ==> node_ids@.contains((#[trigger] proto_edges@[k]).src_id)
                && node_ids@.contains(proto_edges@[k].dst_id),
    ensures
        r@.len() == proto_edges@.len(),
        forall|k: int|
            0 <= k < r@.len() ==> {
                let b = #[trigger] r@[k];
                let a = proto_edges@[k];
                &&& b.idx == a.idx
                &&& b.id == a.id
                &&& b.sc_edges == a.sc_edges
                &&& b.src_idx < node_ids@.len()
                &&& b.dst_idx < node_ids@.len()
                &&& node_ids@[b.src_idx as int] == a.src_id
                &&& node_ids@[b.dst_idx as int] == a.dst_id
            },
{
    let mut r: Vec<ProtoEdgeB> = Vec::new();
    let mut k: usize = 0;
    while k < proto_edges.len()
        invariant
            ids_sorted(node_ids@),
            forall|k: int|
                0 <= k < proto_edges@.len() ==> node_ids@.contains((#[trigger] proto_edges@[k]).src_id)
                    && node_ids@.contains(proto_edges@[k].dst_id),
            k <= proto_edges@.len(),
            r@.len() == k,
            forall|j: int|
                0 <= j < k ==> {
                    let b = #[trigger] r@[j];
                    let a = proto_edges@[j];
                    &&& b.idx == a.idx
                    &&& b.id == a.id
                    &&& b.sc_edges == a.sc_edges
                    &&& b.src_idx < node_ids@.len()
                    &&& b.dst_idx < node_ids@.len()
                    &&& node_ids@[b.src_idx as int] == a.src_id
                    &&& node_ids@[b.dst_idx as int] == a.dst_id
                },
        decreases proto_edges@.len() - k,
    {
        let a = proto_edges[k];
        proof {
            assert(node_ids@.contains(a.src_id));
            assert(node_ids@.contains(a.dst_id));
        }
        let src_idx = match search_id(node_ids, a.src_id) {
            Ok(idx) => idx,
            Err(_) => {
                proof {
                    let j = choose|j: int| 0 <= j < node_ids@.len() && node_ids@[j] == a.src_id;
                    assert(node_ids@[j] == a.src_id);
                }
                0
            },
        };
        let dst_idx = match search_id(node_ids, a.dst_id) {
            Ok(idx) => idx,
            Err(_) => {
                proof {
                    let j = choose|j: int| 0 <= j < node_ids@.len() && node_ids@[j] == a.dst_id;
                    assert(node_ids@[j] == a.dst_id);
                }
                0
            },
        };
        r.push(ProtoEdgeB { idx: a.idx, id: a.id, src_idx, dst_idx, sc_edges: a.sc_edges });
        k = k + 1;
    }
    r
}

/// Sorts proto-edges stably by source, then by destination.
fn sort_fwd(edges: &Vec<ProtoEdgeB>) -> (r: Vec<ProtoEdgeB>)
    ensures
        r@ == sort_by_le(edges@, |a: ProtoEdgeB, b: ProtoEdgeB| fwd_le(a, b)),
        r@.to_multiset() == edges@.to_multiset(),
        sorted_by(r@, |a: ProtoEdgeB, b: ProtoEdgeB| fwd_le(a, b)),
{
    let le = |a: ProtoEdgeB, b: ProtoEdgeB| -> (r: bool)
        ensures
            r == fwd_le(a, b),
        { a.src_idx < b.src_idx || (a.src_idx == b.src_idx && a.dst_idx <= b.dst_idx) };
    let ghost sle = |a: ProtoEdgeB, b: ProtoEdgeB| fwd_le(a, b);
    let r = merge_sort(edges, &le, Ghost(sle));
    proof {
        assert(vstd::relations::transitive(sle));
        assert(vstd::relations::strongly_connected(sle));
        lemma_sort_by_le_sorted(edges@, sle);
        lemma_sort_by_le_multiset(edges@, sle);
    }
    r
}

/// Sorts proto-edges stably by destination, then by source.
fn sort_bwd(edges: &Vec<ProtoEdgeB>) -> (r: Vec<ProtoEdgeB>)
    ensures
        r@.to_multiset() == edges@.to_multiset(),
        sorted_by(r@, |a: ProtoEdgeB, b: ProtoEdgeB| bwd_le(a, b)),
{
    let le = |a: ProtoEdgeB, b: ProtoEdgeB| -> (r: bool)
        ensures
            r == bwd_le(a, b),
        { a.dst_idx < b.dst_idx || (a.dst_idx == b.dst_idx && a.src_idx <= b.src_idx) };
    let ghost sle = |a: ProtoEdgeB, b: ProtoEdgeB| bwd_le(a, b);
    let r = merge_sort(edges, &le, Ghost(sle));
    proof {
        assert(vstd::relations::transitive(sle));
        assert(vstd::relations::strongly_connected(sle));
        lemma_sort_by_le_sorted(edges@, sle);
        lemma_sort_by_le_multiset(edges@, sle);
    }
    r
}

/// The edges were numbered by their position; a permutation of them keeps each edge with its
/// number, so the numbers are distinct.
proof fn lemma_permuted_numbers(b: Seq<ProtoEdgeB>, s: Seq<ProtoEdgeB>)
    requires
        forall|k: int| 0 <= k < b.len() ==> (#[trigger] b[k]).idx == k,
        s.to_multiset() == b.to_multiset(),
    ensures
        s.len() == b.len(),
        forall|i: int| 0 <= i < s.len() ==> (#[trigger] s[i]).idx < b.len() && s[i] == b[s[i].idx as int],
        forall|i: int, j: int| 0 <= i < j < s.len() ==> (#[trigger] s[i]).idx != (#[trigger] s[j]).idx,
{
    broadcast use {vstd::seq_lib::group_to_multiset_ensures, vstd::multiset::group_multiset_axioms};

    assert(s.len() == s.to_multiset().len());
    assert(b.len() == b.to_multiset().len());
    assert forall|i: int| 0 <= i < s.len() implies (#[trigger] s[i]).idx < b.len() && s[i] == b[s[i].idx as int] by {
        assert(s.contains(s[i]));
        assert(s.to_multiset().count(s[i]) > 0);
        assert(b.contains(s[i]));
        let p = choose|p: int| 0 <= p < b.len() && b[p] == s[i];
        assert(b[p].idx == p);
    }
    assert(b.no_duplicates()) by {
        assert forall|i: int, j: int| 0 <= i < b.len() && 0 <= j < b.len() && i != j implies b[i] != b[j] by {
            assert(b[i].idx == i);
            assert(b[j].idx == j);
        }
    }
    b.lemma_multiset_has_no_duplicates();
    assert forall|x: ProtoEdgeB| s.to_multiset().contains(x) implies s.to_multiset().count(x) == 1 by {
        assert(b.to_multiset().contains(x));
    }
    s.lemma_multiset_has_no_duplicates_conv();
    assert forall|i: int, j: int| 0 <= i < j < s.len() implies (#[trigger] s[i]).idx != (#[trigger] s[j]).idx by {
        if s[i].idx == s[j].idx {
            assert(s[i] == b[s[i].idx as int]);
            assert(s[j] == b[s[j].idx as int]);
        }
    }
}

/// Whether two edge-ids are equal.
fn same_id(a: Option<usize>, b: Option<usize>) -> (r: bool)
    ensures
        r == (a == b),
{
    match (a, b) {
        (Some(x), Some(y)) => x == y,
        (None, None) => true,
        _ => false,
    }
}

/// The number of entries of `s` from position `j` on that are at most `p`.
spec fn count_at_most(s: Seq<usize>, j: int, p: int) -> nat
    decreases s.len() - j,
{
    if j < 0 || j >= s.len() {
        0
    } else {
        (if s[j] <= p {
            1nat
        } else {
            0nat
        }) + count_at_most(s, j + 1, p)
    }
}

/// The position that the `p`-th of the sorted edges moves to once the positions in `removed` are
/// taken out.
spec fn shifted(removed: Seq<usize>, p: int) -> int {
    p - count_at_most(removed, 0, p)
}

proof fn lemma_count_at_most_push(s: Seq<usize>, x: usize, j: int, p: int)
    requires
        0 <= j <= s.len(),
    ensures
        count_at_most(s.push(x), j, p) == count_at_most(s, j, p) + (if x <= p {
            1nat
        } else {
            0nat
        }),
    decreases s.len() - j,
{
    if j < s.len() {
        lemma_count_at_most_push(s, x, j + 1, p);
        assert(s.push(x)[j] == s[j]);
    } else {
        assert(s.push(x)[j] == x);
        assert(count_at_most(s.push(x), j + 1, p) == 0);
    }
}

proof fn lemma_count_at_most_all(s: Seq<usize>, j: int, p: int)
    requires
        0 <= j <= s.len(),
        forall|i: int| j <= i < s.len() ==> #[trigger] s[i] <= p,
    ensures
        count_at_most(s, j, p) == s.len() - j,
    decreases s.len() - j,
{
    if j < s.len() {
        lemma_count_at_most_all(s, j + 1, p);
    }
}

/// The edges have the same id, source and destination.
spec fn same_key(a: ProtoEdgeB, b: ProtoEdgeB) -> bool {
    a.id == b.id && a.src_idx == b.src_idx && a.dst_idx == b.dst_idx
}

/// The edge `e` is the kept edge `k` itself, or `same_metrics` told that their metrics are the
/// same.
spec fn merged_into<M, E: Fn(&M, &M) -> bool>(
    same_metrics: E,
    metrics: Seq<Option<M>>,
    k: ProtoEdgeB,
    e: ProtoEdgeB,
) -> bool {
    k == e || same_metrics.ensures((&metrics[k.idx as int]->0, &metrics[e.idx as int]->0), true)
}

/// Removes duplicated proto-edges: an edge is a duplicate if it has the same id, source and
/// destination as the last edge kept before it, and `same_metrics` holds for their metrics.
/// Returns the kept edges and the positions of the removed ones.
fn remove_duplicates<M, E: Fn(&M, &M) -> bool>(
    sorted: &Vec<ProtoEdgeB>,
    metrics: &Vec<Option<M>>,
    same_metrics: &E,
) -> (r: (Vec<ProtoEdgeB>, Vec<usize>))
    requires
        forall|k: int|
            0 <= k < sorted@.len() ==> (#[trigger] sorted@[k]).idx < metrics@.len()
                && metrics@[sorted@[k].idx as int] is Some,
        forall|a: &M, b: &M| #[trigger] same_metrics.requires((a, b)),
        sorted_by(sorted@, |a: ProtoEdgeB, b: ProtoEdgeB| fwd_le(a, b)),
        forall|i: int, j: int| 0 <= i < j < sorted@.len() ==> (#[trigger] sorted@[i]).idx != (#[trigger] sorted@[j]).idx,
    ensures
        r.0@.len() + r.1@.len() == sorted@.len(),
        forall|k: int| 0 <= k < r.0@.len() ==> sorted@.contains(#[trigger] r.0@[k]),
        forall|j: int|
            0 <= j < sorted@.len() ==> exists|k: int|
                0 <= k < r.0@.len() && (#[trigger] r.0@[k]).id == (#[trigger] sorted@[j]).id
                    && r.0@[k].src_idx == sorted@[j].src_idx && r.0@[k].dst_idx == sorted@[j].dst_idx,
        forall|i: int, j: int| 0 <= i < j < r.0@.len() ==> fwd_le(#[trigger] r.0@[i], #[trigger] r.0@[j]),
        forall|i: int, j: int| 0 <= i < j < r.0@.len() ==> (#[trigger] r.0@[i]).idx != (#[trigger] r.0@[j]).idx,
        forall|i: int, j: int| 0 <= i < j < r.1@.len() ==> r.1@[i] < r.1@[j],
        forall|i: int| 0 <= i < r.1@.len() ==> 1 <= #[trigger] r.1@[i] < sorted@.len(),
        forall|p: int|
            0 <= p < sorted@.len() ==> 0 <= #[trigger] shifted(r.1@, p) < r.0@.len() && same_key(
                r.0@[shifted(r.1@, p)],
                sorted@[p],
            ) && merged_into(*same_metrics, metrics@, r.0@[shifted(r.1@, p)], sorted@[p]),
{
    let ghost sle = |a: ProtoEdgeB, b: ProtoEdgeB| fwd_le(a, b);
    let mut kept: Vec<ProtoEdgeB> = Vec::new();
    let mut removed: Vec<usize> = Vec::new();
    if sorted.len() == 0 {
        return (kept, removed);
    }
    kept.push(sorted[0]);
    // the position in `sorted` of every kept edge
    let ghost mut pos: Seq<int> = seq![0int];
    let mut r: usize = 1;
    proof {
        assert(kept@[0] == sorted@[0]);
    }
    while r < sorted.len()
        invariant
            1 <= r <= sorted@.len(),
            forall|k: int|
                0 <= k < sorted@.len() ==> (#[trigger] sorted@[k]).idx < metrics@.len()
                    && metrics@[sorted@[k].idx as int] is Some,
            forall|a: &M, b: &M| #[trigger] same_metrics.requires((a, b)),
            sorted_by(sorted@, sle),
            sle == (|a: ProtoEdgeB, b: ProtoEdgeB| fwd_le(a, b)),
            forall|i: int, j: int| 0 <= i < j < sorted@.len() ==> (#[trigger] sorted@[i]).idx != (#[trigger] sorted@[j]).idx,
            kept@.len() + removed@.len() == r,
            kept@.len() >= 1,
            pos.len() == kept@.len(),
            forall|k: int| 0 <= k < pos.len() ==> 0 <= #[trigger] pos[k] < r && kept@[k] == sorted@[pos[k]],
            forall|i: int, j: int| 0 <= i < j < pos.len() ==> pos[i] < pos[j],
            forall|j: int|
                0 <= j < r ==> exists|k: int|
                    0 <= k < kept@.len() && (#[trigger] kept@[k]).id == (#[trigger] sorted@[j]).id
                        && kept@[k].src_idx == sorted@[j].src_idx && kept@[k].dst_idx
                        == sorted@[j].dst_idx,
            forall|i: int, j: int| 0 <= i < j < removed@.len() ==> removed@[i] < removed@[j],
            forall|i: int| 0 <= i < removed@.len() ==> 1 <= #[trigger] removed@[i] < r,
            forall|p: int|
                0 <= p < r ==> 0 <= #[trigger] shifted(removed@, p) < kept@.len() && same_key(
                    kept@[shifted(removed@, p)],
                    sorted@[p],
                ) && merged_into(*same_metrics, metrics@, kept@[shifted(removed@, p)], sorted@[p]),
        decreases sorted@.len() - r,
    {
        let e0 = kept[kept.len() - 1];
        let e1 = sorted[r];
        // compare id, src and dst, then the metrics
        let mut is_duplicate = same_id(e0.id, e1.id) && e0.src_idx == e1.src_idx && e0.dst_idx
            == e1.dst_idx;
        if is_duplicate {
            proof {
                assert(kept@[kept@.len() - 1] == sorted@[pos[pos.len() - 1]]);
            }
            let m0 = metrics[e0.idx].as_ref().unwrap();
            let m1 = metrics[e1.idx].as_ref().unwrap();
            is_duplicate = same_metrics(m0, m1);
            proof {
                assert(is_duplicate ==> merged_into(*same_metrics, metrics@, e0, e1));
            }
        }
        proof {
            assert(is_duplicate ==> merged_into(*same_metrics, metrics@, e0, e1));
            assert(e1 == sorted@[r as int]);
        }
        let ghost old_kept = kept@;
        let ghost old_removed = removed@;
        proof {
            assert forall|p: int| 0 <= p <= r implies #[trigger] count_at_most(old_removed.push(r), 0, p)
                == count_at_most(old_removed, 0, p) + (if r <= p {
                1nat
            } else {
                0nat
            }) by {
                lemma_count_at_most_push(old_removed, r, 0, p);
            }
            lemma_count_at_most_all(old_removed, 0, r as int);
        }
        if is_duplicate {
            removed.push(r);
            proof {
                assert forall|p: int|
                    0 <= p < r + 1 implies 0 <= #[trigger] shifted(removed@, p) < kept@.len() && same_key(
                        kept@[shifted(removed@, p)],
                        sorted@[p],
                    ) && merged_into(*same_metrics, metrics@, kept@[shifted(removed@, p)], sorted@[p]) by {
                    assert(count_at_most(old_removed.push(r), 0, p) == count_at_most(old_removed, 0, p) + (if r <= p {
                        1nat
                    } else {
                        0nat
                    }));
                    if p == r {
                        assert(count_at_most(old_removed, 0, p) == old_removed.len());
                        assert(shifted(removed@, p) == kept@.len() - 1);
                        assert(kept@[kept@.len() - 1] == e0);
                        assert(merged_into(*same_metrics, metrics@, e0, e1));
                    } else {
                        assert(shifted(removed@, p) == shifted(old_removed, p));
                        assert(0 <= shifted(old_removed, p) < kept@.len());
                    }
                }
                assert forall|j: int|
                    0 <= j < r + 1 implies exists|k: int|
                    0 <= k < kept@.len() && (#[trigger] kept@[k]).id == (#[trigger] sorted@[j]).id
                        && kept@[k].src_idx == sorted@[j].src_idx && kept@[k].dst_idx
                        == sorted@[j].dst_idx by {
                    if j == r {
                        let k = kept@.len() - 1;
                        assert(kept@[k] == e0);
                    }
                }
            }
        } else {
            kept.push(e1);
            proof {
                assert forall|p: int|
                    0 <= p < r + 1 implies 0 <= #[trigger] shifted(removed@, p) < kept@.len() && same_key(
                        kept@[shifted(removed@, p)],
                        sorted@[p],
                    ) && merged_into(*same_metrics, metrics@, kept@[shifted(removed@, p)], sorted@[p]) by {
                    if p < r {
                        assert(0 <= shifted(old_removed, p) < old_kept.len());
                        assert(kept@[shifted(removed@, p)] == old_kept[shifted(removed@, p)]);
                    } else {
                        assert(count_at_most(old_removed, 0, p) == old_removed.len());
                        assert(shifted(removed@, p) == old_kept.len());
                        assert(kept@[old_kept.len() as int] == e1);
                    }
                }
                pos = pos.push(r as int);
                assert forall|j: int|
                    0 <= j < r + 1 implies exists|k: int|
                    0 <= k < kept@.len() && (#[trigger] kept@[k]).id == (#[trigger] sorted@[j]).id
                        && kept@[k].src_idx == sorted@[j].src_idx && kept@[k].dst_idx
                        == sorted@[j].dst_idx by {
                    if j == r {
                        assert(kept@[kept@.len() - 1] == sorted@[j]);
                    } else {
                        let k = choose|k: int|
                            0 <= k < old_kept.len() && (#[trigger] old_kept[k]).id == sorted@[j].id
                                && old_kept[k].src_idx == sorted@[j].src_idx && old_kept[k].dst_idx
                                == sorted@[j].dst_idx;
                        assert(kept@[k] == old_kept[k]);
                    }
                }
            }
        }
        r = r + 1;
    }
    proof {
        assert forall|k: int| 0 <= k < kept@.len() implies sorted@.contains(#[trigger] kept@[k]) by {
            assert(kept@[k] == sorted@[pos[k]]);
        }
        assert forall|i: int, j: int| 0 <= i < j < kept@.len() implies fwd_le(#[trigger] kept@[i], #[trigger] kept@[j]) by {
            assert(kept@[i] == sorted@[pos[i]]);
            assert(kept@[j] == sorted@[pos[j]]);
            assert(sle(sorted@[pos[i]], sorted@[pos[j]]));
        }
        assert forall|i: int, j: int| 0 <= i < j < kept@.len() implies (#[trigger] kept@[i]).idx != (#[trigger] kept@[j]).idx by {
            assert(kept@[i] == sorted@[pos[i]]);
            assert(kept@[j] == sorted@[pos[j]]);
        }
    }
    (kept, removed)
}

/// The shortcuts that the collected edges refer to lead to edges below `len`.
spec fn used_shortcuts_below(edges: Seq<ProtoEdgeA>, shortcuts: Seq<[EdgeIdx; 2]>, len: int) -> bool {
    forall|k: int|
        0 <= k < edges.len() && (#[trigger] edges[k]).sc_edges is Some ==> shortcuts[edges[k].sc_edges->0 as int][0].0
            < len && shortcuts[edges[k].sc_edges->0 as int][1].0 < len
}

/// Every edge's shortcut lies within the shortcuts.
spec fn shortcut_refs_below(edges: Seq<ProtoEdgeB>, len: int) -> bool {
    forall|k: int|
        0 <= k < edges.len() && (#[trigger] edges[k]).sc_edges is Some ==> edges[k].sc_edges->0 < len
}

/// No two edges share a shortcut.
spec fn shortcut_refs_distinct(edges: Seq<ProtoEdgeB>) -> bool {
    forall|a: int, b: int|
        0 <= a < b < edges.len() && (#[trigger] edges[a]).sc_edges is Some ==> (#[trigger] edges[b]).sc_edges
            != edges[a].sc_edges
}

/// The edge inserted as `y`-th stands at position `x` of `sorted`.
spec fn moved_to(sorted: Seq<ProtoEdgeB>, y: EdgeIdx, x: EdgeIdx) -> bool {
    x.0 < sorted.len() && sorted[x.0 as int].idx == y.0
}

/// The edge inserted as `y`-th stands somewhere in `sorted`.
spec fn placed(sorted: Seq<ProtoEdgeB>, y: usize) -> bool {
    exists|p: int| 0 <= p < sorted.len() && (#[trigger] sorted[p]).idx == y
}

/// Maps the shortcuts' edge-indices, which refer to the order of insertion, to the sorted order.
fn remap_shortcuts(sorted: &Vec<ProtoEdgeB>, shortcuts: &mut Vec<[EdgeIdx; 2]>)
    requires
        forall|k: int| 0 <= k < sorted@.len() ==> (#[trigger] sorted@[k]).idx < sorted@.len(),
        forall|i: int, j: int| 0 <= i < j < sorted@.len() ==> (#[trigger] sorted@[i]).idx != (#[trigger] sorted@[j]).idx,
        forall|y: usize| y < sorted@.len() ==> #[trigger] placed(sorted@, y),
        shortcut_refs_below(sorted@, old(shortcuts)@.len() as int),
        shortcut_refs_distinct(sorted@),
        kept_shortcuts_below(sorted@, old(shortcuts)@, sorted@.len() as int),
    ensures
        final(shortcuts)@.len() == old(shortcuts)@.len(),
        forall|k: int|
            0 <= k < sorted@.len() && (#[trigger] sorted@[k]).sc_edges is Some ==> {
                let x = sorted@[k].sc_edges->0 as int;
                &&& moved_to(sorted@, old(shortcuts)@[x][0], final(shortcuts)@[x][0])
                &&& moved_to(sorted@, old(shortcuts)@[x][1], final(shortcuts)@[x][1])
            },
{
    let len = sorted.len();
    // create mapping: old-idx -> new-idx
    let mut new_indices: Vec<usize> = Vec::new();
    let mut i: usize = 0;
    while i < len
        invariant
            i <= len == sorted@.len(),
            new_indices@.len() == i,
            forall|j: int| 0 <= j < i ==> #[trigger] new_indices@[j] < len,
        decreases len - i,
    {
        new_indices.push(0);
        i = i + 1;
    }
    let mut new_idx: usize = 0;
    while new_idx < len
        invariant
            len == sorted@.len(),
            new_idx <= len,
            new_indices@.len() == len,
            forall|k: int| 0 <= k < sorted@.len() ==> (#[trigger] sorted@[k]).idx < sorted@.len(),
            forall|i: int, j: int| 0 <= i < j < sorted@.len() ==> (#[trigger] sorted@[i]).idx != (#[trigger] sorted@[j]).idx,
            forall|j: int| 0 <= j < len ==> #[trigger] new_indices@[j] < len,
            forall|p: int| 0 <= p < new_idx ==> new_indices@[(#[trigger] sorted@[p]).idx as int] == p,
        decreases len - new_idx,
    {
        let ghost before = new_indices@;
        new_indices.set(sorted[new_idx].idx, new_idx);
        proof {
            assert forall|p: int| 0 <= p < new_idx + 1 implies new_indices@[(#[trigger] sorted@[p]).idx as int] == p by {
                if p < new_idx {
                    assert(sorted@[p].idx != sorted@[new_idx as int].idx);
                }
            }
        }
        new_idx = new_idx + 1;
    }
    proof {
        assert forall|y: usize| y < len implies moved_to(sorted@, EdgeIdx(y), EdgeIdx(#[trigger] new_indices@[y as int])) by {
            assert(placed(sorted@, y));
            let p = choose|p: int| 0 <= p < sorted@.len() && (#[trigger] sorted@[p]).idx == y;
            assert(new_indices@[sorted@[p].idx as int] == p);
        }
    }
    // update shortcuts due to new sorted proto-edges
    let mut k: usize = 0;
    while k < len
        invariant
            len == sorted@.len(),
            k <= len,
            new_indices@.len() == len,
            forall|y: usize| y < len ==> moved_to(sorted@, EdgeIdx(y), EdgeIdx(#[trigger] new_indices@[y as int])),
            shortcuts@.len() == old(shortcuts)@.len(),
            shortcut_refs_below(sorted@, shortcuts@.len() as int),
            shortcut_refs_distinct(sorted@),
            kept_shortcuts_below(sorted@, old(shortcuts)@, len as int),
            forall|j: int|
                0 <= j < len && (#[trigger] sorted@[j]).sc_edges is Some ==> {
                    let x = sorted@[j].sc_edges->0 as int;
                    &&& j < k ==> moved_to(sorted@, old(shortcuts)@[x][0], shortcuts@[x][0])
                        && moved_to(sorted@, old(shortcuts)@[x][1], shortcuts@[x][1])
                    &&& j >= k ==> shortcuts@[x] == old(shortcuts)@[x]
                },
        decreases len - k,
    {
        if let Some(sc_idx) = sorted[k].sc_edges {
            let sc = shortcuts[sc_idx];
            let new_sc = [EdgeIdx(new_indices[sc[0].0]), EdgeIdx(new_indices[sc[1].0])];
            let ghost before = shortcuts@;
            shortcuts.set(sc_idx, new_sc);
            proof {
                assert(sc == old(shortcuts)@[sc_idx as int]);
                assert(moved_to(sorted@, EdgeIdx(sc[0].0), EdgeIdx(new_indices@[sc[0].0 as int])));
                assert(moved_to(sorted@, EdgeIdx(sc[1].0), EdgeIdx(new_indices@[sc[1].0 as int])));
                assert(EdgeIdx(sc[0].0) == sc[0]);
                assert(EdgeIdx(sc[1].0) == sc[1]);
                assert forall|j: int|
                    0 <= j < len && (#[trigger] sorted@[j]).sc_edges is Some implies {
                        let x = sorted@[j].sc_edges->0 as int;
                        &&& j < k + 1 ==> moved_to(sorted@, old(shortcuts)@[x][0], shortcuts@[x][0])
                            && moved_to(sorted@, old(shortcuts)@[x][1], shortcuts@[x][1])
                        &&& j >= k + 1 ==> shortcuts@[x] == old(shortcuts)@[x]
                    } by {
                    if j != k {
                        if j < k {
                            assert(sorted@[k as int].sc_edges != sorted@[j].sc_edges);
                        } else {
                            assert(sorted@[j].sc_edges != sorted@[k as int].sc_edges);
                        }
                        assert(shortcuts@[sorted@[j].sc_edges->0 as int] == before[sorted@[j].sc_edges->0 as int]);
                    }
                }
            }
        }
        k = k + 1;
    }
}

/// Decrements every shortcut-index (of a kept edge) by the number of removed positions that are
/// at most as high; returns the number of kept shortcut-edges.
/// The shortcuts that kept edges refer to lead to edges below `len`.
spec fn kept_shortcuts_below(kept: Seq<ProtoEdgeB>, shortcuts: Seq<[EdgeIdx; 2]>, len: int) -> bool {
    forall|k: int|
        0 <= k < kept.len() && (#[trigger] kept[k]).sc_edges is Some ==> shortcuts[kept[k].sc_edges->0 as int][0].0
            < len && shortcuts[kept[k].sc_edges->0 as int][1].0 < len
}

/// Of strictly increasing numbers, the `i`-th lies at least `n - 1 - i` below the last.
proof fn lemma_increasing_gaps(r: Seq<usize>, i: int)
    requires
        forall|a: int, b: int| 0 <= a < b < r.len() ==> r[a] < r[b],
        0 <= i < r.len(),
    ensures
        r[i] + (r.len() - 1 - i) <= r[r.len() - 1],
    decreases r.len() - i,
{
    if i < r.len() - 1 {
        lemma_increasing_gaps(r, i + 1);
    }
}

/// Lowers an edge-index by one for each removed position at or below it (going through the
/// removed positions from the last one down).
fn shift_below_removed(s: usize, removed: &Vec<usize>, len: usize) -> (r: usize)
    requires
        s < len,
        forall|a: int, b: int| 0 <= a < b < removed@.len() ==> removed@[a] < removed@[b],
        forall|i: int| 0 <= i < removed@.len() ==> 1 <= #[trigger] removed@[i] < len,
    ensures
        r < len - removed@.len(),
        r == shifted(removed@, s as int),
{
    let mut x = s;
    let mut j: usize = removed.len();
    while j > 0
        invariant
            j <= removed@.len(),
            x < len - (removed@.len() - j),
            x == s - count_at_most(removed@, j as int, s as int),
            forall|i: int| 0 <= i < j ==> (#[trigger] removed@[i] <= x <==> removed@[i] <= s),
            forall|a: int, b: int| 0 <= a < b < removed@.len() ==> removed@[a] < removed@[b],
            forall|i: int| 0 <= i < removed@.len() ==> 1 <= #[trigger] removed@[i] < len,
        decreases j,
    {
        j = j - 1;
        let removed_idx = removed[j];
        proof {
            lemma_increasing_gaps(removed@, j as int);
            assert(removed@[removed@.len() - 1] < len);
            assert(removed@[j as int] <= x <==> removed@[j as int] <= s);
        }
        let ghost x0 = x;
        if x >= removed_idx && x > 0 {
            x = x - 1;
        }
        proof {
            assert forall|i: int| 0 <= i < j implies (#[trigger] removed@[i] <= x <==> removed@[i] <= s) by {
                assert(removed@[i] < removed@[j as int]);
                assert(removed@[i] <= x0 <==> removed@[i] <= s);
            }
        }
    }
    x
}

fn correct_shortcuts(
    kept: &Vec<ProtoEdgeB>,
    removed: &Vec<usize>,
    shortcuts: &mut Vec<[EdgeIdx; 2]>,
    Ghost(len): Ghost<int>,
) -> (sc_count: usize)
    requires
        shortcut_refs_below(kept@, old(shortcuts)@.len() as int),
        shortcut_refs_distinct(kept@),
        kept_shortcuts_below(kept@, old(shortcuts)@, len),
        len == kept@.len() + removed@.len(),
        len <= usize::MAX,
        forall|a: int, b: int| 0 <= a < b < removed@.len() ==> removed@[a] < removed@[b],
        forall|i: int| 0 <= i < removed@.len() ==> 1 <= #[trigger] removed@[i] < len,
    ensures
        final(shortcuts)@.len() == old(shortcuts)@.len(),
        sc_count <= kept@.len(),
        kept_shortcuts_below(kept@, final(shortcuts)@, kept@.len() as int),
        forall|i: int|
            0 <= i < kept@.len() && (#[trigger] kept@[i]).sc_edges is Some ==> {
                let x = kept@[i].sc_edges->0 as int;
                &&& final(shortcuts)@[x][0].0 == shifted(removed@, old(shortcuts)@[x][0].0 as int)
                &&& final(shortcuts)@[x][1].0 == shifted(removed@, old(shortcuts)@[x][1].0 as int)
            },
{
    let mut sc_count: usize = 0;
    let mut k: usize = 0;
    while k < kept.len()
        invariant
            k <= kept@.len(),
            sc_count <= k,
            len == kept@.len() + removed@.len(),
            len <= usize::MAX,
            shortcuts@.len() == old(shortcuts)@.len(),
            shortcut_refs_below(kept@, shortcuts@.len() as int),
            shortcut_refs_distinct(kept@),
            kept_shortcuts_below(kept@, old(shortcuts)@, len),
            forall|a: int, b: int| 0 <= a < b < removed@.len() ==> removed@[a] < removed@[b],
            forall|i: int| 0 <= i < removed@.len() ==> 1 <= #[trigger] removed@[i] < len,
            forall|i: int|
                0 <= i < kept@.len() && (#[trigger] kept@[i]).sc_edges is Some ==> {
                    let x = kept@[i].sc_edges->0 as int;
                    let sc = shortcuts@[x];
                    &&& i < k ==> sc[0].0 < kept@.len() && sc[1].0 < kept@.len() && sc[0].0 == shifted(
                        removed@,
                        old(shortcuts)@[x][0].0 as int,
                    ) && sc[1].0 == shifted(removed@, old(shortcuts)@[x][1].0 as int)
                    &&& i >= k ==> sc == old(shortcuts)@[x]
                },
        decreases kept@.len() - k,
    {
        if let Some(sc_idx) = kept[k].sc_edges {
            let sc = shortcuts[sc_idx];
            sc_count = sc_count + 1;
            let first = shift_below_removed(sc[0].0, removed, kept.len() + removed.len());
            let second = shift_below_removed(sc[1].0, removed, kept.len() + removed.len());
            let ghost before = shortcuts@;
            shortcuts.set(sc_idx, [EdgeIdx(first), EdgeIdx(second)]);
            proof {
                assert forall|i: int|
                    0 <= i < kept@.len() && (#[trigger] kept@[i]).sc_edges is Some implies {
                        let x = kept@[i].sc_edges->0 as int;
                        let sc = shortcuts@[x];
                        &&& i < k + 1 ==> sc[0].0 < kept@.len() && sc[1].0 < kept@.len() && sc[0].0
                            == shifted(removed@, old(shortcuts)@[x][0].0 as int) && sc[1].0 == shifted(
                            removed@,
                            old(shortcuts)@[x][1].0 as int,
                        )
                        &&& i >= k + 1 ==> sc == old(shortcuts)@[x]
                    } by {
                    if i != k {
                        if i < k {
                            assert(kept@[k as int].sc_edges != kept@[i].sc_edges);
                        } else {
                            assert(kept@[i].sc_edges != kept@[k as int].sc_edges);
                        }
                        assert(shortcuts@[kept@[i].sc_edges->0 as int] == before[kept@[i].sc_edges->0 as int]);
                    }
                }
            }
        }
        k = k + 1;
    }
    sc_count
}

/// Moves the kept edges' metrics into edge-order, each checked (and corrected) by
/// `fix_metrics`; remembers each shortcut-edge with its replaced edges.
fn store_metrics<M, F: Fn(M) -> Option<M>>(
    kept: &Vec<ProtoEdgeB>,
    metrics: &mut Vec<Option<M>>,
    shortcuts: &Vec<[EdgeIdx; 2]>,
    fix_metrics: &F,
) -> (r: Result<(Vec<M>, Vec<(usize, [EdgeIdx; 2])>), BuildError>)
    requires
        forall|k: int|
            0 <= k < kept@.len() ==> (#[trigger] kept@[k]).idx < old(metrics)@.len()
                && old(metrics)@[kept@[k].idx as int] is Some,
        forall|i: int, j: int| 0 <= i < j < kept@.len() ==> (#[trigger] kept@[i]).idx != (#[trigger] kept@[j]).idx,
        forall|m: M| #[trigger] fix_metrics.requires((m,)),
        shortcut_refs_below(kept@, shortcuts@.len() as int),
        kept_shortcuts_below(kept@, shortcuts@, kept@.len() as int),
    ensures
        r matches Err(e) ==> e == BuildError::MetricTooSmall,
        r is Err ==> exists|k: int|
            0 <= k < kept@.len() && fix_metrics.ensures(
                (old(metrics)@[(#[trigger] kept@[k]).idx as int]->0,),
                None::<M>,
            ),
        r matches Ok((ms, scs)) ==> {
            &&& ms@.len() == kept@.len()
            &&& forall|k: int|
                0 <= k < kept@.len() ==> fix_metrics.ensures(
                    (old(metrics)@[(#[trigger] kept@[k]).idx as int]->0,),
                    Some(ms@[k]),
                )
            &&& forall|j: int| 0 <= j < scs@.len() ==> (#[trigger] scs@[j]).0 < kept@.len()
            &&& forall|i: int, j: int| 0 <= i < j < scs@.len() ==> (#[trigger] scs@[i]).0 < (#[trigger] scs@[j]).0
            &&& forall|j: int|
                0 <= j < scs@.len() ==> (#[trigger] scs@[j]).1[0].0 < kept@.len() && scs@[j].1[1].0
                    < kept@.len()
            &&& forall|j: int|
                0 <= j < scs@.len() ==> kept@[(#[trigger] scs@[j]).0 as int].sc_edges is Some && scs@[j].1
                    == shortcuts@[kept@[scs@[j].0 as int].sc_edges->0 as int]
            &&& forall|k: int|
                0 <= k < kept@.len() && (#[trigger] kept@[k]).sc_edges is Some ==> exists|j: int|
                    0 <= j < scs@.len() && (#[trigger] scs@[j]).0 == k
        },
{
    let mut ms: Vec<M> = Vec::new();
    let mut scs: Vec<(usize, [EdgeIdx; 2])> = Vec::new();
    let mut k: usize = 0;
    while k < kept.len()
        invariant
            k <= kept@.len(),
            ms@.len() == k,
            metrics@.len() == old(metrics)@.len(),
            forall|j: int|
                k <= j < kept@.len() ==> (#[trigger] kept@[j]).idx < metrics@.len()
                    && metrics@[kept@[j].idx as int] == old(metrics)@[kept@[j].idx as int],
            forall|j: int|
                0 <= j < kept@.len() ==> (#[trigger] kept@[j]).idx < old(metrics)@.len()
                    && old(metrics)@[kept@[j].idx as int] is Some,
            forall|i: int, j: int| 0 <= i < j < kept@.len() ==> (#[trigger] kept@[i]).idx != (#[trigger] kept@[j]).idx,
            forall|m: M| #[trigger] fix_metrics.requires((m,)),
            shortcut_refs_below(kept@, shortcuts@.len() as int),
            forall|j: int|
                0 <= j < k ==> fix_metrics.ensures(
                    (old(metrics)@[(#[trigger] kept@[j]).idx as int]->0,),
                    Some(ms@[j]),
                ),
            forall|j: int| 0 <= j < scs@.len() ==> (#[trigger] scs@[j]).0 < k,
            forall|i: int, j: int| 0 <= i < j < scs@.len() ==> (#[trigger] scs@[i]).0 < (#[trigger] scs@[j]).0,
            kept_shortcuts_below(kept@, shortcuts@, kept@.len() as int),
            forall|j: int|
                0 <= j < scs@.len() ==> (#[trigger] scs@[j]).1[0].0 < kept@.len() && scs@[j].1[1].0
                    < kept@.len(),
            forall|j: int|
                0 <= j < scs@.len() ==> kept@[(#[trigger] scs@[j]).0 as int].sc_edges is Some && scs@[j].1
                    == shortcuts@[kept@[scs@[j].0 as int].sc_edges->0 as int],
            forall|i: int|
                0 <= i < k && (#[trigger] kept@[i]).sc_edges is Some ==> exists|j: int|
                    0 <= j < scs@.len() && (#[trigger] scs@[j]).0 == i,
        decreases kept@.len() - k,
    {
        let e = kept[k];
        let ghost before = metrics@;
        let m = metrics[e.idx].take().unwrap();
        proof {
            assert forall|j: int| k < j < kept@.len() implies (#[trigger] kept@[j]).idx < metrics@.len()
                && metrics@[kept@[j].idx as int] == old(metrics)@[kept@[j].idx as int] by {
                assert(kept@[j].idx != e.idx);
            }
        }
        proof {
            assert(m == old(metrics)@[kept@[k as int].idx as int]->0);
        }
        match fix_metrics(m) {
            Some(fixed) => ms.push(fixed),
            None => return Err(BuildError::MetricTooSmall),
        }
        // remember sc-edges for setting offsets later
        let ghost old_scs = scs@;
        if let Some(sc_idx) = e.sc_edges {
            scs.push((k, shortcuts[sc_idx]));
            proof {
                assert(scs@[old_scs.len() as int].0 == k);
                assert forall|i: int|
                    0 <= i < k + 1 && (#[trigger] kept@[i]).sc_edges is Some implies exists|j: int|
                        0 <= j < scs@.len() && (#[trigger] scs@[j]).0 == i by {
                    if i < k {
                        let j = choose|j: int| 0 <= j < old_scs.len() && (#[trigger] old_scs[j]).0 == i;
                        assert(scs@[j] == old_scs[j]);
                    } else {
                        assert(scs@[old_scs.len() as int].0 == i);
                    }
                }
            }
        }
        k = k + 1;
    }
    Ok((ms, scs))
}

/// The shortcut-offsets of `m` edges: the offset of an edge is the number of shortcut-edges
/// before it, and the last one is the number of all of them.
fn build_sc_offsets(m: usize, scs: &Vec<(usize, [EdgeIdx; 2])>) -> (r: (Vec<usize>, Vec<[EdgeIdx; 2]>))
    requires
        forall|j: int| 0 <= j < scs@.len() ==> (#[trigger] scs@[j]).0 < m,
        forall|i: int, j: int| 0 <= i < j < scs@.len() ==> (#[trigger] scs@[i]).0 < (#[trigger] scs@[j]).0,
    ensures
        r.0@.len() == m + 1,
        forall|i: int, j: int| 0 <= i <= j < r.0@.len() ==> r.0@[i] <= r.0@[j],
        r.0@[m as int] == r.1@.len(),
        r.1@.len() == scs@.len(),
        forall|j: int| 0 <= j < r.1@.len() ==> r.1@[j] == (#[trigger] scs@[j]).1,
        forall|k: int, j: int|
            0 <= k <= m && 0 <= j < scs@.len() ==> (j < #[trigger] r.0@[k] <==> (#[trigger] scs@[j]).0 < k),
{
    let n_sc = scs.len();
    let mut sc_offsets: Vec<usize> = Vec::new();
    let mut i: usize = 0;
    while i < m
        invariant
            i <= m,
            sc_offsets@.len() == i,
            forall|j: int| 0 <= j < i ==> #[trigger] sc_offsets@[j] == n_sc,
        decreases m - i,
    {
        sc_offsets.push(n_sc);
        i = i + 1;
    }
    sc_offsets.push(n_sc);
    let mut sc_edges: Vec<[EdgeIdx; 2]> = Vec::new();
    let mut sc_offset: usize = 0;
    let mut edge_idx: usize = 0;
    // once all shortcuts are assigned, the initial offsets are correct already
    while edge_idx < m && sc_offset < n_sc
        invariant
            sc_offsets@.len() == m + 1,
            n_sc == scs@.len(),
            forall|j: int| 0 <= j < scs@.len() ==> (#[trigger] scs@[j]).0 < m,
            forall|i: int, j: int| 0 <= i < j < scs@.len() ==> (#[trigger] scs@[i]).0 < (#[trigger] scs@[j]).0,
            sc_offset <= n_sc,
            edge_idx <= m,
            sc_edges@.len() == sc_offset,
            forall|j: int| 0 <= j < sc_offset ==> sc_edges@[j] == (#[trigger] scs@[j]).1,
            sc_offset < n_sc ==> scs@[sc_offset as int].0 >= edge_idx,
            forall|j: int| 0 <= j < edge_idx ==> #[trigger] sc_offsets@[j] <= sc_offset,
            forall|i: int, j: int| 0 <= i <= j < edge_idx ==> sc_offsets@[i] <= sc_offsets@[j],
            forall|j: int| edge_idx <= j <= m ==> #[trigger] sc_offsets@[j] == n_sc,
            sc_offset == n_sc ==> forall|j: int| 0 <= j <= m ==> #[trigger] sc_offsets@[j] <= n_sc,
            forall|j: int| 0 <= j < sc_offset ==> (#[trigger] scs@[j]).0 < edge_idx,
            forall|k: int, j: int|
                0 <= k < edge_idx && 0 <= j < scs@.len() ==> (j < #[trigger] sc_offsets@[k] <==> (
                #[trigger] scs@[j]).0 < k),
        decreases m - edge_idx,
    {
        let (sc_edge_idx, sc) = scs[sc_offset];
        proof {
            assert forall|j: int| 0 <= j < scs@.len() implies (j < sc_offset <==> (#[trigger] scs@[j]).0 < edge_idx) by {
                if j > sc_offset {
                    assert(scs@[sc_offset as int].0 < scs@[j].0);
                }
            }
        }
        sc_offsets.set(edge_idx, sc_offset);
        // if this is a shortcut-edge, the offset increases for the next edges
        if edge_idx == sc_edge_idx {
            sc_edges.push(sc);
            sc_offset = sc_offset + 1;
            proof {
                if sc_offset < n_sc {
                    assert(scs@[sc_offset - 1].0 < scs@[sc_offset as int].0);
                }
            }
        }
        edge_idx = edge_idx + 1;
    }
    proof {
        if sc_offset < n_sc {
            assert(scs@[sc_offset as int].0 < m);
        }
        assert(sc_offset == n_sc);
        assert(sc_offsets@[m as int] == n_sc);
        assert forall|k: int, j: int|
            0 <= k <= m && 0 <= j < scs@.len() implies (j < #[trigger] sc_offsets@[k] <==> (
            #[trigger] scs@[j]).0 < k) by {
            if k >= edge_idx {
                assert(scs@[j].0 < edge_idx);
            }
        }
    }
    (sc_offsets, sc_edges)
}

/// The indices of the id-map's entries increase.
#[verifier::opaque]
spec fn id_map_increasing(map: Seq<(usize, EdgeIdx)>) -> bool {
    forall|i: int, j: int| 0 <= i < j < map.len() ==> (#[trigger] map[i]).1.0 < (#[trigger] map[j]).1.0
}

/// The forward-arrays of the (sorted) edges: destinations, sources, the identity-mapping, the
/// ids and the (unsorted) mapping from ids to indices; and the edges numbered by position.
fn fwd_arrays(kept: &Vec<ProtoEdgeB>) -> (r: (
    Vec<NodeIdx>,
    Vec<NodeIdx>,
    Vec<EdgeIdx>,
    Vec<Option<usize>>,
    Vec<(usize, EdgeIdx)>,
    Vec<ProtoEdgeB>,
))
    ensures
        ({
            let (fwd_dsts, bwd_dsts, fwd_to_fwd_map, edge_ids, id_map, numbered) = r;
            let m = kept@.len();
            &&& fwd_dsts@.len() == m
            &&& bwd_dsts@.len() == m
            &&& fwd_to_fwd_map@.len() == m
            &&& edge_ids@.len() == m
            &&& numbered@.len() == m
            &&& forall|k: int| 0 <= k < m ==> (#[trigger] fwd_dsts@[k]).0 == kept@[k].dst_idx
            &&& forall|k: int| 0 <= k < m ==> (#[trigger] bwd_dsts@[k]).0 == kept@[k].src_idx
            &&& forall|k: int| 0 <= k < m ==> #[trigger] fwd_to_fwd_map@[k] == EdgeIdx(k as usize)
            &&& forall|k: int| 0 <= k < m ==> #[trigger] edge_ids@[k] == kept@[k].id
            &&& forall|k: int| 0 <= k < m ==> #[trigger] numbered@[k] == (ProtoEdgeB { idx: k as usize, ..kept@[k] })
            &&& id_map_fits(id_map@, edge_ids@)
            &&& id_map_increasing(id_map@)
        }),
{
    let m = kept.len();
    let mut fwd_dsts: Vec<NodeIdx> = Vec::new();
    let mut bwd_dsts: Vec<NodeIdx> = Vec::new();
    let mut fwd_to_fwd_map: Vec<EdgeIdx> = Vec::new();
    let mut edge_ids: Vec<Option<usize>> = Vec::new();
    let mut id_map: Vec<(usize, EdgeIdx)> = Vec::new();
    let mut numbered: Vec<ProtoEdgeB> = Vec::new();
    let mut edge_idx: usize = 0;
    while edge_idx < m
        invariant
            m == kept@.len(),
            edge_idx <= m,
            fwd_dsts@.len() == edge_idx,
            bwd_dsts@.len() == edge_idx,
            fwd_to_fwd_map@.len() == edge_idx,
            edge_ids@.len() == edge_idx,
            numbered@.len() == edge_idx,
            forall|k: int| 0 <= k < edge_idx ==> (#[trigger] fwd_dsts@[k]).0 == kept@[k].dst_idx,
            forall|k: int| 0 <= k < edge_idx ==> (#[trigger] bwd_dsts@[k]).0 == kept@[k].src_idx,
            forall|k: int| 0 <= k < edge_idx ==> #[trigger] fwd_to_fwd_map@[k] == EdgeIdx(k as usize),
            forall|k: int| 0 <= k < edge_idx ==> #[trigger] edge_ids@[k] == kept@[k].id,
            forall|k: int|
                0 <= k < edge_idx ==> #[trigger] numbered@[k] == (ProtoEdgeB { idx: k as usize, ..kept@[k] }),
            forall|j: int|
                0 <= j < id_map@.len() ==> {
                    let (id, e) = #[trigger] id_map@[j];
                    e.0 < edge_idx && edge_ids@[e.0 as int] == Some(id)
                },
            forall|e: int|
                0 <= e < edge_idx && (#[trigger] edge_ids@[e]) is Some ==> id_map@.contains(
                    (edge_ids@[e]->0, EdgeIdx(e as usize)),
                ),
            forall|i: int, j: int| 0 <= i < j < id_map@.len() ==> (#[trigger] id_map@[i]).1.0 < (#[trigger] id_map@[j]).1.0,
        decreases m - edge_idx,
    {
        let e = kept[edge_idx];
        let ghost old_map = id_map@;
        // do not swap src and dst since this is a forward-edge
        bwd_dsts.push(NodeIdx(e.src_idx));
        fwd_dsts.push(NodeIdx(e.dst_idx));
        // mapping fwd to fwd is just the identity
        fwd_to_fwd_map.push(EdgeIdx(edge_idx));
        edge_ids.push(e.id);
        if let Some(id) = e.id {
            id_map.push((id, EdgeIdx(edge_idx)));
            proof {
                assert(id_map@[id_map@.len() - 1] == (id, EdgeIdx(edge_idx)));
            }
        }
        numbered.push(ProtoEdgeB { idx: edge_idx, ..e });
        proof {
            let k = edge_idx as int;
            assert(fwd_dsts@[k].0 == kept@[k].dst_idx);
            assert(bwd_dsts@[k].0 == kept@[k].src_idx);
            assert(fwd_to_fwd_map@[k] == EdgeIdx(k as usize));
            assert(edge_ids@[k] == kept@[k].id);
            assert(numbered@[k] == ProtoEdgeB { idx: k as usize, ..kept@[k] });
            assert forall|x: int|
                0 <= x < edge_idx + 1 && (#[trigger] edge_ids@[x]) is Some implies id_map@.contains(
                (edge_ids@[x]->0, EdgeIdx(x as usize)),
            ) by {
                if x < edge_idx {
                    let j = choose|j: int| 0 <= j < old_map.len() && old_map[j] == (edge_ids@[x]->0, EdgeIdx(x as usize));
                    assert(id_map@[j] == old_map[j]);
                }
            }
        }
        edge_idx = edge_idx + 1;
    }
    proof {
        reveal(id_map_fits);
        reveal(id_map_increasing);
    }
    (fwd_dsts, bwd_dsts, fwd_to_fwd_map, edge_ids, id_map, numbered)
}

/// The mapping from ids to indices, sorted by id; fails if an id occurs twice.
fn sort_id_map(map: &Vec<(usize, EdgeIdx)>) -> (r: Result<Vec<(usize, EdgeIdx)>, BuildError>)
    ensures
        r matches Ok(s) ==> id_map_sorted(s@) && s@.to_multiset() == map@.to_multiset(),
        r matches Err(e) ==> e == BuildError::DuplicateEdgeId && exists|i: int, j: int|
            0 <= i < j < map@.len() && (#[trigger] map@[i]).0 == (#[trigger] map@[j]).0,
{
    broadcast use {vstd::seq_lib::group_to_multiset_ensures, vstd::multiset::group_multiset_axioms};

    let le = |a: (usize, EdgeIdx), b: (usize, EdgeIdx)| -> (r: bool)
        ensures
            r == (a.0 <= b.0),
        { a.0 <= b.0 };
    let ghost sle = |a: (usize, EdgeIdx), b: (usize, EdgeIdx)| a.0 <= b.0;
    let sorted = merge_sort(map, &le, Ghost(sle));
    proof {
        assert(vstd::relations::transitive(sle));
        assert(vstd::relations::strongly_connected(sle));
        lemma_sort_by_le_sorted(map@, sle);
        lemma_sort_by_le_multiset(map@, sle);
    }
    let mut i: usize = 1;
    while i < sorted.len()
        invariant
            1 <= i,
            sorted@.to_multiset() == map@.to_multiset(),
            sorted_by(sorted@, sle),
            sle == (|a: (usize, EdgeIdx), b: (usize, EdgeIdx)| a.0 <= b.0),
            forall|a: int, b: int| 0 <= a < b < i && b < sorted@.len() ==> sorted@[a].0 < sorted@[b].0,
        decreases sorted@.len() - i,
    {
        if sorted[i - 1].0 == sorted[i].0 {
            proof {
                // two entries of the same id occur in the unsorted mapping as well
                let x = sorted@[i - 1];
                let y = sorted@[i as int];
                assert(sorted@.contains(x));
                assert(sorted@.contains(y));
                lemma_same_elements(sorted@, map@, x);
                lemma_same_elements(sorted@, map@, y);
                if x == y {
                    lemma_twice_counted(sorted@, i - 1, i as int);
                    let (p, q) = lemma_counted_twice(map@, x);
                    assert((#[trigger] map@[p]).0 == (#[trigger] map@[q]).0);
                } else {
                    let p = choose|p: int| 0 <= p < map@.len() && map@[p] == x;
                    let q = choose|q: int| 0 <= q < map@.len() && map@[q] == y;
                    if p < q {
                        assert((#[trigger] map@[p]).0 == (#[trigger] map@[q]).0);
                    } else {
                        assert((#[trigger] map@[q]).0 == (#[trigger] map@[p]).0);
                    }
                }
            }
            return Err(BuildError::DuplicateEdgeId);
        }
        proof {
            assert(sle(sorted@[i - 1], sorted@[i as int]));
            assert forall|a: int, b: int| 0 <= a < b < i + 1 && b < sorted@.len() implies sorted@[a].0
                < sorted@[b].0 by {
                if b == i && a < i - 1 {
                    assert(sorted@[a].0 < sorted@[i - 1].0);
                }
            }
        }
        i = i + 1;
    }
    Ok(sorted)
}

/// The backward-offsets and the mapping from backward- to forward-indices of edges numbered by
/// their forward-position.
fn bwd_arrays(numbered: &Vec<ProtoEdgeB>, n: usize) -> (r: (Vec<usize>, Vec<EdgeIdx>))
    requires
        forall|k: int| 0 <= k < numbered@.len() ==> (#[trigger] numbered@[k]).idx == k,
        forall|k: int| 0 <= k < numbered@.len() ==> (#[trigger] numbered@[k]).dst_idx < n,
        n < usize::MAX,
    ensures
        r.0@.len() == n + 1,
        map_is_permutation(r.1@),
        r.1@.len() == numbered@.len(),
        forall|j: int| 0 <= j < r.1@.len() ==> (#[trigger] r.1@[j]).0 < numbered@.len(),
        offsets_partition(
            r.0@,
            Seq::new(r.1@.len(), |j: int| numbered@[r.1@[j].0 as int].dst_idx),
        ),
{
    // sort backward-edges by ascending dst, then by ascending src
    let sorted = sort_bwd(numbered);
    proof {
        lemma_permuted_numbers(numbered@, sorted@);
    }
    let m = sorted.len();
    let mut groups: Vec<usize> = Vec::new();
    let mut bwd_to_fwd_map: Vec<EdgeIdx> = Vec::new();
    let mut j: usize = 0;
    while j < m
        invariant
            m == sorted@.len() == numbered@.len(),
            j <= m,
            groups@.len() == j,
            bwd_to_fwd_map@.len() == j,
            forall|i: int| 0 <= i < sorted@.len() ==> (#[trigger] sorted@[i]).idx < numbered@.len()
                && sorted@[i] == numbered@[sorted@[i].idx as int],
            forall|i: int|
                0 <= i < j ==> #[trigger] groups@[i] == sorted@[i].dst_idx && bwd_to_fwd_map@[i]
                    == EdgeIdx(sorted@[i].idx),
        decreases m - j,
    {
        // swap src and dst since this is the backward-edge
        groups.push(sorted[j].dst_idx);
        bwd_to_fwd_map.push(EdgeIdx(sorted[j].idx));
        j = j + 1;
    }
    proof {
        let sle = |a: ProtoEdgeB, b: ProtoEdgeB| bwd_le(a, b);
        assert forall|a: int, b: int| 0 <= a <= b < groups@.len() implies groups@[a] <= groups@[b] by {
            if a < b {
                assert(sle(sorted@[a], sorted@[b]));
            }
        }
    }
    proof {
        assert forall|q: int| 0 <= q < groups@.len() implies #[trigger] groups@[q] < n by {
            assert(sorted@[q] == numbered@[sorted@[q].idx as int]);
        }
    }
    let offsets = build_offsets(&groups, n);
    proof {
        assert forall|a: int, b: int| 0 <= a < b < bwd_to_fwd_map@.len() implies #[trigger] bwd_to_fwd_map@[a]
            != #[trigger] bwd_to_fwd_map@[b] by {
            assert(groups@[a] == sorted@[a].dst_idx);
            assert(groups@[b] == sorted@[b].dst_idx);
            assert(sorted@[a].idx != sorted@[b].idx);
        }
        assert forall|e: usize| e < bwd_to_fwd_map@.len() implies #[trigger] maps_to(bwd_to_fwd_map@, e) by {
            assert(numbered@.contains(numbered@[e as int]));
            lemma_same_elements(numbered@, sorted@, numbered@[e as int]);
            let p = choose|p: int| 0 <= p < sorted@.len() && sorted@[p] == numbered@[e as int];
            assert(groups@[p] == sorted@[p].dst_idx);
            assert(bwd_to_fwd_map@[p].0 == e);
        }
        assert forall|j: int| 0 <= j < bwd_to_fwd_map@.len() implies (#[trigger] bwd_to_fwd_map@[j]).0 < numbered@.len() by {
            assert(groups@[j] == sorted@[j].dst_idx);
            assert(sorted@[j].idx < numbered@.len());
        }
        assert(groups@ =~= Seq::new(
            bwd_to_fwd_map@.len(),
            |j: int| numbered@[bwd_to_fwd_map@[j].0 as int].dst_idx,
        ));
    }
    (offsets, bwd_to_fwd_map)
}

/// The key of a proto-edge, with its node-indices replaced by the ids.
spec fn kept_key(e: ProtoEdgeB, ids: Seq<i64>) -> EdgeKey {
    (e.id, ids[e.src_idx as int], ids[e.dst_idx as int])
}

/// Some kept edge has the given key.
spec fn key_kept(key: EdgeKey, kept: Seq<ProtoEdgeB>, ids: Seq<i64>) -> bool {
    exists|k: int| 0 <= k < kept.len() && kept_key(#[trigger] kept[k], ids) == key
}

/// The key of the `k`-th edge of a graph, given by its arrays.
pub open spec fn key_at(
    edge_ids: Seq<Option<usize>>,
    srcs: Seq<NodeIdx>,
    dsts: Seq<NodeIdx>,
    ids: Seq<i64>,
    k: int,
) -> EdgeKey {
    (edge_ids[k], ids[srcs[k].0 as int], ids[dsts[k].0 as int])
}

/// Some edge of the graph, given by its arrays, has the given key.
pub open spec fn key_in_graph(
    key: EdgeKey,
    edge_ids: Seq<Option<usize>>,
    srcs: Seq<NodeIdx>,
    dsts: Seq<NodeIdx>,
    ids: Seq<i64>,
) -> bool {
    exists|k: int| 0 <= k < edge_ids.len() && #[trigger] key_at(edge_ids, srcs, dsts, ids, k) == key
}

/// Whether no two keys share an id.
pub open spec fn ids_distinct(keys: Seq<EdgeKey>) -> bool {
    forall|i: int, j: int|
        0 <= i < j < keys.len() && (#[trigger] keys[i]).0 is Some ==> (#[trigger] keys[j]).0
            != keys[i].0
}


/// The `k`-th edge of a graph (its key by `key_of`, its metric `metric`, and its shortcut-entry
/// by `sc_offsets` in `sc_edges`) comes from a collected edge: one of the same key, whose metric
/// `fix_metrics` turns into `metric`, and whose shortcut the edge carries.
pub open spec fn edge_carried<M, F: Fn(M) -> Option<M>>(
    keys: Seq<EdgeKey>,
    metrics: Seq<M>,
    shortcuts: Seq<Option<[EdgeIdx; 2]>>,
    fix_metrics: F,
    metric: M,
    sc_offsets: Seq<usize>,
    sc_edges: Seq<[EdgeIdx; 2]>,
    key_of: spec_fn(int) -> EdgeKey,
    k: int,
) -> bool {
    exists|j: int|
        0 <= j < keys.len() && j < metrics.len() && j < shortcuts.len() && keys[j] == key_of(k)
            && #[trigger] fix_metrics.ensures((metrics[j],), Some(metric)) && shortcut_carried(
            shortcuts[j],
            keys,
            sc_offsets,
            sc_edges,
            key_of,
            k,
        )
}

/// A collected edge of key `key` and metric `metric` survives among the first `m` edges of a
/// graph (their keys by `key_of`, their metrics `graph_metrics`): some edge of that key carries
/// what `fix_metrics` made of `metric`, or of the metric of a collected edge (of `keys` and
/// `metrics`) of the same key that `same_metrics` told equal to `metric`.
pub open spec fn edge_survives<M, E: Fn(&M, &M) -> bool, F: Fn(M) -> Option<M>>(
    keys: Seq<EdgeKey>,
    metrics: Seq<M>,
    key: EdgeKey,
    metric: M,
    same_metrics: E,
    fix_metrics: F,
    graph_metrics: Seq<M>,
    key_of: spec_fn(int) -> EdgeKey,
    m: int,
) -> bool {
    exists|k: int|
        0 <= k < m && key_of(k) == key && (fix_metrics.ensures(
            (metric,),
            Some(#[trigger] graph_metrics[k]),
        ) || exists|i: int|
            0 <= i < keys.len() && keys[i] == key && #[trigger] fix_metrics.ensures(
                (metrics[i],),
                Some(graph_metrics[k]),
            ) && same_metrics.ensures((&metrics[i], &metric), true))
}

/// Where `sc` is a shortcut, the `k`-th edge has one shortcut-entry (found by `sc_offsets` in
/// `sc_edges`), which replaces edges whose keys (by `key_of`) are those of the edges that `sc`
/// replaces (by `keys`); elsewhere the edge has no entry.
pub open spec fn shortcut_carried(
    sc: Option<[EdgeIdx; 2]>,
    keys: Seq<EdgeKey>,
    sc_offsets: Seq<usize>,
    sc_edges: Seq<[EdgeIdx; 2]>,
    key_of: spec_fn(int) -> EdgeKey,
    k: int,
) -> bool {
    match sc {
        None => sc_offsets[k + 1] == sc_offsets[k],
        Some(pair) => {
            let entry = sc_edges[sc_offsets[k] as int];
            &&& sc_offsets[k + 1] == sc_offsets[k] + 1
            &&& key_of(entry[0].0 as int) == keys[pair[0].0 as int]
            &&& key_of(entry[1].0 as int) == keys[pair[1].0 as int]
        },
    }
}

/// The shortcut-offsets give each edge the entries of `scs` that name it.
proof fn lemma_sc_entry(scs: Seq<(usize, [EdgeIdx; 2])>, offsets: Seq<usize>, m: int, k: int)
    requires
        0 <= k < m,
        offsets.len() == m + 1,
        offsets[m] == scs.len(),
        forall|i: int, j: int| 0 <= i <= j < offsets.len() ==> offsets[i] <= offsets[j],
        forall|i: int, j: int| 0 <= i < j < scs.len() ==> (#[trigger] scs[i]).0 < (#[trigger] scs[j]).0,
        forall|x: int, j: int|
            0 <= x <= m && 0 <= j < scs.len() ==> (j < #[trigger] offsets[x] <==> (#[trigger] scs[j]).0 < x),
    ensures
        (exists|j: int| 0 <= j < scs.len() && (#[trigger] scs[j]).0 == k) ==> offsets[k + 1] == offsets[k]
            + 1 && offsets[k] < scs.len() && scs[offsets[k] as int].0 == k,
        !(exists|j: int| 0 <= j < scs.len() && (#[trigger] scs[j]).0 == k) ==> offsets[k + 1] == offsets[k],
{
    let o = offsets[k] as int;
    let o1 = offsets[k + 1] as int;
    assert(o <= o1 <= offsets[m]);
    if o < o1 {
        assert(o < o1 <==> scs[o].0 < k + 1);
        assert(o < o <==> scs[o].0 < k);
        assert(scs[o].0 == k);
        if o + 1 < o1 {
            assert(o + 1 < o1 <==> scs[o + 1].0 < k + 1);
            assert(scs[o].0 < scs[o + 1].0);
        }
    }
    if exists|j: int| 0 <= j < scs.len() && (#[trigger] scs[j]).0 == k {
        let j = choose|j: int| 0 <= j < scs.len() && (#[trigger] scs[j]).0 == k;
        assert(j < o <==> scs[j].0 < k);
        assert(j < o1 <==> scs[j].0 < k + 1);
    }
}

/// Some kept edge has the key of the `j`-th collected edge, and is that edge itself or one whose
/// metric `same_metrics` told equal to that of the `j`-th edge.
spec fn kept_for<M, E: Fn(&M, &M) -> bool>(
    same_metrics: E,
    metrics: Seq<Option<M>>,
    kept: Seq<ProtoEdgeB>,
    ids: Seq<i64>,
    keys: Seq<EdgeKey>,
    j: int,
) -> bool {
    exists|k: int|
        0 <= k < kept.len() && kept_key(#[trigger] kept[k], ids) == keys[j] && (kept[k].idx == j
            || same_metrics.ensures((&metrics[kept[k].idx as int]->0, &metrics[j]->0), true))
}

/// Whether two kept edges share an id.
spec fn kept_ids_shared(kept: Seq<ProtoEdgeB>) -> bool {
    exists|k1: int, k2: int|
        0 <= k1 < k2 < kept.len() && (#[trigger] kept[k1]).id is Some && (#[trigger] kept[k2]).id
            == kept[k1].id
}

/// Sorts, deduplicates and numbers the proto-edges, moves their metrics into edge-order and
/// creates the shortcut-arrays.
#[verifier::spinoff_prover]
#[verifier::rlimit(60)]
fn dedup_phase<M, E: Fn(&M, &M) -> bool, F: Fn(M) -> Option<M>>(
    node_ids: &Vec<i64>,
    proto_edges: &Vec<ProtoEdgeA>,
    proto_metrics: Vec<Option<M>>,
    proto_shortcuts: Vec<[EdgeIdx; 2]>,
    same_metrics: &E,
    fix_metrics: &F,
) -> (r: Result<(Vec<ProtoEdgeB>, Vec<M>, Vec<usize>, Vec<[EdgeIdx; 2]>), BuildError>)
    requires
        ids_sorted(node_ids@),
        collected(proto_edges@, proto_metrics@, proto_shortcuts@),
        forall|k: int|
            0 <= k < proto_edges@.len() ==> node_ids@.contains((#[trigger] proto_edges@[k]).src_id)
                && node_ids@.contains(proto_edges@[k].dst_id),
        used_shortcuts_below(proto_edges@, proto_shortcuts@, proto_edges@.len() as int),
        forall|a: &M, b: &M| #[trigger] same_metrics.requires((a, b)),
        forall|m: M| #[trigger] fix_metrics.requires((m,)),
    ensures
        r matches Err(e) ==> e == BuildError::MetricTooSmall && exists|j: int|
            0 <= j < proto_metrics@.len() && #[trigger] fix_metrics.ensures((proto_metrics@[j]->0,), None::<M>),
        r matches Ok((kept, metrics, sc_offsets, sc_edges)) ==> {
            let keys = proto_edges@.map_values(|e: ProtoEdgeA| (e.id, e.src_id, e.dst_id));
            let ids = node_ids@;
            &&& forall|k: int|
                0 <= k < kept@.len() ==> (#[trigger] kept@[k]).src_idx < ids.len()
                    && kept@[k].dst_idx < ids.len()
            &&& forall|k: int| 0 <= k < kept@.len() ==> keys.contains(kept_key(#[trigger] kept@[k], ids))
            &&& forall|j: int| 0 <= j < keys.len() ==> key_kept(#[trigger] keys[j], kept@, ids)
            &&& forall|j: int|
                0 <= j < keys.len() ==> #[trigger] kept_for(*same_metrics, proto_metrics@, kept@, ids, keys, j)
            &&& forall|a: int, c: int| 0 <= a < c < kept@.len() ==> fwd_le(#[trigger] kept@[a], #[trigger] kept@[c])
            &&& kept_ids_shared(kept@) ==> !ids_distinct(keys)
            &&& metrics@.len() == kept@.len()
            &&& forall|k: int|
                0 <= k < kept@.len() ==> {
                    let i = (#[trigger] kept@[k]).idx as int;
                    &&& 0 <= i < keys.len()
                    &&& keys[i] == kept_key(kept@[k], ids)
                    &&& fix_metrics.ensures((proto_metrics@[i]->0,), Some(metrics@[k]))
                }
            &&& sc_offsets@.len() == kept@.len() + 1
            &&& nondecreasing(sc_offsets@)
            &&& sc_offsets@[kept@.len() as int] == sc_edges@.len()
            &&& forall|j: int|
                0 <= j < sc_edges@.len() ==> (#[trigger] sc_edges@[j])[0].0 < kept@.len()
                    && sc_edges@[j][1].0 < kept@.len()
            &&& forall|k: int|
                0 <= k < kept@.len() ==> shortcut_carried(
                    shortcuts_of(proto_edges@, proto_shortcuts@)[(#[trigger] kept@[k]).idx as int],
                    keys,
                    sc_offsets@,
                    sc_edges@,
                    |x: int| kept_key(kept@[x], ids),
                    k,
                )
        },
{
    let ghost keys = proto_edges@.map_values(|e: ProtoEdgeA| (e.id, e.src_id, e.dst_id));
    let ghost ids = node_ids@;
    let ghost metrics0 = proto_metrics@;
    let mut proto_metrics = proto_metrics;
    let mut proto_shortcuts = proto_shortcuts;

    // replace edges' node-ids by node-indices
    let b = to_idx_edges(node_ids, proto_edges);
    proof {
        assert forall|k: int| 0 <= k < b@.len() implies (#[trigger] b@[k]).idx == k by {
            assert(proto_edges@[k].idx == k);
        }
    }

    // sort forward-edges by ascending src, then by ascending dst
    let sorted = sort_fwd(&b);
    proof {
        lemma_permuted_numbers(b@, sorted@);
        assert forall|k: int| 0 <= k < sorted@.len() && (#[trigger] sorted@[k]).sc_edges is Some
            implies sorted@[k].sc_edges->0 < proto_shortcuts@.len() by {
            let i = sorted@[k].idx as int;
            assert(sorted@[k] == b@[i]);
            assert(proto_edges@[i].sc_edges is Some);
        }
        assert forall|k: int|
            0 <= k < sorted@.len() implies (#[trigger] sorted@[k]).idx < proto_metrics@.len()
                && proto_metrics@[sorted@[k].idx as int] is Some by {
            let i = sorted@[k].idx as int;
            assert(proto_metrics@[i] is Some);
        }
        assert forall|y: usize| y < sorted@.len() implies #[trigger] placed(sorted@, y) by {
            assert(b@.contains(b@[y as int]));
            lemma_same_elements(b@, sorted@, b@[y as int]);
            let p = choose|p: int| 0 <= p < sorted@.len() && sorted@[p] == b@[y as int];
            assert(sorted@[p].idx == y);
        }
        assert forall|x: int, y: int|
            0 <= x < y < sorted@.len() && (#[trigger] sorted@[x]).sc_edges is Some implies (
            #[trigger] sorted@[y]).sc_edges != sorted@[x].sc_edges by {
            let i = sorted@[x].idx as int;
            let j = sorted@[y].idx as int;
            assert(sorted@[x] == b@[i]);
            assert(sorted@[y] == b@[j]);
            if i < j {
                assert(proto_edges@[j].sc_edges != proto_edges@[i].sc_edges);
            } else {
                assert(proto_edges@[i].sc_edges != proto_edges@[j].sc_edges);
            }
        }
        assert forall|k: int|
            0 <= k < sorted@.len() && (#[trigger] sorted@[k]).sc_edges is Some implies proto_shortcuts@[sorted@[k].sc_edges->0 as int][0].0
                < sorted@.len() && proto_shortcuts@[sorted@[k].sc_edges->0 as int][1].0 < sorted@.len() by {
            let i = sorted@[k].idx as int;
            assert(sorted@[k] == b@[i]);
            assert(proto_edges@[i].sc_edges is Some);
        }
    }
    let ghost sc_inserted = proto_shortcuts@;

    // shortcuts: map insertion-indices to sorted indices
    remap_shortcuts(&sorted, &mut proto_shortcuts);

    // remove duplicates and correct remaining shortcuts
    let (kept, removed) = remove_duplicates(&sorted, &proto_metrics, same_metrics);
    proof {
        assert forall|k: int| 0 <= k < kept@.len() implies (#[trigger] kept@[k]).idx < b@.len()
            && kept@[k] == b@[kept@[k].idx as int] by {
            let p = choose|p: int| 0 <= p < sorted@.len() && sorted@[p] == kept@[k];
            assert(sorted@[p] == b@[sorted@[p].idx as int]);
        }
        lemma_kept_keys(keys, ids, proto_edges@, b@, sorted@, kept@);
    }
    let ghost sc_sorted = proto_shortcuts@;
    proof {
        assert forall|k: int|
            0 <= k < kept@.len() && (#[trigger] kept@[k]).sc_edges is Some implies proto_shortcuts@[kept@[k].sc_edges->0 as int][0].0
                < sorted@.len() && proto_shortcuts@[kept@[k].sc_edges->0 as int][1].0 < sorted@.len() by {
            let p = choose|p: int| 0 <= p < sorted@.len() && sorted@[p] == kept@[k];
            assert(sorted@[p].sc_edges is Some);
        }
        assert forall|x: int, y: int|
            0 <= x < y < kept@.len() && (#[trigger] kept@[x]).sc_edges is Some implies (
            #[trigger] kept@[y]).sc_edges != kept@[x].sc_edges by {
            let i = kept@[x].idx as int;
            let j = kept@[y].idx as int;
            assert(kept@[x] == b@[i]);
            assert(kept@[y] == b@[j]);
            if i < j {
                assert(proto_edges@[j].sc_edges != proto_edges@[i].sc_edges);
            } else {
                assert(proto_edges@[i].sc_edges != proto_edges@[j].sc_edges);
            }
        }
    }
    let _sc_count = correct_shortcuts(&kept, &removed, &mut proto_shortcuts, Ghost(sorted@.len() as int));

    // store metrics
    let ghost metrics_in = proto_metrics@;
    let (metrics, scs) = match store_metrics(&kept, &mut proto_metrics, &proto_shortcuts, fix_metrics) {
        Ok(r) => r,
        Err(e) => {
            proof {
                let k = choose|k: int|
                    0 <= k < kept@.len() && fix_metrics.ensures(
                        (metrics_in[(#[trigger] kept@[k]).idx as int]->0,),
                        None::<M>,
                    );
                let j = kept@[k].idx as int;
                assert(0 <= j < metrics_in.len());
                assert(fix_metrics.ensures((metrics_in[j]->0,), None::<M>));
            }
            return Err(e);
        },
    };

    // shortcut-offsets
    let (sc_offsets, sc_edges) = build_sc_offsets(kept.len(), &scs);
    proof {
        assert forall|j: int| 0 <= j < sc_edges@.len() implies (#[trigger] sc_edges@[j])[0].0 < kept@.len()
            && sc_edges@[j][1].0 < kept@.len() by {
            assert(sc_edges@[j] == scs@[j].1);
        }
        assert forall|i: int| 0 <= i < b@.len() implies kept_key(#[trigger] b@[i], ids) == keys[i]
            && b@[i].sc_edges == proto_edges@[i].sc_edges by {
            assert(keys[i] == (proto_edges@[i].id, proto_edges@[i].src_id, proto_edges@[i].dst_id));
        }
        assert forall|p: int| 0 <= p < sorted@.len() implies (#[trigger] sorted@[p]).idx < b@.len()
            && sorted@[p] == b@[sorted@[p].idx as int] by {}
        assert forall|j: int| 0 <= j < keys.len() implies #[trigger] kept_for(
            *same_metrics,
            metrics0,
            kept@,
            ids,
            keys,
            j,
        ) by {
            assert(placed(sorted@, j as usize));
            let p = choose|p: int| 0 <= p < sorted@.len() && (#[trigger] sorted@[p]).idx == j as usize;
            let k = shifted(removed@, p);
            assert(same_key(kept@[k], sorted@[p]));
            assert(merged_into(*same_metrics, metrics0, kept@[k], sorted@[p]));
            assert(sorted@[p] == b@[j]);
            assert(kept_key(b@[j], ids) == keys[j]);
            assert(kept_key(kept@[k], ids) == keys[j]);
        }
        lemma_shortcuts_carried(
            keys,
            ids,
            proto_edges@,
            b@,
            sorted@,
            kept@,
            removed@,
            sc_inserted,
            sc_sorted,
            proto_shortcuts@,
            scs@,
            sc_offsets@,
            sc_edges@,
        );
    }
    Ok((kept, metrics, sc_offsets, sc_edges))
}

/// Following each kept edge's shortcut through sorting (`sc_sorted`), removing duplicates
/// (`sc_final`), collecting (`scs`) and the offset-arrays: the edge has a shortcut-entry exactly
/// where its collected edge has a shortcut, and the entry replaces kept edges of the same keys.
#[verifier::spinoff_prover]
#[verifier::rlimit(30)]
proof fn lemma_shortcuts_carried(
    keys: Seq<EdgeKey>,
    ids: Seq<i64>,
    proto_edges: Seq<ProtoEdgeA>,
    b: Seq<ProtoEdgeB>,
    sorted: Seq<ProtoEdgeB>,
    kept: Seq<ProtoEdgeB>,
    removed: Seq<usize>,
    sc_inserted: Seq<[EdgeIdx; 2]>,
    sc_sorted: Seq<[EdgeIdx; 2]>,
    sc_final: Seq<[EdgeIdx; 2]>,
    scs: Seq<(usize, [EdgeIdx; 2])>,
    sc_offsets: Seq<usize>,
    sc_edges: Seq<[EdgeIdx; 2]>,
)
    requires
        b.len() == proto_edges.len(),
        keys.len() == proto_edges.len(),
        forall|i: int| 0 <= i < b.len() ==> kept_key(#[trigger] b[i], ids) == keys[i] && b[i].sc_edges
            == proto_edges[i].sc_edges,
        forall|p: int| 0 <= p < sorted.len() ==> (#[trigger] sorted[p]).idx < b.len() && sorted[p] == b[sorted[p].idx as int],
        forall|k: int| 0 <= k < kept.len() ==> (#[trigger] kept[k]).idx < b.len() && kept[k] == b[kept[k].idx as int],
        forall|k: int| 0 <= k < kept.len() ==> sorted.contains(#[trigger] kept[k]),
        forall|p: int|
            0 <= p < sorted.len() && (#[trigger] sorted[p]).sc_edges is Some ==> {
                let x = sorted[p].sc_edges->0 as int;
                &&& moved_to(sorted, sc_inserted[x][0], sc_sorted[x][0])
                &&& moved_to(sorted, sc_inserted[x][1], sc_sorted[x][1])
            },
        forall|p: int|
            0 <= p < sorted.len() ==> 0 <= #[trigger] shifted(removed, p) < kept.len() && same_key(
                kept[shifted(removed, p)],
                sorted[p],
            ),
        forall|i: int|
            0 <= i < kept.len() && (#[trigger] kept[i]).sc_edges is Some ==> {
                let x = kept[i].sc_edges->0 as int;
                &&& sc_final[x][0].0 == shifted(removed, sc_sorted[x][0].0 as int)
                &&& sc_final[x][1].0 == shifted(removed, sc_sorted[x][1].0 as int)
            },
        forall|j: int| 0 <= j < scs.len() ==> (#[trigger] scs[j]).0 < kept.len(),
        forall|i: int, j: int| 0 <= i < j < scs.len() ==> (#[trigger] scs[i]).0 < (#[trigger] scs[j]).0,
        forall|j: int|
            0 <= j < scs.len() ==> kept[(#[trigger] scs[j]).0 as int].sc_edges is Some && scs[j].1
                == sc_final[kept[scs[j].0 as int].sc_edges->0 as int],
        forall|k: int|
            0 <= k < kept.len() && (#[trigger] kept[k]).sc_edges is Some ==> exists|j: int|
                0 <= j < scs.len() && (#[trigger] scs[j]).0 == k,
        sc_offsets.len() == kept.len() + 1,
        forall|i: int, j: int| 0 <= i <= j < sc_offsets.len() ==> sc_offsets[i] <= sc_offsets[j],
        sc_offsets[kept.len() as int] == sc_edges.len(),
        sc_edges.len() == scs.len(),
        forall|j: int| 0 <= j < sc_edges.len() ==> sc_edges[j] == (#[trigger] scs[j]).1,
        forall|k: int, j: int|
            0 <= k <= kept.len() && 0 <= j < scs.len() ==> (j < #[trigger] sc_offsets[k] <==> (
            #[trigger] scs[j]).0 < k),
    ensures
        forall|k: int|
            0 <= k < kept.len() ==> shortcut_carried(
                shortcuts_of(proto_edges, sc_inserted)[(#[trigger] kept[k]).idx as int],
                keys,
                sc_offsets,
                sc_edges,
                |x: int| kept_key(kept[x], ids),
                k,
            ),
{
    let key_of = |x: int| kept_key(kept[x], ids);
    let scs0 = shortcuts_of(proto_edges, sc_inserted);
    assert forall|k: int| 0 <= k < kept.len() implies shortcut_carried(
        scs0[(#[trigger] kept[k]).idx as int],
        keys,
        sc_offsets,
        sc_edges,
        key_of,
        k,
    ) by {
        let i = kept[k].idx as int;
        lemma_sc_entry(scs, sc_offsets, kept.len() as int, k);
        if let Some(x) = kept[k].sc_edges {
            assert(scs0[i] == Some(sc_inserted[x as int]));
            let j = choose|j: int| 0 <= j < scs.len() && (#[trigger] scs[j]).0 == k;
            let o = sc_offsets[k] as int;
            assert(sc_edges[o] == scs[o].1);
            assert(scs[o].1 == sc_final[x as int]);
            let pk = choose|p: int| 0 <= p < sorted.len() && sorted[p] == kept[k];
            assert(sorted[pk].sc_edges == Some(x));
            assert forall|t: int| 0 <= t < 2 implies key_of(sc_edges[o][t].0 as int) == keys[sc_inserted[x as int][t].0 as int] by {
                let p = sc_sorted[x as int][t].0 as int;
                assert(moved_to(sorted, sc_inserted[x as int][t], sc_sorted[x as int][t]));
                assert(sc_edges[o][t].0 == shifted(removed, p));
                assert(same_key(kept[shifted(removed, p)], sorted[p]));
                assert(sorted[p] == b[sorted[p].idx as int]);
                assert(kept_key(b[sorted[p].idx as int], ids) == keys[sorted[p].idx as int]);
            }
            assert(key_of(sc_edges[o][0].0 as int) == keys[sc_inserted[x as int][0].0 as int]);
            assert(key_of(sc_edges[o][1].0 as int) == keys[sc_inserted[x as int][1].0 as int]);
        } else {
            assert(scs0[i] is None);
            assert forall|j: int| 0 <= j < scs.len() implies (#[trigger] scs[j]).0 != k by {
                assert(kept[scs[j].0 as int].sc_edges is Some);
            }
        }
    }
}

/// Every id of the keys is in the id-map, and each of its entries leads to an edge of that key.
proof fn lemma_ids_resolve(
    keys: Seq<EdgeKey>,
    e: Seq<Option<usize>>,
    s: Seq<NodeIdx>,
    d: Seq<NodeIdx>,
    ids: Seq<i64>,
    map: Seq<(usize, EdgeIdx)>,
)
    requires
        id_map_fits(map, e),
        forall|j: int| 0 <= j < keys.len() ==> key_in_graph(#[trigger] keys[j], e, s, d, ids),
        forall|k: int| 0 <= k < e.len() ==> keys.contains(#[trigger] key_at(e, s, d, ids, k)),
        forall|i: int, j: int|
            0 <= i < keys.len() && 0 <= j < keys.len() && (#[trigger] keys[i]).0 is Some && (
            #[trigger] keys[j]).0 == keys[i].0 ==> keys[i] == keys[j],
    ensures
        forall|j: int|
            0 <= j < keys.len() && (#[trigger] keys[j]).0 is Some ==> exists|x: EdgeIdx|
                map.contains((keys[j].0->0, x)),
        forall|j: int, x: EdgeIdx|
            0 <= j < keys.len() && (#[trigger] keys[j]).0 is Some && #[trigger] map.contains(
                (keys[j].0->0, x),
            ) ==> x.0 < e.len() && key_at(e, s, d, ids, x.0 as int) == keys[j],
{
    reveal(id_map_fits);
    assert forall|j: int| 0 <= j < keys.len() && (#[trigger] keys[j]).0 is Some implies exists|x: EdgeIdx|
        map.contains((keys[j].0->0, x)) by {
        assert(key_in_graph(keys[j], e, s, d, ids));
        let k = choose|k: int| 0 <= k < e.len() && #[trigger] key_at(e, s, d, ids, k) == keys[j];
        assert(e[k] is Some);
        assert(map.contains((e[k]->0, EdgeIdx(k as usize))));
    }
    assert forall|j: int, x: EdgeIdx|
        0 <= j < keys.len() && (#[trigger] keys[j]).0 is Some && #[trigger] map.contains(
            (keys[j].0->0, x),
        ) implies x.0 < e.len() && key_at(e, s, d, ids, x.0 as int) == keys[j] by {
        let p = choose|p: int| 0 <= p < map.len() && map[p] == (keys[j].0->0, x);
        assert(x.0 < e.len() && e[x.0 as int] == Some(keys[j].0->0));
        let key = key_at(e, s, d, ids, x.0 as int);
        assert(keys.contains(key));
        let j2 = choose|j2: int| 0 <= j2 < keys.len() && keys[j2] == key;
        assert(keys[j2].0 == keys[j].0);
    }
}

/// Where the id-map holds every edge's id once, the keys that share an id are one key.
proof fn lemma_one_key_per_id(
    keys: Seq<EdgeKey>,
    kept: Seq<ProtoEdgeB>,
    ids: Seq<i64>,
    edge_ids: Seq<Option<usize>>,
    id_map: Seq<(usize, EdgeIdx)>,
)
    requires
        forall|j: int| 0 <= j < keys.len() ==> key_kept(#[trigger] keys[j], kept, ids),
        edge_ids.len() == kept.len(),
        kept.len() <= usize::MAX,
        forall|k: int| 0 <= k < kept.len() ==> #[trigger] edge_ids[k] == kept[k].id,
        id_map_sorted(id_map),
        id_map_fits(id_map, edge_ids),
    ensures
        forall|i: int, j: int|
            0 <= i < keys.len() && 0 <= j < keys.len() && (#[trigger] keys[i]).0 is Some && (
            #[trigger] keys[j]).0 == keys[i].0 ==> keys[i] == keys[j],
{
    reveal(id_map_fits);
    assert forall|i: int, j: int|
        0 <= i < keys.len() && 0 <= j < keys.len() && (#[trigger] keys[i]).0 is Some && (
        #[trigger] keys[j]).0 == keys[i].0 implies keys[i] == keys[j] by {
        assert(key_kept(keys[i], kept, ids));
        assert(key_kept(keys[j], kept, ids));
        let k1 = choose|k: int| 0 <= k < kept.len() && kept_key(#[trigger] kept[k], ids) == keys[i];
        let k2 = choose|k: int| 0 <= k < kept.len() && kept_key(#[trigger] kept[k], ids) == keys[j];
        if k1 != k2 {
            let id = keys[i].0->0;
            assert(edge_ids[k1] == Some(id));
            assert(edge_ids[k2] == Some(id));
            assert(id_map.contains((id, EdgeIdx(k1 as usize))));
            assert(id_map.contains((id, EdgeIdx(k2 as usize))));
            let p1 = choose|p: int| 0 <= p < id_map.len() && id_map[p] == (id, EdgeIdx(k1 as usize));
            let p2 = choose|p: int| 0 <= p < id_map.len() && id_map[p] == (id, EdgeIdx(k2 as usize));
            assert(p1 != p2);
            if p1 < p2 {
                assert(id_map[p1].0 < id_map[p2].0);
            } else {
                assert(id_map[p2].0 < id_map[p1].0);
            }
        }
    }
}

/// The keys of the kept edges are exactly those of the proto-edges, and kept edges of the same
/// id come from proto-edges of the same id.
proof fn lemma_kept_keys(
    keys: Seq<EdgeKey>,
    ids: Seq<i64>,
    proto_edges: Seq<ProtoEdgeA>,
    b: Seq<ProtoEdgeB>,
    sorted: Seq<ProtoEdgeB>,
    kept: Seq<ProtoEdgeB>,
)
    requires
        keys == proto_edges.map_values(|e: ProtoEdgeA| (e.id, e.src_id, e.dst_id)),
        b.len() == proto_edges.len(),
        forall|k: int|
            0 <= k < b.len() ==> {
                let x = #[trigger] b[k];
                let a = proto_edges[k];
                &&& x.id == a.id
                &&& x.src_idx < ids.len()
                &&& x.dst_idx < ids.len()
                &&& ids[x.src_idx as int] == a.src_id
                &&& ids[x.dst_idx as int] == a.dst_id
            },
        sorted.to_multiset() == b.to_multiset(),
        forall|k: int| 0 <= k < kept.len() ==> (#[trigger] kept[k]).idx < b.len() && kept[k] == b[kept[k].idx as int],
        forall|i: int, j: int| 0 <= i < j < kept.len() ==> (#[trigger] kept[i]).idx != (#[trigger] kept[j]).idx,
        forall|j: int|
            0 <= j < sorted.len() ==> exists|k: int|
                0 <= k < kept.len() && (#[trigger] kept[k]).id == (#[trigger] sorted[j]).id
                    && kept[k].src_idx == sorted[j].src_idx && kept[k].dst_idx == sorted[j].dst_idx,
    ensures
        forall|k: int|
            0 <= k < kept.len() ==> (#[trigger] kept[k]).src_idx < ids.len() && kept[k].dst_idx < ids.len(),
        forall|k: int| 0 <= k < kept.len() ==> keys.contains(kept_key(#[trigger] kept[k], ids)),
        forall|k: int|
            0 <= k < kept.len() ==> (#[trigger] kept[k]).idx < keys.len() && keys[kept[k].idx as int]
                == kept_key(kept[k], ids),
        forall|j: int| 0 <= j < keys.len() ==> key_kept(#[trigger] keys[j], kept, ids),
        kept_ids_shared(kept) ==> !ids_distinct(keys),
{
    assert forall|k: int|
        0 <= k < kept.len() implies (#[trigger] kept[k]).idx < keys.len() && keys[kept[k].idx as int]
            == kept_key(kept[k], ids) by {
        let i = kept[k].idx as int;
        assert(b[i] == kept[k]);
        assert(keys[i] == (proto_edges[i].id, proto_edges[i].src_id, proto_edges[i].dst_id));
    }
    assert forall|k: int|
        0 <= k < kept.len() implies (#[trigger] kept[k]).src_idx < ids.len() && kept[k].dst_idx < ids.len() by {
        assert(b[kept[k].idx as int] == kept[k]);
    }
    assert forall|k: int| 0 <= k < kept.len() implies keys.contains(kept_key(#[trigger] kept[k], ids)) by {
        let i = kept[k].idx as int;
        assert(b[i] == kept[k]);
        assert(keys[i] == (proto_edges[i].id, proto_edges[i].src_id, proto_edges[i].dst_id));
        assert(keys[i] == kept_key(kept[k], ids));
    }
    assert forall|j: int| 0 <= j < keys.len() implies key_kept(#[trigger] keys[j], kept, ids) by {
        assert(b.contains(b[j]));
        lemma_same_elements(b, sorted, b[j]);
        let p = choose|p: int| 0 <= p < sorted.len() && sorted[p] == b[j];
        let k = choose|k: int|
            0 <= k < kept.len() && (#[trigger] kept[k]).id == sorted[p].id && kept[k].src_idx
                == sorted[p].src_idx && kept[k].dst_idx == sorted[p].dst_idx;
        let x = b[j];
        assert(keys[j] == (proto_edges[j].id, proto_edges[j].src_id, proto_edges[j].dst_id));
        assert(kept_key(kept[k], ids) == keys[j]);
    }
    if kept_ids_shared(kept) {
        let (k1, k2) = choose|k1: int, k2: int|
            0 <= k1 < k2 < kept.len() && (#[trigger] kept[k1]).id is Some && (#[trigger] kept[k2]).id
                == kept[k1].id;
        let i1 = kept[k1].idx as int;
        let i2 = kept[k2].idx as int;
        assert(i1 != i2);
        assert(b[i1] == kept[k1]);
        assert(b[i2] == kept[k2]);
        assert(keys[i1].0 == proto_edges[i1].id);
        assert(keys[i2].0 == proto_edges[i2].id);
        if i1 < i2 {
            assert((#[trigger] keys[i1]).0 is Some && (#[trigger] keys[i2]).0 == keys[i1].0);
        } else {
            assert((#[trigger] keys[i2]).0 is Some && (#[trigger] keys[i1]).0 == keys[i2].0);
        }
    }
}

/// The edges are sorted in forward-order.
#[verifier::opaque]
spec fn kept_sorted(kept: Seq<ProtoEdgeB>) -> bool {
    forall|a: int, c: int| 0 <= a < c < kept.len() ==> fwd_le(#[trigger] kept[a], #[trigger] kept[c])
}

/// The sources of the kept edges.
fn src_groups(kept: &Vec<ProtoEdgeB>) -> (groups: Vec<usize>)
    requires
        kept_sorted(kept@),
    ensures
        groups@.len() == kept@.len(),
        forall|i: int| 0 <= i < kept@.len() ==> #[trigger] groups@[i] == kept@[i].src_idx,
        groups_sorted(groups@),
{
    let m = kept.len();
    let mut groups: Vec<usize> = Vec::new();
    let mut k: usize = 0;
    while k < m
        invariant
            m == kept@.len(),
            k <= m,
            groups@.len() == k,
            forall|i: int| 0 <= i < k ==> #[trigger] groups@[i] == kept@[i].src_idx,
        decreases m - k,
    {
        groups.push(kept[k].src_idx);
        k = k + 1;
    }
    proof {
        reveal(kept_sorted);
        assert forall|a: int, c: int| 0 <= a <= c < groups@.len() implies groups@[a] <= groups@[c] by {
            if a < c {
                assert(fwd_le(kept@[a], kept@[c]));
            }
        }
    }
    groups
}

/// Two entries of the id-map with the same id belong to two kept edges with the same id.
proof fn lemma_shared_ids(
    kept: Seq<ProtoEdgeB>,
    edge_ids: Seq<Option<usize>>,
    id_map: Seq<(usize, EdgeIdx)>,
)
    requires
        edge_ids.len() == kept.len(),
        forall|k: int| 0 <= k < kept.len() ==> #[trigger] edge_ids[k] == kept[k].id,
        id_map_fits(id_map, edge_ids),
        id_map_increasing(id_map),
        exists|i: int, j: int| 0 <= i < j < id_map.len() && (#[trigger] id_map[i]).0 == (#[trigger] id_map[j]).0,
    ensures
        kept_ids_shared(kept),
{
    reveal(id_map_fits);
    reveal(id_map_increasing);
    let (i, j) = choose|i: int, j: int|
        0 <= i < j < id_map.len() && (#[trigger] id_map[i]).0 == (#[trigger] id_map[j]).0;
    let (id1, e1) = id_map[i];
    let (id2, e2) = id_map[j];
    assert(edge_ids[e1.0 as int] == Some(id1));
    assert(edge_ids[e2.0 as int] == Some(id2));
    assert(e1.0 < e2.0);
    let k1 = e1.0 as int;
    let k2 = e2.0 as int;
    assert(edge_ids[k1] == kept[k1].id);
    assert(edge_ids[k2] == kept[k2].id);
    assert((#[trigger] kept[k1]).id is Some && (#[trigger] kept[k2]).id == kept[k1].id);
}

/// The sorted id-map holds the same entries as the unsorted one.
proof fn lemma_sorted_id_map(
    edge_ids: Seq<Option<usize>>,
    id_map: Seq<(usize, EdgeIdx)>,
    sorted: Seq<(usize, EdgeIdx)>,
)
    requires
        sorted.to_multiset() == id_map.to_multiset(),
        id_map_fits(id_map, edge_ids),
    ensures
        id_map_fits(sorted, edge_ids),
{
    broadcast use {vstd::seq_lib::group_to_multiset_ensures, vstd::multiset::group_multiset_axioms};

    reveal(id_map_fits);
    assert forall|j: int|
        0 <= j < sorted.len() implies {
            let (id, e) = #[trigger] sorted[j];
            e.0 < edge_ids.len() && edge_ids[e.0 as int] == Some(id)
        } by {
        let x = sorted[j];
        assert(sorted.contains(x));
        lemma_same_elements(sorted, id_map, x);
        let p = choose|p: int| 0 <= p < id_map.len() && id_map[p] == x;
        assert(id_map[p] == x);
    }
    assert forall|e: int|
        0 <= e < edge_ids.len() && (#[trigger] edge_ids[e]) is Some implies sorted.contains(
            (edge_ids[e]->0, EdgeIdx(e as usize)),
        ) by {
        lemma_same_elements(id_map, sorted, (edge_ids[e]->0, EdgeIdx(e as usize)));
    }
}

proof fn lemma_fwd_groups(bwd_dsts: Seq<NodeIdx>, groups: Seq<usize>, kept: Seq<ProtoEdgeB>)
    requires
        bwd_dsts.len() == kept.len(),
        groups.len() == kept.len(),
        forall|k: int| 0 <= k < kept.len() ==> (#[trigger] bwd_dsts[k]).0 == kept[k].src_idx,
        forall|i: int| 0 <= i < kept.len() ==> #[trigger] groups[i] == kept[i].src_idx,
    ensures
        node_indices(bwd_dsts) == groups,
{
    assert(node_indices(bwd_dsts) =~= groups);
}

proof fn lemma_bwd_groups(
    fwd_dsts: Seq<NodeIdx>,
    numbered: Seq<ProtoEdgeB>,
    kept: Seq<ProtoEdgeB>,
    map: Seq<EdgeIdx>,
)
    requires
        fwd_dsts.len() == kept.len(),
        numbered.len() == kept.len(),
        forall|k: int| 0 <= k < kept.len() ==> (#[trigger] fwd_dsts[k]).0 == kept[k].dst_idx,
        forall|k: int|
            0 <= k < kept.len() ==> #[trigger] numbered[k] == (ProtoEdgeB { idx: k as usize, ..kept[k] }),
        forall|j: int| 0 <= j < map.len() ==> (#[trigger] map[j]).0 < numbered.len(),
    ensures
        mapped_node_indices(fwd_dsts, map) == Seq::new(
            map.len(),
            |j: int| numbered[map[j].0 as int].dst_idx,
        ),
{
    assert forall|j: int| 0 <= j < map.len() implies fwd_dsts[(#[trigger] map[j]).0 as int].0
        == numbered[map[j].0 as int].dst_idx by {
        let k = map[j].0 as int;
        assert(numbered[k] == (ProtoEdgeB { idx: k as usize, ..kept[k] }));
        assert(fwd_dsts[k].0 == kept[k].dst_idx);
    }
    assert(mapped_node_indices(fwd_dsts, map) =~= Seq::new(
        map.len(),
        |j: int| numbered[map[j].0 as int].dst_idx,
    ));
}

/// The forward-offsets, forward-arrays and the sorted id-map of the kept edges, and the edges
/// numbered by position.
#[verifier::spinoff_prover]
fn fwd_phase(kept: &Vec<ProtoEdgeB>, n: usize) -> (r: Result<
    (
        Vec<NodeIdx>,
        Vec<usize>,
        Vec<EdgeIdx>,
        Vec<NodeIdx>,
        Vec<Option<usize>>,
        Vec<(usize, EdgeIdx)>,
        Vec<ProtoEdgeB>,
    ),
    BuildError,
>)
    requires
        kept_sorted(kept@),
        forall|k: int| 0 <= k < kept@.len() ==> (#[trigger] kept@[k]).src_idx < n && kept@[k].dst_idx < n,
        n < usize::MAX,
    ensures
        r matches Err(e) ==> e == BuildError::DuplicateEdgeId && kept_ids_shared(kept@),
        r matches Ok((fwd_dsts, fwd_offsets, fwd_to_fwd_map, bwd_dsts, edge_ids, id_map, numbered)) ==> {
            let m = kept@.len();
            &&& fwd_offsets@.len() == n + 1
            &&& fwd_dsts@.len() == m
            &&& bwd_dsts@.len() == m
            &&& edge_ids@.len() == m
            &&& fwd_to_fwd_map@.len() == m
            &&& numbered@.len() == m
            &&& forall|k: int| 0 <= k < m ==> (#[trigger] fwd_dsts@[k]).0 == kept@[k].dst_idx
            &&& forall|k: int| 0 <= k < m ==> (#[trigger] bwd_dsts@[k]).0 == kept@[k].src_idx
            &&& forall|k: int| 0 <= k < m ==> #[trigger] edge_ids@[k] == kept@[k].id
            &&& forall|k: int| 0 <= k < m ==> #[trigger] fwd_to_fwd_map@[k] == EdgeIdx(k as usize)
            &&& forall|k: int|
                0 <= k < m ==> #[trigger] numbered@[k] == (ProtoEdgeB { idx: k as usize, ..kept@[k] })
            &&& offsets_partition(fwd_offsets@, node_indices(bwd_dsts@))
            &&& id_map_sorted(id_map@)
            &&& id_map_fits(id_map@, edge_ids@)
        },
{
    let groups = src_groups(kept);
    let fwd_offsets = build_offsets(&groups, n);
    let (fwd_dsts, bwd_dsts, fwd_to_fwd_map, edge_ids, id_map, numbered) = fwd_arrays(kept);
    proof {
        lemma_fwd_groups(bwd_dsts@, groups@, kept@);
    }

    // sort the mapping from edge-ids to indices
    let id_map_sorted_by_id = match sort_id_map(&id_map) {
        Ok(sorted_map) => sorted_map,
        Err(e) => {
            proof {
                lemma_shared_ids(kept@, edge_ids@, id_map@);
            }
            return Err(e);
        },
    };
    proof {
        lemma_sorted_id_map(edge_ids@, id_map@, id_map_sorted_by_id@);
    }
    Ok((fwd_dsts, fwd_offsets, fwd_to_fwd_map, bwd_dsts, edge_ids, id_map_sorted_by_id, numbered))
}

/// The offset-arrays, the mappings and the (sorted) id-map of the kept edges.
#[verifier::spinoff_prover]
fn arrays_phase(kept: &Vec<ProtoEdgeB>, n: usize) -> (r: Result<
    (
        Vec<NodeIdx>,
        Vec<usize>,
        Vec<EdgeIdx>,
        Vec<NodeIdx>,
        Vec<usize>,
        Vec<EdgeIdx>,
        Vec<Option<usize>>,
        Vec<(usize, EdgeIdx)>,
    ),
    BuildError,
>)
    requires
        kept_sorted(kept@),
        forall|k: int| 0 <= k < kept@.len() ==> (#[trigger] kept@[k]).src_idx < n && kept@[k].dst_idx < n,
        n < usize::MAX,
    ensures
        r matches Err(e) ==> e == BuildError::DuplicateEdgeId && kept_ids_shared(kept@),
        r matches Ok((fwd_dsts, fwd_offsets, fwd_to_fwd_map, bwd_dsts, bwd_offsets, bwd_to_fwd_map, edge_ids, id_map)) ==> {
            let m = kept@.len();
            &&& fwd_dsts@.len() == m
            &&& bwd_dsts@.len() == m
            &&& edge_ids@.len() == m
            &&& fwd_to_fwd_map@.len() == m
            &&& bwd_to_fwd_map@.len() == m
            &&& forall|k: int| 0 <= k < m ==> (#[trigger] fwd_dsts@[k]).0 == kept@[k].dst_idx
            &&& forall|k: int| 0 <= k < m ==> (#[trigger] bwd_dsts@[k]).0 == kept@[k].src_idx
            &&& forall|k: int| 0 <= k < m ==> #[trigger] edge_ids@[k] == kept@[k].id
            &&& forall|k: int| 0 <= k < m ==> #[trigger] fwd_to_fwd_map@[k] == EdgeIdx(k as usize)
            &&& forall|k: int| 0 <= k < m ==> (#[trigger] bwd_to_fwd_map@[k]).0 < m
            &&& fwd_offsets@.len() == n + 1
            &&& bwd_offsets@.len() == n + 1
            &&& map_is_permutation(bwd_to_fwd_map@)
            &&& offsets_partition(fwd_offsets@, node_indices(bwd_dsts@))
            &&& offsets_partition(bwd_offsets@, mapped_node_indices(fwd_dsts@, bwd_to_fwd_map@))
            &&& id_map_sorted(id_map@)
            &&& id_map_fits(id_map@, edge_ids@)
        },
{
    let (fwd_dsts, fwd_offsets, fwd_to_fwd_map, bwd_dsts, edge_ids, id_map, numbered) = match fwd_phase(kept, n) {
        Ok(r) => r,
        Err(e) => return Err(e),
    };
    // backward-offsets
    let (bwd_offsets, bwd_to_fwd_map) = bwd_arrays(&numbered, n);
    proof {
        lemma_bwd_groups(fwd_dsts@, numbered@, kept@, bwd_to_fwd_map@);
    }
    Ok(
        (
            fwd_dsts,
            fwd_offsets,
            fwd_to_fwd_map,
            bwd_dsts,
            bwd_offsets,
            bwd_to_fwd_map,
            edge_ids,
            id_map,
        ),
    )
}

impl<C: Copy, M> GraphBuilder<C, M> {
    /// Creates the offset-graph: nodes are sorted by id, edges by source and destination (both
    /// as indices); duplicated edges (same id, source and destination, and `same_metrics`) are
    /// removed; every metric is checked (and corrected) by `fix_metrics`; and the shortcuts are
    /// mapped to the new order of the edges: each edge replaces the edges of the keys its
    /// collected shortcut replaced.
    #[verifier::spinoff_prover]
    #[verifier::rlimit(30)]
    pub fn finalize<E: Fn(&M, &M) -> bool, F: Fn(M) -> Option<M>>(
        self,
        same_metrics: &E,
        fix_metrics: &F,
    ) -> (r: Result<Graph<C, M>, BuildError>)
        requires
            self.wf(),
            self.node_ids().len() < usize::MAX,
            shortcuts_within(self.shortcuts(), self.keys().len() as int),
            forall|a: &M, b: &M| #[trigger] same_metrics.requires((a, b)),
            forall|m: M| #[trigger] fix_metrics.requires((m,)),
        ensures
            (forall|i: int| 0 <= i < self.node_coords().len() ==> (#[trigger] self.node_coords()[i]) is Some)
                && ids_distinct(self.keys()) && (forall|j: int, o: Option<M>|
                0 <= j < self.metrics().len() && #[trigger] fix_metrics.ensures((self.metrics()[j],), o)
                    ==> o is Some) ==> r is Ok,
            r matches Err(BuildError::NodeWithoutCoord(id)) ==> exists|i: int|
                0 <= i < self.node_coords().len() && (#[trigger] self.node_coords()[i]) is None && id
                    == self.node_ids()[i] && forall|j: int|
                    0 <= j < i ==> (#[trigger] self.node_coords()[j]) is Some,
            (exists|i: int| 0 <= i < self.node_coords().len() && (#[trigger] self.node_coords()[i]) is None)
                ==> r matches Err(BuildError::NodeWithoutCoord(_)),
            r matches Err(BuildError::DuplicateEdgeId) ==> !ids_distinct(self.keys()),
            (forall|i: int| 0 <= i < self.node_coords().len() ==> (#[trigger] self.node_coords()[i]) is Some)
                && (forall|j: int, o: Option<M>|
                0 <= j < self.metrics().len() && #[trigger] fix_metrics.ensures((self.metrics()[j],), o)
                    ==> o is Some) && (exists|i: int, j: int|
                0 <= i < self.keys().len() && 0 <= j < self.keys().len() && (#[trigger] self.keys()[i]).0
                    is Some && (#[trigger] self.keys()[j]).0 == self.keys()[i].0 && self.keys()[i]
                    != self.keys()[j]) ==> r matches Err(BuildError::DuplicateEdgeId),
            r matches Err(BuildError::MetricTooSmall) ==> exists|j: int|
                0 <= j < self.metrics().len() && #[trigger] fix_metrics.ensures(
                    (self.metrics()[j],),
                    None::<M>,
                ),
            r matches Ok(g) ==> {
                let m = g.view_dsts().len();
                let ids = g.view_node_ids();
                &&& g.wf()
                &&& ids == self.node_ids()
                &&& g.view_node_ch_levels() == self.node_ch_levels()
                &&& forall|i: int|
                    0 <= i < ids.len() ==> self.node_coords()[i] == Some(
                        #[trigger] g.view_node_coords()[i],
                    )
                &&& forall|k: int|
                    0 <= k < m ==> self.keys().contains(
                        #[trigger] key_at(g.view_edge_ids(), g.view_srcs(), g.view_dsts(), ids, k),
                    )
                &&& forall|j: int|
                    0 <= j < self.keys().len() ==> key_in_graph(
                        #[trigger] self.keys()[j],
                        g.view_edge_ids(),
                        g.view_srcs(),
                        g.view_dsts(),
                        ids,
                    )
                &&& forall|k: int|
                    0 <= k < m ==> edge_carried(
                        self.keys(),
                        self.metrics(),
                        self.shortcuts(),
                        *fix_metrics,
                        #[trigger] g.view_metrics()[k],
                        g.view_sc_offsets(),
                        g.view_sc_edges(),
                        |x: int| key_at(g.view_edge_ids(), g.view_srcs(), g.view_dsts(), ids, x),
                        k,
                    )
                &&& forall|j: int|
                    0 <= j < self.keys().len() ==> edge_survives(
                        self.keys(),
                        self.metrics(),
                        #[trigger] self.keys()[j],
                        self.metrics()[j],
                        *same_metrics,
                        *fix_metrics,
                        g.view_metrics(),
                        |x: int| key_at(g.view_edge_ids(), g.view_srcs(), g.view_dsts(), ids, x),
                        m as int,
                    )
                &&& forall|i: int, j: int|
                    0 <= i < self.keys().len() && 0 <= j < self.keys().len() && (
                    #[trigger] self.keys()[i]).0 is Some && (#[trigger] self.keys()[j]).0 == self.keys()[i].0
                        ==> self.keys()[i] == self.keys()[j]
                &&& forall|j: int|
                    0 <= j < self.keys().len() && (#[trigger] self.keys()[j]).0 is Some ==> exists|e: EdgeIdx|
                        g.view_id_map().contains((self.keys()[j].0->0, e))
                &&& forall|j: int, e: EdgeIdx|
                    0 <= j < self.keys().len() && (#[trigger] self.keys()[j]).0 is Some && #[trigger] g.view_id_map().contains(
                        (self.keys()[j].0->0, e),
                    ) ==> e.0 < m && key_at(g.view_edge_ids(), g.view_srcs(), g.view_dsts(), ids, e.0 as int)
                        == self.keys()[j]
                &&& forall|j: int|
                    0 <= j < g.view_sc_edges().len() ==> (#[trigger] g.view_sc_edges()[j])[0].0 < m
                        && g.view_sc_edges()[j][1].0 < m
                &&& forall|a: int, b: int|
                    0 <= a < b < m ==> (#[trigger] g.view_srcs()[a]).0 < (#[trigger] g.view_srcs()[b]).0
                        || (g.view_srcs()[a] == g.view_srcs()[b] && g.view_dsts()[a].0
                        <= g.view_dsts()[b].0)
            },
    {
        let GraphBuilder {
            node_ids,
            node_coords,
            node_ch_levels,
            proto_edges,
            proto_metrics,
            proto_shortcuts,
        } = self;
        let ghost keys = self.keys();
        let ghost metrics0 = self.metrics();
        let ghost ids = node_ids@;
        let ghost scs0 = self.shortcuts();
        proof {
            assert forall|j: int| 0 <= j < metrics0.len() implies #[trigger] metrics0[j] == proto_metrics@[j]->0 by {}
            assert forall|k: int|
                0 <= k < proto_edges@.len() && (#[trigger] proto_edges@[k]).sc_edges is Some implies proto_shortcuts@[proto_edges@[k].sc_edges->0 as int][0].0
                < proto_edges@.len() && proto_shortcuts@[proto_edges@[k].sc_edges->0 as int][1].0 < proto_edges@.len() by {
                assert(scs0[k] == Some(proto_shortcuts@[proto_edges@[k].sc_edges->0 as int]));
            }
        }

        // check if every node has a coordinate, since every node is part of an edge
        let coords = match unwrap_coords(&node_ids, &node_coords) {
            Ok(coords) => coords,
            Err(e) => return Err(e),
        };
        let (kept, metrics, sc_offsets, sc_edges) = match dedup_phase(
            &node_ids,
            &proto_edges,
            proto_metrics,
            proto_shortcuts,
            same_metrics,
            fix_metrics,
        ) {
            Ok(r) => r,
            Err(e) => {
                proof {
                    let j = choose|j: int|
                        0 <= j < proto_metrics@.len() && #[trigger] fix_metrics.ensures(
                            (proto_metrics@[j]->0,),
                            None::<M>,
                        );
                    assert(metrics0[j] == proto_metrics@[j]->0);
                    assert(fix_metrics.ensures((metrics0[j],), None::<M>));
                }
                return Err(e);
            },
        };
        let n = node_ids.len();
        proof {
            reveal(kept_sorted);
        }
        let (fwd_dsts, fwd_offsets, fwd_to_fwd_map, bwd_dsts, bwd_offsets, bwd_to_fwd_map, edge_ids, id_map) =
            match arrays_phase(&kept, node_ids.len()) {
            Ok(r) => r,
            Err(e) => return Err(e),
        };
        proof {
            assert forall|k: int|
                0 <= k < fwd_dsts@.len() implies (#[trigger] fwd_dsts@[k]).0 < node_ids@.len()
                    && bwd_dsts@[k].0 < node_ids@.len() by {
                assert(kept@[k].src_idx < n);
            }
            lemma_one_key_per_id(keys, kept@, ids, edge_ids@, id_map@);
        }
        let g = Graph::from_parts(
            node_ids,
            coords,
            node_ch_levels,
            fwd_dsts,
            fwd_offsets,
            fwd_to_fwd_map,
            bwd_dsts,
            bwd_offsets,
            bwd_to_fwd_map,
            metrics,
            edge_ids,
            id_map,
            sc_offsets,
            sc_edges,
        );
        proof {
            let (e, s, d) = (g.view_edge_ids(), g.view_srcs(), g.view_dsts());
            assert forall|k: int| 0 <= k < e.len() implies keys.contains(
                #[trigger] key_at(e, s, d, ids, k),
            ) by {
                assert(e[k] == kept@[k].id);
                assert(key_at(e, s, d, ids, k) == kept_key(kept@[k], ids));
            }
            let key_of = |x: int| key_at(e, s, d, ids, x);
            assert forall|x: int| 0 <= x < d.len() implies #[trigger] key_at(e, s, d, ids, x) == kept_key(
                kept@[x],
                ids,
            ) by {
                assert(e[x] == kept@[x].id);
            }
            assert forall|k: int| 0 <= k < d.len() implies edge_carried(
                keys,
                metrics0,
                scs0,
                *fix_metrics,
                #[trigger] g.view_metrics()[k],
                g.view_sc_offsets(),
                g.view_sc_edges(),
                key_of,
                k,
            ) by {
                let j = kept@[k].idx as int;
                assert(e[k] == kept@[k].id);
                assert(key_at(e, s, d, ids, k) == kept_key(kept@[k], ids));
                assert(metrics0[j] == proto_metrics@[j]->0);
                assert(g.view_metrics()[k] == metrics@[k]);
                assert(shortcut_carried(
                    scs0[j],
                    keys,
                    sc_offsets@,
                    sc_edges@,
                    |x: int| kept_key(kept@[x], ids),
                    k,
                ));
                if scs0[j] is Some {
                    let entry = sc_edges@[sc_offsets@[k] as int];
                    assert(sc_offsets@[k] < sc_edges@.len());
                    assert(key_of(entry[0].0 as int) == kept_key(kept@[entry[0].0 as int], ids));
                    assert(key_of(entry[1].0 as int) == kept_key(kept@[entry[1].0 as int], ids));
                }
                assert(shortcut_carried(scs0[j], keys, g.view_sc_offsets(), g.view_sc_edges(), key_of, k));
            }

            assert forall|j: int| 0 <= j < keys.len() implies edge_survives(
                keys,
                metrics0,
                #[trigger] keys[j],
                metrics0[j],
                *same_metrics,
                *fix_metrics,
                g.view_metrics(),
                key_of,
                d.len() as int,
            ) by {
                assert(kept_for(*same_metrics, proto_metrics@, kept@, ids, keys, j));
                let k = choose|k: int|
                    0 <= k < kept@.len() && kept_key(#[trigger] kept@[k], ids) == keys[j] && (kept@[k].idx
                        == j || same_metrics.ensures(
                        (&proto_metrics@[kept@[k].idx as int]->0, &proto_metrics@[j]->0),
                        true,
                    ));
                let i = kept@[k].idx as int;
                assert(e[k] == kept@[k].id);
                assert(key_of(k) == keys[j]);
                assert(metrics0[i] == proto_metrics@[i]->0);
                assert(metrics0[j] == proto_metrics@[j]->0);
                assert(g.view_metrics()[k] == metrics@[k]);
                assert(fix_metrics.ensures((metrics0[i],), Some(g.view_metrics()[k])));
                assert(keys[i] == keys[j]);
                assert(0 <= k < d.len());
                if i != j {
                    assert(same_metrics.ensures((&metrics0[i], &metrics0[j]), true));
                    assert(exists|i2: int|
                        0 <= i2 < keys.len() && keys[i2] == keys[j] && #[trigger] fix_metrics.ensures(
                            (metrics0[i2],),
                            Some(g.view_metrics()[k]),
                        ) && same_metrics.ensures((&metrics0[i2], &metrics0[j]), true));
                }
            }
            assert forall|j: int| 0 <= j < keys.len() implies key_in_graph(#[trigger] keys[j], e, s, d, ids) by {
                assert(key_kept(keys[j], kept@, ids));
                let k = choose|k: int| 0 <= k < kept@.len() && kept_key(#[trigger] kept@[k], ids) == keys[j];
                assert(e[k] == kept@[k].id);
                assert(key_at(e, s, d, ids, k) == keys[j]);
            }
            lemma_ids_resolve(keys, e, s, d, ids, g.view_id_map());
            assert forall|a: int, b: int|
                0 <= a < b < e.len() implies (#[trigger] s[a]).0 < (#[trigger] s[b]).0 || (s[a] == s[b]
                    && d[a].0 <= d[b].0) by {
                assert(fwd_le(kept@[a], kept@[b]));
                assert(e[a] == kept@[a].id);
                assert(e[b] == kept@[b].id);
                if s[a].0 == s[b].0 {
                    assert(s[a] == s[b]);
                }
            }
        }
        Ok(g)
    }
}

/// `offsets` partitions the positions `0..groups.len()` by their (increasing) group: the
/// positions of group `i` are `offsets[i]..offsets[i+1]`.
pub open spec fn offsets_partition(offsets: Seq<usize>, groups: Seq<usize>) -> bool {
    &&& offsets.len() >= 1
    &&& offsets[0] == 0
    &&& offsets[offsets.len() - 1] == groups.len()
    &&& forall|i: int, j: int| 0 <= i <= j < offsets.len() ==> offsets[i] <= offsets[j]
    &&& forall|i: int, k: int|
        #![trigger offsets[i], groups[k]]
        0 <= i < offsets.len() - 1 && offsets[i] <= k < offsets[i + 1] ==> groups[k] == i
}

/// The groups never decrease.
pub open spec fn groups_sorted(groups: Seq<usize>) -> bool {
    forall|i: int, j: int| 0 <= i <= j < groups.len() ==> groups[i] <= groups[j]
}

/// Creates the offset-array of positions sorted by their group: a group without positions gets
/// the offset of the next group, and the last group gets an upper bound as well.
#[verifier::spinoff_prover]
#[verifier::rlimit(40)]
pub fn build_offsets(groups: &Vec<usize>, n: usize) -> (offsets: Vec<usize>)
    requires
        groups_sorted(groups@),
        forall|k: int| 0 <= k < groups@.len() ==> #[trigger] groups@[k] < n,
        n < usize::MAX,
    ensures
        offsets_partition(offsets@, groups@),
        offsets@.len() == n + 1,
{
    let m = groups.len();
    let mut offsets: Vec<usize> = Vec::new();
    let mut group: usize = 0;
    offsets.push(0);
    let mut k: usize = 0;
    while k < m
        invariant
            m == groups@.len(),
            groups_sorted(groups@),
            forall|q: int| 0 <= q < groups@.len() ==> #[trigger] groups@[q] < n,
            k <= m,
            offsets@.len() == group + 1,
            offsets@[0] == 0,
            offsets@[offsets@.len() - 1] <= k,
            k > 0 ==> group == groups@[k - 1],
            k == 0 ==> group == 0,
            forall|i: int, j: int| 0 <= i <= j < offsets@.len() ==> offsets@[i] <= offsets@[j],
            forall|i: int, p: int|
                #![trigger offsets@[i], groups@[p]]
                0 <= i < offsets@.len() - 1 && offsets@[i] <= p < offsets@[i + 1] ==> groups@[p] == i,
            forall|p: int| offsets@[offsets@.len() - 1] <= p < k ==> #[trigger] groups@[p] == group,
        decreases m - k,
    {
        let g = groups[k];
        proof {
            if k > 0 {
                assert(groups@[k - 1] <= groups@[k as int]);
            }
        }
        while group < g
            invariant
                m == groups@.len(),
                forall|q: int| 0 <= q < groups@.len() ==> #[trigger] groups@[q] < n,
                k < m,
                g == groups@[k as int],
                group <= g,
                offsets@.len() == group + 1,
                offsets@[0] == 0,
                offsets@[offsets@.len() - 1] <= k,
                forall|i: int, j: int| 0 <= i <= j < offsets@.len() ==> offsets@[i] <= offsets@[j],
                forall|i: int, p: int|
                    #![trigger offsets@[i], groups@[p]]
                    0 <= i < offsets@.len() - 1 && offsets@[i] <= p < offsets@[i + 1] ==> groups@[p]
                        == i,
                forall|p: int| offsets@[offsets@.len() - 1] <= p < k ==> #[trigger] groups@[p] == group,
            decreases g - group,
        {
            let ghost old_offsets = offsets@;
            offsets.push(k);
            proof {
                assert forall|i: int, p: int|
                    #![trigger offsets@[i], groups@[p]]
                    0 <= i < offsets@.len() - 1 && offsets@[i] <= p < offsets@[i + 1] implies groups@[p] == i by {
                    if i < old_offsets.len() - 1 {
                        assert(old_offsets[i] == offsets@[i]);
                        assert(old_offsets[i + 1] == offsets@[i + 1]);
                    } else {
                        assert(old_offsets[old_offsets.len() - 1] <= p < k);
                        assert(groups@[p] == group);
                    }
                }
            }
            group = group + 1;
            proof {
                assert forall|p: int| offsets@[offsets@.len() - 1] <= p < k implies #[trigger] groups@[p] == group by {
                    assert(offsets@[offsets@.len() - 1] == k);
                }
            }
        }
        k = k + 1;
        proof {
            assert forall|p: int| offsets@[offsets@.len() - 1] <= p < k implies #[trigger] groups@[p] == group by {
                if p == k - 1 {
                    assert(groups@[p] == g);
                }
            }
        }
    }
    proof {
        if m > 0 {
            assert(groups@[m - 1] < n);
        }
    }
    while offsets.len() < n + 1
        invariant
            n < usize::MAX,
            m == groups@.len(),
            group <= n,
            m > 0 ==> group < n,
            offsets@.len() >= group + 1,
            offsets@.len() <= n + 1,
            offsets@[0] == 0,
            offsets@[offsets@.len() - 1] <= m,
            forall|i: int, j: int| 0 <= i <= j < offsets@.len() ==> offsets@[i] <= offsets@[j],
            forall|i: int, p: int|
                #![trigger offsets@[i], groups@[p]]
                0 <= i < offsets@.len() - 1 && offsets@[i] <= p < offsets@[i + 1] ==> groups@[p] == i,
            offsets@.len() == group + 1 ==> forall|p: int|
                offsets@[offsets@.len() - 1] <= p < m ==> #[trigger] groups@[p] == group,
            offsets@.len() > group + 1 ==> offsets@[offsets@.len() - 1] == m,
        decreases n + 1 - offsets@.len(),
    {
        let ghost old_offsets = offsets@;
        offsets.push(m);
        proof {
            assert forall|i: int, p: int|
                #![trigger offsets@[i], groups@[p]]
                0 <= i < offsets@.len() - 1 && offsets@[i] <= p < offsets@[i + 1] implies groups@[p] == i by {
                if i < old_offsets.len() - 1 {
                    assert(old_offsets[i] == offsets@[i]);
                    assert(old_offsets[i + 1] == offsets@[i + 1]);
                } else if old_offsets.len() == group + 1 {
                    assert(old_offsets[old_offsets.len() - 1] <= p < m);
                    assert(groups@[p] == group);
                } else {
                    assert(old_offsets[old_offsets.len() - 1] == m);
                }
            }
        }
    }
    proof {
        if offsets@.len() == group + 1 {
            assert(m == 0);
        }
    }
    offsets
}

} // verus!
