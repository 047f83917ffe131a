use super::EdgeContainer;
use crate::network::units::Meters;
use crate::network::{EdgeIdx, NodeIdx};
use crate::units::speed::KilometersPerHour;
use vstd::prelude::*;

verus! {

/// An edge seen from its source: its destination and its metrics.
#[derive(Copy, Clone, Debug)]
pub struct HalfEdge {
    pub dst_idx: NodeIdx,
    pub lane_count: u8,
    pub meters: Meters,
    pub maxspeed: KilometersPerHour,
}

impl HalfEdge {
    pub fn dst_idx(&self) -> (r: NodeIdx)
        ensures
            r == self.dst_idx,
    {
        self.dst_idx
    }

    /// The lanes of the edge.
    pub fn lane_count(&self) -> (r: u8)
        ensures
            r == self.lane_count,
    {
        self.lane_count
    }

    pub fn meters(&self) -> (r: Meters)
        ensures
            r == self.meters,
    {
        self.meters
    }

    pub fn maxspeed(&self) -> (r: KilometersPerHour)
        ensures
            r == self.maxspeed,
    {
        self.maxspeed
    }

    /// Two half-edges are equal if their destination and their length and speed are.
    pub fn is_equal(&self, other: &HalfEdge) -> (r: bool)
        ensures
            r == (self.dst_idx == other.dst_idx && self.meters == other.meters && self.maxspeed
                == other.maxspeed),
    {
        self.dst_idx.0 == other.dst_idx.0 && self.meters == other.meters && self.maxspeed.0
            == other.maxspeed.0
    }
}

impl<'a> EdgeContainer<'a> {
    /// The half-edge at index `e`, if all edge-arrays reach that far.
    pub open spec fn half_edge_at(&self, e: usize) -> Option<HalfEdge> {
        if e < self.edge_dsts@.len() && e < self.lane_count@.len() && e < self.meters@.len() && e
            < self.maxspeed@.len() {
            Some(
                HalfEdge {
                    dst_idx: self.edge_dsts@[e as int],
                    lane_count: self.lane_count@[e as int],
                    meters: self.meters@[e as int],
                    maxspeed: self.maxspeed@[e as int],
                },
            )
        } else {
            None
        }
    }

    /// Every offset lies within the mapping to forward-indices.
    pub open spec fn offsets_in_range(&self) -> bool {
        forall|i: int| 0 <= i < self.offsets@.len() ==> #[trigger] self.offsets@[i] <= self.xwd_to_fwd_map@.len()
    }

    /// The indices of the edges leaving node `idx`, if it has any.
    pub open spec fn leaving_indices(&self, idx: NodeIdx) -> Option<Seq<EdgeIdx>> {
        if idx.0 + 1 < self.offsets@.len() && self.offsets@[idx.0 as int] < self.offsets@[idx.0 + 1] {
            Some(
                self.xwd_to_fwd_map@.subrange(
                    self.offsets@[idx.0 as int] as int,
                    self.offsets@[idx.0 + 1] as int,
                ),
            )
        } else {
            None
        }
    }

    /// The first of the given edges that leads to `dst`, if no edge before it lies beyond the
    /// destination-array.
    pub open spec fn first_to(&self, l: Seq<EdgeIdx>, dst: NodeIdx) -> Option<(HalfEdge, EdgeIdx)>
        decreases l.len(),
    {
        if l.len() == 0 {
            None
        } else if l[0].0 >= self.edge_dsts@.len() {
            None
        } else if self.edge_dsts@[l[0].0 as int] == dst {
            match self.half_edge_at(l[0].0) {
                Some(h) => Some((h, l[0])),
                None => None,
            }
        } else {
            self.first_to(l.drop_first(), dst)
        }
    }

    pub fn count(&self) -> (r: usize)
        ensures
            r == self.edge_dsts@.len(),
    {
        self.edge_dsts.len()
    }

    pub fn half_edge(&self, idx: EdgeIdx) -> (r: Option<HalfEdge>)
        ensures
            r == self.half_edge_at(idx.0),
    {
        let idx = idx.to_usize();
        if idx < self.edge_dsts.len() && idx < self.lane_count.len() && idx < self.meters.len()
            && idx < self.maxspeed.len() {
            Some(
                HalfEdge {
                    dst_idx: self.edge_dsts[idx],
                    lane_count: self.lane_count[idx],
                    meters: self.meters[idx],
                    maxspeed: self.maxspeed[idx],
                },
            )
        } else {
            None
        }
    }

    pub fn dst_idx(&self, idx: EdgeIdx) -> (r: Option<NodeIdx>)
        ensures
            r == (if idx.0 < self.edge_dsts@.len() {
                Some(self.edge_dsts@[idx.0 as int])
            } else {
                None
            }),
    {
        if idx.to_usize() < self.edge_dsts.len() {
            Some(self.edge_dsts[idx.to_usize()])
        } else {
            None
        }
    }

    pub fn meters(&self, idx: EdgeIdx) -> (r: Option<Meters>)
        ensures
            r == (if idx.0 < self.meters@.len() {
                Some(self.meters@[idx.0 as int])
            } else {
                None
            }),
    {
        if idx.to_usize() < self.meters.len() {
            Some(self.meters[idx.to_usize()])
        } else {
            None
        }
    }

    pub fn maxspeed(&self, idx: EdgeIdx) -> (r: Option<KilometersPerHour>)
        ensures
            r == (if idx.0 < self.maxspeed@.len() {
                Some(self.maxspeed@[idx.0 as int])
            } else {
                None
            }),
    {
        if idx.to_usize() < self.maxspeed.len() {
            Some(self.maxspeed[idx.to_usize()])
        } else {
            None
        }
    }

    pub fn lane_count(&self, idx: EdgeIdx) -> (r: Option<u8>)
        ensures
            r == (if idx.0 < self.lane_count@.len() {
                Some(self.lane_count@[idx.0 as int])
            } else {
                None
            }),
    {
        if idx.to_usize() < self.lane_count.len() {
            Some(self.lane_count[idx.to_usize()])
        } else {
            None
        }
    }

    /// The half-edges leaving the given node, with all their metrics, if the node has leaving
    /// edges and all of them lie within the edge-arrays.
    pub fn starting_from(&self, idx: NodeIdx) -> (r: Option<Vec<HalfEdge>>)
        requires
            self.offsets_in_range(),
        ensures
            self.leaving_indices(idx) is None ==> r is None,
            self.leaving_indices(idx) matches Some(l) ==> {
                &&& r is Some <==> forall|k: int| 0 <= k < l.len() ==> self.half_edge_at(#[trigger] l[k].0) is Some
                &&& r matches Some(v) ==> v@.len() == l.len() && forall|k: int|
                    0 <= k < l.len() ==> Some(#[trigger] v@[k]) == self.half_edge_at(l[k].0)
            },
    {
        let leaving_indices = match self.offset_indices(idx) {
            Some(l) => l,
            None => return None,
        };
        let ghost l = leaving_indices@;
        let mut leaving_edges: Vec<HalfEdge> = Vec::new();
        let mut i: usize = 0;
        while i < leaving_indices.len()
            invariant
                l == leaving_indices@,
                self.leaving_indices(idx) == Some(l),
                i <= l.len(),
                leaving_edges@.len() == i,
                forall|k: int| 0 <= k < i ==> self.half_edge_at(#[trigger] l[k].0) is Some,
                forall|k: int| 0 <= k < i ==> Some(#[trigger] leaving_edges@[k]) == self.half_edge_at(l[k].0),
            decreases l.len() - i,
        {
            let edge = match self.half_edge(leaving_indices[i]) {
                Some(edge) => edge,
                None => {
                    proof {
                        assert(self.half_edge_at(l[i as int].0) is None);
                    }
                    return None;
                },
            };
            leaving_edges.push(edge);
            i = i + 1;
        }
        Some(leaving_edges)
    }

    /// The first edge from `src_idx` to `dst_idx` with its index; it uses linear search, but only
    /// on the source's leaving edges.
    pub fn between(&self, src_idx: NodeIdx, dst_idx: NodeIdx) -> (r: Option<(HalfEdge, EdgeIdx)>)
        requires
            self.offsets_in_range(),
        ensures
            r == match self.leaving_indices(src_idx) {
                Some(l) => self.first_to(l, dst_idx),
                None => None,
            },
    {
        let leaving_indices = match self.offset_indices(src_idx) {
            Some(l) => l,
            None => return None,
        };
        let ghost l = leaving_indices@;
        let mut i: usize = 0;
        proof {
            assert(l.skip(0) =~= l);
        }
        while i < leaving_indices.len()
            invariant
                l == leaving_indices@,
                self.leaving_indices(src_idx) == Some(l),
                i <= l.len(),
                self.first_to(l, dst_idx) == self.first_to(l.skip(i as int), dst_idx),
            decreases l.len() - i,
        {
            let edge_idx = leaving_indices[i];
            proof {
                assert(l.skip(i as int)[0] == edge_idx);
                assert(l.skip(i as int).drop_first() =~= l.skip(i + 1));
            }
            match self.dst_idx(edge_idx) {
                Some(d) => {
                    if d.0 == dst_idx.0 {
                        return match self.half_edge(edge_idx) {
                            Some(h) => Some((h, edge_idx)),
                            None => None,
                        };
                    }
                },
                None => return None,
            }
            i = i + 1;
        }
        proof {
            assert(l.skip(i as int).len() == 0);
        }
        None
    }

    /// The indices of the edges leaving the given node, or `None` if the node has no offsets
    /// or no leaving edges.
    fn offset_indices(&self, idx: NodeIdx) -> (r: Option<Vec<EdgeIdx>>)
        requires
            self.offsets_in_range(),
        ensures
            r matches Some(v) ==> self.leaving_indices(idx) == Some(v@),
            r is None ==> self.leaving_indices(idx) is None,
    {
        let idx = idx.to_usize();
        if idx >= self.offsets.len() {
            return None;
        }
        let i0 = self.offsets[idx];
        if idx + 1 >= self.offsets.len() {
            return None;
        }
        let i1 = self.offsets[idx + 1];
        if i0 < i1 {
            let mut edge_indices: Vec<EdgeIdx> = Vec::new();
            let mut i: usize = i0;
            proof {
                assert(self.offsets@[idx + 1] <= self.xwd_to_fwd_map@.len());
            }
            while i < i1
                invariant
                    i0 <= i <= i1 <= self.xwd_to_fwd_map@.len(),
                    edge_indices@ == self.xwd_to_fwd_map@.subrange(i0 as int, i as int),
                decreases i1 - i,
            {
                edge_indices.push(self.xwd_to_fwd_map[i]);
                i = i + 1;
                proof {
                    assert(edge_indices@ =~= self.xwd_to_fwd_map@.subrange(i0 as int, i as int));
                }
            }
            Some(edge_indices)
        } else {
            None
        }
    }
}

} // verus!
