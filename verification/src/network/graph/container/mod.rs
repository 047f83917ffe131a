pub mod edges;
pub mod nodes;

use super::{EdgeIdx, NodeIdx};
use crate::network::units::Meters;
use crate::units::speed::KilometersPerHour;
use vstd::prelude::*;

verus! {

/// A shallow container for accessing nodes: it only refers to the graph's node-arrays.
pub struct NodeContainer<'a, C> {
    pub node_ids: &'a Vec<i64>,
    pub node_coords: &'a Vec<C>,
}

/// A shallow container for accessing (forward- or backward-) edges: it only refers to the
/// graph's edge-arrays.
pub struct EdgeContainer<'a> {
    pub edge_dsts: &'a Vec<NodeIdx>,
    pub offsets: &'a Vec<usize>,
    pub xwd_to_fwd_map: &'a Vec<EdgeIdx>,
    pub lane_count: &'a Vec<u8>,
    pub meters: &'a Vec<Meters>,
    pub maxspeed: &'a Vec<KilometersPerHour>,
}

} // verus!
