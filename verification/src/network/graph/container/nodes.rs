use super::NodeContainer;
use crate::network::NodeIdx;
use vstd::prelude::*;

verus! {

/// A node, created from the graph's node-arrays.
#[derive(Copy, Clone, Debug)]
pub struct Node<C> {
    pub idx: NodeIdx,
    pub id: i64,
    pub coord: C,
}

impl<C: Copy> Node<C> {
    pub fn id(&self) -> (r: i64)
        ensures
            r == self.id,
    {
        self.id
    }

    pub fn idx(&self) -> (r: NodeIdx)
        ensures
            r == self.idx,
    {
        self.idx
    }

    pub fn coord(&self) -> (r: C)
        ensures
            r == self.coord,
    {
        self.coord
    }
}

/// The ids are strictly increasing.
pub open spec fn ids_sorted(ids: Seq<i64>) -> bool {
    forall|i: int, j: int| 0 <= i < j < ids.len() ==> ids[i] < ids[j]
}

/// Binary search for `id` in strictly increasing ids: `Ok` with its position, or `Err` with the
/// position where it would have to be inserted.
pub fn search_id(ids: &Vec<i64>, id: i64) -> (r: Result<usize, usize>)
    requires
        ids_sorted(ids@),
    ensures
        match r {
            Ok(idx) => idx < ids@.len() && ids@[idx as int] == id,
            Err(idx) => {
                &&& idx <= ids@.len()
                &&& forall|k: int| 0 <= k < idx ==> ids@[k] < id
                &&& forall|k: int| idx <= k < ids@.len() ==> ids@[k] > id
            },
        },
{
    let mut lo: usize = 0;
    let mut hi: usize = ids.len();
    while lo < hi
        invariant
            lo <= hi <= ids@.len(),
            ids_sorted(ids@),
            forall|k: int| 0 <= k < lo ==> ids@[k] < id,
            forall|k: int| hi <= k < ids@.len() ==> ids@[k] > id,
        decreases hi - lo,
    {
        let mid = lo + (hi - lo) / 2;
        if ids[mid] == id {
            return Ok(mid);
        } else if ids[mid] < id {
            lo = mid + 1;
        } else {
            hi = mid;
        }
    }
    Err(lo)
}

impl<'a, C: Copy> NodeContainer<'a, C> {
    pub fn count(&self) -> (r: usize)
        ensures
            r == self.node_ids@.len(),
    {
        self.node_ids.len()
    }

    pub fn id(&self, idx: NodeIdx) -> (r: i64)
        requires
            idx.0 < self.node_ids@.len(),
        ensures
            r == self.node_ids@[idx.0 as int],
    {
        self.node_ids[idx.to_usize()]
    }

    pub fn coord(&self, idx: NodeIdx) -> (r: C)
        requires
            idx.0 < self.node_coords@.len(),
        ensures
            r == self.node_coords@[idx.0 as int],
    {
        self.node_coords[idx.to_usize()]
    }

    /// The index of the node of the given id (`Ok`), or where it would be inserted (`Err`).
    pub fn idx_from(&self, id: i64) -> (r: Result<NodeIdx, NodeIdx>)
        requires
            ids_sorted(self.node_ids@),
        ensures
            match r {
                Ok(idx) => idx.0 < self.node_ids@.len() && self.node_ids@[idx.0 as int] == id,
                Err(idx) => {
                    &&& idx.0 <= self.node_ids@.len()
                    &&& forall|k: int| 0 <= k < idx.0 ==> self.node_ids@[k] < id
                    &&& forall|k: int| idx.0 <= k < self.node_ids@.len() ==> self.node_ids@[k] > id
                },
            },
    {
        match search_id(self.node_ids, id) {
            Ok(idx) => Ok(NodeIdx::new(idx)),
            Err(idx) => Err(NodeIdx::new(idx)),
        }
    }

    /// The node of the given id, if the graph has it.
    pub fn create_from(&self, id: i64) -> (r: Option<Node<C>>)
        requires
            ids_sorted(self.node_ids@),
            self.node_ids@.len() == self.node_coords@.len(),
        ensures
            r is Some <==> self.node_ids@.contains(id),
            r matches Some(node) ==> node.id == id && node.idx.0 < self.node_ids@.len()
                && self.node_ids@[node.idx.0 as int] == id && node.coord
                == self.node_coords@[node.idx.0 as int],
    {
        let idx = match self.idx_from(id) {
            Ok(idx) => idx,
            Err(_) => {
                proof {
                    if self.node_ids@.contains(id) {
                        let k = choose|k: int| 0 <= k < self.node_ids@.len() && self.node_ids@[k] == id;
                        assert(self.node_ids@[k] == id);
                    }
                }
                return None;
            },
        };
        Some(self.create(idx))
    }

    pub fn create(&self, idx: NodeIdx) -> (r: Node<C>)
        requires
            idx.0 < self.node_ids@.len(),
            self.node_ids@.len() == self.node_coords@.len(),
        ensures
            r.idx == idx,
            r.id == self.node_ids@[idx.0 as int],
            r.coord == self.node_coords@[idx.0 as int],
    {
        let id = self.id(idx);
        let coord = self.coord(idx);
        Node { id, idx, coord }
    }
}

} // verus!
