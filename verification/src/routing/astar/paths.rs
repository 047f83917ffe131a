use crate::network::NodeIdx;
use crate::units::Metric;
use std::collections::HashMap;
use vstd::prelude::*;

verus! {

broadcast use vstd::std_specs::hash::group_hash_axioms;

//------------------------------------------------------------------------------------------------//
// Path using Vec

/// A path from a src to a dst, storing predecessors and successors in vectors of the graph's size.
#[derive(Clone)]
pub struct VecPath<M> {
    pub src_idx: NodeIdx,
    pub dst_idx: NodeIdx,
    pub cost: M,
    predecessors: Vec<Option<NodeIdx>>,
    successors: Vec<Option<NodeIdx>>,
}

impl<M: Metric> VecPath<M> {
    /// The source, destination and cost of the path.
    pub closed spec fn src(&self) -> NodeIdx {
        self.src_idx
    }

    pub closed spec fn dst(&self) -> NodeIdx {
        self.dst_idx
    }

    pub closed spec fn path_cost(&self) -> M {
        self.cost
    }

    /// The predecessor of every node-index, if set.
    pub closed spec fn preds(&self) -> Seq<Option<NodeIdx>> {
        self.predecessors@
    }

    /// The successor of every node-index, if set.
    pub closed spec fn succs(&self) -> Seq<Option<NodeIdx>> {
        self.successors@
    }

    pub fn with_capacity(src_idx: NodeIdx, dst_idx: NodeIdx, capacity: usize) -> (p: VecPath<M>)
        ensures
            p.src() == src_idx,
            p.dst() == dst_idx,
            p.path_cost() == M::zero_value(),
            p.preds() == Seq::new(capacity as nat, |i: int| None::<NodeIdx>),
            p.succs() == Seq::new(capacity as nat, |i: int| None::<NodeIdx>),
    {
        let mut predecessors: Vec<Option<NodeIdx>> = Vec::new();
        let mut successors: Vec<Option<NodeIdx>> = Vec::new();
        let mut i: usize = 0;
        while i < capacity
            invariant
                i <= capacity,
                predecessors@ == Seq::new(i as nat, |i: int| None::<NodeIdx>),
                successors@ == Seq::new(i as nat, |i: int| None::<NodeIdx>),
            decreases capacity - i,
        {
            predecessors.push(None);
            successors.push(None);
            i = i + 1;
            proof {
                assert(predecessors@ =~= Seq::new(i as nat, |i: int| None::<NodeIdx>));
                assert(successors@ =~= Seq::new(i as nat, |i: int| None::<NodeIdx>));
            }
        }
        VecPath { src_idx, dst_idx, cost: M::zero(), predecessors, successors }
    }

    /// Remembers that `pred` comes right before `succ`.
    pub fn add_pred_succ(&mut self, pred: NodeIdx, succ: NodeIdx)
        requires
            succ.0 < old(self).preds().len(),
            pred.0 < old(self).succs().len(),
        ensures
            final(self).preds() == old(self).preds().update(succ.0 as int, Some(pred)),
            final(self).succs() == old(self).succs().update(pred.0 as int, Some(succ)),
            final(self).src() == old(self).src(),
            final(self).dst() == old(self).dst(),
            final(self).path_cost() == old(self).path_cost(),
    {
        self.predecessors.set(succ.to_usize(), Some(pred));
        self.successors.set(pred.to_usize(), Some(succ));
    }

    pub fn pred_node_idx(&self, idx: NodeIdx) -> (r: Option<NodeIdx>)
        ensures
            r == (if idx.0 < self.preds().len() {
                self.preds()[idx.0 as int]
            } else {
                None
            }),
    {
        if idx.to_usize() < self.predecessors.len() {
            self.predecessors[idx.to_usize()]
        } else {
            None
        }
    }

    pub fn succ_node_idx(&self, idx: NodeIdx) -> (r: Option<NodeIdx>)
        ensures
            r == (if idx.0 < self.succs().len() {
                self.succs()[idx.0 as int]
            } else {
                None
            }),
    {
        if idx.to_usize() < self.successors.len() {
            self.successors[idx.to_usize()]
        } else {
            None
        }
    }
}

//------------------------------------------------------------------------------------------------//
// Path using HashMap

/// A path from a src to a dst, storing predecessors and successors in maps keyed by node-index.
pub struct HashPath<M> {
    pub src_idx: NodeIdx,
    pub dst_idx: NodeIdx,
    pub cost: M,
    predecessors: HashMap<usize, NodeIdx>,
    successors: HashMap<usize, NodeIdx>,
}

impl<M: Metric> HashPath<M> {
    /// The source, destination and cost of the path.
    pub closed spec fn src(&self) -> NodeIdx {
        self.src_idx
    }

    pub closed spec fn dst(&self) -> NodeIdx {
        self.dst_idx
    }

    pub closed spec fn path_cost(&self) -> M {
        self.cost
    }

    /// The predecessors, keyed by node-index.
    pub closed spec fn preds(&self) -> Map<usize, NodeIdx> {
        self.predecessors@
    }

    /// The successors, keyed by node-index.
    pub closed spec fn succs(&self) -> Map<usize, NodeIdx> {
        self.successors@
    }

    pub(crate) fn get_src(&self) -> (r: NodeIdx)
        ensures
            r == self.src(),
    {
        self.src_idx
    }

    pub(crate) fn get_dst(&self) -> (r: NodeIdx)
        ensures
            r == self.dst(),
    {
        self.dst_idx
    }

    pub(crate) fn get_cost(&self) -> (r: M)
        ensures
            r == self.path_cost(),
    {
        self.cost
    }

    pub(crate) fn set_cost(&mut self, cost: M)
        ensures
            final(self).path_cost() == cost,
            final(self).src() == old(self).src(),
            final(self).dst() == old(self).dst(),
            final(self).preds() == old(self).preds(),
            final(self).succs() == old(self).succs(),
    {
        self.cost = cost;
    }

    pub fn new(src_idx: NodeIdx, dst_idx: NodeIdx) -> (p: HashPath<M>)
        ensures
            p.src() == src_idx,
            p.dst() == dst_idx,
            p.path_cost() == M::zero_value(),
            p.preds() == Map::<usize, NodeIdx>::empty(),
            p.succs() == Map::<usize, NodeIdx>::empty(),
    {
        HashPath {
            src_idx,
            dst_idx,
            cost: M::zero(),
            predecessors: HashMap::new(),
            successors: HashMap::new(),
        }
    }

    /// Remembers that `pred` comes right before `succ`.
    pub fn add_pred_succ(&mut self, pred: NodeIdx, succ: NodeIdx)
        ensures
            final(self).preds() == old(self).preds().insert(succ.0, pred),
            final(self).succs() == old(self).succs().insert(pred.0, succ),
            final(self).src() == old(self).src(),
            final(self).dst() == old(self).dst(),
            final(self).path_cost() == old(self).path_cost(),
    {
        self.predecessors.insert(succ.to_usize(), pred);
        self.successors.insert(pred.to_usize(), succ);
    }

    pub fn pred_node_idx(&self, idx: NodeIdx) -> (r: Option<NodeIdx>)
        ensures
            r == (if self.preds().contains_key(idx.0) {
                Some(self.preds()[idx.0])
            } else {
                None
            }),
    {
        match self.predecessors.get(&idx.to_usize()) {
            Some(p) => Some(*p),
            None => None,
        }
    }

    pub fn succ_node_idx(&self, idx: NodeIdx) -> (r: Option<NodeIdx>)
        ensures
            r == (if self.succs().contains_key(idx.0) {
                Some(self.succs()[idx.0])
            } else {
                None
            }),
    {
        match self.successors.get(&idx.to_usize()) {
            Some(s) => Some(*s),
            None => None,
        }
    }
}

//------------------------------------------------------------------------------------------------//
// both paths after the same links

/// The links of `pairs` (each a node-index and what it is linked to), stored in a vector of `cap`
/// entries, the way `add_pred_succ` stores them in a `VecPath` (predecessors by successor, or
/// successors by predecessor).
pub open spec fn vec_links(cap: nat, pairs: Seq<(NodeIdx, NodeIdx)>) -> Seq<Option<NodeIdx>>
    decreases pairs.len(),
{
    if pairs.len() == 0 {
        Seq::new(cap, |i: int| None::<NodeIdx>)
    } else {
        let (key, value) = pairs.last();
        vec_links(cap, pairs.drop_last()).update(key.0 as int, Some(value))
    }
}

/// The links of `pairs`, stored in a map the way `add_pred_succ` stores them in a `HashPath`.
pub open spec fn map_links(pairs: Seq<(NodeIdx, NodeIdx)>) -> Map<usize, NodeIdx>
    decreases pairs.len(),
{
    if pairs.len() == 0 {
        Map::empty()
    } else {
        let (key, value) = pairs.last();
        map_links(pairs.drop_last()).insert(key.0, value)
    }
}

/// What the last of the pairs with the given key links it to, if any has that key.
pub open spec fn last_link(pairs: Seq<(NodeIdx, NodeIdx)>, key: usize) -> Option<NodeIdx>
    decreases pairs.len(),
{
    if pairs.len() == 0 {
        None
    } else if pairs.last().0.0 == key {
        Some(pairs.last().1)
    } else {
        last_link(pairs.drop_last(), key)
    }
}

/// After the same links (all within the capacity), a `VecPath` and a `HashPath` answer alike: each
/// node-index is linked as the last link of it says, and an index beyond the capacity is linked
/// to nothing.
pub proof fn lemma_paths_link_alike(cap: nat, pairs: Seq<(NodeIdx, NodeIdx)>, key: usize)
    requires
        forall|k: int| 0 <= k < pairs.len() ==> (#[trigger] pairs[k]).0.0 < cap,
    ensures
        vec_links(cap, pairs).len() == cap,
        (if key < cap {
            vec_links(cap, pairs)[key as int]
        } else {
            None
        }) == last_link(pairs, key),
        (if map_links(pairs).contains_key(key) {
            Some(map_links(pairs)[key])
        } else {
            None
        }) == last_link(pairs, key),
    decreases pairs.len(),
{
    if pairs.len() > 0 {
        let d = pairs.drop_last();
        assert forall|k: int| 0 <= k < d.len() implies (#[trigger] d[k]).0.0 < cap by {
            assert(d[k] == pairs[k]);
        }
        lemma_paths_link_alike(cap, d, key);
        assert(pairs[pairs.len() - 1] == pairs.last());
    }
}

} // verus!
