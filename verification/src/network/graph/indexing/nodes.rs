use std::cmp::Ordering;
use vstd::prelude::*;
use vstd::std_specs::cmp::PartialOrdSpecImpl;
use vstd::std_specs::ops::AddSpecImpl;

verus! {

/// The index of a node in the graph's (by id sorted) node-arrays.
#[derive(Copy, Clone, Debug, PartialEq, Eq, Structural, Hash, Ord)]
pub struct NodeIdx(pub usize);

impl NodeIdx {
    pub fn new(n: usize) -> (idx: NodeIdx)
        ensures
            idx.0 == n,
    {
        NodeIdx(n)
    }

    pub fn to_usize(&self) -> (n: usize)
        ensures
            n == self.0,
    {
        self.0
    }

    pub fn zero() -> (idx: NodeIdx)
        ensures
            idx.0 == 0,
    {
        NodeIdx(0)
    }
}

/// Indices are ordered by their values.
impl PartialOrd for NodeIdx {
    fn partial_cmp(&self, other: &NodeIdx) -> (r: Option<Ordering>) {
        if self.0 < other.0 {
            Some(Ordering::Less)
        } else if self.0 == other.0 {
            Some(Ordering::Equal)
        } else {
            Some(Ordering::Greater)
        }
    }
}

impl PartialOrdSpecImpl for NodeIdx {
    open spec fn obeys_partial_cmp_spec() -> bool {
        true
    }

    open spec fn partial_cmp_spec(&self, other: &NodeIdx) -> Option<Ordering> {
        if self.0 < other.0 {
            Some(Ordering::Less)
        } else if self.0 == other.0 {
            Some(Ordering::Equal)
        } else {
            Some(Ordering::Greater)
        }
    }
}

/// Adding indices adds their values.
impl std::ops::Add<NodeIdx> for NodeIdx {
    type Output = NodeIdx;

    fn add(self, other: NodeIdx) -> (r: NodeIdx) {
        NodeIdx(self.0 + other.0)
    }
}

impl AddSpecImpl<NodeIdx> for NodeIdx {
    open spec fn obeys_add_spec() -> bool {
        true
    }

    open spec fn add_req(self, rhs: NodeIdx) -> bool {
        self.0 + rhs.0 <= usize::MAX
    }

    open spec fn add_spec(self, rhs: NodeIdx) -> NodeIdx {
        NodeIdx((self.0 + rhs.0) as usize)
    }
}

/// Adding a number moves the index by it.
impl std::ops::Add<usize> for NodeIdx {
    type Output = NodeIdx;

    fn add(self, other: usize) -> (r: NodeIdx) {
        NodeIdx(self.0 + other)
    }
}

impl AddSpecImpl<usize> for NodeIdx {
    open spec fn obeys_add_spec() -> bool {
        true
    }

    open spec fn add_req(self, rhs: usize) -> bool {
        self.0 + rhs <= usize::MAX
    }

    open spec fn add_spec(self, rhs: usize) -> NodeIdx {
        NodeIdx((self.0 + rhs) as usize)
    }
}

impl std::ops::AddAssign<NodeIdx> for NodeIdx {
    fn add_assign(&mut self, other: NodeIdx)
        requires
            old(self).0 + other.0 <= usize::MAX,
        ensures
            final(self).0 == old(self).0 + other.0,
    {
        self.0 = self.0 + other.0;
    }
}

impl std::ops::AddAssign<usize> for NodeIdx {
    fn add_assign(&mut self, other: usize)
        requires
            old(self).0 + other <= usize::MAX,
        ensures
            final(self).0 == old(self).0 + other,
    {
        self.0 = self.0 + other;
    }
}

} // verus!
