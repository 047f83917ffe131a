use std::cmp::Ordering;
use vstd::prelude::*;
use vstd::std_specs::cmp::PartialOrdSpecImpl;
use vstd::std_specs::ops::AddSpecImpl;

verus! {

/// The index of an edge in the graph's (forward-sorted) edge-arrays.
#[derive(Copy, Clone, Debug, PartialEq, Eq, Structural, Hash, Ord)]
pub struct EdgeIdx(pub usize);

impl EdgeIdx {
    pub fn new(n: usize) -> (idx: EdgeIdx)
        ensures
            idx.0 == n,
    {
        EdgeIdx(n)
    }

    pub fn to_usize(&self) -> (n: usize)
        ensures
            n == self.0,
    {
        self.0
    }

    pub fn zero() -> (idx: EdgeIdx)
        ensures
            idx.0 == 0,
    {
        EdgeIdx(0)
    }
}

/// Indices are ordered by their values.
impl PartialOrd for EdgeIdx {
    fn partial_cmp(&self, other: &EdgeIdx) -> (r: Option<Ordering>) {
        if self.0 < other.0 {
            Some(Ordering::Less)
        } else if self.0 == other.0 {
            Some(Ordering::Equal)
        } else {
            Some(Ordering::Greater)
        }
    }
}

impl PartialOrdSpecImpl for EdgeIdx {
    open spec fn obeys_partial_cmp_spec() -> bool {
        true
    }

    open spec fn partial_cmp_spec(&self, other: &EdgeIdx) -> Option<Ordering> {
        if self.0 < other.0 {
            Some(Ordering::Less)
        } else if self.0 == other.0 {
            Some(Ordering::Equal)
        } else {
            Some(Ordering::Greater)
        }
    }
}

/// Adding indices adds their values.
impl std::ops::Add<EdgeIdx> for EdgeIdx {
    type Output = EdgeIdx;

    fn add(self, other: EdgeIdx) -> (r: EdgeIdx) {
        EdgeIdx(self.0 + other.0)
    }
}

impl AddSpecImpl<EdgeIdx> for EdgeIdx {
    open spec fn obeys_add_spec() -> bool {
        true
    }

    open spec fn add_req(self, rhs: EdgeIdx) -> bool {
        self.0 + rhs.0 <= usize::MAX
    }

    open spec fn add_spec(self, rhs: EdgeIdx) -> EdgeIdx {
        EdgeIdx((self.0 + rhs.0) as usize)
    }
}

/// Adding a number moves the index by it.
impl std::ops::Add<usize> for EdgeIdx {
    type Output = EdgeIdx;

    fn add(self, other: usize) -> (r: EdgeIdx) {
        EdgeIdx(self.0 + other)
    }
}

impl AddSpecImpl<usize> for EdgeIdx {
    open spec fn obeys_add_spec() -> bool {
        true
    }

    open spec fn add_req(self, rhs: usize) -> bool {
        self.0 + rhs <= usize::MAX
    }

    open spec fn add_spec(self, rhs: usize) -> EdgeIdx {
        EdgeIdx((self.0 + rhs) as usize)
    }
}

impl std::ops::AddAssign<EdgeIdx> for EdgeIdx {
    fn add_assign(&mut self, other: EdgeIdx)
        requires
            old(self).0 + other.0 <= usize::MAX,
        ensures
            final(self).0 == old(self).0 + other.0,
    {
        self.0 = self.0 + other.0;
    }
}

impl std::ops::AddAssign<usize> for EdgeIdx {
    fn add_assign(&mut self, other: usize)
        requires
            old(self).0 + other <= usize::MAX,
        ensures
            final(self).0 == old(self).0 + other,
    {
        self.0 = self.0 + other;
    }
}

} // verus!
