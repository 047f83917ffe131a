use vstd::prelude::*;

verus! {

/// An index for accessing different metrics if the amount of them is known at runtime, like
/// unspecified metrics from the user.
#[derive(Copy, Clone, Debug, PartialEq, Eq, Structural, Hash, PartialOrd, Ord)]
pub struct MetricIdx(pub usize);

impl MetricIdx {
    pub fn new(n: usize) -> (idx: MetricIdx)
        ensures
            idx.0 == n,
    {
        MetricIdx(n)
    }

    pub fn to_usize(&self) -> (n: usize)
        ensures
            n == self.0,
    {
        self.0
    }
}

} // verus!
