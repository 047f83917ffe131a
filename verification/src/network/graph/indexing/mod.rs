pub mod edges;
pub mod metrics;
pub mod nodes;

pub use edges::EdgeIdx;
pub use metrics::MetricIdx;
pub use nodes::NodeIdx;

use vstd::prelude::*;

verus! {

/// Hands out the node-indices of a range one after another.
pub struct NodeIdxIterator {
    start: usize,
    end: usize,
}

impl NodeIdxIterator {
    /// The indices still to come.
    pub closed spec fn remaining(&self) -> Seq<NodeIdx> {
        Seq::new(
            if self.start <= self.end {
                (self.end - self.start) as nat
            } else {
                0
            },
            |i: int| NodeIdx((self.start + i) as usize),
        )
    }

    /// Iterates the indices `start..end`.
    pub fn from_range(start: usize, end: usize) -> (it: NodeIdxIterator)
        ensures
            it.remaining() == Seq::new(
                if start <= end {
                    (end - start) as nat
                } else {
                    0
                },
                |i: int| NodeIdx((start + i) as usize),
            ),
    {
        NodeIdxIterator { start, end }
    }

    /// The next index, if any is left.
    pub fn next(&mut self) -> (r: Option<NodeIdx>)
        ensures
            old(self).remaining().len() == 0 ==> r is None && final(self).remaining().len() == 0,
            old(self).remaining().len() > 0 ==> r == Some(old(self).remaining()[0])
                && final(self).remaining() == old(self).remaining().drop_first(),
    {
        if self.start < self.end {
            let idx = NodeIdx(self.start);
            self.start = self.start + 1;
            proof {
                assert(self.remaining() =~= old(self).remaining().drop_first());
            }
            Some(idx)
        } else {
            None
        }
    }
}

/// Hands out the edge-indices of a range one after another.
pub struct EdgeIdxIterator {
    start: usize,
    end: usize,
}

impl EdgeIdxIterator {
    /// The indices still to come.
    pub closed spec fn remaining(&self) -> Seq<EdgeIdx> {
        Seq::new(
            if self.start <= self.end {
                (self.end - self.start) as nat
            } else {
                0
            },
            |i: int| EdgeIdx((self.start + i) as usize),
        )
    }

    /// Iterates the indices `start..end`.
    pub fn from_range(start: usize, end: usize) -> (it: EdgeIdxIterator)
        ensures
            it.remaining() == Seq::new(
                if start <= end {
                    (end - start) as nat
                } else {
                    0
                },
                |i: int| EdgeIdx((start + i) as usize),
            ),
    {
        EdgeIdxIterator { start, end }
    }

    /// The next index, if any is left.
    pub fn next(&mut self) -> (r: Option<EdgeIdx>)
        ensures
            old(self).remaining().len() == 0 ==> r is None && final(self).remaining().len() == 0,
            old(self).remaining().len() > 0 ==> r == Some(old(self).remaining()[0])
                && final(self).remaining() == old(self).remaining().drop_first(),
    {
        if self.start < self.end {
            let idx = EdgeIdx(self.start);
            self.start = self.start + 1;
            proof {
                assert(self.remaining() =~= old(self).remaining().drop_first());
            }
            Some(idx)
        } else {
            None
        }
    }
}

} // verus!
