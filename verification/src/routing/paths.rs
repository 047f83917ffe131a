use crate::network::graph::EdgeAccessor;
use crate::network::{EdgeIdx, NodeIdx};
use vstd::prelude::*;

verus! {

/// Every shortcut replaces two edges of the accessor that have a lower rank, so that unfolding
/// shortcuts ends.
pub open spec fn shortcuts_ranked<M>(edges: EdgeAccessor<M>, rank: spec_fn(int) -> nat) -> bool {
    let m = edges.edge_dsts@.len();
    forall|e: EdgeIdx|
        e.0 < m && #[trigger] edges.spec_is_shortcut(e) ==> {
            let sc = sc_pair(edges, e);
            &&& sc[0].0 < m
            &&& sc[1].0 < m
            &&& rank(sc[0].0 as int) < rank(e.0 as int)
            &&& rank(sc[1].0 as int) < rank(e.0 as int)
        }
}

/// The two edges that the shortcut `e` replaces.
pub open spec fn sc_pair<M>(edges: EdgeAccessor<M>, e: EdgeIdx) -> [EdgeIdx; 2] {
    edges.sc_edges@[edges.sc_offsets@[e.0 as int] as int]
}

/// The edges that are no shortcuts, which the edge `e` stands for, in their order along the path.
pub open spec fn unfold<M>(edges: EdgeAccessor<M>, rank: spec_fn(int) -> nat, e: EdgeIdx) -> Seq<
    EdgeIdx,
>
    decreases rank(e.0 as int),
    when shortcuts_ranked(edges, rank) && e.0 < edges.edge_dsts@.len()
{
    if edges.spec_is_shortcut(e) {
        let sc = sc_pair(edges, e);
        unfold(edges, rank, sc[0]) + unfold(edges, rank, sc[1])
    } else {
        seq![e]
    }
}

/// The number of edges (shortcuts included) in the unfolding of `e`.
pub open spec fn unfold_size<M>(edges: EdgeAccessor<M>, rank: spec_fn(int) -> nat, e: EdgeIdx) -> nat
    decreases rank(e.0 as int),
    when shortcuts_ranked(edges, rank) && e.0 < edges.edge_dsts@.len()
{
    if edges.spec_is_shortcut(e) {
        let sc = sc_pair(edges, e);
        1 + unfold_size(edges, rank, sc[0]) + unfold_size(edges, rank, sc[1])
    } else {
        1
    }
}

/// The unfoldings of all given edges, one after another.
pub open spec fn unfold_all<M>(edges: EdgeAccessor<M>, rank: spec_fn(int) -> nat, path: Seq<EdgeIdx>) -> Seq<
    EdgeIdx,
>
    decreases path.len(),
{
    if path.len() == 0 {
        Seq::empty()
    } else {
        unfold_all(edges, rank, path.drop_last()) + unfold(edges, rank, path.last())
    }
}

/// The unfoldings of the edges of a stack, from its top down.
spec fn unfold_stack<M>(edges: EdgeAccessor<M>, rank: spec_fn(int) -> nat, stack: Seq<EdgeIdx>) -> Seq<
    EdgeIdx,
>
    decreases stack.len(),
{
    if stack.len() == 0 {
        Seq::empty()
    } else {
        unfold(edges, rank, stack.last()) + unfold_stack(edges, rank, stack.drop_last())
    }
}

/// The sizes of the unfoldings of the edges of a stack.
spec fn stack_size<M>(edges: EdgeAccessor<M>, rank: spec_fn(int) -> nat, stack: Seq<EdgeIdx>) -> nat
    decreases stack.len(),
{
    if stack.len() == 0 {
        0
    } else {
        unfold_size(edges, rank, stack.last()) + stack_size(edges, rank, stack.drop_last())
    }
}

proof fn lemma_unfold_size_positive<M>(edges: EdgeAccessor<M>, rank: spec_fn(int) -> nat, e: EdgeIdx)
    requires
        shortcuts_ranked(edges, rank),
        e.0 < edges.edge_dsts@.len(),
    ensures
        unfold_size(edges, rank, e) >= 1,
{
}

/// A path from a src to a dst storing all edges in between.
#[derive(Clone, Debug)]
pub struct Path {
    pub src_idx: NodeIdx,
    pub dst_idx: NodeIdx,
    pub edges: Vec<EdgeIdx>,
}

impl Path {
    /// The path's costs are not part of it: they are summed up over its edges' metrics.
    pub fn new(src_idx: NodeIdx, dst_idx: NodeIdx, edges: Vec<EdgeIdx>) -> (p: Path)
        ensures
            p.src_idx == src_idx,
            p.dst_idx == dst_idx,
            p.edges@ == edges@,
    {
        Path { src_idx, dst_idx, edges }
    }

    pub fn src_idx(&self) -> (r: NodeIdx)
        ensures
            r == self.src_idx,
    {
        self.src_idx
    }

    pub fn dst_idx(&self) -> (r: NodeIdx)
        ensures
            r == self.dst_idx,
    {
        self.dst_idx
    }

    pub fn edge_count(&self) -> (r: usize)
        ensures
            r == self.edges@.len(),
    {
        self.edges.len()
    }

    pub fn edges(&self) -> (r: &Vec<EdgeIdx>)
        ensures
            r@ == self.edges@,
    {
        &self.edges
    }

    /// Whether both paths have the same src, the same dst and the same edges.
    pub fn is_equal(&self, other: &Path) -> (r: bool)
        ensures
            r == (self.src_idx == other.src_idx && self.dst_idx == other.dst_idx && self.edges@
                == other.edges@),
    {
        if self.src_idx.0 != other.src_idx.0 || self.dst_idx.0 != other.dst_idx.0 {
            return false;
        }
        if self.edges.len() != other.edges.len() {
            return false;
        }
        let mut i: usize = 0;
        while i < self.edges.len()
            invariant
                self.edges@.len() == other.edges@.len(),
                i <= self.edges@.len(),
                forall|j: int| 0 <= j < i ==> self.edges@[j] == other.edges@[j],
            decreases self.edges@.len() - i,
        {
            if self.edges[i].0 != other.edges[i].0 {
                return false;
            }
            i = i + 1;
        }
        proof {
            assert(self.edges@ =~= other.edges@);
        }
        true
    }

    /// Replaces every shortcut by the two edges it stands for, until no shortcut is left.
    pub fn flatten<M>(self, fwd_edges: &EdgeAccessor<M>) -> (p: Path)
        requires
            fwd_edges.wf(),
            forall|i: int| 0 <= i < self.edges@.len() ==> (#[trigger] self.edges@[i]).0 < fwd_edges.edge_dsts@.len(),
            exists|rank: spec_fn(int) -> nat| shortcuts_ranked(*fwd_edges, rank),
        ensures
            p.src_idx == self.src_idx,
            p.dst_idx == self.dst_idx,
            forall|rank: spec_fn(int) -> nat|
                shortcuts_ranked(*fwd_edges, rank) ==> p.edges@ == unfold_all(*fwd_edges, rank, self.edges@),
            forall|i: int|
                0 <= i < p.edges@.len() ==> (#[trigger] p.edges@[i]).0 < fwd_edges.edge_dsts@.len()
                    && !fwd_edges.spec_is_shortcut(p.edges@[i]),
    {
        let ghost rank = choose|rank: spec_fn(int) -> nat| shortcuts_ranked(*fwd_edges, rank);
        let ghost m = fwd_edges.edge_dsts@.len();
        let mut flat: Vec<EdgeIdx> = Vec::new();
        let mut i: usize = 0;
        while i < self.edges.len()
            invariant
                fwd_edges.wf(),
                m == fwd_edges.edge_dsts@.len(),
                shortcuts_ranked(*fwd_edges, rank),
                forall|j: int| 0 <= j < self.edges@.len() ==> (#[trigger] self.edges@[j]).0 < m,
                i <= self.edges@.len(),
                flat@ == unfold_all(*fwd_edges, rank, self.edges@.take(i as int)),
                forall|j: int|
                    0 <= j < flat@.len() ==> (#[trigger] flat@[j]).0 < m && !fwd_edges.spec_is_shortcut(flat@[j]),
            decreases self.edges@.len() - i,
        {
            let ghost before = flat@;
            let mut stack: Vec<EdgeIdx> = Vec::new();
            stack.push(self.edges[i]);
            proof {
                let u = unfold(*fwd_edges, rank, self.edges@[i as int]);
                assert(stack@.drop_last() =~= Seq::<EdgeIdx>::empty());
                assert(stack@.last() == self.edges@[i as int]);
                assert(unfold_stack(*fwd_edges, rank, Seq::<EdgeIdx>::empty()) == Seq::<EdgeIdx>::empty());
                assert(u + Seq::<EdgeIdx>::empty() =~= u);
                assert(unfold_stack(*fwd_edges, rank, stack@) == u);
                assert(before + u =~= flat@ + u);
            }
            while stack.len() > 0
                invariant
                    fwd_edges.wf(),
                    m == fwd_edges.edge_dsts@.len(),
                    shortcuts_ranked(*fwd_edges, rank),
                    forall|j: int| 0 <= j < stack@.len() ==> (#[trigger] stack@[j]).0 < m,
                    forall|j: int|
                        0 <= j < flat@.len() ==> (#[trigger] flat@[j]).0 < m && !fwd_edges.spec_is_shortcut(flat@[j]),
                    before + unfold(*fwd_edges, rank, self.edges@[i as int]) == flat@ + unfold_stack(
                        *fwd_edges,
                        rank,
                        stack@,
                    ),
                decreases stack_size(*fwd_edges, rank, stack@),
            {
                let ghost old_stack = stack@;
                let e = stack.pop().unwrap();
                proof {
                    assert(old_stack.drop_last() =~= stack@);
                    lemma_unfold_size_positive(*fwd_edges, rank, e);
                }
                match fwd_edges.sc_edges(e) {
                    Some(sc) => {
                        let first = sc[0];
                        let second = sc[1];
                        stack.push(second);
                        stack.push(first);
                        proof {
                            assert(stack@.drop_last().drop_last() =~= old_stack.drop_last());
                            assert(stack@.drop_last().last() == second);
                            let rest = unfold_stack(*fwd_edges, rank, old_stack.drop_last());
                            let u0 = unfold(*fwd_edges, rank, first);
                            let u1 = unfold(*fwd_edges, rank, second);
                            assert(unfold(*fwd_edges, rank, e) == u0 + u1);
                            assert(unfold_stack(*fwd_edges, rank, stack@.drop_last()) == u1 + rest);
                            assert(u0 + (u1 + rest) =~= (u0 + u1) + rest);
                            assert(stack_size(*fwd_edges, rank, stack@.drop_last()) == unfold_size(
                                *fwd_edges,
                                rank,
                                second,
                            ) + stack_size(*fwd_edges, rank, old_stack.drop_last()));
                        }
                    },
                    None => {
                        let ghost old_flat = flat@;
                        flat.push(e);
                        proof {
                            let rest = unfold_stack(*fwd_edges, rank, stack@);
                            assert(unfold(*fwd_edges, rank, e) == seq![e]);
                            assert(old_flat + (seq![e] + rest) =~= old_flat.push(e) + rest);
                        }
                    },
                }
            }
            proof {
                assert(self.edges@.take(i + 1).drop_last() =~= self.edges@.take(i as int));
                assert(flat@ + Seq::<EdgeIdx>::empty() =~= flat@);
            }
            i = i + 1;
        }
        proof {
            assert(self.edges@.take(i as int) =~= self.edges@);
            assert forall|r: spec_fn(int) -> nat| shortcuts_ranked(*fwd_edges, r) implies flat@ == unfold_all(
                *fwd_edges,
                r,
                self.edges@,
            ) by {
                lemma_unfold_all_rank_free(*fwd_edges, rank, r, self.edges@);
            }
        }
        Path { src_idx: self.src_idx, dst_idx: self.dst_idx, edges: flat }
    }
}

/// The unfolding of an edge does not depend on the rank that shows that it ends.
proof fn lemma_unfold_rank_free<M>(
    edges: EdgeAccessor<M>,
    r1: spec_fn(int) -> nat,
    r2: spec_fn(int) -> nat,
    e: EdgeIdx,
)
    requires
        shortcuts_ranked(edges, r1),
        shortcuts_ranked(edges, r2),
        e.0 < edges.edge_dsts@.len(),
    ensures
        unfold(edges, r1, e) == unfold(edges, r2, e),
    decreases r1(e.0 as int),
{
    if edges.spec_is_shortcut(e) {
        let sc = sc_pair(edges, e);
        lemma_unfold_rank_free(edges, r1, r2, sc[0]);
        lemma_unfold_rank_free(edges, r1, r2, sc[1]);
    }
}

proof fn lemma_unfold_all_rank_free<M>(
    edges: EdgeAccessor<M>,
    r1: spec_fn(int) -> nat,
    r2: spec_fn(int) -> nat,
    path: Seq<EdgeIdx>,
)
    requires
        shortcuts_ranked(edges, r1),
        shortcuts_ranked(edges, r2),
        forall|i: int| 0 <= i < path.len() ==> (#[trigger] path[i]).0 < edges.edge_dsts@.len(),
    ensures
        unfold_all(edges, r1, path) == unfold_all(edges, r2, path),
    decreases path.len(),
{
    if path.len() > 0 {
        lemma_unfold_all_rank_free(edges, r1, r2, path.drop_last());
        lemma_unfold_rank_free(edges, r1, r2, path.last());
    }
}


/// Flattening keeps a path without shortcuts as it is.
pub proof fn lemma_flat_path_unchanged<M>(
    edges: EdgeAccessor<M>,
    rank: spec_fn(int) -> nat,
    path: Seq<EdgeIdx>,
)
    requires
        shortcuts_ranked(edges, rank),
        forall|i: int|
            0 <= i < path.len() ==> (#[trigger] path[i]).0 < edges.edge_dsts@.len()
                && !edges.spec_is_shortcut(path[i]),
    ensures
        unfold_all(edges, rank, path) == path,
    decreases path.len(),
{
    if path.len() > 0 {
        lemma_flat_path_unchanged(edges, rank, path.drop_last());
        assert(path.drop_last().push(path.last()) =~= path);
    }
}

} // verus!
