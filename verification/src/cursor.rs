//! A resumable adjacency cursor: one explicit-stack frame of a traversal.

use crate::reach::fully_scanned;
use vstd::prelude::*;

verus! {

/// One frame of a traversal's explicit stack: the not-yet-exhausted part
/// of a node's successor vector.  The node itself is kept in ghost state;
/// `edges` is the vector the adjacency function returned for it and `pos`
/// the index of the first successor not yet examined.
pub struct Cursor<N> {
    /// The node this cursor expands.
    pub node: Ghost<N>,
    /// The successor vector of `node`.
    pub edges: Vec<N>,
    /// How many entries of `edges` have been examined so far.
    pub pos: usize,
}

impl<N> Cursor<N> {
    /// A cursor is well formed against an adjacency function `f` and a
    /// visited set `s` when its vector is one that `f`'s contract admits
    /// for its node, its node has been discovered, and every successor it
    /// has already examined has been discovered.
    pub open spec fn wf<F: Fn(N) -> Vec<N>>(self, f: F, s: Set<N>) -> bool {
        &&& call_ensures(f, (self.node@,), self.edges)
        &&& self.pos <= self.edges@.len()
        &&& s.contains(self.node@)
        &&& forall|j: int| 0 <= j < self.pos ==> s.contains(#[trigger] self.edges@[j])
    }

    /// How many entries of `edges` are still to be examined.
    pub open spec fn remaining(self) -> nat {
        if self.pos <= self.edges@.len() {
            (self.edges@.len() - self.pos) as nat
        } else {
            0
        }
    }

    /// An exhausted well-formed cursor witnesses that its node has been
    /// expanded against the visited set.
    pub proof fn lemma_exhausted_is_scanned<F: Fn(N) -> Vec<N>>(self, f: F, s: Set<N>)
        requires
            self.wf(f, s),
            self.pos == self.edges@.len(),
        ensures
            fully_scanned(f, s, self.node@),
    {
        assert(call_ensures(f, (self.node@,), self.edges)
            && forall|j: int| 0 <= j < self.edges@.len() ==> s.contains(#[trigger] self.edges@[j]));
    }
}

/// The total number of successor entries still to be examined across a
/// whole stack of cursors: the termination measure of a traversal step.
pub open spec fn pending<N>(s: Seq<Cursor<N>>) -> nat
    decreases s.len(),
{
    if s.len() == 0 {
        0
    } else {
        pending(s.drop_last()) + s.last().remaining()
    }
}

} // verus!
