//! Post-order depth-first traversal: topological ordering over an
//! implicit graph.

use crate::cursor::pending;
use crate::cursor::Cursor;
use crate::depth_first::first_fresh;
use crate::depth_first::first_fresh_at;
use crate::depth_first::frames_of;
use crate::depth_first::lemma_first_fresh_none;
use crate::reach::edge;
use crate::reach::fully_scanned;
use crate::reach::lemma_chain_reaches;
use crate::reach::lemma_drop_last_contains;
use crate::reach::lemma_push_contains;
use crate::reach::lemma_push_no_duplicates;
use crate::reach::lemma_reaches_member;
use crate::reach::lemma_reaches_step;
use crate::reach::lemma_scanned_monotone;
use crate::reach::reach_set;
use crate::reach::reaches;
use std::collections::HashSet;
use std::hash::Hash;
use vstd::prelude::*;
use vstd::std_specs::hash::obeys_key_model;

verus! {

broadcast use vstd::std_specs::hash::group_hash_axioms;

/// A lazy post-order depth-first traversal.
///
/// Each call of [`TopologicalIter::next`] produces the next node in
/// post-order: a node is produced only after every node reachable from it
/// along first-discovered paths has been produced, so for an acyclic
/// graph the output is a topological ordering in which dependencies
/// (successors) precede dependents.  On a cyclic graph the traversal
/// still terminates and still produces every reachable node exactly
/// once, but the order carries no topological meaning for nodes on or
/// reachable from a cycle.
#[verifier::reject_recursive_types(N)]
pub struct TopologicalIter<N, F> where N: Copy + Eq + Hash, F: Fn(N) -> Vec<N> {
    adj: F,
    node_stack: Vec<N>,
    adj_stack: Vec<Cursor<N>>,
    roots: Vec<N>,
    root_pos: usize,
    visited: HashSet<N>,
    emitted: Ghost<Seq<N>>,
}

impl<N, F> TopologicalIter<N, F> where N: Copy + Eq + Hash, F: Fn(N) -> Vec<N> {
    /// The adjacency function the traversal was constructed with.
    pub closed spec fn adj_fn(self) -> F {
        self.adj
    }

    /// The root sequence the traversal was constructed with.
    pub closed spec fn roots_seq(self) -> Seq<N> {
        self.roots@
    }

    /// The nodes produced so far, in order.
    pub closed spec fn emitted(self) -> Seq<N> {
        self.emitted@
    }

    /// The nodes discovered so far: every node produced, plus the nodes
    /// still open on the active path.
    pub closed spec fn discovered(self) -> Set<N> {
        self.visited@
    }

    /// The nodes discovered but not yet produced, from the bottom of the
    /// active path to its tip.
    pub closed spec fn open_path(self) -> Seq<N> {
        self.node_stack@
    }

    /// How many roots have been consumed so far.
    pub closed spec fn consumed_roots(self) -> int {
        self.root_pos as int
    }

    /// The stack of pending adjacency cursors, frame by frame: the node
    /// being expanded, its successor vector, and the scan position.  It
    /// runs in lockstep with [`TopologicalIter::open_path`]: the frame at
    /// each depth expands the node at the same depth.
    pub closed spec fn frames(self) -> Seq<(N, Seq<N>, int)> {
        crate::depth_first::frames_of(self.adj_stack@)
    }

    /// How a call that began with no pending cursor relates to the root
    /// it pulled: the root's cursor holds a successor vector the
    /// adjacency contract admits, and if that vector holds nothing
    /// undiscovered the call's whole outcome is pinned — the root itself
    /// is produced and the traversal is left with empty stacks and just
    /// that root newly discovered.
    pub open spec fn root_step(self, post: Self, r: Option<N>) -> bool {
        exists|v: Vec<N>|
            #[trigger] call_ensures(
                self.adj_fn(),
                (self.roots_seq()[post.consumed_roots() - 1],),
                v,
            ) && (first_fresh(
                v@,
                0,
                self.discovered().insert(self.roots_seq()[post.consumed_roots() - 1]),
            ) is None ==> r == Some(self.roots_seq()[post.consumed_roots() - 1]) && post.frames()
                == Seq::<(N, Seq<N>, int)>::empty() && post.open_path() == Seq::<N>::empty()
                && post.discovered() == self.discovered().insert(
                self.roots_seq()[post.consumed_roots() - 1],
            )) && (forall|s: N|
            first_fresh(
                v@,
                0,
                self.discovered().insert(self.roots_seq()[post.consumed_roots() - 1]),
            ) == Some(s) ==> self.descent_step(post, r, v@, s))
    }

    /// The second level of [`TopologicalIter::root_step`]: the pulled
    /// root's first undiscovered successor `s` gets a cursor of its own,
    /// holding a successor vector the adjacency contract admits; if that
    /// vector in turn holds nothing undiscovered, `s` itself is produced,
    /// the root stays open behind it with its cursor advanced just past
    /// `s`, and exactly the root and `s` are newly discovered.
    pub open spec fn descent_step(self, post: Self, r: Option<N>, v: Seq<N>, s: N) -> bool {
        exists|w: Vec<N>|
            #[trigger] call_ensures(self.adj_fn(), (s,), w) && (first_fresh(
                w@,
                0,
                self.discovered().insert(self.roots_seq()[post.consumed_roots() - 1]).insert(s),
            ) is None ==> r == Some(s) && (first_fresh_at(
                v,
                0,
                self.discovered().insert(self.roots_seq()[post.consumed_roots() - 1]),
            ) matches Some(j) && post.frames() == seq![
                (self.roots_seq()[post.consumed_roots() - 1], v, j + 1),
            ]) && post.open_path() == seq![self.roots_seq()[post.consumed_roots() - 1]]
                && post.discovered() == self.discovered().insert(
                self.roots_seq()[post.consumed_roots() - 1],
            ).insert(s))
    }

    /// The traversal is terminally exhausted: every root has been
    /// consumed and no node is still open.
    pub closed spec fn done(self) -> bool {
        self.adj_stack@.len() == 0 && self.node_stack@.len() == 0 && self.root_pos
            == self.roots@.len()
    }

    /// The traversal's invariant.  The constructor establishes it and
    /// `next` preserves it.
    ///
    /// A discovered node is either already produced or still open (on the
    /// node stack), never both; the two stacks run in lockstep, the frame
    /// at each depth expanding the node at the same depth.
    pub closed spec fn wf(self) -> bool {
        &&& self.emitted@.no_duplicates()
        &&& self.node_stack@.no_duplicates()
        &&& forall|x: N|
            #![trigger self.visited@.contains(x)]
            #![trigger self.emitted@.contains(x)]
            #![trigger self.node_stack@.contains(x)]
            self.visited@.contains(x) <==> (self.emitted@.contains(x)
                || self.node_stack@.contains(x))
        &&& forall|x: N|
            #[trigger] self.emitted@.contains(x) ==> !self.node_stack@.contains(x)
        &&& self.adj_stack@.len() == self.node_stack@.len()
        &&& forall|i: int|
            0 <= i < self.adj_stack@.len() ==> (#[trigger] self.adj_stack@[i]).wf(
                self.adj,
                self.visited@,
            ) && self.adj_stack@[i].node@ == self.node_stack@[i]
        &&& forall|i: int|
            0 <= i < self.node_stack@.len() - 1 ==> edge(
                self.adj,
                #[trigger] self.node_stack@[i],
                self.node_stack@[i + 1],
            )
        &&& forall|n: N|
            #[trigger] self.visited@.contains(n) && !self.node_stack@.contains(n)
                ==> fully_scanned(self.adj, self.visited@, n)
        &&& forall|n: N|
            #[trigger] self.visited@.contains(n) ==> reaches(self.adj, self.roots@.to_set(), n)
        &&& forall|j: int|
            0 <= j < self.root_pos ==> self.visited@.contains(#[trigger] self.roots@[j])
        &&& self.root_pos <= self.roots@.len()
        &&& forall|x: N| #[trigger] call_requires(self.adj, (x,))
    }

    /// Produces the next node in post-order, or `None` once every node
    /// reachable from the roots has been produced.
    ///
    /// A produced node is fresh (never produced before) and reachable
    /// from the roots, and at the moment it is produced its whole
    /// successor vector has been discovered: each successor has either
    /// been produced already or still lies on the open path, the latter
    /// only where a cycle runs back through it.  On an acyclic graph
    /// every successor is therefore produced before the node itself.
    /// `None` is returned exactly in the done state, which is stable:
    /// once done, every later call returns `None` too.
    ///
    /// Two situations pin the call's outcome completely.  When the top
    /// pending cursor holds nothing undiscovered, its node is produced
    /// and the state simply pops.  When no cursor is pending, the first
    /// not-yet-discovered root is consumed ([`TopologicalIter::root_step`]);
    /// if that root's successor vector holds nothing undiscovered, the
    /// root itself is produced and only it is newly discovered.  In the
    /// remaining situation — a descent that discovers new nodes — the
    /// produced node depends on the successor vectors obtained during
    /// the call, and the contract confines it through the clauses above
    /// without naming it.
    ///
    /// Post-order must finish a node's whole reachable descendance before
    /// producing anything, so a call terminates only when that region is
    /// finite; the finiteness of the reachable set is therefore required
    /// here, while the construction of the traversal carries no such
    /// condition.
    pub fn next(&mut self) -> (r: Option<N>)
        requires
            old(self).wf(),
            obeys_key_model::<N>(),
            reach_set(old(self).adj_fn(), old(self).roots_seq().to_set()).finite(),
        ensures
            final(self).wf(),
            final(self).adj_fn() == old(self).adj_fn(),
            final(self).roots_seq() == old(self).roots_seq(),
            match r {
                Some(n) => {
                    &&& final(self).emitted() == old(self).emitted().push(n)
                    &&& !old(self).emitted().contains(n)
                    &&& reaches(old(self).adj_fn(), old(self).roots_seq().to_set(), n)
                    &&& fully_scanned(final(self).adj_fn(), final(self).discovered(), n)
                    &&& old(self).discovered().subset_of(final(self).discovered())
                    &&& final(self).discovered().contains(n)
                    &&& (exists|v: Vec<N>|
                        #[trigger] call_ensures(old(self).adj_fn(), (n,), v)
                            && (forall|j: int|
                            0 <= j < v@.len() ==> old(self).emitted().contains(
                                #[trigger] v@[j],
                            ) || v@[j] == n || (final(self).open_path().contains(v@[j])
                                && reaches(
                                old(self).adj_fn(),
                                Set::empty().insert(v@[j]),
                                n,
                            ))))
                },
                None => {
                    &&& final(self).emitted() == old(self).emitted()
                    &&& final(self).discovered() == old(self).discovered()
                    &&& final(self).done()
                },
            },
            old(self).done() ==> r == None::<N>,
            (old(self).frames().len() > 0 && first_fresh(
                old(self).frames().last().1,
                old(self).frames().last().2,
                old(self).discovered(),
            ) is None ==> r == Some(old(self).open_path().last()) && final(self).frames()
                == old(self).frames().drop_last() && final(self).open_path()
                == old(self).open_path().drop_last() && final(self).discovered()
                == old(self).discovered() && final(self).consumed_roots()
                == old(self).consumed_roots()),
            (old(self).frames().len() == 0 && r is Some ==> first_fresh_at(
                old(self).roots_seq(),
                old(self).consumed_roots(),
                old(self).discovered(),
            ) == Some(final(self).consumed_roots() - 1)),
            (old(self).frames().len() == 0 ==> (r matches Some(n) ==> n == old(
                self,
            ).roots_seq()[final(self).consumed_roots() - 1] || final(self).open_path().contains(
                old(self).roots_seq()[final(self).consumed_roots() - 1],
            ))),
            (old(self).frames().len() == 0 && r is Some ==> old(self).root_step(
                *final(self),
                r,
            )),
    {
        while self.adj_stack.len() == 0
            invariant
                self.wf(),
                obeys_key_model::<N>(),
                self.adj == old(self).adj,
                self.roots@ == old(self).roots@,
                self.emitted@ == old(self).emitted@,
                old(self).visited@.subset_of(self.visited@),
                self.adj_stack@.len() == 0 ==> self.visited@ == old(self).visited@
                    && self.node_stack@.len() == 0 && first_fresh_at(
                    self.roots@,
                    self.root_pos as int,
                    self.visited@,
                ) == first_fresh_at(
                    old(self).roots@,
                    old(self).root_pos as int,
                    old(self).visited@,
                ),
                old(self).done() ==> self.adj_stack@.len() == 0 && self.root_pos
                    == self.roots@.len(),
                old(self).adj_stack@.len() > 0 ==> self.adj_stack@ == old(self).adj_stack@
                    && self.node_stack@ == old(self).node_stack@ && self.visited@
                    == old(self).visited@ && self.root_pos == old(self).root_pos,
                old(self).adj_stack@.len() == 0 && self.adj_stack@.len() > 0 ==> self.root_pos
                    >= 1 && first_fresh_at(
                    old(self).roots@,
                    old(self).root_pos as int,
                    old(self).visited@,
                ) == Some(self.root_pos - 1) && self.adj_stack@.len() == 1 && self.node_stack@
                    == seq![old(self).roots@[self.root_pos - 1]] && self.adj_stack@[0].node@
                    == old(self).roots@[self.root_pos - 1] && self.adj_stack@[0].pos == 0
                    && self.visited@ == old(self).visited@.insert(
                    old(self).roots@[self.root_pos - 1],
                ),
            decreases self.roots@.len() - self.root_pos,
        {
            let ghost ns0 = self.node_stack@;
            let ghost v0 = self.visited@;
            let ghost e0 = self.emitted@;
            if self.root_pos < self.roots.len() {
                let n = self.roots[self.root_pos];
                let ghost rp0 = self.root_pos as int;
                self.root_pos = self.root_pos + 1;
                if self.visited.insert(n) {
                    proof {
                        assert(call_requires(self.adj, (n,)));
                    }
                    let new_edges = (self.adj)(n);
                    self.adj_stack.push(Cursor { node: Ghost(n), edges: new_edges, pos: 0 });
                    self.node_stack.push(n);
                    proof {
                        let v2 = self.visited@;
                        assert(v2 == v0.insert(n) && !v0.contains(n));
                        assert(ns0.len() == 0);
                        lemma_push_no_duplicates(ns0, n);
                        lemma_push_contains(ns0, n);
                        assert(self.adj_stack@.len() == 1 && self.node_stack@.len() == 1);
                        assert(self.adj_stack@[0].node@ == n && self.node_stack@[0] == n);
                        assert forall|m: N|
                            #[trigger] v2.contains(m) && !self.node_stack@.contains(m) implies
                            fully_scanned(self.adj, v2, m) by {
                            if m != n {
                                lemma_scanned_monotone(self.adj, v0, v2, m);
                            } else {
                                assert(self.node_stack@[0] == n);
                            }
                        }
                        assert(self.roots@[rp0] == n);
                        assert(self.roots@.contains(n));
                        assert(self.roots@.to_set().contains(n));
                        lemma_reaches_member(self.adj, self.roots@.to_set(), n);
                        assert forall|m: N| #[trigger] v2.contains(m) implies reaches(
                            self.adj,
                            self.roots@.to_set(),
                            m,
                        ) by {}
                        // the pulled root is the first fresh one
                        assert(first_fresh_at(self.roots@, rp0, v0) == Some(rp0));
                        assert(self.node_stack@ =~= seq![n]);
                    }
                } else {
                    proof {
                        assert(self.visited@ =~= v0);
                        assert(self.visited@.contains(self.roots@[rp0]));
                        assert(first_fresh_at(self.roots@, rp0, v0) == first_fresh_at(
                            self.roots@,
                            rp0 + 1,
                            v0,
                        ));
                    }
                }
            } else {
                return None;
            }
        }
        loop
            invariant
                self.wf(),
                obeys_key_model::<N>(),
                self.adj == old(self).adj,
                self.roots@ == old(self).roots@,
                self.emitted@ == old(self).emitted@,
                old(self).visited@.subset_of(self.visited@),
                !old(self).done(),
                self.adj_stack@.len() > 0,
                reach_set(self.adj, self.roots@.to_set()).finite(),
                old(self).adj_stack@.len() > 0 && first_fresh(
                    old(self).adj_stack@.last().edges@,
                    old(self).adj_stack@.last().pos as int,
                    old(self).visited@,
                ) is None ==> self.visited@ == old(self).visited@ && self.node_stack@
                    == old(self).node_stack@ && self.adj_stack@.len()
                    == old(self).adj_stack@.len() && frames_of(self.adj_stack@).drop_last()
                    == frames_of(old(self).adj_stack@).drop_last()
                    && self.adj_stack@.last().node@ == old(self).adj_stack@.last().node@
                    && self.adj_stack@.last().edges@ == old(self).adj_stack@.last().edges@
                    && first_fresh(
                    self.adj_stack@.last().edges@,
                    self.adj_stack@.last().pos as int,
                    self.visited@,
                ) is None && self.root_pos == old(self).root_pos,
                old(self).adj_stack@.len() == 0 ==> self.root_pos >= 1 && first_fresh_at(
                    old(self).roots@,
                    old(self).root_pos as int,
                    old(self).visited@,
                ) == Some(self.root_pos - 1) && self.node_stack@.len() > 0
                    && self.node_stack@[0] == old(self).roots@[self.root_pos - 1]
                    && self.adj_stack@[0].node@ == old(self).roots@[self.root_pos - 1],
                old(self).adj_stack@.len() == 0 && self.adj_stack@.len() == 1
                    ==> self.node_stack@ == seq![old(self).roots@[self.root_pos - 1]]
                    && self.visited@ == old(self).visited@.insert(
                    old(self).roots@[self.root_pos - 1],
                ) && first_fresh(
                    self.adj_stack@[0].edges@,
                    self.adj_stack@[0].pos as int,
                    self.visited@,
                ) == first_fresh(
                    self.adj_stack@[0].edges@,
                    0,
                    old(self).visited@.insert(old(self).roots@[self.root_pos - 1]),
                ) && first_fresh_at(
                    self.adj_stack@[0].edges@,
                    self.adj_stack@[0].pos as int,
                    self.visited@,
                ) == first_fresh_at(
                    self.adj_stack@[0].edges@,
                    0,
                    old(self).visited@.insert(old(self).roots@[self.root_pos - 1]),
                ),
                old(self).adj_stack@.len() == 0 && self.adj_stack@.len() >= 2 ==> first_fresh(
                    self.adj_stack@[0].edges@,
                    0,
                    old(self).visited@.insert(old(self).roots@[self.root_pos - 1]),
                ) == Some(self.node_stack@[1]) && self.node_stack@.len() >= 2
                    && self.adj_stack@[1].node@ == self.node_stack@[1] && (first_fresh_at(
                    self.adj_stack@[0].edges@,
                    0,
                    old(self).visited@.insert(old(self).roots@[self.root_pos - 1]),
                ) matches Some(j) && self.adj_stack@[0].pos as int == j + 1),
                old(self).adj_stack@.len() == 0 && self.adj_stack@.len() == 2 ==> self.visited@
                    == old(self).visited@.insert(old(self).roots@[self.root_pos - 1]).insert(
                    self.node_stack@[1],
                ) && first_fresh(
                    self.adj_stack@[1].edges@,
                    self.adj_stack@[1].pos as int,
                    self.visited@,
                ) == first_fresh(
                    self.adj_stack@[1].edges@,
                    0,
                    old(self).visited@.insert(old(self).roots@[self.root_pos - 1]).insert(
                        self.node_stack@[1],
                    ),
                ),
                old(self).adj_stack@.len() == 0 && self.adj_stack@.len() >= 3 ==> first_fresh(
                    self.adj_stack@[1].edges@,
                    0,
                    old(self).visited@.insert(old(self).roots@[self.root_pos - 1]).insert(
                        self.node_stack@[1],
                    ),
                ) is Some,
            decreases
                    reach_set(self.adj, self.roots@.to_set()).difference(self.visited@).len(),
                    pending(self.adj_stack@),
        {
            let ghost s0 = self.adj_stack@;
            let ghost ns0 = self.node_stack@;
            let ghost v0 = self.visited@;
            let ghost e0 = self.emitted@;
            let ghost full = reach_set(self.adj, self.roots@.to_set());
            let mut cur = self.adj_stack.pop().unwrap();
            let ghost c0 = cur;
            proof {
                assert(c0 == s0.last());
                assert(c0.wf(self.adj, v0));
                assert(c0.node@ == ns0[s0.len() - 1]);
            }
            if cur.pos < cur.edges.len() {
                let n = cur.edges[cur.pos];
                let ghost p0 = cur.pos as int;
                cur.pos = cur.pos + 1;
                if self.visited.insert(n) {
                    proof {
                        assert(call_requires(self.adj, (n,)));
                    }
                    let new_edges = (self.adj)(n);
                    let ghost c1 = cur;
                    self.adj_stack.push(cur);
                    self.adj_stack.push(Cursor { node: Ghost(n), edges: new_edges, pos: 0 });
                    self.node_stack.push(n);
                    proof {
                        let s2 = self.adj_stack@;
                        let ns2 = self.node_stack@;
                        let v2 = self.visited@;
                        assert(v2 == v0.insert(n) && !v0.contains(n));
                        assert(!ns0.contains(n));
                        lemma_push_no_duplicates(ns0, n);
                        lemma_push_contains(ns0, n);
                        assert(forall|i: int| 0 <= i < s0.len() - 1 ==> s2[i] == #[trigger] s0[i]);
                        assert(s2[s2.len() - 2] == c1 && s2[s2.len() - 1].node@ == n);
                        assert(ns2 == ns0.push(n));
                        assert(ns2[ns2.len() - 1] == n);
                        assert forall|i: int| 0 <= i < s2.len() implies (#[trigger] s2[i]).wf(
                            self.adj,
                            v2,
                        ) && s2[i].node@ == ns2[i] by {
                            if i < s0.len() - 1 {
                                assert(s0[i].wf(self.adj, v0) && s0[i].node@ == ns0[i]);
                            } else if i == s2.len() - 2 {
                                assert(c0.wf(self.adj, v0));
                                assert(c1.edges@[p0] == n);
                                assert(ns2[i] == ns0[i]);
                            }
                        }
                        assert forall|m: N|
                            #[trigger] v2.contains(m) && !ns2.contains(m) implies fully_scanned(
                            self.adj,
                            v2,
                            m,
                        ) by {
                            if m != n {
                                assert(!ns0.contains(m));
                                lemma_scanned_monotone(self.adj, v0, v2, m);
                            }
                        }
                        // the fresh node is reachable: one edge past the cursor's node
                        assert(c0.edges@[p0] == n);
                        assert(c0.edges@.contains(n));
                        assert(edge(self.adj, c0.node@, n));
                        assert(v0.contains(c0.node@));
                        // the open path stays a chain of edges
                        assert forall|i: int| 0 <= i < ns2.len() - 1 implies edge(
                            self.adj,
                            #[trigger] ns2[i],
                            ns2[i + 1],
                        ) by {
                            if i < ns0.len() - 1 {
                                assert(ns2[i] == ns0[i] && ns2[i + 1] == ns0[i + 1]);
                            } else {
                                assert(ns2[i] == ns0.last() && ns2[i + 1] == n);
                                assert(ns0.last() == c0.node@);
                            }
                        }
                        lemma_reaches_step(self.adj, self.roots@.to_set(), c0.node@, n);
                        assert forall|m: N| #[trigger] v2.contains(m) implies reaches(
                            self.adj,
                            self.roots@.to_set(),
                            m,
                        ) by {}
                        // a fresh reachable node shrinks the unvisited region
                        assert(full.contains(n));
                        full.lemma_set_insert_diff_decreases(v0, n);
                        if old(self).adj_stack@.len() == 0 {
                            let base1 = old(self).visited@.insert(
                                old(self).roots@[self.root_pos - 1],
                            );
                            if s0.len() == 1 {
                                // the root's first fresh successor is pinned
                                assert(first_fresh(c0.edges@, p0, v0) == Some(n));
                                assert(first_fresh_at(c0.edges@, p0, v0) == Some(p0));
                                assert(v0 == base1);
                                assert(s2[0] == c1 && c1.edges@ == c0.edges@);
                                assert(ns2[1] == n && s2[1].node@ == n);
                                assert(self.visited@ == base1.insert(n));
                            } else {
                                assert(s2[0] == s0[0] && ns2[1] == ns0[1]);
                                if s0.len() == 2 {
                                    // the successor's cursor held a fresh
                                    // entry: the two-step outcome cannot apply
                                    assert(s2[1] == c1 && c1.edges@ == s0[1].edges@);
                                    assert(first_fresh(c0.edges@, p0, v0) == Some(n));
                                    assert(first_fresh(
                                        s0[1].edges@,
                                        0,
                                        base1.insert(ns0[1]),
                                    ) == Some(n));
                                } else {
                                    assert(s2[1] == s0[1]);
                                }
                            }
                        }
                    }
                } else {
                    let ghost c1 = cur;
                    self.adj_stack.push(cur);
                    proof {
                        assert(self.visited@ =~= v0);
                        let s2 = self.adj_stack@;
                        assert(forall|i: int| 0 <= i < s0.len() - 1 ==> s2[i] == #[trigger] s0[i]);
                        assert(s2[s2.len() - 1] == c1);
                        assert forall|i: int| 0 <= i < s2.len() implies (#[trigger] s2[i]).wf(
                            self.adj,
                            self.visited@,
                        ) && s2[i].node@ == self.node_stack@[i] by {
                            if i == s2.len() - 1 {
                                assert(c0.wf(self.adj, v0));
                                assert(c1.edges@[p0] == n);
                                assert(self.visited@.contains(n));
                                assert(c1.node@ == c0.node@);
                            }
                        }
                        // one successor entry was consumed: the measure shrinks
                        assert(s2.drop_last() =~= s0.drop_last());
                        assert(pending(s0) == pending(s0.drop_last()) + c0.remaining());
                        assert(pending(s2) == pending(s2.drop_last()) + c1.remaining());
                        assert(c1.remaining() < c0.remaining());
                        if old(self).adj_stack@.len() == 0 {
                            let base1 = old(self).visited@.insert(
                                old(self).roots@[self.root_pos - 1],
                            );
                            assert(self.visited@ == v0);
                            if s0.len() == 1 {
                                assert(s2[0] == c1 && c1.edges@ == c0.edges@);
                                assert(first_fresh(c0.edges@, p0 + 1, v0) == first_fresh(
                                    c0.edges@,
                                    p0,
                                    v0,
                                ));
                                assert(first_fresh_at(c0.edges@, p0 + 1, v0) == first_fresh_at(
                                    c0.edges@,
                                    p0,
                                    v0,
                                ));
                            } else {
                                assert(s2[0] == s0[0]);
                                if s0.len() == 2 {
                                    assert(s2[1] == c1 && c1.edges@ == c0.edges@);
                                    assert(first_fresh(c0.edges@, p0 + 1, v0) == first_fresh(
                                        c0.edges@,
                                        p0,
                                        v0,
                                    ));
                                } else {
                                    assert(s2[1] == s0[1]);
                                }
                            }
                        }
                    }
                }
            } else {
                let m = self.node_stack.pop().unwrap();
                proof {
                    let s2 = self.adj_stack@;
                    let ns2 = self.node_stack@;
                    assert(m == ns0.last() && ns2 == ns0.drop_last());
                    assert(m == c0.node@);
                    c0.lemma_exhausted_is_scanned(self.adj, v0);
                    assert(!e0.contains(m));
                    lemma_push_no_duplicates(e0, m);
                    lemma_push_contains(e0, m);
                    lemma_drop_last_contains(ns0);
                    assert(forall|i: int| 0 <= i < s2.len() ==> s2[i] == #[trigger] s0[i]);
                    assert forall|x: N|
                        #[trigger] v0.contains(x) && !ns2.contains(x) implies fully_scanned(
                        self.adj,
                        v0,
                        x,
                    ) by {
                        if x != m {
                            assert(!ns0.contains(x));
                        }
                    }
                }
                self.emitted = Ghost(self.emitted@.push(m));
                proof {
                    let ns2 = self.node_stack@;
                    // post-order: each successor of the produced node is
                    // already produced, the node itself, or an open
                    // ancestor from which the node is reachable
                    assert(call_ensures(old(self).adj_fn(), (m,), c0.edges));
                    assert forall|j: int| 0 <= j < c0.edges@.len() implies e0.contains(
                        #[trigger] c0.edges@[j],
                    ) || c0.edges@[j] == m || (ns2.contains(c0.edges@[j]) && reaches(
                        old(self).adj_fn(),
                        Set::empty().insert(c0.edges@[j]),
                        m,
                    )) by {
                        let s = c0.edges@[j];
                        assert(v0.contains(s));
                        if !e0.contains(s) && s != m {
                            assert(ns0.contains(s));
                            let i = choose|i: int| 0 <= i < ns0.len() && ns0[i] == s;
                            assert(i < ns0.len() - 1);
                            assert(ns0.last() == m);
                            lemma_chain_reaches(self.adj, ns0, i);
                            assert(ns2.contains(s));
                        }
                    }
                    if old(self).adj_stack@.len() == 0 {
                        // the call began at a fresh root: its cursor sits at
                        // the bottom of the stack and witnesses the pinned
                        // one-step outcome
                        let r0 = old(self).roots@[self.root_pos - 1];
                        assert(s0[0].node@ == r0);
                        assert(s0[0].wf(self.adj, v0));
                        assert(call_ensures(old(self).adj_fn(), (r0,), s0[0].edges));
                        assert(first_fresh(
                            s0[0].edges@,
                            0,
                            old(self).visited@.insert(r0),
                        ) is None ==> m == r0 && frames_of(self.adj_stack@) == Seq::<
                            (N, Seq<N>, int),
                        >::empty() && self.node_stack@ == Seq::<N>::empty() && self.visited@
                            == old(self).visited@.insert(r0)) by {
                            if first_fresh(
                                s0[0].edges@,
                                0,
                                old(self).visited@.insert(r0),
                            ) is None {
                                assert(s0.len() == 1);
                                assert(ns0 == seq![r0]);
                                assert(m == ns0[0]);
                                assert(frames_of(self.adj_stack@) =~= Seq::<
                                    (N, Seq<N>, int),
                                >::empty());
                                assert(self.node_stack@ =~= Seq::<N>::empty());
                            }
                        }
                        assert(exists|v: Vec<N>|
                            #[trigger] call_ensures(old(self).adj_fn(), (r0,), v) && (
                            first_fresh(v@, 0, old(self).visited@.insert(r0)) is None ==> m == r0
                                && frames_of(self.adj_stack@) == Seq::<
                                (N, Seq<N>, int),
                            >::empty() && self.node_stack@ == Seq::<N>::empty() && self.visited@
                                == old(self).visited@.insert(r0)));
                        let base1 = old(self).visited@.insert(r0);
                        assert forall|sx: N|
                            first_fresh(s0[0].edges@, 0, base1) == Some(sx) implies old(
                            self,
                        ).descent_step(*self, Some(m), s0[0].edges@, sx) by {
                            assert(s0.len() >= 2);
                            assert(sx == ns0[1]);
                            assert(s0[1].wf(self.adj, v0));
                            assert(s0[1].node@ == ns0[1]);
                            assert(call_ensures(old(self).adj_fn(), (sx,), s0[1].edges));
                            assert(first_fresh(s0[1].edges@, 0, base1.insert(sx)) is None
                                ==> m == sx && (first_fresh_at(
                                s0[0].edges@,
                                0,
                                base1,
                            ) matches Some(j) && frames_of(self.adj_stack@) == seq![
                                (r0, s0[0].edges@, j + 1),
                            ]) && self.node_stack@ == seq![r0] && self.visited@ == base1.insert(
                                sx,
                            )) by {
                                if first_fresh(s0[1].edges@, 0, base1.insert(sx)) is None {
                                    assert(s0.len() == 2);
                                    assert(m == ns0.last() && m == ns0[1]);
                                    assert(self.adj_stack@ =~= seq![s0[0]]);
                                    assert(frames_of(self.adj_stack@) =~= seq![
                                        (s0[0].node@, s0[0].edges@, s0[0].pos as int),
                                    ]);
                                    assert(s0[0].node@ == r0);
                                    assert(self.node_stack@ =~= seq![r0]);
                                    assert(self.visited@ == base1.insert(ns0[1]));
                                }
                            }
                            assert(old(self).descent_step(*self, Some(m), s0[0].edges@, sx));
                        }
                        assert(old(self).root_step(*self, Some(m)));
                    }
                    assert(old(self).frames().len() == old(self).adj_stack@.len());
                }
                return Some(m);
            }
        }
    }
}

/// What has been discovered splits into what has been produced and the
/// open path, with no overlap; once the traversal is done the open path
/// is empty, so the discovered set and the produced set coincide.
pub proof fn lemma_topological_partition<N, F>(it: TopologicalIter<N, F>) where
    N: Copy + Eq + Hash,
    F: Fn(N) -> Vec<N>,

    requires
        it.wf(),
    ensures
        forall|x: N|
            #[trigger] it.discovered().contains(x) <==> (it.emitted().contains(x)
                || it.open_path().contains(x)),
        forall|x: N| #[trigger] it.emitted().contains(x) ==> !it.open_path().contains(x),
        it.done() ==> it.open_path() == Seq::<N>::empty(),
{
    if it.done() {
        assert(it.node_stack@ =~= Seq::<N>::empty());
    }
}

/// Uniqueness: no node appears twice in a topological traversal's
/// output, however much of it has been consumed.
pub proof fn lemma_topological_unique<N, F>(it: TopologicalIter<N, F>) where
    N: Copy + Eq + Hash,
    F: Fn(N) -> Vec<N>,

    requires
        it.wf(),
    ensures
        it.emitted().no_duplicates(),
{
}

/// Soundness: every node a topological traversal has produced, at any
/// point, is reachable from its roots.
pub proof fn lemma_topological_reachable<N, F>(it: TopologicalIter<N, F>) where
    N: Copy + Eq + Hash,
    F: Fn(N) -> Vec<N>,

    requires
        it.wf(),
    ensures
        forall|n: N|
            #[trigger] it.emitted().contains(n) ==> reaches(
                it.adj_fn(),
                it.roots_seq().to_set(),
                n,
            ),
{
}

/// Reachability completeness: once a topological traversal is done, the
/// set of nodes it has produced is exactly the set of nodes reachable
/// from its roots, provided the adjacency function describes a fixed
/// edge relation.  This holds on cyclic graphs too: every reachable node
/// is produced exactly once, only the order then carries no topological
/// meaning.
pub proof fn lemma_topological_exact_reach<N, F>(it: TopologicalIter<N, F>) where
    N: Copy + Eq + Hash,
    F: Fn(N) -> Vec<N>,

    requires
        it.wf(),
        it.done(),
        crate::reach::deterministic_edges(it.adj_fn()),
    ensures
        forall|n: N|
            #![trigger it.emitted().contains(n)]
            #![trigger reaches(it.adj_fn(), it.roots_seq().to_set(), n)]
            it.emitted().contains(n) <==> reaches(it.adj_fn(), it.roots_seq().to_set(), n),
{
    let f = it.adj_fn();
    let from = it.roots_seq().to_set();
    let s = it.visited@;
    assert forall|x: N| from.contains(x) implies s.contains(x) by {
        assert(it.roots@.contains(x));
        let j = choose|j: int| 0 <= j < it.roots@.len() && it.roots@[j] == x;
        assert(it.visited@.contains(it.roots@[j]));
    }
    assert forall|x: N| #[trigger] s.contains(x) implies fully_scanned(f, s, x) by {
        assert(!it.node_stack@.contains(x));
    }
    assert forall|n: N|
        #![trigger it.emitted().contains(n)]
        #![trigger reaches(it.adj_fn(), it.roots_seq().to_set(), n)]
        it.emitted().contains(n) <==> reaches(f, from, n) by {
        if reaches(f, from, n) {
            crate::reach::lemma_reaches_in_scanned_set(f, from, s, n);
            assert(s.contains(n));
        }
    }
}

/// Constructs a post-order (topological-order) traversal of the graph
/// described by `adj`, starting from the given roots, consumed lazily and
/// in order.
///
/// The traversal keeps its own copy of the roots: the slice passed in is
/// only read, never consumed or changed, and stays fully usable by the
/// caller.  Roots need not be distinct or unvisited; a root already
/// visited when its turn comes is skipped.  An empty slice gives an
/// immediately exhausted traversal.
pub fn topological_sort<N, F>(roots: &[N], adj: F) -> (it: TopologicalIter<N, F>) where
    N: Copy + Eq + Hash,
    F: Fn(N) -> Vec<N>,

    requires
        forall|x: N| #[trigger] call_requires(adj, (x,)),
    ensures
        it.wf(),
        it.emitted() == Seq::<N>::empty(),
        it.roots_seq() == roots@,
        it.adj_fn() == adj,
        it.discovered() == Set::<N>::empty(),
        it.open_path() == Seq::<N>::empty(),
        it.frames() == Seq::<(N, Seq<N>, int)>::empty(),
        it.consumed_roots() == 0,
{
    let it = TopologicalIter {
        adj,
        node_stack: Vec::new(),
        adj_stack: Vec::new(),
        roots: vstd::slice::slice_to_vec(roots),
        root_pos: 0,
        visited: HashSet::new(),
        emitted: Ghost(Seq::empty()),
    };
    proof {
        assert(it.frames() =~= Seq::<(N, Seq<N>, int)>::empty());
    }
    it
}

} // verus!
