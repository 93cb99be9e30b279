//! Pre-order depth-first traversal over an implicit graph.

use crate::cursor::pending;
use crate::cursor::Cursor;
use crate::reach::fully_scanned;
use crate::reach::lemma_push_contains;
use crate::reach::lemma_push_no_duplicates;
use crate::reach::lemma_reaches_member;
use crate::reach::lemma_reaches_step;
use crate::reach::lemma_scanned_monotone;
use crate::reach::reaches;
use std::collections::HashSet;
use std::hash::Hash;
use vstd::prelude::*;
use vstd::std_specs::hash::obeys_key_model;

verus! {

broadcast use vstd::std_specs::hash::group_hash_axioms;

/// A lazy pre-order depth-first traversal.
///
/// Each call of [`DepthFirstIter::next`] produces the next node in
/// pre-order depth-first sequence, or `None` once every node reachable
/// from the roots has been produced.  A node is produced at the moment of
/// first discovery, before its descendants; no node is produced twice.
#[verifier::reject_recursive_types(N)]
pub struct DepthFirstIter<N, F> where N: Copy + Eq + Hash, F: Fn(N) -> Vec<N> {
    /// Every node discovered so far; a node is inserted exactly when it is
    /// produced, and entries are never removed.
    pub visited: HashSet<N>,
    adj: F,
    stack: Vec<Cursor<N>>,
    roots: Vec<N>,
    root_pos: usize,
    emitted: Ghost<Seq<N>>,
}

/// Some frame of the stack expands the node `n`.
pub open spec fn stack_holds<N>(s: Seq<Cursor<N>>, n: N) -> bool {
    exists|i: int| 0 <= i < s.len() && (#[trigger] s[i]).node@ == n
}

/// The first entry of `s` at or after position `pos` that is not in
/// `visited`, if any.
pub open spec fn first_fresh<N>(s: Seq<N>, pos: int, visited: Set<N>) -> Option<N>
    decreases s.len() - pos,
{
    if pos < 0 || pos >= s.len() {
        None
    } else if !visited.contains(s[pos]) {
        Some(s[pos])
    } else {
        first_fresh(s, pos + 1, visited)
    }
}

/// The first not-yet-visited successor found by scanning the stack's
/// cursors from the top down, if any.
pub open spec fn stack_first_fresh<N>(s: Seq<Cursor<N>>, visited: Set<N>) -> Option<N>
    decreases s.len(),
{
    if s.len() == 0 {
        None
    } else {
        match first_fresh(s.last().edges@, s.last().pos as int, visited) {
            Some(n) => Some(n),
            None => stack_first_fresh(s.drop_last(), visited),
        }
    }
}

/// The position of the first entry of `s` at or after `pos` that is not
/// in `visited`, if any.
pub open spec fn first_fresh_at<N>(s: Seq<N>, pos: int, visited: Set<N>) -> Option<int>
    decreases s.len() - pos,
{
    if pos < 0 || pos >= s.len() {
        None
    } else if !visited.contains(s[pos]) {
        Some(pos)
    } else {
        first_fresh_at(s, pos + 1, visited)
    }
}

/// `first_fresh` returns the entry that `first_fresh_at` points at.
pub proof fn lemma_first_fresh_at<N>(s: Seq<N>, pos: int, visited: Set<N>)
    ensures
        match first_fresh_at(s, pos, visited) {
            Some(j) => pos <= j < s.len() && first_fresh(s, pos, visited) == Some(s[j]),
            None => first_fresh(s, pos, visited) == None::<N>,
        },
    decreases s.len() - pos,
{
    if 0 <= pos < s.len() && visited.contains(s[pos]) {
        lemma_first_fresh_at(s, pos + 1, visited);
    }
}

/// A scan that finds nothing fresh has seen only visited entries.
pub proof fn lemma_first_fresh_none<N>(s: Seq<N>, pos: int, visited: Set<N>)
    requires
        0 <= pos,
        first_fresh(s, pos, visited) == None::<N>,
    ensures
        forall|j: int| pos <= j < s.len() ==> visited.contains(#[trigger] s[j]),
    decreases s.len() - pos,
{
    if pos < s.len() {
        lemma_first_fresh_none(s, pos + 1, visited);
    }
}

/// The stack of frames with every exhausted-of-fresh frame dropped from
/// the top: what is left once the scan has discarded the cursors that
/// have nothing new to offer.
pub open spec fn live_frames<N>(fr: Seq<(N, Seq<N>, int)>, visited: Set<N>) -> Seq<
    (N, Seq<N>, int),
>
    decreases fr.len(),
{
    if fr.len() == 0 {
        fr
    } else if first_fresh_at(fr.last().1, fr.last().2, visited) is Some {
        fr
    } else {
        live_frames(fr.drop_last(), visited)
    }
}

/// The live frames with the top frame's scan advanced just past the
/// fresh entry it is about to produce: the pending stack as it stands at
/// the moment of emission, before the new node's own cursor is pushed.
pub open spec fn stepped_frames<N>(fr: Seq<(N, Seq<N>, int)>, visited: Set<N>) -> Seq<
    (N, Seq<N>, int),
> {
    let l = live_frames(fr, visited);
    if l.len() == 0 {
        l
    } else {
        match first_fresh_at(l.last().1, l.last().2, visited) {
            Some(j) => l.update(l.len() - 1, (l.last().0, l.last().1, j + 1)),
            None => l,
        }
    }
}

/// The view of a cursor stack, frame by frame: the node being expanded,
/// its successor vector, and the scan position.
pub(crate) open spec fn frames_of<N>(s: Seq<Cursor<N>>) -> Seq<(N, Seq<N>, int)> {
    Seq::new(s.len(), |i: int| (s[i].node@, s[i].edges@, s[i].pos as int))
}

/// The first not-yet-visited successor found by scanning a stack of
/// frames from the top down, if any: each frame contributes the entries
/// of its successor vector from its scan position on.
pub open spec fn frames_first_fresh<N>(fr: Seq<(N, Seq<N>, int)>, visited: Set<N>) -> Option<N>
    decreases fr.len(),
{
    if fr.len() == 0 {
        None
    } else {
        match first_fresh(fr.last().1, fr.last().2, visited) {
            Some(n) => Some(n),
            None => frames_first_fresh(fr.drop_last(), visited),
        }
    }
}

/// Scanning a cursor stack and scanning its view find the same node.
proof fn lemma_frames_agree<N>(s: Seq<Cursor<N>>, v: Set<N>)
    ensures
        frames_first_fresh(frames_of(s), v) == stack_first_fresh(s, v),
    decreases s.len(),
{
    if s.len() > 0 {
        assert(frames_of(s).last() == (s.last().node@, s.last().edges@, s.last().pos as int));
        assert(frames_of(s).drop_last() =~= frames_of(s.drop_last()));
        lemma_frames_agree(s.drop_last(), v);
    }
}

impl<N, F> DepthFirstIter<N, F> where N: Copy + Eq + Hash, F: Fn(N) -> Vec<N> {
    /// The adjacency function the traversal was constructed with.
    pub closed spec fn adj_fn(self) -> F {
        self.adj
    }

    /// The root sequence the traversal was constructed with.
    pub closed spec fn roots_seq(self) -> Seq<N> {
        self.roots@
    }

    /// The nodes produced so far, in order.
    pub closed spec fn emitted(self) -> Seq<N> {
        self.emitted@
    }

    /// The traversal is terminally exhausted: every root has been
    /// consumed and no adjacency cursor is pending.
    pub closed spec fn done(self) -> bool {
        self.stack@.len() == 0 && self.root_pos == self.roots@.len()
    }

    /// How many roots have been consumed so far.
    pub closed spec fn consumed_roots(self) -> int {
        self.root_pos as int
    }

    /// The nodes discovered so far.
    pub closed spec fn discovered(self) -> Set<N> {
        self.visited@
    }

    /// The stack of pending adjacency cursors, frame by frame: the node
    /// being expanded, its successor vector, and the scan position.
    pub closed spec fn frames(self) -> Seq<(N, Seq<N>, int)> {
        frames_of(self.stack@)
    }

    /// Whether `n` has been discovered — for this traversal, exactly
    /// when it has already been produced.  This is the executable face
    /// of the `visited` field's documented meaning.
    pub fn visited_contains(&self, n: N) -> (r: bool)
        requires
            obeys_key_model::<N>(),
        ensures
            r == self.discovered().contains(n),
    {
        self.visited.contains(&n)
    }

    /// The node the next call of `next` will produce, or `None` if it
    /// will report exhaustion: the first not-yet-discovered successor
    /// found scanning the pending cursors from the top down, else the
    /// first not-yet-discovered root still to be consumed.  It is a
    /// function of the traversal's state alone, which is what makes the
    /// traversal deterministic.
    pub open spec fn spec_next(self) -> Option<N> {
        match frames_first_fresh(self.frames(), self.discovered()) {
            Some(n) => Some(n),
            None => first_fresh(self.roots_seq(), self.consumed_roots(), self.discovered()),
        }
    }

    /// How producing the node `n` moves the pending cursors and the root
    /// position from the state `self` to the state `post`.  If some
    /// pending cursor still held a fresh successor, the stack steps to
    /// the live cursors with the top scan advanced and `n`'s own cursor
    /// pushed, and no root is consumed; otherwise `n` is the first fresh
    /// root, everything up to it is consumed, and `n`'s cursor is the
    /// whole stack.  Either way the new cursor holds a successor vector
    /// the adjacency function's contract admits for `n`.
    pub open spec fn frames_step(self, post: Self, n: N) -> bool {
        &&& (frames_first_fresh(self.frames(), self.discovered()) is Some
            ==> post.consumed_roots() == self.consumed_roots()
            && (exists|v: Vec<N>|
                #[trigger] call_ensures(self.adj_fn(), (n,), v)
                    && post.frames() == stepped_frames(self.frames(), self.discovered()).push(
                    (n, v@, 0int),
                )))
        &&& (frames_first_fresh(self.frames(), self.discovered()) is None
            ==> first_fresh_at(self.roots_seq(), self.consumed_roots(), self.discovered())
                == Some(post.consumed_roots() - 1)
            && n == self.roots_seq()[post.consumed_roots() - 1]
            && (exists|v: Vec<N>|
                #[trigger] call_ensures(self.adj_fn(), (n,), v)
                    && post.frames() == seq![(n, v@, 0int)]))
    }

    /// The same scan, over the cursors themselves.
    spec fn scan_next(self) -> Option<N> {
        match stack_first_fresh(self.stack@, self.visited@) {
            Some(n) => Some(n),
            None => first_fresh(self.roots@, self.root_pos as int, self.visited@),
        }
    }

    /// The two scans agree.
    proof fn lemma_spec_next_is_scan(self)
        ensures
            self.spec_next() == self.scan_next(),
    {
        lemma_frames_agree(self.stack@, self.visited@);
    }

    /// The traversal's invariant.  Constructors establish it and `next`
    /// preserves it.
    pub closed spec fn wf(self) -> bool {
        &&& self.emitted@.no_duplicates()
        &&& forall|x: N|
            #![trigger self.visited@.contains(x)]
            #![trigger self.emitted@.contains(x)]
            self.visited@.contains(x) <==> self.emitted@.contains(x)
        &&& self.root_pos <= self.roots@.len()
        &&& forall|i: int|
            0 <= i < self.stack@.len() ==> (#[trigger] self.stack@[i]).wf(self.adj, self.visited@)
        &&& forall|n: N|
            #[trigger] self.visited@.contains(n) && !stack_holds(self.stack@, n)
                ==> fully_scanned(self.adj, self.visited@, n)
        &&& forall|n: N|
            #[trigger] self.visited@.contains(n) ==> reaches(self.adj, self.roots@.to_set(), n)
        &&& forall|j: int|
            0 <= j < self.root_pos ==> self.visited@.contains(#[trigger] self.roots@[j])
        &&& forall|x: N| #[trigger] call_requires(self.adj, (x,))
    }

    /// Produces the next node in pre-order depth-first sequence, or `None`
    /// once every node reachable from the roots has been produced.
    ///
    /// A produced node is fresh (never produced before) and reachable
    /// from the roots.  `None` is returned exactly in the done state,
    /// which is stable: once done, every later call returns `None` too.
    pub fn next(&mut self) -> (r: Option<N>)
        requires
            old(self).wf(),
            obeys_key_model::<N>(),
        ensures
            final(self).wf(),
            final(self).adj_fn() == old(self).adj_fn(),
            final(self).roots_seq() == old(self).roots_seq(),
            match r {
                Some(n) => {
                    &&& final(self).emitted() == old(self).emitted().push(n)
                    &&& !old(self).emitted().contains(n)
                    &&& final(self).discovered() == old(self).discovered().insert(n)
                    &&& !old(self).discovered().contains(n)
                    &&& reaches(old(self).adj_fn(), old(self).roots_seq().to_set(), n)
                    &&& old(self).frames_step(*final(self), n)
                },
                None => {
                    &&& final(self).emitted() == old(self).emitted()
                    &&& final(self).discovered() == old(self).discovered()
                    &&& final(self).done()
                },
            },
            r == old(self).spec_next(),
            old(self).done() ==> r == None::<N>,
    {
        proof {
            self.lemma_spec_next_is_scan();
            lemma_frames_agree(self.stack@, self.visited@);
        }
        loop
            invariant
                self.wf(),
                obeys_key_model::<N>(),
                self.adj == old(self).adj,
                self.roots@ == old(self).roots@,
                self.emitted@ == old(self).emitted@,
                self.visited@ == old(self).visited@,
                self.scan_next() == old(self).scan_next(),
                old(self).spec_next() == old(self).scan_next(),
                old(self).done() ==> self.stack@.len() == 0 && self.root_pos
                    == self.roots@.len(),
                stack_first_fresh(self.stack@, self.visited@) == stack_first_fresh(
                    old(self).stack@,
                    old(self).visited@,
                ),
                first_fresh_at(self.roots@, self.root_pos as int, self.visited@)
                    == first_fresh_at(
                    old(self).roots@,
                    old(self).root_pos as int,
                    old(self).visited@,
                ),
                stepped_frames(frames_of(self.stack@), self.visited@) == stepped_frames(
                    old(self).frames(),
                    old(self).discovered(),
                ),
                frames_first_fresh(old(self).frames(), old(self).discovered())
                    == stack_first_fresh(old(self).stack@, old(self).visited@),
                stack_first_fresh(old(self).stack@, old(self).visited@) is Some
                    ==> self.root_pos == old(self).root_pos,
            decreases pending(self.stack@) + self.stack@.len() + self.roots@.len()
                - self.root_pos,
        {
            let ghost sn0 = self.scan_next();
            let ghost s0 = self.stack@;
            let ghost v0 = self.visited@;
            let ghost e0 = self.emitted@;
            if self.stack.len() > 0 {
                let mut cur = self.stack.pop().unwrap();
                let ghost c0 = cur;
                proof {
                    assert(c0 == s0.last());
                    assert(c0.wf(self.adj, v0));
                }
                if cur.pos < cur.edges.len() {
                    let n = cur.edges[cur.pos];
                    let ghost p0 = cur.pos as int;
                    cur.pos = cur.pos + 1;
                    if self.visited.insert(n) {
                        proof {
                            assert(call_requires(self.adj, (n,)));
                        }
                        let new_edges = (self.adj)(n);
                        let ghost c1 = cur;
                        self.stack.push(cur);
                        self.stack.push(Cursor { node: Ghost(n), edges: new_edges, pos: 0 });
                        self.emitted = Ghost(self.emitted@.push(n));
                        proof {
                            let s2 = self.stack@;
                            let v2 = self.visited@;
                            assert(v2 == v0.insert(n) && !v0.contains(n));
                            assert(!e0.contains(n));
                            lemma_push_no_duplicates(e0, n);
                            lemma_push_contains(e0, n);
                            // the stack below the two new frames is unchanged
                            assert(forall|i: int|
                                0 <= i < s0.len() - 1 ==> s2[i] == #[trigger] s0[i]);
                            assert(s2[s2.len() - 2] == c1 && s2[s2.len() - 1].node@ == n);
                            assert forall|i: int| 0 <= i < s2.len() implies (#[trigger] s2[i]).wf(
                                self.adj,
                                v2,
                            ) by {
                                if i < s0.len() - 1 {
                                    assert(s0[i].wf(self.adj, v0));
                                } else if i == s2.len() - 2 {
                                    assert(c0.wf(self.adj, v0));
                                    assert(c1.edges@[p0] == n);
                                }
                            }
                            assert forall|m: N|
                                #[trigger] v2.contains(m) && !stack_holds(s2, m) implies
                                fully_scanned(self.adj, v2, m) by {
                                assert(s2[s2.len() - 1].node@ == n);
                                assert(s2[s2.len() - 2].node@ == c0.node@);
                                if m != n && m != c0.node@ {
                                    if stack_holds(s0, m) {
                                        let i = choose|i: int|
                                            0 <= i < s0.len() && (#[trigger] s0[i]).node@ == m;
                                        assert(i < s0.len() - 1);
                                        assert(s2[i].node@ == m);
                                    }
                                    lemma_scanned_monotone(self.adj, v0, v2, m);
                                }
                            }
                            // the new node is reachable: one edge past the cursor's node
                            assert(c0.edges@[p0] == n);
                            assert(c0.edges@.contains(n));
                            assert(crate::reach::edge(self.adj, c0.node@, n));
                            lemma_reaches_step(self.adj, self.roots@.to_set(), c0.node@, n);
                            assert forall|m: N| #[trigger] v2.contains(m) implies reaches(
                                self.adj,
                                self.roots@.to_set(),
                                m,
                            ) by {}
                            // the produced node is the one the state determines
                            assert(first_fresh(c0.edges@, p0, v0) == Some(n));
                            assert(stack_first_fresh(s0, v0) == Some(n));
                            assert(sn0 == Some(n));
                            // the pending stack steps exactly as the model says
                            let fr0 = frames_of(s0);
                            assert(fr0.last() == (c0.node@, c0.edges@, p0));
                            assert(first_fresh_at(c0.edges@, p0, v0) == Some(p0));
                            assert(live_frames(fr0, v0) == fr0);
                            assert(stepped_frames(fr0, v0) == fr0.update(
                                fr0.len() - 1,
                                (c0.node@, c0.edges@, p0 + 1),
                            ));
                            let vwit = s2.last().edges;
                            assert(s2.last().wf(self.adj, v2));
                            assert(call_ensures(old(self).adj_fn(), (n,), vwit));
                            assert(frames_of(s2) =~= stepped_frames(fr0, v0).push(
                                (n, vwit@, 0int),
                            ));
                            assert(stepped_frames(fr0, v0) == stepped_frames(
                                old(self).frames(),
                                old(self).discovered(),
                            ));
                            assert(exists|v: Vec<N>|
                                #[trigger] call_ensures(old(self).adj_fn(), (n,), v)
                                    && frames_of(s2) == stepped_frames(
                                    old(self).frames(),
                                    old(self).discovered(),
                                ).push((n, v@, 0int)));
                            assert(old(self).frames_step(*self, n));
                        }
                        return Some(n);
                    } else {
                        let ghost c1 = cur;
                        self.stack.push(cur);
                        proof {
                            assert(self.visited@ =~= v0);
                            let s2 = self.stack@;
                            assert(forall|i: int|
                                0 <= i < s0.len() - 1 ==> s2[i] == #[trigger] s0[i]);
                            assert(s2[s2.len() - 1] == c1);
                            assert forall|i: int| 0 <= i < s2.len() implies (#[trigger] s2[i]).wf(
                                self.adj,
                                self.visited@,
                            ) by {
                                if i == s2.len() - 1 {
                                    assert(c0.wf(self.adj, v0));
                                    assert(c1.edges@[p0] == n);
                                    assert(self.visited@.contains(n));
                                }
                            }
                            assert forall|m: N|
                                #[trigger] self.visited@.contains(m) && !stack_holds(s2, m)
                                implies fully_scanned(self.adj, self.visited@, m) by {
                                if stack_holds(s0, m) {
                                    let i = choose|i: int|
                                        0 <= i < s0.len() && (#[trigger] s0[i]).node@ == m;
                                    if i < s0.len() - 1 {
                                        assert(s2[i].node@ == m);
                                    } else {
                                        assert(s2[s2.len() - 1].node@ == m);
                                    }
                                }
                            }
                            // one successor entry was consumed: the measure shrinks
                            assert(s2.drop_last() =~= s0.drop_last());
                            assert(pending(s0) == pending(s0.drop_last()) + c0.remaining());
                            assert(pending(s2) == pending(s2.drop_last()) + c1.remaining());
                            assert(c1.remaining() < c0.remaining());
                            // the skipped successor was visited: the node the
                            // state determines is unchanged
                            assert(v0.contains(c0.edges@[p0]));
                            assert(first_fresh(c0.edges@, p0, v0) == first_fresh(
                                c0.edges@,
                                p0 + 1,
                                v0,
                            ));
                            assert(c1.edges@ == c0.edges@ && c1.pos as int == p0 + 1);
                            assert(stack_first_fresh(s2, v0) == stack_first_fresh(s0, v0));
                            assert(self.scan_next() == sn0);
                            // the stepped stack is unchanged by the skip
                            let fr0 = frames_of(s0);
                            let fr2 = frames_of(s2);
                            assert(fr0.last() == (c0.node@, c0.edges@, p0));
                            assert(fr2 =~= fr0.update(
                                fr0.len() - 1,
                                (c0.node@, c0.edges@, p0 + 1),
                            ));
                            assert(first_fresh_at(c0.edges@, p0, v0) == first_fresh_at(
                                c0.edges@,
                                p0 + 1,
                                v0,
                            ));
                            if first_fresh_at(c0.edges@, p0 + 1, v0) is Some {
                                assert(live_frames(fr0, v0) == fr0);
                                assert(live_frames(fr2, v0) == fr2);
                                assert(stepped_frames(fr2, v0) =~= stepped_frames(fr0, v0));
                            } else {
                                assert(live_frames(fr0, v0) == live_frames(fr0.drop_last(), v0));
                                assert(live_frames(fr2, v0) == live_frames(fr2.drop_last(), v0));
                                assert(fr0.drop_last() =~= fr2.drop_last());
                                assert(stepped_frames(fr2, v0) == stepped_frames(fr0, v0));
                            }
                        }
                    }
                } else {
                    proof {
                        let s2 = self.stack@;
                        assert(s2 == s0.drop_last());
                        c0.lemma_exhausted_is_scanned(self.adj, v0);
                        assert forall|m: N|
                            #[trigger] v0.contains(m) && !stack_holds(s2, m) implies
                            fully_scanned(self.adj, v0, m) by {
                            if m != c0.node@ {
                                if stack_holds(s0, m) {
                                    let i = choose|i: int|
                                        0 <= i < s0.len() && (#[trigger] s0[i]).node@ == m;
                                    assert(i < s0.len() - 1);
                                    assert(s2[i].node@ == m);
                                }
                            }
                        }
                        assert(forall|i: int|
                            0 <= i < s2.len() ==> s2[i] == #[trigger] s0[i]);
                        // the exhausted frame carried no pending work
                        assert(c0.remaining() == 0);
                        assert(pending(s0) == pending(s0.drop_last()) + c0.remaining());
                        // an exhausted cursor yields nothing: the node the
                        // state determines is unchanged
                        assert(first_fresh(c0.edges@, c0.pos as int, v0) == None::<N>);
                        assert(stack_first_fresh(s0, v0) == stack_first_fresh(s2, v0));
                        assert(self.scan_next() == sn0);
                        // the stepped stack is unchanged by the pop
                        let fr0 = frames_of(s0);
                        let fr2 = frames_of(s2);
                        assert(fr0.last() == (c0.node@, c0.edges@, c0.pos as int));
                        assert(first_fresh_at(c0.edges@, c0.pos as int, v0) == None::<int>);
                        assert(fr0.drop_last() =~= fr2);
                        assert(live_frames(fr0, v0) == live_frames(fr0.drop_last(), v0));
                        assert(stepped_frames(fr2, v0) == stepped_frames(fr0, v0));
                    }
                }
            } else {
                if self.root_pos < self.roots.len() {
                    let n = self.roots[self.root_pos];
                    let ghost rp0 = self.root_pos as int;
                    self.root_pos = self.root_pos + 1;
                    if self.visited.insert(n) {
                        proof {
                            assert(call_requires(self.adj, (n,)));
                        }
                        let new_edges = (self.adj)(n);
                        self.stack.push(Cursor { node: Ghost(n), edges: new_edges, pos: 0 });
                        self.emitted = Ghost(self.emitted@.push(n));
                        proof {
                            let s2 = self.stack@;
                            let v2 = self.visited@;
                            assert(v2 == v0.insert(n) && !v0.contains(n));
                            assert(!e0.contains(n));
                            lemma_push_no_duplicates(e0, n);
                            lemma_push_contains(e0, n);
                            assert(s2.len() == 1 && s2[0].node@ == n);
                            assert forall|m: N|
                                #[trigger] v2.contains(m) && !stack_holds(s2, m) implies
                                fully_scanned(self.adj, v2, m) by {
                                if m != n {
                                    lemma_scanned_monotone(self.adj, v0, v2, m);
                                }
                            }
                            assert(self.roots@[rp0] == n);
                            assert(self.roots@.contains(n));
                            assert(self.roots@.to_set().contains(n));
                            lemma_reaches_member(self.adj, self.roots@.to_set(), n);
                            assert forall|m: N| #[trigger] v2.contains(m) implies reaches(
                                self.adj,
                                self.roots@.to_set(),
                                m,
                            ) by {}
                            // the produced node is the one the state determines
                            assert(s0.len() == 0);
                            assert(stack_first_fresh(s0, v0) == None::<N>);
                            assert(first_fresh(self.roots@, rp0, v0) == Some(n));
                            assert(sn0 == Some(n));
                            // the new stack is the fresh root's cursor alone
                            assert(first_fresh_at(self.roots@, rp0, v0) == Some(rp0));
                            let vwit = s2.last().edges;
                            assert(s2.last().wf(self.adj, v2));
                            assert(call_ensures(old(self).adj_fn(), (n,), vwit));
                            assert(frames_of(s2) =~= seq![(n, vwit@, 0int)]);
                            assert(old(self).frames_step(*self, n));
                        }
                        return Some(n);
                    } else {
                        proof {
                            assert(self.visited@ =~= v0);
                            assert(self.visited@.contains(self.roots@[rp0]));
                            // the skipped root was visited: the node the
                            // state determines is unchanged
                            assert(stack_first_fresh(s0, v0) == None::<N>);
                            assert(first_fresh(self.roots@, rp0, v0) == first_fresh(
                                self.roots@,
                                rp0 + 1,
                                v0,
                            ));
                            assert(first_fresh_at(self.roots@, rp0, v0) == first_fresh_at(
                                self.roots@,
                                rp0 + 1,
                                v0,
                            ));
                            assert(self.scan_next() == sn0);
                        }
                    }
                } else {
                    proof {
                        assert(stack_first_fresh(self.stack@, self.visited@) == None::<N>);
                        assert(first_fresh(self.roots@, self.root_pos as int, self.visited@)
                            == None::<N>);
                        assert(sn0 == None::<N>);
                    }
                    return None;
                }
            }
        }
    }
}

/// The done state, in terms of the visible model: no cursor is pending
/// and every root has been consumed.  In that state `spec_next` is
/// `None`, so exhaustion is stable: every later call produces `None` too.
pub proof fn lemma_depth_first_done<N, F>(it: DepthFirstIter<N, F>) where
    N: Copy + Eq + Hash,
    F: Fn(N) -> Vec<N>,

    ensures
        it.done() <==> (it.frames().len() == 0 && it.consumed_roots() == it.roots_seq().len()),
        it.done() ==> it.spec_next() == None::<N>,
{
    assert(it.frames().len() == it.stack@.len());
}

/// Determinism: which node a depth-first traversal produces next is a
/// function of its state alone.  Two traversals over the same roots that
/// have made the same progress — same consumed roots, same discovered
/// set, same pending cursors — will produce the same node next, whatever
/// their adjacency functions do.  The contract of
/// [`DepthFirstIter::next`] pins both the node actually produced
/// ([`DepthFirstIter::spec_next`]) and how the state then moves
/// ([`DepthFirstIter::frames_step`]), so when the adjacency contract
/// fixes one successor vector per node, two runs over the same roots
/// stay in equal states and produce identical output sequences.
pub proof fn lemma_depth_first_deterministic<N, F, G>(
    a: DepthFirstIter<N, F>,
    b: DepthFirstIter<N, G>,
) where
    N: Copy + Eq + Hash,
    F: Fn(N) -> Vec<N>,
    G: Fn(N) -> Vec<N>,

    requires
        a.roots_seq() == b.roots_seq(),
        a.consumed_roots() == b.consumed_roots(),
        a.discovered() == b.discovered(),
        a.frames() == b.frames(),
    ensures
        a.spec_next() == b.spec_next(),
{
}

/// Lockstep: the induction step of whole-run determinism.  Take two
/// traversals over the same roots whose adjacency contracts pin the same
/// successor vectors, in equal states and with equal output so far, and
/// feed in what [`DepthFirstIter::next`] guarantees for one call of
/// each: the two calls produce the same node and leave the two states
/// equal again.  Applied call by call, two such runs produce identical
/// output sequences and reach exhaustion at the same call.
pub proof fn lemma_depth_first_lockstep<N, F, G>(
    pre_a: DepthFirstIter<N, F>,
    post_a: DepthFirstIter<N, F>,
    ra: Option<N>,
    pre_b: DepthFirstIter<N, G>,
    post_b: DepthFirstIter<N, G>,
    rb: Option<N>,
) where
    N: Copy + Eq + Hash,
    F: Fn(N) -> Vec<N>,
    G: Fn(N) -> Vec<N>,

    requires
        forall|x: N, v1: Vec<N>, v2: Vec<N>|
            #[trigger] call_ensures(pre_a.adj_fn(), (x,), v1) && #[trigger] call_ensures(
                pre_b.adj_fn(),
                (x,),
                v2,
            ) ==> v1@ == v2@,
        pre_a.roots_seq() == pre_b.roots_seq(),
        pre_a.consumed_roots() == pre_b.consumed_roots(),
        pre_a.discovered() == pre_b.discovered(),
        pre_a.frames() == pre_b.frames(),
        pre_a.emitted() == pre_b.emitted(),
        ra == pre_a.spec_next(),
        rb == pre_b.spec_next(),
        post_a.roots_seq() == pre_a.roots_seq(),
        post_b.roots_seq() == pre_b.roots_seq(),
        (ra matches Some(n) ==> post_a.emitted() == pre_a.emitted().push(n)
            && post_a.discovered() == pre_a.discovered().insert(n) && pre_a.frames_step(
            post_a,
            n,
        )),
        (rb matches Some(n) ==> post_b.emitted() == pre_b.emitted().push(n)
            && post_b.discovered() == pre_b.discovered().insert(n) && pre_b.frames_step(
            post_b,
            n,
        )),
        (ra is None ==> post_a.emitted() == pre_a.emitted() && post_a.discovered()
            == pre_a.discovered() && post_a.done()),
        (rb is None ==> post_b.emitted() == pre_b.emitted() && post_b.discovered()
            == pre_b.discovered() && post_b.done()),
    ensures
        ra == rb,
        post_a.roots_seq() == post_b.roots_seq(),
        post_a.emitted() == post_b.emitted(),
        post_a.discovered() == post_b.discovered(),
        post_a.consumed_roots() == post_b.consumed_roots(),
        post_a.frames() == post_b.frames(),
{
    lemma_depth_first_deterministic(pre_a, pre_b);
    match ra {
        Some(n) => {
            if frames_first_fresh(pre_a.frames(), pre_a.discovered()) is Some {
                let va = choose|v: Vec<N>|
                    #[trigger] call_ensures(pre_a.adj_fn(), (n,), v) && post_a.frames()
                        == stepped_frames(pre_a.frames(), pre_a.discovered()).push(
                        (n, v@, 0int),
                    );
                let vb = choose|v: Vec<N>|
                    #[trigger] call_ensures(pre_b.adj_fn(), (n,), v) && post_b.frames()
                        == stepped_frames(pre_b.frames(), pre_b.discovered()).push(
                        (n, v@, 0int),
                    );
                assert(va@ == vb@);
            } else {
                let va = choose|v: Vec<N>|
                    #[trigger] call_ensures(pre_a.adj_fn(), (n,), v) && post_a.frames()
                        == seq![(n, v@, 0int)];
                let vb = choose|v: Vec<N>|
                    #[trigger] call_ensures(pre_b.adj_fn(), (n,), v) && post_b.frames()
                        == seq![(n, v@, 0int)];
                assert(va@ == vb@);
            }
        },
        None => {
            lemma_depth_first_done(post_a);
            lemma_depth_first_done(post_b);
            assert(post_a.frames() =~= post_b.frames());
        },
    }
}

/// Uniqueness: no node appears twice in a depth-first traversal's
/// output, however much of it has been consumed.
pub proof fn lemma_depth_first_unique<N, F>(it: DepthFirstIter<N, F>) where
    N: Copy + Eq + Hash,
    F: Fn(N) -> Vec<N>,

    requires
        it.wf(),
    ensures
        it.emitted().no_duplicates(),
{
}

/// Soundness: every node a depth-first traversal has produced, at any
/// point, is reachable from its roots.
pub proof fn lemma_depth_first_reachable<N, F>(it: DepthFirstIter<N, F>) where
    N: Copy + Eq + Hash,
    F: Fn(N) -> Vec<N>,

    requires
        it.wf(),
    ensures
        forall|n: N|
            #[trigger] it.emitted().contains(n) ==> reaches(
                it.adj_fn(),
                it.roots_seq().to_set(),
                n,
            ),
{
}

/// Reachability completeness: once a depth-first traversal is done, the
/// set of nodes it has produced is exactly the set of nodes reachable
/// from its roots, provided the adjacency function describes a fixed
/// edge relation.
pub proof fn lemma_depth_first_exact_reach<N, F>(it: DepthFirstIter<N, F>) where
    N: Copy + Eq + Hash,
    F: Fn(N) -> Vec<N>,

    requires
        it.wf(),
        it.done(),
        crate::reach::deterministic_edges(it.adj_fn()),
    ensures
        forall|n: N|
            #![trigger it.emitted().contains(n)]
            #![trigger reaches(it.adj_fn(), it.roots_seq().to_set(), n)]
            it.emitted().contains(n) <==> reaches(it.adj_fn(), it.roots_seq().to_set(), n),
{
    let f = it.adj_fn();
    let from = it.roots_seq().to_set();
    let s = it.visited@;
    assert forall|x: N| from.contains(x) implies s.contains(x) by {
        assert(it.roots@.contains(x));
        let j = choose|j: int| 0 <= j < it.roots@.len() && it.roots@[j] == x;
        assert(it.visited@.contains(it.roots@[j]));
    }
    assert forall|x: N| #[trigger] s.contains(x) implies fully_scanned(f, s, x) by {
        assert(!stack_holds(it.stack@, x));
    }
    assert forall|n: N|
        #![trigger it.emitted().contains(n)]
        #![trigger reaches(it.adj_fn(), it.roots_seq().to_set(), n)]
        it.emitted().contains(n) <==> reaches(f, from, n) by {
        if reaches(f, from, n) {
            crate::reach::lemma_reaches_in_scanned_set(f, from, s, n);
            assert(s.contains(n));
        }
    }
}

/// Constructs a pre-order depth-first traversal of the graph described by
/// `adj`, starting from the single root `root`.
///
/// Equivalent to [`depth_first_multi`] with a one-element root sequence.
pub fn depth_first<N, F>(root: N, adj: F) -> (it: DepthFirstIter<N, F>) where
    N: Copy + Eq + Hash,
    F: Fn(N) -> Vec<N>,

    requires
        forall|x: N| #[trigger] call_requires(adj, (x,)),
    ensures
        it.wf(),
        it.emitted() == Seq::<N>::empty(),
        it.roots_seq() == seq![root],
        it.adj_fn() == adj,
        it.frames() == Seq::<(N, Seq<N>, int)>::empty(),
        it.consumed_roots() == 0,
        it.discovered() == Set::<N>::empty(),
{
    let mut roots: Vec<N> = Vec::new();
    roots.push(root);
    proof {
        assert(roots@ =~= seq![root]);
    }
    depth_first_from_vec(roots, adj)
}

/// Constructs a pre-order depth-first traversal of the graph described by
/// `adj`, starting from the given roots, consumed lazily and in order.
///
/// The traversal keeps its own copy of the roots: the slice passed in is
/// only read, never consumed or changed, and stays fully usable by the
/// caller.  Roots need not be distinct or unvisited; a root already
/// visited when its turn comes is skipped.  An empty slice gives an
/// immediately exhausted traversal.
pub fn depth_first_multi<N, F>(roots: &[N], adj: F) -> (it: DepthFirstIter<N, F>) where
    N: Copy + Eq + Hash,
    F: Fn(N) -> Vec<N>,

    requires
        forall|x: N| #[trigger] call_requires(adj, (x,)),
    ensures
        it.wf(),
        it.emitted() == Seq::<N>::empty(),
        it.roots_seq() == roots@,
        it.adj_fn() == adj,
        it.frames() == Seq::<(N, Seq<N>, int)>::empty(),
        it.consumed_roots() == 0,
        it.discovered() == Set::<N>::empty(),
{
    depth_first_from_vec(vstd::slice::slice_to_vec(roots), adj)
}

/// The common constructor: fresh empty state over an owned root vector.
fn depth_first_from_vec<N, F>(roots: Vec<N>, adj: F) -> (it: DepthFirstIter<N, F>) where
    N: Copy + Eq + Hash,
    F: Fn(N) -> Vec<N>,

    requires
        forall|x: N| #[trigger] call_requires(adj, (x,)),
    ensures
        it.wf(),
        it.emitted() == Seq::<N>::empty(),
        it.roots_seq() == roots@,
        it.adj_fn() == adj,
        it.frames() == Seq::<(N, Seq<N>, int)>::empty(),
        it.consumed_roots() == 0,
        it.discovered() == Set::<N>::empty(),
{
    let it = DepthFirstIter {
        visited: HashSet::new(),
        adj,
        stack: Vec::new(),
        roots,
        root_pos: 0,
        emitted: Ghost(Seq::empty()),
    };
    proof {
        assert(it.frames() =~= Seq::<(N, Seq<N>, int)>::empty());
    }
    it
}

} // verus!
