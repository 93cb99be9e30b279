//! The reachability model that both traversals are specified against.
//!
//! A graph is given implicitly by an adjacency function `f` from a node to
//! the vector of its direct successors.  At the specification level the
//! only thing known about `f` is its contract, `call_ensures`, so an edge
//! `a -> b` is defined to exist whenever some vector that the contract
//! admits for `f(a)` contains `b`, and reachability is the existence of a
//! walk along such edges.

use vstd::prelude::*;

verus! {

/// An edge `a -> b` of the implicit graph described by the adjacency
/// function `f`: some successor vector that `f`'s contract admits for `a`
/// contains `b`.
pub open spec fn edge<N, F: Fn(N) -> Vec<N>>(f: F, a: N, b: N) -> bool {
    exists|v: Vec<N>| #[trigger] call_ensures(f, (a,), v) && v@.contains(b)
}

/// A walk through the graph of `f`: `p` starts at a node of `from` and
/// each consecutive pair of its nodes is an edge.
pub open spec fn is_walk<N, F: Fn(N) -> Vec<N>>(f: F, from: Set<N>, p: Seq<N>) -> bool {
    &&& p.len() > 0
    &&& from.contains(p[0])
    &&& forall|i: int| 0 <= i < p.len() - 1 ==> edge(f, #[trigger] p[i], p[i + 1])
}

/// The node `n` is reachable from the set `from` in the graph of `f`.
pub open spec fn reaches<N, F: Fn(N) -> Vec<N>>(f: F, from: Set<N>, n: N) -> bool {
    exists|p: Seq<N>| #[trigger] is_walk(f, from, p) && p.last() == n
}

/// The contract of `f` admits at most one successor sequence per node, so
/// the implicit graph is a fixed edge relation.  A pure adjacency function
/// whose contract pins its result down satisfies this.
pub open spec fn deterministic_edges<N, F: Fn(N) -> Vec<N>>(f: F) -> bool {
    forall|a: N, v1: Vec<N>, v2: Vec<N>|
        #[trigger] call_ensures(f, (a,), v1) && #[trigger] call_ensures(f, (a,), v2)
            ==> v1@ == v2@
}

/// The node `n` has been expanded against the set `s`: some successor
/// vector that `f`'s contract admits for `n` lies entirely inside `s`.
pub open spec fn fully_scanned<N, F: Fn(N) -> Vec<N>>(f: F, s: Set<N>, n: N) -> bool {
    exists|v: Vec<N>|
        #[trigger] call_ensures(f, (n,), v)
            && forall|j: int| 0 <= j < v@.len() ==> s.contains(#[trigger] v@[j])
}

/// Everything reachable from the set `from` in the graph of `f`.
pub open spec fn reach_set<N, F: Fn(N) -> Vec<N>>(f: F, from: Set<N>) -> Set<N> {
    Set::new(|n: N| reaches(f, from, n))
}

/// The set `s` is closed under the edges of `f`: following any edge from
/// a member of `s` stays inside `s`.
pub open spec fn closed_under_edges<N, F: Fn(N) -> Vec<N>>(f: F, s: Set<N>) -> bool {
    forall|a: N, b: N| s.contains(a) && #[trigger] edge(f, a, b) ==> s.contains(b)
}

/// A node of `from` is reachable from `from` by the one-node walk.
pub proof fn lemma_reaches_member<N, F: Fn(N) -> Vec<N>>(f: F, from: Set<N>, n: N)
    requires
        from.contains(n),
    ensures
        reaches(f, from, n),
{
    let p = seq![n];
    assert(is_walk(f, from, p) && p.last() == n);
}

/// Reachability is closed under following one more edge.
pub proof fn lemma_reaches_step<N, F: Fn(N) -> Vec<N>>(f: F, from: Set<N>, a: N, b: N)
    requires
        reaches(f, from, a),
        edge(f, a, b),
    ensures
        reaches(f, from, b),
{
    let p = choose|p: Seq<N>| #[trigger] is_walk(f, from, p) && p.last() == a;
    let q = p.push(b);
    assert(q[0] == p[0]);
    assert forall|i: int| 0 <= i < q.len() - 1 implies edge(f, #[trigger] q[i], q[i + 1]) by {
        if i < p.len() - 1 {
            assert(q[i] == p[i] && q[i + 1] == p[i + 1]);
        } else {
            assert(q[i] == p.last() && q[i + 1] == b);
        }
    }
    assert(is_walk(f, from, q) && q.last() == b);
}

/// When `f` has a fixed edge relation, a node expanded against `s` has all
/// of its successors inside `s`.
pub proof fn lemma_scanned_covers_edges<N, F: Fn(N) -> Vec<N>>(f: F, s: Set<N>, a: N, b: N)
    requires
        deterministic_edges(f),
        fully_scanned(f, s, a),
        edge(f, a, b),
    ensures
        s.contains(b),
{
    let v1 = choose|v: Vec<N>|
        #[trigger] call_ensures(f, (a,), v)
            && forall|j: int| 0 <= j < v@.len() ==> s.contains(#[trigger] v@[j]);
    let v2 = choose|v: Vec<N>| #[trigger] call_ensures(f, (a,), v) && v@.contains(b);
    assert(v1@ == v2@);
    let j = choose|j: int| 0 <= j < v2@.len() && v2@[j] == b;
    assert(s.contains(v1@[j]));
}

/// Every node of a walk that starts inside `s` stays inside `s`, provided
/// every member of `s` has been expanded against `s` and `f` has a fixed
/// edge relation.
proof fn lemma_walk_stays_in_scanned<N, F: Fn(N) -> Vec<N>>(
    f: F,
    from: Set<N>,
    s: Set<N>,
    p: Seq<N>,
    i: int,
)
    requires
        deterministic_edges(f),
        from.subset_of(s),
        forall|n: N| #[trigger] s.contains(n) ==> fully_scanned(f, s, n),
        is_walk(f, from, p),
        0 <= i < p.len(),
    ensures
        s.contains(p[i]),
    decreases i,
{
    if i == 0 {
        assert(from.contains(p[0]));
    } else {
        lemma_walk_stays_in_scanned(f, from, s, p, i - 1);
        assert(edge(f, p[i - 1], p[i]));
        lemma_scanned_covers_edges(f, s, p[i - 1], p[i]);
    }
}

/// A set that contains the starting nodes and has every member expanded
/// against it contains everything reachable from those starting nodes,
/// provided `f` has a fixed edge relation.
pub proof fn lemma_reaches_in_scanned_set<N, F: Fn(N) -> Vec<N>>(
    f: F,
    from: Set<N>,
    s: Set<N>,
    n: N,
)
    requires
        deterministic_edges(f),
        from.subset_of(s),
        forall|x: N| #[trigger] s.contains(x) ==> fully_scanned(f, s, x),
        reaches(f, from, n),
    ensures
        s.contains(n),
{
    let p = choose|p: Seq<N>| #[trigger] is_walk(f, from, p) && p.last() == n;
    lemma_walk_stays_in_scanned(f, from, s, p, p.len() - 1);
}

/// Every node of a walk that starts inside a set closed under edges
/// stays inside that set.
proof fn lemma_walk_stays_in_closed<N, F: Fn(N) -> Vec<N>>(
    f: F,
    from: Set<N>,
    s: Set<N>,
    p: Seq<N>,
    i: int,
)
    requires
        from.subset_of(s),
        closed_under_edges(f, s),
        is_walk(f, from, p),
        0 <= i < p.len(),
    ensures
        s.contains(p[i]),
    decreases i,
{
    if i == 0 {
        assert(from.contains(p[0]));
    } else {
        lemma_walk_stays_in_closed(f, from, s, p, i - 1);
        assert(edge(f, p[i - 1], p[i]));
    }
}

/// A finite set that contains the starting nodes and is closed under
/// edges bounds the reachable set, which is then finite too.  This is
/// how a caller of a post-order traversal discharges its finiteness
/// condition: name the nodes the graph can reach and show the adjacency
/// function stays among them.
pub proof fn lemma_reach_set_finite<N, F: Fn(N) -> Vec<N>>(f: F, from: Set<N>, s: Set<N>)
    requires
        from.subset_of(s),
        closed_under_edges(f, s),
        s.finite(),
    ensures
        reach_set(f, from).subset_of(s),
        reach_set(f, from).finite(),
{
    assert forall|n: N| #[trigger] reach_set(f, from).contains(n) implies s.contains(n) by {
        let p = choose|p: Seq<N>| #[trigger] is_walk(f, from, p) && p.last() == n;
        lemma_walk_stays_in_closed(f, from, s, p, p.len() - 1);
    }
    vstd::set_lib::lemma_set_subset_finite(s, reach_set(f, from));
}

/// Every node of a chain whose consecutive nodes are edges reaches the
/// chain's last node.
pub(crate) proof fn lemma_chain_reaches<N, F: Fn(N) -> Vec<N>>(f: F, p: Seq<N>, i: int)
    requires
        forall|k: int| 0 <= k < p.len() - 1 ==> edge(f, #[trigger] p[k], p[k + 1]),
        0 <= i < p.len(),
    ensures
        reaches(f, Set::empty().insert(p[i]), p.last()),
{
    let q = p.subrange(i, p.len() as int);
    assert(q[0] == p[i]);
    assert forall|k: int| 0 <= k < q.len() - 1 implies edge(f, #[trigger] q[k], q[k + 1]) by {
        assert(q[k] == p[i + k] && q[k + 1] == p[i + k + 1]);
    }
    assert(is_walk(f, Set::empty().insert(p[i]), q));
    assert(q.last() == p.last());
}

/// Being expanded is preserved when the surrounding set grows.
pub(crate) proof fn lemma_scanned_monotone<N, F: Fn(N) -> Vec<N>>(
    f: F,
    s1: Set<N>,
    s2: Set<N>,
    n: N,
)
    requires
        fully_scanned(f, s1, n),
        s1.subset_of(s2),
    ensures
        fully_scanned(f, s2, n),
{
    let v = choose|v: Vec<N>|
        #[trigger] call_ensures(f, (n,), v)
            && forall|j: int| 0 <= j < v@.len() ==> s1.contains(#[trigger] v@[j]);
    assert(forall|j: int| 0 <= j < v@.len() ==> s2.contains(#[trigger] v@[j]));
}

/// Appending a fresh element keeps a sequence free of duplicates.
pub(crate) proof fn lemma_push_no_duplicates<A>(s: Seq<A>, a: A)
    requires
        s.no_duplicates(),
        !s.contains(a),
    ensures
        s.push(a).no_duplicates(),
{
    let t = s.push(a);
    assert forall|i: int, j: int|
        0 <= i < t.len() && 0 <= j < t.len() && i != j implies t[i] != t[j] by {
        if i < s.len() && j < s.len() {
            assert(t[i] == s[i] && t[j] == s[j]);
        } else if i < s.len() {
            assert(t[j] == a && t[i] == s[i]);
            assert(s.contains(s[i]));
        } else {
            assert(t[i] == a && t[j] == s[j]);
            assert(s.contains(s[j]));
        }
    }
}

/// Dropping the last element of a duplicate-free sequence removes exactly
/// that element from what it contains.
pub(crate) proof fn lemma_drop_last_contains<A>(s: Seq<A>)
    requires
        s.len() > 0,
        s.no_duplicates(),
    ensures
        s.drop_last().no_duplicates(),
        forall|x: A| #[trigger] s.drop_last().contains(x) <==> s.contains(x) && x != s.last(),
{
    let t = s.drop_last();
    assert forall|x: A| #[trigger] t.contains(x) <==> s.contains(x) && x != s.last() by {
        if t.contains(x) {
            let i = choose|i: int| 0 <= i < t.len() && t[i] == x;
            assert(s[i] == x);
            assert(s[i] != s[s.len() - 1]);
        }
        if s.contains(x) && x != s.last() {
            let i = choose|i: int| 0 <= i < s.len() && s[i] == x;
            assert(i < s.len() - 1);
            assert(t[i] == x);
        }
    }
}

/// What `s.push(a)` contains: the members of `s`, and `a`.
pub(crate) proof fn lemma_push_contains<A>(s: Seq<A>, a: A)
    ensures
        forall|x: A| #[trigger] s.push(a).contains(x) <==> s.contains(x) || x == a,
{
    assert forall|x: A| #[trigger] s.push(a).contains(x) <==> s.contains(x) || x == a by {
        let t = s.push(a);
        if t.contains(x) {
            let i = choose|i: int| 0 <= i < t.len() && t[i] == x;
            if i < s.len() {
                assert(s[i] == x);
            }
        }
        if s.contains(x) {
            let i = choose|i: int| 0 <= i < s.len() && s[i] == x;
            assert(t[i] == x);
        }
        assert(t[s.len() as int] == a);
    }
}

} // verus!
