use graph_walk::depth_first;
use graph_walk::depth_first_multi;
use graph_walk::topological_sort;
use graph_walk::DepthFirstIter;
use graph_walk::TopologicalIter;

fn drain_depth_first<N, F>(mut walk: DepthFirstIter<N, F>) -> Vec<N>
where
    N: Copy + Eq + std::hash::Hash,
    F: Fn(N) -> Vec<N>,
{
    let mut out: Vec<N> = Vec::new();
    while let Some(n) = walk.next() {
        out.push(n);
    }
    out
}

fn drain_topological<N, F>(mut walk: TopologicalIter<N, F>) -> Vec<N>
where
    N: Copy + Eq + std::hash::Hash,
    F: Fn(N) -> Vec<N>,
{
    let mut out: Vec<N> = Vec::new();
    while let Some(n) = walk.next() {
        out.push(n);
    }
    out
}

// A diamond: two paths lead to node 3, which must come out once only.
fn diamond(n: u32) -> Vec<u32> {
    match n {
        0 => vec![1, 2],
        1 => vec![3],
        2 => vec![3],
        _ => vec![],
    }
}

#[test]
fn unique_output_on_diamond() {
    let pre = drain_depth_first(depth_first(0, diamond));
    assert_eq!(pre, vec![0, 1, 3, 2]);
    let post = drain_topological(topological_sort(&[0], diamond));
    assert_eq!(post, vec![3, 1, 2, 0]);
}

#[test]
fn same_run_twice_is_identical() {
    let graph = vec![vec![1, 2], vec![2, 0], vec![], vec![2, 4], vec![3]];
    let adj = |idx: usize| graph[idx].clone();
    let first = drain_depth_first(depth_first_multi(&[0, 3], adj));
    let second = drain_depth_first(depth_first_multi(&[0, 3], adj));
    assert_eq!(first, second);
    let first_post = drain_topological(topological_sort(&[0, 3], adj));
    let second_post = drain_topological(topological_sort(&[0, 3], adj));
    assert_eq!(first_post, second_post);
}

#[test]
fn roots_stay_usable_after_partial_consumption() {
    let roots = vec![10, 20, 30, 40];
    let no_adj = |_: i32| vec![];
    let mut walk = depth_first_multi(&roots, no_adj);
    assert_eq!(walk.next(), Some(10));
    assert_eq!(walk.next(), Some(20));
    // The caller's collection is untouched however far the walk went.
    assert_eq!(roots, vec![10, 20, 30, 40]);
    let again = drain_topological(topological_sort(&roots, no_adj));
    assert_eq!(again, vec![10, 20, 30, 40]);
    assert_eq!(roots, vec![10, 20, 30, 40]);
}

#[test]
fn self_loop_is_skipped() {
    let selfish = |n: u8| vec![n];
    assert_eq!(drain_depth_first(depth_first(7, selfish)), vec![7]);
    assert_eq!(drain_topological(topological_sort(&[7], selfish)), vec![7]);
}

#[test]
fn visited_roots_are_skipped_not_fatal() {
    let no_adj = |_: i32| vec![];
    // A root seen twice is dropped, and later roots are still consumed.
    assert_eq!(drain_depth_first(depth_first_multi(&[1, 1, 2], no_adj)), vec![1, 2]);
    // A root already reached through an earlier root is dropped too.
    let chain = |n: i32| if n < 2 { vec![n + 1] } else { vec![] };
    assert_eq!(drain_depth_first(depth_first_multi(&[0, 1, 5], chain)), vec![0, 1, 2, 5]);
}

#[test]
fn only_reachable_nodes_come_out() {
    let graph = vec![vec![1], vec![], vec![3], vec![]];
    let adj = |idx: usize| graph[idx].clone();
    assert_eq!(drain_depth_first(depth_first_multi(&[0], adj)), vec![0, 1]);
    assert_eq!(drain_topological(topological_sort(&[0], adj)), vec![1, 0]);
}

#[test]
fn infinite_chain_is_walked_lazily() {
    // Only what the caller asks for is computed, so an unbounded graph
    // costs nothing beyond the ten requested nodes.
    let mut walk = depth_first(0u64, |n: u64| vec![n + 1]);
    let mut taken: Vec<u64> = Vec::new();
    for _ in 0..10 {
        taken.push(walk.next().unwrap());
    }
    assert_eq!(taken, vec![0, 1, 2, 3, 4, 5, 6, 7, 8, 9]);
}

#[test]
fn topological_chain_reverses() {
    let chain = |n: u16| if n < 2 { vec![n + 1] } else { vec![] };
    assert_eq!(drain_topological(topological_sort(&[0], chain)), vec![2, 1, 0]);
}

#[test]
fn visited_tracks_produced_nodes() {
    let chain = |n: i32| if n < 2 { vec![n + 1] } else { vec![] };
    let mut walk = depth_first(0, chain);
    assert!(!walk.visited_contains(0));
    assert_eq!(walk.next(), Some(0));
    assert!(walk.visited_contains(0));
    assert!(!walk.visited_contains(1));
    assert_eq!(walk.next(), Some(1));
    assert!(walk.visited_contains(1));
    assert!(!walk.visited_contains(7));
}

#[test]
fn exhaustion_is_stable() {
    let no_adj = |_: i32| vec![];
    let mut walk = depth_first_multi(&[5], no_adj);
    assert_eq!(walk.next(), Some(5));
    assert_eq!(walk.next(), None);
    assert_eq!(walk.next(), None);
    let mut post = topological_sort(&[5], no_adj);
    assert_eq!(post.next(), Some(5));
    assert_eq!(post.next(), None);
    assert_eq!(post.next(), None);
}
