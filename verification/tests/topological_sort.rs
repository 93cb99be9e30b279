use graph_walk::topological_sort;
use graph_walk::TopologicalIter;

fn drain<N, F>(mut walk: TopologicalIter<N, F>) -> Vec<N>
where
    N: Copy + Eq + std::hash::Hash,
    F: Fn(N) -> Vec<N>,
{
    let mut out: Vec<N> = Vec::new();
    while let Some(n) = walk.next() {
        out.push(n);
    }
    out
}

#[test]
fn topological_sort_graph() {
    let graph = vec![
        /* 0 */ vec![],
        /* 1 */ vec![0],
        /* 2 */ vec![1, 0],
        /* 3 */ vec![],
        /* 4 */ vec![3],
        /* 5 */ vec![3, 4],
        /* 6 */ vec![],
        /* 7 */ vec![6],
        /* 8 */ vec![2, 5],
        /* 9 */ vec![7, 5],
    ];
    let adj = |idx: usize| graph[idx].clone();
    let walk = topological_sort(&[9, 3, 4, 5, 8, 0, 1, 2, 3, 4], adj);
    assert_eq!(drain(walk), [6, 7, 3, 4, 5, 9, 0, 1, 2, 8]);
}

#[test]
fn empty() {
    let no_adj = |_: i32| vec![];
    // Test no root nodes.
    let no_roots_at_all: [i32; 0] = [];
    assert_eq!(drain(topological_sort(&no_roots_at_all, no_adj)), []);
    // Test no leaf nodes.
    assert_eq!(drain(topological_sort(&[1, 1, 2, 2, 3, 3], no_adj)), [1, 2, 3]);
}

#[test]
fn cycle() {
    // Test that cyclic graphs do not hang forever or allocate infinite memory.
    // The results are just non-sensical.
    let toggle = |b: bool| vec![!b];
    assert_eq!(drain(topological_sort(&[false], toggle)), [true, false]);
}
