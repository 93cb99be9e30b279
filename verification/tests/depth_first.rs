use graph_walk::depth_first;
use graph_walk::depth_first_multi;
use graph_walk::DepthFirstIter;

fn drain<N, F>(mut walk: DepthFirstIter<N, F>) -> Vec<N>
where
    N: Copy + Eq + std::hash::Hash,
    F: Fn(N) -> Vec<N>,
{
    let mut out: Vec<N> = Vec::new();
    while let Some(n) = walk.next() {
        out.push(n);
    }
    out
}

#[test]
fn lists() {
    // Basic test, traverse a list
    let mut walk = depth_first(0, |a: i32| vec![a + 1]);
    let mut x: Vec<i32> = Vec::new();
    for _ in 0..10 {
        x.push(walk.next().unwrap());
    }
    assert_eq!(x, vec![0, 1, 2, 3, 4, 5, 6, 7, 8, 9]);

    // Test using references as the node type.
    let mut ref_walk = depth_first(&x[0], |r: &i32| vec![&x[*r as usize + 1]]);
    let mut y: Vec<&i32> = Vec::new();
    for _ in 0..9 {
        y.push(ref_walk.next().unwrap());
    }
    assert_eq!(y, vec![&0, &1, &2, &3, &4, &5, &6, &7, &8]);

    // Test no root nodes.
    let no_adj = |_: i32| vec![];
    let no_roots_at_all: [i32; 0] = [];
    let no_roots = drain(depth_first_multi(&no_roots_at_all, no_adj));
    assert_eq!(no_roots, vec![]);

    // Test no leaf nodes.
    let z = drain(depth_first_multi(&[0, 1, 2, 3, 4, 5], no_adj));
    assert_eq!(z, vec![0, 1, 2, 3, 4, 5]);

    // Demonstrate that the API does not consume root nodes.
    let roots = [0, 1, 2, 3, 4, 5];
    assert_eq!(drain(depth_first_multi(&roots, no_adj)), vec![0, 1, 2, 3, 4, 5]);
    std::mem::drop(roots);
}

#[test]
fn depth_first_graph() {
    let graph = vec![
        vec![0, 1, 2], // Clique of 3 nodes.
        vec![0, 1, 2],
        vec![0, 1, 2],
        vec![3, 4, 5], // Clique of 3 nodes.
        vec![3, 4, 5],
        vec![3, 4, 5],
        vec![7], // Cross ref 2 nodes together.
        vec![6],
        vec![1, 4], // Root #2.
        vec![7, 4], // Root #1.
    ];
    let adj = |idx: usize| graph[idx].clone();
    let walk = depth_first_multi(&[9, 8], adj);
    assert_eq!(drain(walk), [9, 7, 6, 4, 3, 5, 8, 1, 0, 2]);
}

#[derive(PartialEq, Eq, Hash)]
enum TreeNode {
    Leaf(i32),
    Branch(Vec<TreeNode>),
}

impl TreeNode {
    fn children(&self) -> Vec<&TreeNode> {
        match self {
            TreeNode::Leaf(_) => Vec::new(),
            TreeNode::Branch(x) => x.iter().collect(),
        }
    }
}

#[test]
fn tree_inplace() {
    let t = TreeNode::Branch(vec![
        TreeNode::Branch(vec![TreeNode::Leaf(0), TreeNode::Leaf(1)]),
        TreeNode::Branch(vec![TreeNode::Leaf(2), TreeNode::Leaf(3)]),
    ]);

    let flat: Vec<&TreeNode> = drain(depth_first(&t, TreeNode::children));
    assert_eq!(flat.len(), 7);
    assert!(match flat[2] {
        TreeNode::Leaf(0) => true,
        _ => false,
    });
    assert!(match flat[6] {
        TreeNode::Leaf(3) => true,
        _ => false,
    });
}
