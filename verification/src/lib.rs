//! Lazy, non-recursive graph traversals over implicit graphs.
//!
//! A graph is never materialized here: the caller describes it by an
//! adjacency function from a node to the vector of its direct successors.
//! Two traversal engines walk such a graph with heap-allocated explicit
//! stacks instead of call-stack recursion, producing one node per request:
//!
//! - [`DepthFirstIter`] yields each reachable node exactly once, in
//!   pre-order: a node is produced at the moment of first discovery.
//! - [`TopologicalIter`] yields each reachable node exactly once, in
//!   post-order: a node is produced only after all of its first-discovered
//!   descendants have been produced.
//!
//! Both tolerate cyclic graphs (a per-traversal visited set bounds every
//! node to a single expansion) and infinite graphs (work is performed
//! strictly on demand, so a caller may stop requesting output at any time).

mod cursor;
mod depth_first;
mod reach;
mod topological_sort;

pub use depth_first::depth_first;
pub use depth_first::first_fresh;
pub use depth_first::first_fresh_at;
pub use depth_first::frames_first_fresh;
pub use depth_first::live_frames;
pub use depth_first::stepped_frames;
pub use depth_first::depth_first_multi;
pub use depth_first::lemma_depth_first_deterministic;
pub use depth_first::lemma_depth_first_done;
pub use depth_first::lemma_depth_first_exact_reach;
pub use depth_first::lemma_depth_first_lockstep;
pub use depth_first::lemma_depth_first_reachable;
pub use depth_first::lemma_depth_first_unique;
pub use depth_first::lemma_first_fresh_at;
pub use depth_first::DepthFirstIter;
pub use reach::closed_under_edges;
pub use reach::deterministic_edges;
pub use reach::edge;
pub use reach::fully_scanned;
pub use reach::is_walk;
pub use reach::lemma_reach_set_finite;
pub use reach::lemma_reaches_member;
pub use reach::lemma_reaches_step;
pub use reach::reach_set;
pub use reach::reaches;
pub use topological_sort::lemma_topological_exact_reach;
pub use topological_sort::lemma_topological_partition;
pub use topological_sort::lemma_topological_reachable;
pub use topological_sort::lemma_topological_unique;
pub use topological_sort::topological_sort;
pub use topological_sort::TopologicalIter;
