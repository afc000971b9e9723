pub mod graph;
pub mod traversal;
pub mod rooted_tree;
pub mod segment_tree;
pub mod segment_tree_bumped;
pub mod sum_node;

pub use graph::{Graph, GraphCategoryBits, GraphError};
pub use rooted_tree::TreeNode;
pub use segment_tree::{SegmentTree, SegmentTreeState};
pub use segment_tree_bumped::SegmentTreeBmp;
pub use sum_node::SumNode;
