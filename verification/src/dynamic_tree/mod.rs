//! Dynamic forests: link-cut trees, Euler-tour trees and top trees over arenas of nodes.

pub mod policy;
pub mod traits;
pub mod lct;
pub mod lct_subtree;
pub mod ett;
pub mod top_tree;

pub use lct::LinkCutTree;
pub use lct_subtree::LinkCutTreeSubtree;
pub use ett::EulerTourTree;
pub use top_tree::TopTree;
pub use traits::{ComponentOps, DynamicForest, PathOps, SubtreeOps, VertexOps};
