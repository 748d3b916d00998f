//! An ordered map kept in a B-tree, with batch operations for sorted input.

pub mod batch;
pub mod cursor;
pub mod inorder;
pub mod insert;
pub mod laws;
pub mod lemmas;
pub mod map;
pub mod node;
pub mod order;
pub mod runs;
pub mod search;
pub mod stack;

pub use insert::AllocationFailure;
pub use map::BTreeMap;
