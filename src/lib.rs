//! A link-cut tree over an arena of nodes addressed by index.
//!
//! Each node belongs to one splay tree (a preferred path of the real forest);
//! splay trees are joined by light edges, which only the child records.
use vstd::prelude::*;

pub mod node;
pub mod tree;
pub mod lemmas;

pub use node::LCTNode;
pub use tree::{LinkCutTree, LinkError, CutError};
