//! Context compression for source files: given the syntax tree of a file and
//! the lines a caller is interested in, select the lines worth showing and
//! render them, with markers where lines were left out.

pub mod context;
pub mod gaps;
pub mod laws;
pub mod listing;
pub mod model;
pub mod order;
pub mod render;
pub mod selector;
mod sets;
pub mod syntax_tree;
pub mod text;

pub use crate::context::TreeContext;
pub use crate::syntax_tree::{Node, Tree, TreeCursor};
