//! A red-black tree over `i32` keys.
//!
//! Every child is owned by its parent, and an absent child counts as a
//! black leaf. The fixups that restore the colour invariants after an
//! insertion or a deletion run bottom-up, one level per return of the
//! recursive descent.
pub mod node;
pub mod insert;
pub mod delete;
pub mod laws;

pub use node::{Color, Node, RedBlackTree};
