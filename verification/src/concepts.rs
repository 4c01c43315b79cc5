//! The taxonomy of concepts: the tree, its text notation, and the tree
//! together with its change flag.

pub mod io;
pub mod round_trip;
pub mod tree;
pub mod tree_io;
pub mod types;
