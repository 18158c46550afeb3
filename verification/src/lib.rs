//! Arena-backed binary trees with verified queries.
//!
//! A tree owns all of its nodes in one growable arena; a node refers to its
//! children by index. The tree is built once, by attaching nodes under
//! existing ones, and then queried: the sum of all keys, whether the key set
//! read as a binary search tree passes the ordering check, and the maximum
//! key sum along a path joining two nodes of degree one.

pub mod generic;
pub mod laws;
mod lemmas;
pub mod model;
pub mod paths;
pub mod tree;
