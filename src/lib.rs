//! A keyed tree container: nodes carry a payload, a key and the key of their
//! parent, and the tree supports appending, walking a route from the root and
//! removing whole subtrees.
pub mod graph;
pub mod laws;

pub use graph::{key_laws, Graph, Node, StructuralViolation};
