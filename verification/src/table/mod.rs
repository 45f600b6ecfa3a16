//! Tuples and the heap list that stores them.

pub mod laws;
pub mod list;
pub mod node;
pub mod tuple;
