//! Freeout: an engine that turns the flat, depth-annotated headings of a
//! document into a validated outline tree, with the byte range each node owns,
//! a content digest, and word statistics rolled up through the tree.
pub mod position;
pub mod statistics;
pub mod block;
pub mod tree;
pub mod ranges;
pub mod processor;
pub mod distribution;
pub mod error;
pub mod outline;
pub mod builder;
pub mod freeout;
pub mod laws;
