//! Hierarchical identifier trees: a nested mapping of segment tokens to
//! named subtrees, with structural validation and segment-by-segment
//! resolution of dotted identifiers.

pub mod render;
pub mod resolve;
pub mod tree;
pub mod validate;
