//! A compiler from a small hardware-description language for boolean circuits
//! to three-dimensional block layouts: parsing, graph lowering, macro
//! placement and wire routing.

pub mod graph;
pub mod backend;
pub mod frontend;
