//! Circuit graphs: the generic node and edge container and the three stages
//! of lowering that share it.

pub mod general;
pub mod normalized;
pub mod builtin;
pub mod entity;
