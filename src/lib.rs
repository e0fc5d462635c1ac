//! Belief propagation on factor graphs over small finite fields: the
//! verified integer side (group theory helpers, graph topology checks and
//! the index maps that the message kernels follow).

pub mod group;
pub mod kernels;
pub mod topology;
pub mod moments;
