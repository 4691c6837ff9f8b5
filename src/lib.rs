//! Finds the pointer parameters of a function that are pure output
//! parameters: written through on some or all paths, never read before
//! written. Two dataflow analyses over the function's control-flow graph,
//! reads before write (backward) and must-write (forward), feed a classifier
//! that splits the candidates into must-write and may-write places.
pub mod analysis;
pub mod classify;
pub mod dataflow;
pub mod lattice;
pub mod mir;
pub mod place_set;
pub mod report;
