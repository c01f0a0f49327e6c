//! Vamana proximity-graph construction over integer vectors, and the schema
//! field tree that describes a dataset's columns.

pub mod field;
pub mod vamana;
