//! Power-iteration ranking over a sparse adjacency matrix, with weights held
//! as fixed-point integers (`fixed::ONE` units stand for the value 1).
pub mod fixed;
pub mod vectors;
pub mod matrix;
pub mod rank;
pub mod text;
pub mod roundtrip;
