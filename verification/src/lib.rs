//! Verified kernels of a set of parallel-programming laboratory works:
//! matrix-vector and matrix-matrix products, the balanced distribution of
//! matrix rows among processes, and Floyd's all-pairs shortest paths.

pub mod flat;
pub mod lab1;
pub mod lab2;
pub mod lab3;
pub mod lab5;
pub mod rng;
