//! The kernels, grouped as in BLAS level 1.
pub mod blocked;
pub mod chunks;
pub mod exact;
pub mod order;
pub mod selection;
pub mod operation;
pub mod operations;
pub mod vectors;
pub mod vv;
