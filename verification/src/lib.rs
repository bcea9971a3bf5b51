//! Blocked SIMD vector kernels (BLAS level 1) over an abstract lane architecture.
use vstd::prelude::*;

pub mod arch;
pub mod kernel;
pub mod simd;

verus! {

} // verus!
