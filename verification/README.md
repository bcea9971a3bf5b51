# simd_kernels

BLAS level-1 vector kernels (`sum`, `asum`, `dot`, `nrm2`, `amax`, `max`, `min`,
`argmax`, `argmin`, `scal`, `axpy`) written once against an abstract SIMD
architecture and verified with Verus.

## Layout

- `src/arch` — `SimdScalar` (the element types) and `SimdArch` (one SIMD
  architecture: a register of `LANES` lanes and its lane-wise operations, each
  specified through spec functions of the architecture).
- `src/simd` — the register-only architecture trait of the single-precision AVX2
  backend.
- `src/kernel` — the kernels, each proved to compute exactly the value named by its
  spec function (the blocked schedule of four register accumulators, single
  registers and a scalar tail, in `kernel/blocked.rs`), with memory safety of every
  register load and store. The joins the parallel kernels apply to chunk results
  (`select_max`, `select_min`, `merge_chunk_norms`, ...) are verified functions too.
  - `kernel/order.rs`, `kernel/selection.rs`: when the architecture's `max` (`min`) is
    the maximum (minimum) of a total order, the schedule returns the largest
    (smallest) element; `argmax`/`argmin` return the first index of it; chunked
    evaluation gives the same results for every chunk size.
  - `kernel/exact.rs`: when the architecture adds exactly, the summing kernels return
    the ordered sum, and chunked sums equal whole sums.
- `app/` — plain Rust around the library: the `Scalar` and `Avx2` floating-point
  architectures, the entry points fixed to one of them (`sum_scalar`, `sum_avx2`, ...),
  and the parallel kernels (`par_sum`, ...) that hand chunks to rayon.
- `tests/` — the kernels run on a portable floating-point architecture and on an exact
  integer architecture.
