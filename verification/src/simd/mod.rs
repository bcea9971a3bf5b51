//! The architecture trait of the single-precision AVX2 backend: the register operations
//! of `arch::SimdArch` without the scalar helpers.
use vstd::pervasive::arbitrary;
use vstd::prelude::*;

verus! {

/// A SIMD architecture for elements `T`: a register type `Mem` of `LANES` lanes and its
/// lane-wise operations, each specified, as in `arch::SimdArch`, through `lanes_of` and
/// a spec function of the architecture per element operation (whose default names no
/// particular value).
pub trait SimdArch<T> {
    type Mem: Copy + Send + Sync;

    const LANES: usize;

    /// The lanes of a register, lane 0 first.
    open spec fn lanes_of(m: Self::Mem) -> Seq<T> {
        arbitrary()
    }

    open spec fn spec_zero() -> T {
        arbitrary()
    }

    open spec fn spec_abs(a: T) -> T {
        arbitrary()
    }

    open spec fn spec_add(a: T, b: T) -> T {
        arbitrary()
    }

    open spec fn spec_mul(a: T, b: T) -> T {
        arbitrary()
    }

    open spec fn spec_div(a: T, b: T) -> T {
        arbitrary()
    }

    /// `a * b + c` with a single rounding.
    open spec fn spec_fma(a: T, b: T, c: T) -> T {
        arbitrary()
    }

    open spec fn spec_max(a: T, b: T) -> T {
        arbitrary()
    }

    open spec fn spec_and(a: T, b: T) -> T {
        arbitrary()
    }

    open spec fn spec_reduce_max(lanes: Seq<T>) -> T {
        arbitrary()
    }

    open spec fn spec_horizontal_sum(lanes: Seq<T>) -> T {
        arbitrary()
    }

    fn setzero() -> (m: Self::Mem)
        ensures
            Self::lanes_of(m) == Seq::new(Self::LANES as nat, |k: int| Self::spec_zero()),
    ;

    fn set1(a: T) -> (m: Self::Mem)
        ensures
            Self::lanes_of(m) == Seq::new(Self::LANES as nat, |k: int| a),
    ;

    /// Loads `x[i..i + LANES]`.
    fn loadu(x: &[T], i: usize) -> (m: Self::Mem)
        requires
            i + Self::LANES <= x@.len(),
        ensures
            Self::lanes_of(m) == x@.subrange(i as int, i + Self::LANES),
    ;

    /// Stores the lanes of `a` into `x[i..i + LANES]`.
    fn storeu(x: &mut [T], i: usize, a: Self::Mem)
        requires
            i + Self::LANES <= old(x)@.len(),
        ensures
            final(x)@ == old(x)@.subrange(0, i as int) + Self::lanes_of(a) + old(x)@.subrange(
                i + Self::LANES,
                old(x)@.len() as int,
            ),
    ;

    fn abs(a: Self::Mem) -> (m: Self::Mem)
        ensures
            Self::lanes_of(m) == Seq::new(
                Self::LANES as nat,
                |k: int| Self::spec_abs(Self::lanes_of(a)[k]),
            ),
    ;

    fn reduce_max(a: Self::Mem) -> (r: T)
        ensures
            r == Self::spec_reduce_max(Self::lanes_of(a)),
    ;

    fn and(a: Self::Mem, b: Self::Mem) -> (m: Self::Mem)
        ensures
            Self::lanes_of(m) == Seq::new(
                Self::LANES as nat,
                |k: int| Self::spec_and(Self::lanes_of(a)[k], Self::lanes_of(b)[k]),
            ),
    ;

    fn max(a: Self::Mem, b: Self::Mem) -> (m: Self::Mem)
        ensures
            Self::lanes_of(m) == Seq::new(
                Self::LANES as nat,
                |k: int| Self::spec_max(Self::lanes_of(a)[k], Self::lanes_of(b)[k]),
            ),
    ;

    fn div(a: Self::Mem, b: Self::Mem) -> (m: Self::Mem)
        ensures
            Self::lanes_of(m) == Seq::new(
                Self::LANES as nat,
                |k: int| Self::spec_div(Self::lanes_of(a)[k], Self::lanes_of(b)[k]),
            ),
    ;

    fn mul(a: Self::Mem, b: Self::Mem) -> (m: Self::Mem)
        ensures
            Self::lanes_of(m) == Seq::new(
                Self::LANES as nat,
                |k: int| Self::spec_mul(Self::lanes_of(a)[k], Self::lanes_of(b)[k]),
            ),
    ;

    /// Lane-wise `a * b + c`.
    fn fmadd(a: Self::Mem, b: Self::Mem, c: Self::Mem) -> (m: Self::Mem)
        ensures
            Self::lanes_of(m) == Seq::new(
                Self::LANES as nat,
                |k: int|
                    Self::spec_fma(Self::lanes_of(a)[k], Self::lanes_of(b)[k], Self::lanes_of(c)[k]),
            ),
    ;

    fn add(a: Self::Mem, b: Self::Mem) -> (m: Self::Mem)
        ensures
            Self::lanes_of(m) == Seq::new(
                Self::LANES as nat,
                |k: int| Self::spec_add(Self::lanes_of(a)[k], Self::lanes_of(b)[k]),
            ),
    ;

    fn horizontal_sum(a: Self::Mem) -> (r: T)
        ensures
            r == Self::spec_horizontal_sum(Self::lanes_of(a)),
    ;
}

} // verus!
