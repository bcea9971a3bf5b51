//! The element and architecture traits that every kernel is written against.
use std::ops::{Add, Div, Mul, Sub};
use vstd::pervasive::arbitrary;
use vstd::prelude::*;

verus! {

/// The element types the kernels work on: plain copyable numbers with the usual operators.
pub trait SimdScalar: Copy + Default + PartialEq + PartialOrd + Send + Sync + Add<
    Output = Self,
> + Sub<Output = Self> + Mul<Output = Self> + Div<Output = Self> {

}

impl<T> SimdScalar for T where
    T: Copy + Default + PartialEq + PartialOrd + Send + Sync + Add<Output = T> + Sub<
        Output = T,
    > + Mul<Output = T> + Div<Output = T>,
 {

}

/// One SIMD architecture: a register type `Mem` of `LANES` elements of `T` and the
/// lane-wise operations the kernels use.
///
/// The contracts speak of each register through `lanes_of`, the sequence of its lanes,
/// and of each element operation through a spec function of the architecture
/// (`spec_add`, `spec_max`, ...). For floating-point elements these are the IEEE
/// operations of the hardware, which this crate does not model further: the kernels are
/// proved to apply them to exactly the elements, in exactly the order, that their
/// contracts name. The reductions of a whole register (`reduce_max`, `reduce_min`,
/// `horizontal_sum`) combine the lanes in an order that each architecture chooses; their
/// results are named by `spec_reduce_max`, `spec_reduce_min` and `spec_horizontal_sum`.
///
/// Every spec function has a default that names no particular value, so that an
/// architecture written in plain Rust implements only the operations; code generic over
/// the architecture sees each spec function as the architecture's own, unknown to it.
/// The operations' contracts are not checked for architectures implemented outside
/// this crate.
pub trait SimdArch<T: SimdScalar> {
    type Mem: Copy + Send + Sync;

    const LANES: usize;

    /// The lanes of a register, lane 0 first.
    open spec fn lanes_of(m: Self::Mem) -> Seq<T> {
        arbitrary()
    }

    open spec fn spec_one() -> T {
        arbitrary()
    }

    open spec fn spec_zero() -> T {
        arbitrary()
    }

    open spec fn spec_sqrt(a: T) -> T {
        arbitrary()
    }

    open spec fn spec_abs(a: T) -> T {
        arbitrary()
    }

    open spec fn spec_add(a: T, b: T) -> T {
        arbitrary()
    }

    open spec fn spec_mul(a: T, b: T) -> T {
        arbitrary()
    }

    open spec fn spec_div(a: T, b: T) -> T {
        arbitrary()
    }

    /// `a * b + c` with a single rounding.
    open spec fn spec_fma(a: T, b: T, c: T) -> T {
        arbitrary()
    }

    open spec fn spec_max(a: T, b: T) -> T {
        arbitrary()
    }

    open spec fn spec_min(a: T, b: T) -> T {
        arbitrary()
    }

    open spec fn spec_and(a: T, b: T) -> T {
        arbitrary()
    }

    open spec fn spec_reduce_max(lanes: Seq<T>) -> T {
        arbitrary()
    }

    open spec fn spec_reduce_min(lanes: Seq<T>) -> T {
        arbitrary()
    }

    open spec fn spec_horizontal_sum(lanes: Seq<T>) -> T {
        arbitrary()
    }

    fn one() -> (r: T)
        ensures
            r == Self::spec_one(),
    ;

    /// The additive identity of `T` (its default value).
    fn zero() -> (r: T)
        ensures
            r == Self::spec_zero(),
    ;

    fn sqrt(a: T) -> (r: T)
        ensures
            r == Self::spec_sqrt(a),
    ;

    fn setzero() -> (m: Self::Mem)
        ensures
            Self::lanes_of(m) == Seq::new(Self::LANES as nat, |k: int| Self::spec_zero()),
    ;

    fn set1(a: T) -> (m: Self::Mem)
        ensures
            Self::lanes_of(m) == Seq::new(Self::LANES as nat, |k: int| a),
    ;

    /// Loads `x[i..i + LANES]`.
    fn loadu(x: &[T], i: usize) -> (m: Self::Mem)
        requires
            i + Self::LANES <= x@.len(),
        ensures
            Self::lanes_of(m) == x@.subrange(i as int, i + Self::LANES),
    ;

    /// Stores the lanes of `a` into `x[i..i + LANES]`.
    fn storeu(x: &mut [T], i: usize, a: Self::Mem)
        requires
            i + Self::LANES <= old(x)@.len(),
        ensures
            final(x)@ == old(x)@.subrange(0, i as int) + Self::lanes_of(a) + old(x)@.subrange(
                i + Self::LANES,
                old(x)@.len() as int,
            ),
    ;

    fn abs(a: Self::Mem) -> (m: Self::Mem)
        ensures
            Self::lanes_of(m) == Seq::new(
                Self::LANES as nat,
                |k: int| Self::spec_abs(Self::lanes_of(a)[k]),
            ),
    ;

    fn scalar_abs(a: T) -> (r: T)
        ensures
            r == Self::spec_abs(a),
    ;

    fn reduce_max(a: Self::Mem) -> (r: T)
        ensures
            r == Self::spec_reduce_max(Self::lanes_of(a)),
    ;

    fn reduce_min(a: Self::Mem) -> (r: T)
        ensures
            r == Self::spec_reduce_min(Self::lanes_of(a)),
    ;

    fn and(a: Self::Mem, b: Self::Mem) -> (m: Self::Mem)
        ensures
            Self::lanes_of(m) == Seq::new(
                Self::LANES as nat,
                |k: int| Self::spec_and(Self::lanes_of(a)[k], Self::lanes_of(b)[k]),
            ),
    ;

    fn max(a: Self::Mem, b: Self::Mem) -> (m: Self::Mem)
        ensures
            Self::lanes_of(m) == Seq::new(
                Self::LANES as nat,
                |k: int| Self::spec_max(Self::lanes_of(a)[k], Self::lanes_of(b)[k]),
            ),
    ;

    fn min(a: Self::Mem, b: Self::Mem) -> (m: Self::Mem)
        ensures
            Self::lanes_of(m) == Seq::new(
                Self::LANES as nat,
                |k: int| Self::spec_min(Self::lanes_of(a)[k], Self::lanes_of(b)[k]),
            ),
    ;

    fn scalar_max(a: T, b: T) -> (r: T)
        ensures
            r == Self::spec_max(a, b),
    ;

    fn scalar_min(a: T, b: T) -> (r: T)
        ensures
            r == Self::spec_min(a, b),
    ;

    fn div(a: Self::Mem, b: Self::Mem) -> (m: Self::Mem)
        ensures
            Self::lanes_of(m) == Seq::new(
                Self::LANES as nat,
                |k: int| Self::spec_div(Self::lanes_of(a)[k], Self::lanes_of(b)[k]),
            ),
    ;

    fn mul(a: Self::Mem, b: Self::Mem) -> (m: Self::Mem)
        ensures
            Self::lanes_of(m) == Seq::new(
                Self::LANES as nat,
                |k: int| Self::spec_mul(Self::lanes_of(a)[k], Self::lanes_of(b)[k]),
            ),
    ;

    /// Lane-wise `a * b + c`.
    fn fmadd(a: Self::Mem, b: Self::Mem, c: Self::Mem) -> (m: Self::Mem)
        ensures
            Self::lanes_of(m) == Seq::new(
                Self::LANES as nat,
                |k: int|
                    Self::spec_fma(Self::lanes_of(a)[k], Self::lanes_of(b)[k], Self::lanes_of(c)[k]),
            ),
    ;

    fn add(a: Self::Mem, b: Self::Mem) -> (m: Self::Mem)
        ensures
            Self::lanes_of(m) == Seq::new(
                Self::LANES as nat,
                |k: int| Self::spec_add(Self::lanes_of(a)[k], Self::lanes_of(b)[k]),
            ),
    ;

    fn horizontal_sum(a: Self::Mem) -> (r: T)
        ensures
            r == Self::spec_horizontal_sum(Self::lanes_of(a)),
    ;

    /// `a + b` on single elements.
    fn scalar_add(a: T, b: T) -> (r: T)
        ensures
            r == Self::spec_add(a, b),
    ;

    /// `a * b` on single elements.
    fn scalar_mul(a: T, b: T) -> (r: T)
        ensures
            r == Self::spec_mul(a, b),
    ;

    /// `a / b` on single elements.
    fn scalar_div(a: T, b: T) -> (r: T)
        ensures
            r == Self::spec_div(a, b),
    ;
}

/// The lane counts the kernels accept: at least one lane, and few enough that a block
/// of four registers is still indexable.
pub open spec fn lanes_supported<T: SimdScalar, A: SimdArch<T>>() -> bool {
    0 < A::LANES && 4 * A::LANES <= usize::MAX
}

} // verus!
