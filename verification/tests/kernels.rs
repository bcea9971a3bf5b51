use simd_kernels::arch::SimdArch;
use simd_kernels::kernel::operation::min::min;
use simd_kernels::kernel::operation::sum::sum;
use simd_kernels::kernel::operations::nrm2::{chunk_norm, finish_norm, merge_chunk_norms, nrm2};
use simd_kernels::kernel::vectors::axpy::axpy;
use simd_kernels::kernel::vv::amax::amax;
use simd_kernels::kernel::vv::argmax::{argmax, argmax_candidate, select_max};
use simd_kernels::kernel::vv::argmin::{argmin, argmin_candidate, select_min};
use simd_kernels::kernel::vv::asum::asum;
use simd_kernels::kernel::vv::dot::dot;
use simd_kernels::kernel::vv::max::{blocked_max, max};
use simd_kernels::kernel::vv::scal::scal;

/// The portable architecture: one `f32` per register, four `f64`.
struct Scalar;

impl SimdArch<f32> for Scalar {
    type Mem = f32;
    const LANES: usize = 1;
    fn one() -> f32 { 1.0 }
    fn zero() -> f32 { 0.0 }
    fn sqrt(a: f32) -> f32 { a.sqrt() }
    fn setzero() -> f32 { 0.0 }
    fn set1(a: f32) -> f32 { a }
    fn loadu(x: &[f32], i: usize) -> f32 { x[i] }
    fn storeu(x: &mut [f32], i: usize, a: f32) { x[i] = a; }
    fn abs(a: f32) -> f32 { a.abs() }
    fn scalar_abs(a: f32) -> f32 { a.abs() }
    fn reduce_max(a: f32) -> f32 { a }
    fn reduce_min(a: f32) -> f32 { a }
    fn and(a: f32, b: f32) -> f32 { f32::from_bits(a.to_bits() & b.to_bits()) }
    fn max(a: f32, b: f32) -> f32 { a.max(b) }
    fn min(a: f32, b: f32) -> f32 { a.min(b) }
    fn scalar_max(a: f32, b: f32) -> f32 { a.max(b) }
    fn scalar_min(a: f32, b: f32) -> f32 { a.min(b) }
    fn div(a: f32, b: f32) -> f32 { a / b }
    fn mul(a: f32, b: f32) -> f32 { a * b }
    fn fmadd(a: f32, b: f32, c: f32) -> f32 { a.mul_add(b, c) }
    fn add(a: f32, b: f32) -> f32 { a + b }
    fn horizontal_sum(a: f32) -> f32 { a }
    fn scalar_add(a: f32, b: f32) -> f32 { a + b }
    fn scalar_mul(a: f32, b: f32) -> f32 { a * b }
    fn scalar_div(a: f32, b: f32) -> f32 { a / b }
}

impl SimdArch<f64> for Scalar {
    type Mem = [f64; 4];
    const LANES: usize = 4;
    fn one() -> f64 { 1.0 }
    fn zero() -> f64 { 0.0 }
    fn sqrt(a: f64) -> f64 { a.sqrt() }
    fn setzero() -> [f64; 4] { [0.0; 4] }
    fn set1(a: f64) -> [f64; 4] { [a; 4] }
    fn loadu(x: &[f64], i: usize) -> [f64; 4] { [x[i], x[i + 1], x[i + 2], x[i + 3]] }
    fn storeu(x: &mut [f64], i: usize, a: [f64; 4]) { x[i..i + 4].copy_from_slice(&a); }
    fn abs(a: [f64; 4]) -> [f64; 4] { a.map(|v| v.abs()) }
    fn scalar_abs(a: f64) -> f64 { a.abs() }
    fn reduce_max(a: [f64; 4]) -> f64 { a.into_iter().reduce(|l, r| l.max(r)).unwrap() }
    fn reduce_min(a: [f64; 4]) -> f64 { a.into_iter().reduce(|l, r| l.min(r)).unwrap() }
    fn and(a: [f64; 4], b: [f64; 4]) -> [f64; 4] {
        [0, 1, 2, 3].map(|k| f64::from_bits(a[k].to_bits() & b[k].to_bits()))
    }
    fn max(a: [f64; 4], b: [f64; 4]) -> [f64; 4] { [0, 1, 2, 3].map(|k| a[k].max(b[k])) }
    fn min(a: [f64; 4], b: [f64; 4]) -> [f64; 4] { [0, 1, 2, 3].map(|k| a[k].min(b[k])) }
    fn scalar_max(a: f64, b: f64) -> f64 { a.max(b) }
    fn scalar_min(a: f64, b: f64) -> f64 { a.min(b) }
    fn div(a: [f64; 4], b: [f64; 4]) -> [f64; 4] { [0, 1, 2, 3].map(|k| a[k] / b[k]) }
    fn mul(a: [f64; 4], b: [f64; 4]) -> [f64; 4] { [0, 1, 2, 3].map(|k| a[k] * b[k]) }
    fn fmadd(a: [f64; 4], b: [f64; 4], c: [f64; 4]) -> [f64; 4] {
        [0, 1, 2, 3].map(|k| a[k].mul_add(b[k], c[k]))
    }
    fn add(a: [f64; 4], b: [f64; 4]) -> [f64; 4] { [0, 1, 2, 3].map(|k| a[k] + b[k]) }
    fn horizontal_sum(a: [f64; 4]) -> f64 { a.into_iter().fold(0.0, |s, v| s + v) }
    fn scalar_add(a: f64, b: f64) -> f64 { a + b }
    fn scalar_mul(a: f64, b: f64) -> f64 { a * b }
    fn scalar_div(a: f64, b: f64) -> f64 { a / b }
}

/// Exact integer arithmetic with three lanes per register.
struct Exact3;

impl SimdArch<i64> for Exact3 {
    type Mem = [i64; 3];
    const LANES: usize = 3;
    fn one() -> i64 { 1 }
    fn zero() -> i64 { 0 }
    fn sqrt(a: i64) -> i64 { (a as f64).sqrt() as i64 }
    fn setzero() -> [i64; 3] { [0; 3] }
    fn set1(a: i64) -> [i64; 3] { [a; 3] }
    fn loadu(x: &[i64], i: usize) -> [i64; 3] { [x[i], x[i + 1], x[i + 2]] }
    fn storeu(x: &mut [i64], i: usize, a: [i64; 3]) { x[i..i + 3].copy_from_slice(&a); }
    fn abs(a: [i64; 3]) -> [i64; 3] { a.map(|v| v.abs()) }
    fn scalar_abs(a: i64) -> i64 { a.abs() }
    fn reduce_max(a: [i64; 3]) -> i64 { a[2].max(a[0].max(a[1])) }
    fn reduce_min(a: [i64; 3]) -> i64 { a[2].min(a[0].min(a[1])) }
    fn and(a: [i64; 3], b: [i64; 3]) -> [i64; 3] { [0, 1, 2].map(|k| a[k] & b[k]) }
    fn max(a: [i64; 3], b: [i64; 3]) -> [i64; 3] { [0, 1, 2].map(|k| a[k].max(b[k])) }
    fn min(a: [i64; 3], b: [i64; 3]) -> [i64; 3] { [0, 1, 2].map(|k| a[k].min(b[k])) }
    fn scalar_max(a: i64, b: i64) -> i64 { a.max(b) }
    fn scalar_min(a: i64, b: i64) -> i64 { a.min(b) }
    fn div(a: [i64; 3], b: [i64; 3]) -> [i64; 3] { [0, 1, 2].map(|k| a[k] / b[k]) }
    fn mul(a: [i64; 3], b: [i64; 3]) -> [i64; 3] { [0, 1, 2].map(|k| a[k] * b[k]) }
    fn fmadd(a: [i64; 3], b: [i64; 3], c: [i64; 3]) -> [i64; 3] {
        [0, 1, 2].map(|k| a[k] * b[k] + c[k])
    }
    fn add(a: [i64; 3], b: [i64; 3]) -> [i64; 3] { [0, 1, 2].map(|k| a[k] + b[k]) }
    fn horizontal_sum(a: [i64; 3]) -> i64 { a[0] + a[1] + a[2] }
    fn scalar_add(a: i64, b: i64) -> i64 { a + b }
    fn scalar_mul(a: i64, b: i64) -> i64 { a * b }
    fn scalar_div(a: i64, b: i64) -> i64 { a / b }
}

// The joins a parallel kernel applies to its chunk results, here in chunk order.

fn chunked_amax<A: SimdArch<f32>>(x: &[f32], size: usize) -> f32 {
    x.chunks(size).map(|c| amax::<f32, A>(c)).fold(A::zero(), |a, b| A::scalar_max(a, b))
}

fn chunked_argmax<T: simd_kernels::arch::SimdScalar, A: SimdArch<T>>(x: &[T], size: usize) -> usize {
    x.chunks(size)
        .enumerate()
        .map(|(ci, c)| argmax_candidate::<T, A>(c, ci, size))
        .fold((T::default(), usize::MAX), |l, r| select_max::<T, A>(l, r))
        .1
}

fn chunked_argmin<T: simd_kernels::arch::SimdScalar, A: SimdArch<T>>(x: &[T], size: usize) -> usize {
    x.chunks(size)
        .enumerate()
        .map(|(ci, c)| argmin_candidate::<T, A>(c, ci, size))
        .fold((T::default(), usize::MAX), |l, r| select_min::<T, A>(l, r))
        .1
}

fn chunked_asum<A: SimdArch<f32>>(x: &[f32], size: usize) -> f32 {
    x.chunks(size).map(|c| asum::<f32, A>(c)).fold(A::zero(), |a, b| A::scalar_add(a, b))
}

fn chunked_dot<T: simd_kernels::arch::SimdScalar, A: SimdArch<T>>(x: &[T], y: &[T], size: usize) -> T {
    x.chunks(size)
        .zip(y.chunks(size))
        .map(|(a, b)| dot::<T, A>(a, b))
        .fold(A::zero(), |a, b| A::scalar_add(a, b))
}

fn chunked_max<T: simd_kernels::arch::SimdScalar, A: SimdArch<T>>(x: &[T], size: usize) -> T {
    x.chunks(size).map(|c| max::<T, A>(c)).reduce(|a, b| A::scalar_max(a, b)).unwrap()
}

fn chunked_scal<T: simd_kernels::arch::SimdScalar, A: SimdArch<T>>(x: &mut [T], a: T, size: usize) {
    for c in x.chunks_mut(size) {
        scal::<T, A>(c, a);
    }
}

#[test]
fn sequential_and_parallel_amax_match() {
    let values = [-8.0_f32, 3.0, -11.0, 5.0, -2.0];

    assert_eq!(amax::<f32, Scalar>(&values), 11.0);
    assert_eq!(chunked_amax::<Scalar>(&values, 2), 11.0);
}

#[test]
fn sequential_and_parallel_argmax_match() {
    let values = [1.0_f32, 7.0, 3.0, 7.0, -2.0];

    assert_eq!(argmax::<f32, Scalar>(&values), 1);
    assert_eq!(chunked_argmax::<f32, Scalar>(&values, 2), 1);

    let values = [1.0_f64, 7.0, 3.0, 7.0, -2.0];
    assert_eq!(argmax::<f64, Scalar>(&values), 1);
    assert_eq!(chunked_argmax::<f64, Scalar>(&values, 2), 1);
}

#[test]
fn sequential_and_parallel_argmin_match() {
    let values = [1.0_f32, -7.0, 3.0, -7.0, 2.0];

    assert_eq!(argmin::<f32, Scalar>(&values), 1);
    assert_eq!(chunked_argmin::<f32, Scalar>(&values, 2), 1);
}

#[test]
fn sequential_and_parallel_asum_match() {
    let values = [-1.0_f32, 2.0, -3.0, 4.0, -5.0];

    assert_eq!(asum::<f32, Scalar>(&values), 15.0);
    assert_eq!(chunked_asum::<Scalar>(&values, 2), 15.0);
}

#[test]
fn sequential_and_parallel_dot_match() {
    let x = [1.0_f32, 2.0, 3.0, 4.0, 5.0];
    let y = [5.0_f32, 4.0, 3.0, 2.0, 1.0];

    assert_eq!(dot::<f32, Scalar>(&x, &y), 35.0);
    assert_eq!(chunked_dot::<f32, Scalar>(&x, &y, 2), 35.0);

    let x = [1.0_f64, 2.0, 3.0, 4.0, 5.0];
    let y = [5.0_f64, 4.0, 3.0, 2.0, 1.0];
    assert_eq!(dot::<f64, Scalar>(&x, &y), 35.0);
    assert_eq!(chunked_dot::<f64, Scalar>(&x, &y, 2), 35.0);
}

#[test]
fn parallel_max_handles_all_negative_values() {
    let values = [-8.0_f32, -3.0, -11.0, -5.0];

    let result = chunked_max::<f32, Scalar>(&values, 2);

    assert_eq!(result, -3.0);
}

#[test]
fn sequential_max_handles_all_negative_values() {
    let values = [-8.0_f32, -3.0, -11.0, -5.0];

    assert_eq!(max::<f32, Scalar>(&values), -3.0);
}

#[test]
fn sequential_and_parallel_scal_match() {
    let mut sequential = [1.0_f32, -2.0, 3.0, -4.0, 5.0];
    let mut parallel = sequential;

    scal::<f32, Scalar>(&mut sequential, -2.0);
    chunked_scal::<f32, Scalar>(&mut parallel, -2.0, 2);

    assert_eq!(sequential, [-2.0, 4.0, -6.0, 8.0, -10.0]);
    assert_eq!(parallel, sequential);

    let mut sequential = [1.0_f64, -2.0, 3.0, -4.0, 5.0];
    let mut parallel = sequential;
    scal::<f64, Scalar>(&mut sequential, -2.0);
    chunked_scal::<f64, Scalar>(&mut parallel, -2.0, 2);
    assert_eq!(sequential, [-2.0, 4.0, -6.0, 8.0, -10.0]);
    assert_eq!(parallel, sequential);
}

// Laws on concrete values, with exact integer arithmetic and three lanes.

fn sample(n: usize) -> Vec<i64> {
    (0..n as i64).map(|i| (i * 37 + 11) % 23 - 11).collect()
}

fn first_max(x: &[i64]) -> usize {
    let mut best = 0;
    for i in 1..x.len() {
        if x[i] > x[best] {
            best = i;
        }
    }
    best
}

fn first_min(x: &[i64]) -> usize {
    let mut best = 0;
    for i in 1..x.len() {
        if x[i] < x[best] {
            best = i;
        }
    }
    best
}

#[test]
fn exact_sum_asum_and_dot_add_up_for_every_length() {
    for n in 0..40 {
        let x = sample(n);
        let y: Vec<i64> = x.iter().map(|v| 2 * v - 1).collect();
        assert_eq!(sum::<i64, Exact3>(&x), x.iter().sum::<i64>());
        assert_eq!(asum::<i64, Exact3>(&x), x.iter().map(|v| v.abs()).sum::<i64>());
        assert_eq!(dot::<i64, Exact3>(&x, &y), x.iter().zip(&y).map(|(a, b)| a * b).sum::<i64>());
    }
}

#[test]
fn exact_chunked_sums_match_for_every_chunk_size() {
    let x = sample(31);
    let y: Vec<i64> = x.iter().map(|v| 3 - v).collect();
    let whole = sum::<i64, Exact3>(&x);
    let whole_dot = dot::<i64, Exact3>(&x, &y);
    for size in 1..12 {
        let joined = x.chunks(size).map(|c| sum::<i64, Exact3>(c)).fold(0, |a, b| a + b);
        assert_eq!(joined, whole);
        assert_eq!(chunked_dot::<i64, Exact3>(&x, &y, size), whole_dot);
    }
}

#[test]
fn max_min_and_amax_find_the_extremes_for_every_length() {
    for n in 1..40 {
        let x = sample(n);
        assert_eq!(max::<i64, Exact3>(&x), *x.iter().max().unwrap());
        assert_eq!(min::<i64, Exact3>(&x), *x.iter().min().unwrap());
        assert_eq!(amax::<i64, Exact3>(&x), x.iter().map(|v| v.abs()).max().unwrap());
    }
    assert_eq!(amax::<i64, Exact3>(&[]), 0);
}

#[test]
fn argmax_and_argmin_return_the_first_extreme() {
    for n in 1..40 {
        let x = sample(n);
        assert_eq!(argmax::<i64, Exact3>(&x), first_max(&x));
        assert_eq!(argmin::<i64, Exact3>(&x), first_min(&x));
    }
    // Ties: the first of equal extremes, on both the short and the register path.
    assert_eq!(argmax::<i64, Exact3>(&[4, 9, 9]), 1);
    assert_eq!(argmax::<i64, Exact3>(&[4, 9, 1, 9, 9, 0, 2]), 1);
    assert_eq!(argmin::<i64, Exact3>(&[4, -9, 1, -9, 9, 0, 2]), 1);
}

#[test]
fn chunked_argmax_argmin_and_max_match_for_every_chunk_size() {
    let x = sample(29);
    for size in 1..12 {
        assert_eq!(chunked_argmax::<i64, Exact3>(&x, size), argmax::<i64, Exact3>(&x));
        assert_eq!(chunked_argmin::<i64, Exact3>(&x, size), argmin::<i64, Exact3>(&x));
        assert_eq!(chunked_max::<i64, Exact3>(&x, size), max::<i64, Exact3>(&x));
    }
}

#[test]
fn select_max_is_associative_with_the_empty_candidate_as_identity() {
    let empty = (0_i64, usize::MAX);
    let cands = [(3_i64, 0_usize), (7, 1), (7, 2), (-1, 3), empty];
    for &a in &cands {
        for &b in &cands {
            for &c in &cands {
                let left = select_max::<i64, Exact3>(select_max::<i64, Exact3>(a, b), c);
                let right = select_max::<i64, Exact3>(a, select_max::<i64, Exact3>(b, c));
                assert_eq!(left, right);
                let left = select_min::<i64, Exact3>(select_min::<i64, Exact3>(a, b), c);
                let right = select_min::<i64, Exact3>(a, select_min::<i64, Exact3>(b, c));
                assert_eq!(left, right);
            }
        }
        assert_eq!(select_max::<i64, Exact3>(empty, a), a);
    }
    // Ties keep the left candidate.
    assert_eq!(select_max::<i64, Exact3>((7, 1), (7, 2)), (7, 1));
    assert_eq!(select_min::<i64, Exact3>((7, 2), (7, 1)), (7, 2));
}

#[test]
fn scal_and_axpy_work_element_by_element() {
    for n in 0..20 {
        let x = sample(n);
        let mut scaled = x.clone();
        scal::<i64, Exact3>(&mut scaled, -3);
        assert_eq!(scaled, x.iter().map(|v| v * -3).collect::<Vec<i64>>());
        let mut y: Vec<i64> = (0..n as i64).collect();
        axpy::<i64, Exact3>(&mut y, &x, 5);
        assert_eq!(y, (0..n).map(|i| i as i64 + x[i] * 5).collect::<Vec<i64>>());
    }
}

#[test]
fn axpy_uses_fused_multiply_add_only_in_whole_registers() {
    // 0.1 * 3.0 + 0.3 rounds differently fused and unfused.
    let x = [0.1_f64; 5];
    let mut y = [0.3_f64; 5];
    axpy::<f64, Scalar>(&mut y, &x, 3.0);
    let fused = 0.1_f64.mul_add(3.0, 0.3);
    let unfused = 0.3 + 0.1 * 3.0;
    assert_eq!(y[..4], [fused; 4]);
    assert_eq!(y[4], unfused);
}

#[test]
fn nrm2_of_three_four_is_five_and_of_zeros_is_zero() {
    assert_eq!(nrm2::<f64, Scalar>(&[3.0, 4.0]), 5.0);
    assert_eq!(nrm2::<f64, Scalar>(&[0.0, -0.0, 0.0]), 0.0);
    assert_eq!(nrm2::<f64, Scalar>(&[]), 0.0);
    assert_eq!(nrm2::<f32, Scalar>(&[-6.0, 8.0]), 10.0);
}

#[test]
fn chunk_norms_merge_by_rescaling_to_the_larger_scale() {
    let a = chunk_norm::<f64, Scalar>(&[3.0]);
    let b = chunk_norm::<f64, Scalar>(&[-8.0, 6.0]);
    assert_eq!(a, (3.0, 1.0));
    assert_eq!(b, (8.0, 1.5625));
    assert_eq!(chunk_norm::<f64, Scalar>(&[0.0, 0.0]), (0.0, 0.0));
    let joined = merge_chunk_norms::<f64, Scalar>(a, b);
    assert_eq!(joined.0, 8.0);
    assert_eq!(merge_chunk_norms::<f64, Scalar>((0.0, 0.0), b), b);
    assert_eq!(merge_chunk_norms::<f64, Scalar>(a, (0.0, 0.0)), a);
    let norm = finish_norm::<f64, Scalar>(joined);
    assert!((norm - 109.0_f64.sqrt()).abs() < 1e-12);
}

#[test]
fn empty_slices_reduce_to_zero() {
    let empty: [f64; 0] = [];
    assert_eq!(sum::<f64, Scalar>(&empty), 0.0);
    assert_eq!(asum::<f64, Scalar>(&empty), 0.0);
    assert_eq!(amax::<f64, Scalar>(&empty), 0.0);
    assert_eq!(dot::<f64, Scalar>(&empty, &empty), 0.0);
}

#[test]
fn candidates_carry_the_index_in_the_whole_slice() {
    assert_eq!(argmax_candidate::<i64, Exact3>(&[1, 9, 9, 2], 3, 4), (9, 13));
    assert_eq!(argmin_candidate::<i64, Exact3>(&[1, -9, 4], 2, 5), (-9, 11));
    assert_eq!(blocked_max::<i64, Exact3>(&[5, 1, 2, 8, 3, 4, 0]), 8);
}

#[test]
fn sum_follows_the_blocked_order() {
    // Two registers of four lanes go into the same accumulator: lane 0 cancels the large
    // values before the small ones are added, which a left-to-right sum would lose.
    let x = [1e16_f64, 1.0, 1.0, 1.0, -1e16, 1.0, 1.0, 1.0];
    assert_eq!(sum::<f64, Scalar>(&x), 6.0);
    assert_eq!(x.iter().fold(0.0, |s, v| s + v), 3.0);
}

#[test]
fn nrm2_scales_against_overflow() {
    let x = [1e200_f64, -1e200];
    let expected = 1e200 * 2.0_f64.sqrt();
    assert_eq!(nrm2::<f64, Scalar>(&x), expected);
    assert!(x.iter().map(|v| v * v).sum::<f64>().is_infinite());
}

#[test]
fn min_joined_from_zero_matches_unless_every_element_is_positive() {
    let join = |x: &[f32], size: usize| {
        x.chunks(size)
            .map(|c| min::<f32, Scalar>(c))
            .fold(<Scalar as SimdArch<f32>>::zero(), |a, b| a.min(b))
    };
    let mixed = [4.0_f32, -8.0, 3.0, -11.0, 5.0];
    assert_eq!(join(&mixed, 2), min::<f32, Scalar>(&mixed));
    let positive = [1.0_f32, 2.0, 3.0];
    assert_eq!(min::<f32, Scalar>(&positive), 1.0);
    assert_eq!(join(&positive, 2), 0.0);
}
