//! Euclidean norm of a slice, computed with scaling against overflow.
use crate::arch::{lanes_supported, SimdArch, SimdScalar};
use crate::kernel::blocked::{
    accumulator, blocked_reduce, combined, lane_folds, lemma_quad_count, lemma_single_count, quad_end,
    stride_at, strided_fold,
};
use crate::kernel::chunks::{chunk, chunk_count, chunk_end, chunk_start, lemma_chunk_bounds};
use crate::kernel::order::{eq_is_identity, lemma_below_refl, lemma_sel_comm, max_is_total};
use crate::kernel::vv::amax::{abs_above_zero, amax, amax_spec, lemma_amax_is_largest_abs};
use core::cmp::Ordering;
use crate::kernel::exact::{
    add_is_exact, arch_sum, fma_is_exact, is_exact_field, lemma_arch_blocked_sums,
    lemma_arch_chunk_sums, lemma_field_mul, lemma_field_order, lemma_monoid, lemma_range_sum_ext,
    lemma_range_sum_shift, lemma_range_sum_zero, lemma_scale_sum, lemma_square_of_product, lemma_sum_non_negative, non_negative,
};
use vstd::prelude::*;
use vstd::std_specs::cmp::{PartialEqSpec, PartialOrdSpec};

verus! {

/// The value `raw_nrm2` computes: the blocked schedule summing the squares of the
/// elements multiplied by `1 / scale`.
pub open spec fn raw_nrm2_spec<T: SimdScalar, A: SimdArch<T>>(xs: Seq<T>, scale: T) -> T {
    let inv = A::spec_div(A::spec_one(), scale);
    blocked_reduce(
        xs.len() as int,
        0,
        Seq::new(A::LANES as nat, |k: int| A::spec_zero()),
        |acc: T, i: int| A::spec_fma(A::spec_mul(xs[i], inv), A::spec_mul(xs[i], inv), acc),
        |a: T, b: T| A::spec_add(a, b),
        |lanes: Seq<T>| A::spec_horizontal_sum(lanes),
        |s: T, i: int| A::spec_add(s, A::spec_mul(A::spec_mul(xs[i], inv), A::spec_mul(xs[i], inv))),
    )
}

/// The value `nrm2` computes when its largest absolute value is not zero.
pub open spec fn scaled_norm_spec<T: SimdScalar, A: SimdArch<T>>(xs: Seq<T>) -> T {
    let scale = amax_spec::<T, A>(xs);
    A::spec_mul(scale, A::spec_sqrt(raw_nrm2_spec::<T, A>(xs, scale)))
}

/// The value `nrm2` returns on `xs` (when `T`'s `==` has a specification): zero when the
/// largest absolute value is zero, otherwise the scaled norm.
pub open spec fn nrm2_spec<T: SimdScalar, A: SimdArch<T>>(xs: Seq<T>) -> T {
    if amax_spec::<T, A>(xs).eq_spec(&A::spec_zero()) {
        A::spec_zero()
    } else {
        scaled_norm_spec::<T, A>(xs)
    }
}

/// The sum of the squares of `x[i] / scale`, each element first multiplied by
/// `1 / scale`.
fn raw_nrm2<T: SimdScalar, ARCH: SimdArch<T>>(x: &[T], scale: T) -> (r: T)
    requires
        lanes_supported::<T, ARCH>(),
    ensures
        r == raw_nrm2_spec::<T, ARCH>(x@, scale),
{
    let len = x.len();
    let lanes = ARCH::LANES;
    let quad = lanes * 4;
    let ghost n = len as int;
    let ghost l = lanes as int;
    let inv_scale = ARCH::scalar_div(ARCH::one(), scale);
    let mem_scale = ARCH::set1(inv_scale);
    let ghost init = Seq::new(ARCH::LANES as nat, |k: int| ARCH::spec_zero());
    let ghost step = |acc: T, i: int| ARCH::spec_fma(ARCH::spec_mul(x@[i], inv_scale), ARCH::spec_mul(x@[i], inv_scale), acc);

    let mut acc0 = ARCH::setzero();
    let mut acc1 = ARCH::setzero();
    let mut acc2 = ARCH::setzero();
    let mut acc3 = ARCH::setzero();

    let mut i: usize = 0;
    let ghost mut b: int = 0;
    while quad <= len - i
        invariant
            len == x@.len(),
            inv_scale == ARCH::spec_div(ARCH::spec_one(), scale),
            ARCH::lanes_of(mem_scale) == Seq::new(ARCH::LANES as nat, |k: int| inv_scale),
            n == len,
            l == lanes,
            lanes == ARCH::LANES,
            lanes_supported::<T, ARCH>(),
            quad == 4 * l,
            i <= len,
            0 <= b,
            i == 4 * l * b,
            init == Seq::new(ARCH::LANES as nat, |k: int| ARCH::spec_zero()),
            step == (|acc: T, i: int| ARCH::spec_fma(ARCH::spec_mul(x@[i], inv_scale), ARCH::spec_mul(x@[i], inv_scale), acc)),
            ARCH::lanes_of(acc0) == lane_folds(init, 0, 4 * l, b as nat, step),
            ARCH::lanes_of(acc1) == lane_folds(init, l, 4 * l, b as nat, step),
            ARCH::lanes_of(acc2) == lane_folds(init, 2 * l, 4 * l, b as nat, step),
            ARCH::lanes_of(acc3) == lane_folds(init, 3 * l, 4 * l, b as nat, step),
        decreases len - i,
    {
        let x0 = ARCH::loadu(x, i);
        let x1 = ARCH::loadu(x, i + lanes);
        let x2 = ARCH::loadu(x, i + lanes * 2);
        let x3 = ARCH::loadu(x, i + lanes * 3);

        let v0 = ARCH::mul(x0, mem_scale);
        let v1 = ARCH::mul(x1, mem_scale);
        let v2 = ARCH::mul(x2, mem_scale);
        let v3 = ARCH::mul(x3, mem_scale);

        acc0 = ARCH::fmadd(v0, v0, acc0);
        acc1 = ARCH::fmadd(v1, v1, acc1);
        acc2 = ARCH::fmadd(v2, v2, acc2);
        acc3 = ARCH::fmadd(v3, v3, acc3);

        proof {
            assert(4 * l * (b + 1) == 4 * l * b + 4 * l) by (nonlinear_arith);
            assert(ARCH::lanes_of(acc0) =~= lane_folds(init, 0, 4 * l, (b + 1) as nat, step));
            assert(ARCH::lanes_of(acc1) =~= lane_folds(init, l, 4 * l, (b + 1) as nat, step));
            assert(ARCH::lanes_of(acc2) =~= lane_folds(init, 2 * l, 4 * l, (b + 1) as nat, step));
            assert(ARCH::lanes_of(acc3) =~= lane_folds(init, 3 * l, 4 * l, (b + 1) as nat, step));
            b = b + 1;
        }
        i += quad;
    }

    proof {
        lemma_quad_count(n, 0, l, b);
    }
    let ghost qe = i as int;
    let ghost quads0 = ARCH::lanes_of(acc0);
    let ghost mut t: int = 0;
    while lanes <= len - i
        invariant
            len == x@.len(),
            inv_scale == ARCH::spec_div(ARCH::spec_one(), scale),
            ARCH::lanes_of(mem_scale) == Seq::new(ARCH::LANES as nat, |k: int| inv_scale),
            n == len,
            l == lanes,
            lanes == ARCH::LANES,
            lanes_supported::<T, ARCH>(),
            qe == quad_end(n, 0, l),
            qe <= i <= len,
            0 <= t,
            i == qe + l * t,
            step == (|acc: T, i: int| ARCH::spec_fma(ARCH::spec_mul(x@[i], inv_scale), ARCH::spec_mul(x@[i], inv_scale), acc)),
            ARCH::lanes_of(acc0) == lane_folds(quads0, qe, l, t as nat, step),
            quads0.len() == l,
        decreases len - i,
    {
        let x0 = ARCH::loadu(x, i);
        let v0 = ARCH::mul(x0, mem_scale);
        acc0 = ARCH::fmadd(v0, v0, acc0);

        proof {
            assert(l * (t + 1) == l * t + l) by (nonlinear_arith);
            assert(ARCH::lanes_of(acc0) =~= lane_folds(quads0, qe, l, (t + 1) as nat, step));
            t = t + 1;
        }
        i += lanes;
    }

    proof {
        lemma_single_count(n, 0, l, t);
        assert(ARCH::lanes_of(acc0) =~= accumulator(n, 0, init, 0, step));
        assert(ARCH::lanes_of(acc1) =~= accumulator(n, 0, init, 1, step));
        assert(ARCH::lanes_of(acc2) =~= accumulator(n, 0, init, 2, step));
        assert(ARCH::lanes_of(acc3) =~= accumulator(n, 0, init, 3, step));
    }

    let acc0 = ARCH::add(acc0, acc1);
    let acc1 = ARCH::add(acc2, acc3);
    let acc = ARCH::add(acc0, acc1);
    let mut sum = ARCH::horizontal_sum(acc);

    proof {
        let comb = |a: T, b: T| ARCH::spec_add(a, b);
        assert(ARCH::lanes_of(acc) =~= combined(n, 0, init, step, comb));
    }
    let ghost v = i as int;
    let ghost r0 = sum;
    while i < len
        invariant
            len == x@.len(),
            inv_scale == ARCH::spec_div(ARCH::spec_one(), scale),
            ARCH::lanes_of(mem_scale) == Seq::new(ARCH::LANES as nat, |k: int| inv_scale),
            v <= i <= len,
            sum == strided_fold(r0, v, 1, (i - v) as nat, |s: T, i: int| ARCH::spec_add(s, ARCH::spec_mul(ARCH::spec_mul(x@[i], inv_scale), ARCH::spec_mul(x@[i], inv_scale)))),
        decreases len - i,
    {
        let v0 = ARCH::scalar_mul(x[i], inv_scale);
        sum = ARCH::scalar_add(sum, ARCH::scalar_mul(v0, v0));
        i += 1;
    }
    sum
}

/// The Euclidean norm of `x`: `scale * sqrt(sum((x[i] / scale)^2))` with `scale` the
/// largest absolute value, and zero when that is zero.
pub fn nrm2<T: SimdScalar, ARCH: SimdArch<T>>(x: &[T]) -> (r: T)
    requires
        lanes_supported::<T, ARCH>(),
    ensures
        r == ARCH::spec_zero() || r == scaled_norm_spec::<T, ARCH>(x@),
        T::obeys_eq_spec() ==> r == (if amax_spec::<T, ARCH>(x@).eq_spec(&ARCH::spec_zero()) {
            ARCH::spec_zero()
        } else {
            scaled_norm_spec::<T, ARCH>(x@)
        }),
        T::obeys_eq_spec() ==> r == nrm2_spec::<T, ARCH>(x@),
{
    let scale = amax::<T, ARCH>(x);
    if scale == ARCH::zero() {
        return ARCH::zero();
    }
    let raw = raw_nrm2::<T, ARCH>(x, scale);
    ARCH::scalar_mul(scale, ARCH::sqrt(raw))
}

/// The partial result `nrm2` keeps for one chunk: its largest absolute value and the sum
/// of its squares scaled by it, or a pair of zeros when that value is zero.
pub open spec fn chunk_norm_spec<T: SimdScalar, A: SimdArch<T>>(xs: Seq<T>) -> (T, T) {
    let scale = amax_spec::<T, A>(xs);
    if scale.eq_spec(&A::spec_zero()) {
        (A::spec_zero(), A::spec_zero())
    } else {
        (scale, raw_nrm2_spec::<T, A>(xs, scale))
    }
}

/// The partial result of one chunk of a chunked `nrm2`: its scale (largest absolute
/// value) and its sum of squares relative to that scale.
pub fn chunk_norm<T: SimdScalar, ARCH: SimdArch<T>>(chunk: &[T]) -> (r: (T, T))
    requires
        lanes_supported::<T, ARCH>(),
    ensures
        r == (ARCH::spec_zero(), ARCH::spec_zero()) || r == (
            amax_spec::<T, ARCH>(chunk@),
            raw_nrm2_spec::<T, ARCH>(chunk@, amax_spec::<T, ARCH>(chunk@)),
        ),
        T::obeys_eq_spec() ==> r == chunk_norm_spec::<T, ARCH>(chunk@),
{
    let s = amax::<T, ARCH>(chunk);
    if s == ARCH::zero() {
        (ARCH::zero(), ARCH::zero())
    } else {
        (s, raw_nrm2::<T, ARCH>(chunk, s))
    }
}

/// `big`'s sum of squares plus `small`'s, rescaled from `small`'s scale to `big`'s.
pub open spec fn rescaled<T: SimdScalar, A: SimdArch<T>>(big: (T, T), small: (T, T)) -> (T, T) {
    let q = A::spec_div(small.0, big.0);
    (big.0, A::spec_add(big.1, A::spec_mul(small.1, A::spec_mul(q, q))))
}

/// The join `merge_chunk_norms` makes (when `T`'s `==` and `partial_cmp` have
/// specifications).
pub open spec fn merge_spec<T: SimdScalar, A: SimdArch<T>>(a: (T, T), b: (T, T)) -> (T, T) {
    if a.0.eq_spec(&A::spec_zero()) {
        b
    } else if b.0.eq_spec(&A::spec_zero()) {
        a
    } else if a.0.partial_cmp_spec(&b.0) matches Some(Ordering::Greater | Ordering::Equal) {
        rescaled::<T, A>(a, b)
    } else {
        rescaled::<T, A>(b, a)
    }
}

/// Joins the partial results of two chunks: a partial result with a zero scale is
/// empty; otherwise the larger scale is kept and the other sum rescaled to it.
pub fn merge_chunk_norms<T: SimdScalar, ARCH: SimdArch<T>>(a: (T, T), b: (T, T)) -> (r: (T, T))
    ensures
        r == b || r == a || r == rescaled::<T, ARCH>(a, b) || r == rescaled::<T, ARCH>(b, a),
        T::obeys_eq_spec() && a.0.eq_spec(&ARCH::spec_zero()) ==> r == b,
        T::obeys_eq_spec() && !a.0.eq_spec(&ARCH::spec_zero()) && b.0.eq_spec(&ARCH::spec_zero())
            ==> r == a,
        T::obeys_eq_spec() && T::obeys_partial_cmp_spec() && !a.0.eq_spec(&ARCH::spec_zero())
            && !b.0.eq_spec(&ARCH::spec_zero()) ==> r == (if a.0.partial_cmp_spec(&b.0) matches Some(
            Ordering::Greater | Ordering::Equal,
        ) {
            rescaled::<T, ARCH>(a, b)
        } else {
            rescaled::<T, ARCH>(b, a)
        }),
        T::obeys_eq_spec() && !a.0.eq_spec(&ARCH::spec_zero()) && !b.0.eq_spec(&ARCH::spec_zero())
            ==> r == rescaled::<T, ARCH>(a, b) || r == rescaled::<T, ARCH>(b, a),
        T::obeys_eq_spec() && T::obeys_partial_cmp_spec() ==> r == merge_spec::<T, ARCH>(a, b),
{
    let (s1, sum1) = a;
    let (s2, sum2) = b;
    if s1 == ARCH::zero() {
        return (s2, sum2);
    }
    if s2 == ARCH::zero() {
        return (s1, sum1);
    }
    if s1 >= s2 {
        let r = ARCH::scalar_div(s2, s1);
        (s1, ARCH::scalar_add(sum1, ARCH::scalar_mul(sum2, ARCH::scalar_mul(r, r))))
    } else {
        let r = ARCH::scalar_div(s1, s2);
        (s2, ARCH::scalar_add(sum2, ARCH::scalar_mul(sum1, ARCH::scalar_mul(r, r))))
    }
}

/// The norm from a joined partial result: `scale * sqrt(sum)`.
pub fn finish_norm<T: SimdScalar, ARCH: SimdArch<T>>(partial: (T, T)) -> (r: T)
    ensures
        r == ARCH::spec_mul(partial.0, ARCH::spec_sqrt(partial.1)),
{
    ARCH::scalar_mul(partial.0, ARCH::sqrt(partial.1))
}

/// When the architecture adds exactly and its fused multiply-add equals a multiply then
/// an add, `raw_nrm2` returns the sum, in order, of the squares of `x[i] * (1 / scale)`.
pub proof fn lemma_raw_nrm2_adds_up<T: SimdScalar, A: SimdArch<T>>(xs: Seq<T>, scale: T)
    requires
        lanes_supported::<T, A>(),
        add_is_exact::<T, A>(),
        fma_is_exact::<T, A>(),
    ensures
        raw_nrm2_spec::<T, A>(xs, scale) == arch_sum::<T, A>(
            |i: int|
                A::spec_mul(
                    A::spec_mul(xs[i], A::spec_div(A::spec_one(), scale)),
                    A::spec_mul(xs[i], A::spec_div(A::spec_one(), scale)),
                ),
            0,
            xs.len() as int,
        ),
{
    let inv = A::spec_div(A::spec_one(), scale);
    lemma_arch_blocked_sums::<T, A>(
        |i: int| A::spec_mul(A::spec_mul(xs[i], inv), A::spec_mul(xs[i], inv)),
        |acc: T, i: int| A::spec_fma(A::spec_mul(xs[i], inv), A::spec_mul(xs[i], inv), acc),
        |s: T, i: int| A::spec_add(s, A::spec_mul(A::spec_mul(xs[i], inv), A::spec_mul(xs[i], inv))),
        xs.len() as int,
    );
}

/// The sum of squares a partial norm `(scale, sum)` stands for: `scale * scale * sum`.
pub open spec fn partial_square<T: SimdScalar, A: SimdArch<T>>(p: (T, T)) -> T {
    A::spec_mul(A::spec_mul(p.0, p.0), p.1)
}

/// The sum of the squares of the elements of `xs`.
pub open spec fn sum_of_squares<T: SimdScalar, A: SimdArch<T>>(xs: Seq<T>) -> T {
    arch_sum::<T, A>(|i: int| A::spec_mul(xs[i], xs[i]), 0, xs.len() as int)
}

/// With a non-zero scale `m`, `m * m` times the scaled sum of squares is the sum of
/// squares, and the scaled sum is non-negative.
proof fn lemma_rescale_raw<T: SimdScalar, A: SimdArch<T>>(xs: Seq<T>, m: T)
    requires
        lanes_supported::<T, A>(),
        max_is_total::<T, A>(),
        add_is_exact::<T, A>(),
        fma_is_exact::<T, A>(),
        is_exact_field::<T, A>(),
        m != A::spec_zero(),
    ensures
        A::spec_mul(A::spec_mul(m, m), raw_nrm2_spec::<T, A>(xs, m)) == sum_of_squares::<T, A>(xs),
        non_negative::<T, A>(raw_nrm2_spec::<T, A>(xs, m)),
{
    let n = xs.len() as int;
    let inv = A::spec_div(A::spec_one(), m);
    let g = |i: int| A::spec_mul(A::spec_mul(xs[i], inv), A::spec_mul(xs[i], inv));
    let sq = |i: int| A::spec_mul(xs[i], xs[i]);
    let c = A::spec_mul(m, m);
    let h = |i: int| A::spec_mul(c, g(i));
    lemma_raw_nrm2_adds_up::<T, A>(xs, m);
    assert(raw_nrm2_spec::<T, A>(xs, m) == arch_sum::<T, A>(g, 0, n));
    lemma_scale_sum::<T, A>(c, g, h, 0, n);
    assert forall|i: int| 0 <= i < n implies #[trigger] h(i) == sq(i) by {
        let x = xs[i];
        let v = A::spec_mul(x, inv);
        lemma_square_of_product::<T, A>(m, v);
        // m * (x * inv) == (x * inv) * m == x * (inv * m) == x * 1 == x
        lemma_field_mul::<T, A>(m, v, v);
        lemma_field_mul::<T, A>(x, inv, m);
        lemma_field_mul::<T, A>(A::spec_one(), m, m);
        lemma_field_mul::<T, A>(x, x, x);
        assert(A::spec_mul(inv, m) == A::spec_one());
        assert(A::spec_mul(m, v) == x);
    }
    lemma_range_sum_ext(|a: T, b: T| A::spec_add(a, b), A::spec_zero(), h, sq, 0, n);
    assert forall|i: int| 0 <= i < n implies non_negative::<T, A>(#[trigger] g(i)) by {
        lemma_field_order::<T, A>(A::spec_mul(xs[i], inv), A::spec_mul(xs[i], inv));
    }
    lemma_sum_non_negative::<T, A>(g, 0, n);
}

/// When the largest absolute value is zero, every square is zero and so is their sum.
proof fn lemma_zero_scale_squares<T: SimdScalar, A: SimdArch<T>>(xs: Seq<T>)
    requires
        lanes_supported::<T, A>(),
        max_is_total::<T, A>(),
        abs_above_zero::<T, A>(),
        add_is_exact::<T, A>(),
        is_exact_field::<T, A>(),
        amax_spec::<T, A>(xs) == A::spec_zero(),
    ensures
        sum_of_squares::<T, A>(xs) == A::spec_zero(),
{
    let n = xs.len() as int;
    let sq = |i: int| A::spec_mul(xs[i], xs[i]);
    let z = |k: int| A::spec_zero();
    lemma_amax_is_largest_abs::<T, A>(xs);
    assert forall|i: int| 0 <= i < n implies #[trigger] sq(i) == z(i) by {
        let a = A::spec_abs(xs[i]);
        assert(A::spec_max(a, A::spec_zero()) == A::spec_zero());
        assert(A::spec_max(A::spec_zero(), a) == a);
        lemma_sel_comm(|x: T, y: T| A::spec_max(x, y), a, A::spec_zero());
        lemma_field_mul::<T, A>(xs[i], xs[i], xs[i]);
        lemma_field_mul::<T, A>(A::spec_zero(), A::spec_zero(), A::spec_zero());
    }
    lemma_range_sum_ext(|a: T, b: T| A::spec_add(a, b), A::spec_zero(), sq, z, 0, n);
    lemma_range_sum_zero(|a: T, b: T| A::spec_add(a, b), A::spec_zero(), 0, n);
}

/// When the architecture computes like the real numbers (and its `max` is a total order
/// in which absolute values are not below zero), `nrm2` is the Euclidean norm: it is
/// not negative and its square is the sum of the squares of the elements.
pub proof fn lemma_nrm2_is_euclidean_norm<T: SimdScalar, A: SimdArch<T>>(xs: Seq<T>)
    requires
        lanes_supported::<T, A>(),
        max_is_total::<T, A>(),
        abs_above_zero::<T, A>(),
        eq_is_identity::<T>(),
        add_is_exact::<T, A>(),
        fma_is_exact::<T, A>(),
        is_exact_field::<T, A>(),
    ensures
        non_negative::<T, A>(nrm2_spec::<T, A>(xs)),
        A::spec_mul(nrm2_spec::<T, A>(xs), nrm2_spec::<T, A>(xs)) == sum_of_squares::<T, A>(xs),
{
    let m = amax_spec::<T, A>(xs);
    let r = nrm2_spec::<T, A>(xs);
    let w = lemma_amax_is_largest_abs::<T, A>(xs);
    if m == A::spec_zero() {
        assert(m.eq_spec(&A::spec_zero()));
        lemma_zero_scale_squares::<T, A>(xs);
        lemma_below_refl(|a: T, b: T| A::spec_max(a, b), A::spec_zero());
        lemma_field_mul::<T, A>(A::spec_zero(), A::spec_zero(), A::spec_zero());
    } else {
        assert(!m.eq_spec(&A::spec_zero()));
        let raw = raw_nrm2_spec::<T, A>(xs, m);
        let root = A::spec_sqrt(raw);
        lemma_rescale_raw::<T, A>(xs, m);
        assert(r == A::spec_mul(m, root));
        assert(xs.len() > 0);
        assert(non_negative::<T, A>(A::spec_abs(xs[w])));
        lemma_field_order::<T, A>(raw, raw);
        lemma_field_order::<T, A>(m, root);
        lemma_square_of_product::<T, A>(m, root);
    }
}

/// When the architecture computes like the real numbers (and its `max` is a total order
/// in which absolute values are not below zero), the partial result of a chunk stands
/// for the chunk's sum of squares, with a non-negative scale and scaled sum.
pub proof fn lemma_chunk_norm_stands_for_its_squares<T: SimdScalar, A: SimdArch<T>>(xs: Seq<T>)
    requires
        lanes_supported::<T, A>(),
        max_is_total::<T, A>(),
        abs_above_zero::<T, A>(),
        eq_is_identity::<T>(),
        add_is_exact::<T, A>(),
        fma_is_exact::<T, A>(),
        is_exact_field::<T, A>(),
    ensures
        partial_square::<T, A>(chunk_norm_spec::<T, A>(xs)) == sum_of_squares::<T, A>(xs),
        non_negative::<T, A>(chunk_norm_spec::<T, A>(xs).0),
        non_negative::<T, A>(chunk_norm_spec::<T, A>(xs).1),
{
    let m = amax_spec::<T, A>(xs);
    let w = lemma_amax_is_largest_abs::<T, A>(xs);
    lemma_below_refl(|a: T, b: T| A::spec_max(a, b), A::spec_zero());
    if m == A::spec_zero() {
        assert(m.eq_spec(&A::spec_zero()));
        lemma_zero_scale_squares::<T, A>(xs);
        lemma_field_mul::<T, A>(A::spec_zero(), A::spec_zero(), A::spec_zero());
    } else {
        assert(!m.eq_spec(&A::spec_zero()));
        lemma_rescale_raw::<T, A>(xs, m);
        assert(xs.len() > 0);
        assert(non_negative::<T, A>(A::spec_abs(xs[w])));
    }
}

/// When the architecture computes like the real numbers, rescaling `small` to `big`'s
/// non-zero scale keeps both sums of squares: the result stands for their sum.
pub proof fn lemma_rescaled_keeps_both<T: SimdScalar, A: SimdArch<T>>(big: (T, T), small: (T, T))
    requires
        add_is_exact::<T, A>(),
        is_exact_field::<T, A>(),
        big.0 != A::spec_zero(),
    ensures
        partial_square::<T, A>(rescaled::<T, A>(big, small)) == A::spec_add(
            partial_square::<T, A>(big),
            partial_square::<T, A>(small),
        ),
{
    let (b, qb) = big;
    let (s, qs) = small;
    let q = A::spec_div(s, b);
    let bb = A::spec_mul(b, b);
    let qq = A::spec_mul(q, q);
    // bb * (qb + qs * qq) == bb * qb + bb * (qs * qq)
    lemma_field_mul::<T, A>(bb, qb, A::spec_mul(qs, qq));
    // bb * (qs * qq) == (qs * qq) * bb == qs * (qq * bb)
    lemma_field_mul::<T, A>(bb, A::spec_mul(qs, qq), qs);
    lemma_field_mul::<T, A>(qs, qq, bb);
    // qq * bb == (q * b) * (q * b) == s * s
    lemma_square_of_product::<T, A>(q, b);
    lemma_field_mul::<T, A>(s, b, b);
    lemma_field_mul::<T, A>(qs, A::spec_mul(s, s), qs);
}

/// When the architecture computes like the real numbers and `==` is equality, joining
/// two partial results keeps both sums of squares: the join stands for their sum.
pub proof fn lemma_merge_keeps_both<T: SimdScalar, A: SimdArch<T>>(a: (T, T), b: (T, T))
    requires
        eq_is_identity::<T>(),
        add_is_exact::<T, A>(),
        is_exact_field::<T, A>(),
    ensures
        partial_square::<T, A>(merge_spec::<T, A>(a, b)) == A::spec_add(
            partial_square::<T, A>(a),
            partial_square::<T, A>(b),
        ),
{
    let plus = |x: T, y: T| A::spec_add(x, y);
    let z = A::spec_zero();
    lemma_monoid(plus, z, partial_square::<T, A>(a), partial_square::<T, A>(b), z);
    lemma_monoid(plus, z, partial_square::<T, A>(b), partial_square::<T, A>(a), z);
    if a.0 == z {
        assert(a.0.eq_spec(&z));
        lemma_field_mul::<T, A>(z, z, z);
        lemma_field_mul::<T, A>(a.1, a.1, a.1);
    } else if b.0 == z {
        assert(!a.0.eq_spec(&z) && b.0.eq_spec(&z));
        lemma_field_mul::<T, A>(z, z, z);
        lemma_field_mul::<T, A>(b.1, b.1, b.1);
    } else {
        assert(!a.0.eq_spec(&z) && !b.0.eq_spec(&z));
        lemma_rescaled_keeps_both::<T, A>(a, b);
        lemma_rescaled_keeps_both::<T, A>(b, a);
    }
}

/// When the architecture computes like the real numbers, finishing a partial result
/// with a non-negative scale and sum gives a non-negative norm whose square is the sum
/// of squares it stands for.
pub proof fn lemma_finish_norm_is_root<T: SimdScalar, A: SimdArch<T>>(p: (T, T))
    requires
        is_exact_field::<T, A>(),
        non_negative::<T, A>(p.0),
        non_negative::<T, A>(p.1),
    ensures
        non_negative::<T, A>(A::spec_mul(p.0, A::spec_sqrt(p.1))),
        A::spec_mul(A::spec_mul(p.0, A::spec_sqrt(p.1)), A::spec_mul(p.0, A::spec_sqrt(p.1)))
            == partial_square::<T, A>(p),
{
    let root = A::spec_sqrt(p.1);
    lemma_field_order::<T, A>(p.1, p.1);
    lemma_field_order::<T, A>(p.0, root);
    lemma_square_of_product::<T, A>(p.0, root);
}

/// When the architecture's `max` is a total order in which absolute values are not below
/// zero and `==` is equality, the partial result of a chunk has a zero scale exactly when
/// every element of the chunk has a zero absolute value; otherwise its scale is the
/// absolute value of one of its elements, and no element's absolute value is above it.
pub proof fn lemma_chunk_norm_zero_only_for_zero_chunk<T: SimdScalar, A: SimdArch<T>>(xs: Seq<T>)
    requires
        lanes_supported::<T, A>(),
        max_is_total::<T, A>(),
        abs_above_zero::<T, A>(),
        eq_is_identity::<T>(),
    ensures
        (chunk_norm_spec::<T, A>(xs).0 == A::spec_zero()) <==> (forall|i: int|
            0 <= i < xs.len() ==> #[trigger] A::spec_abs(xs[i]) == A::spec_zero()),
        chunk_norm_spec::<T, A>(xs).0 != A::spec_zero() ==> exists|i: int|
            0 <= i < xs.len() && #[trigger] A::spec_abs(xs[i]) == chunk_norm_spec::<T, A>(xs).0,
        forall|i: int|
            0 <= i < xs.len() ==> A::spec_max(A::spec_abs(#[trigger] xs[i]), chunk_norm_spec::<T, A>(xs).0)
                == chunk_norm_spec::<T, A>(xs).0,
{
    let m = amax_spec::<T, A>(xs);
    let w = lemma_amax_is_largest_abs::<T, A>(xs);
    if m == A::spec_zero() {
        assert(m.eq_spec(&A::spec_zero()));
        assert forall|i: int| 0 <= i < xs.len() implies #[trigger] A::spec_abs(xs[i]) == A::spec_zero() by {
            let a = A::spec_abs(xs[i]);
            assert(A::spec_max(a, A::spec_zero()) == A::spec_zero());
            assert(A::spec_max(A::spec_zero(), a) == a);
            lemma_sel_comm(|x: T, y: T| A::spec_max(x, y), a, A::spec_zero());
        }
    } else {
        assert(!m.eq_spec(&A::spec_zero()));
        assert(xs.len() > 0);
        assert(A::spec_abs(xs[w]) == chunk_norm_spec::<T, A>(xs).0);
    }
}

/// When the architecture computes like the real numbers and `==` is equality, joining two
/// partial results with non-negative scales and sums gives one with a non-negative scale
/// and sum.
pub proof fn lemma_merge_keeps_non_negative<T: SimdScalar, A: SimdArch<T>>(a: (T, T), b: (T, T))
    requires
        eq_is_identity::<T>(),
        is_exact_field::<T, A>(),
        non_negative::<T, A>(a.0),
        non_negative::<T, A>(a.1),
        non_negative::<T, A>(b.0),
        non_negative::<T, A>(b.1),
    ensures
        non_negative::<T, A>(merge_spec::<T, A>(a, b).0),
        non_negative::<T, A>(merge_spec::<T, A>(a, b).1),
{
    let z = A::spec_zero();
    if a.0 == z {
        assert(a.0.eq_spec(&z));
    } else if b.0 == z {
        assert(!a.0.eq_spec(&z) && b.0.eq_spec(&z));
    } else {
        assert(!a.0.eq_spec(&z) && !b.0.eq_spec(&z));
        let p = A::spec_div(b.0, a.0);
        let q = A::spec_div(a.0, b.0);
        lemma_field_order::<T, A>(p, p);
        lemma_field_order::<T, A>(b.1, A::spec_mul(p, p));
        lemma_field_order::<T, A>(a.1, A::spec_mul(b.1, A::spec_mul(p, p)));
        lemma_field_order::<T, A>(q, q);
        lemma_field_order::<T, A>(a.1, A::spec_mul(q, q));
        lemma_field_order::<T, A>(b.1, A::spec_mul(a.1, A::spec_mul(q, q)));
    }
}

/// The partial result of a chunked `nrm2`: the partial result of each chunk of `size`
/// elements, joined by `merge_chunk_norms` in chunk order from a pair of zeros on.
pub open spec fn chunked_norm_partial<T: SimdScalar, A: SimdArch<T>>(xs: Seq<T>, size: int) -> (T, T) {
    strided_fold(
        (A::spec_zero(), A::spec_zero()),
        0,
        1,
        chunk_count(xs.len() as int, size),
        |acc: (T, T), c: int| merge_spec::<T, A>(acc, chunk_norm_spec::<T, A>(chunk(xs, size, c))),
    )
}

/// Joining the first `c` chunks stands for the sum of their chunks' sums of squares, with
/// a non-negative scale and sum.
proof fn lemma_joined_chunks<T: SimdScalar, A: SimdArch<T>>(
    xs: Seq<T>,
    size: int,
    join: spec_fn((T, T), int) -> (T, T),
    add_part: spec_fn(T, int) -> T,
    c: nat,
)
    requires
        lanes_supported::<T, A>(),
        max_is_total::<T, A>(),
        abs_above_zero::<T, A>(),
        eq_is_identity::<T>(),
        add_is_exact::<T, A>(),
        fma_is_exact::<T, A>(),
        is_exact_field::<T, A>(),
        size > 0,
        c <= chunk_count(xs.len() as int, size),
        forall|acc: (T, T), j: int| #[trigger] join(acc, j)
            == merge_spec::<T, A>(acc, chunk_norm_spec::<T, A>(chunk(xs, size, j))),
        forall|acc: T, j: int| #[trigger] add_part(acc, j) == A::spec_add(
            acc,
            sum_of_squares::<T, A>(chunk(xs, size, j)),
        ),
    ensures
        partial_square::<T, A>(strided_fold((A::spec_zero(), A::spec_zero()), 0, 1, c, join))
            == strided_fold(A::spec_zero(), 0, 1, c, add_part),
        non_negative::<T, A>(strided_fold((A::spec_zero(), A::spec_zero()), 0, 1, c, join).0),
        non_negative::<T, A>(strided_fold((A::spec_zero(), A::spec_zero()), 0, 1, c, join).1),
    decreases c,
{
    let z = A::spec_zero();
    if c == 0 {
        lemma_field_mul::<T, A>(z, z, z);
        lemma_below_refl(|a: T, b: T| A::spec_max(a, b), z);
    } else {
        let c1 = (c - 1) as nat;
        lemma_joined_chunks::<T, A>(xs, size, join, add_part, c1);
        let prev = strided_fold((z, z), 0, 1, c1, join);
        let ch = chunk(xs, size, c1 as int);
        let cn = chunk_norm_spec::<T, A>(ch);
        assert(stride_at(0, 1, c1 as int) == c1);
        lemma_chunk_norm_stands_for_its_squares::<T, A>(ch);
        lemma_merge_keeps_both::<T, A>(prev, cn);
        lemma_merge_keeps_non_negative::<T, A>(prev, cn);
    }
}

/// When the architecture computes like the real numbers (and its `max` is a total order in
/// which absolute values are not below zero, and `==` is equality), a chunked `nrm2`, for
/// any chunk size, is the Euclidean norm of the whole slice: finishing the joined partial
/// result gives a non-negative value whose square is the sum of the squares of all the
/// elements.
pub proof fn lemma_chunked_nrm2_is_euclidean_norm<T: SimdScalar, A: SimdArch<T>>(xs: Seq<T>, size: int)
    requires
        lanes_supported::<T, A>(),
        max_is_total::<T, A>(),
        abs_above_zero::<T, A>(),
        eq_is_identity::<T>(),
        add_is_exact::<T, A>(),
        fma_is_exact::<T, A>(),
        is_exact_field::<T, A>(),
        size > 0,
    ensures
        non_negative::<T, A>(
            A::spec_mul(chunked_norm_partial::<T, A>(xs, size).0, A::spec_sqrt(chunked_norm_partial::<T, A>(xs, size).1)),
        ),
        A::spec_mul(
            A::spec_mul(chunked_norm_partial::<T, A>(xs, size).0, A::spec_sqrt(chunked_norm_partial::<T, A>(xs, size).1)),
            A::spec_mul(chunked_norm_partial::<T, A>(xs, size).0, A::spec_sqrt(chunked_norm_partial::<T, A>(xs, size).1)),
        ) == sum_of_squares::<T, A>(xs),
{
    let n = xs.len() as int;
    let k = chunk_count(n, size);
    let z = A::spec_zero();
    let plus = |a: T, b: T| A::spec_add(a, b);
    let join = |acc: (T, T), c: int| merge_spec::<T, A>(acc, chunk_norm_spec::<T, A>(chunk(xs, size, c)));
    let part = |j: int| sum_of_squares::<T, A>(chunk(xs, size, j));
    let add_part = |acc: T, j: int| A::spec_add(acc, part(j));
    let sq = |i: int| A::spec_mul(xs[i], xs[i]);
    let p = chunked_norm_partial::<T, A>(xs, size);
    lemma_joined_chunks::<T, A>(xs, size, join, add_part, k);
    assert(p == strided_fold((z, z), 0, 1, k, join));
    lemma_finish_norm_is_root::<T, A>(p);
    if n == 0 {
        assert(k == 0);
    } else {
        assert forall|j: int| 0 <= j < k implies #[trigger] part(j) == arch_sum::<T, A>(
            sq,
            chunk_start(size, j),
            chunk_end(n, size, j),
        ) by {
            lemma_chunk_bounds(n, size, j);
            let ch = chunk(xs, size, j);
            let lo = chunk_start(size, j);
            let hi = chunk_end(n, size, j);
            let f = |i: int| A::spec_mul(ch[i], ch[i]);
            assert forall|i: int| 0 <= i < hi - lo implies #[trigger] f(i) == sq(i + lo) by {
                assert(ch[i] == xs[i + lo]);
            }
            lemma_range_sum_shift(plus, z, f, sq, lo, 0, hi - lo);
        }
        lemma_arch_chunk_sums::<T, A>(sq, part, add_part, n, size);
    }
}

} // verus!
