//! Largest absolute value in a slice.
use crate::arch::{lanes_supported, SimdArch, SimdScalar};
use crate::kernel::blocked::{
    accumulator, blocked_reduce, combined, lane_folds, lemma_quad_count, lemma_single_count, quad_end,
    stride_at, strided_fold,
};
use crate::kernel::chunks::{chunk, chunk_count, chunk_start, lemma_chunk_bounds, lemma_chunk_of};
use crate::kernel::order::{lemma_below_antisym, lemma_below_trans, lemma_fold_selects, max_is_total};
use crate::kernel::selection::lemma_blocked_selects;
use vstd::prelude::*;

verus! {

/// The value `amax` computes on `xs`: the blocked schedule of `max` over the absolute
/// values, started from zero.
pub open spec fn amax_spec<T: SimdScalar, A: SimdArch<T>>(xs: Seq<T>) -> T {
    blocked_reduce(
        xs.len() as int,
        0,
        Seq::new(A::LANES as nat, |k: int| A::spec_zero()),
        |acc: T, i: int| A::spec_max(acc, A::spec_abs(xs[i])),
        |a: T, b: T| A::spec_max(a, b),
        |lanes: Seq<T>| A::spec_reduce_max(lanes),
        |m: T, i: int| A::spec_max(m, A::spec_abs(xs[i])),
    )
}

/// The largest absolute value in `x` (zero for an empty slice).
pub fn amax<T: SimdScalar, ARCH: SimdArch<T>>(x: &[T]) -> (r: T)
    requires
        lanes_supported::<T, ARCH>(),
    ensures
        r == amax_spec::<T, ARCH>(x@),
{
    let len = x.len();
    let lanes = ARCH::LANES;
    let quad = lanes * 4;
    let ghost n = len as int;
    let ghost l = lanes as int;
    let ghost init = Seq::new(ARCH::LANES as nat, |k: int| ARCH::spec_zero());
    let ghost step = |acc: T, i: int| ARCH::spec_max(acc, ARCH::spec_abs(x@[i]));

    let mut acc0 = ARCH::setzero();
    let mut acc1 = ARCH::setzero();
    let mut acc2 = ARCH::setzero();
    let mut acc3 = ARCH::setzero();

    let mut i: usize = 0;
    let ghost mut b: int = 0;
    while quad <= len - i
        invariant
            len == x@.len(),
            n == len,
            l == lanes,
            lanes == ARCH::LANES,
            lanes_supported::<T, ARCH>(),
            quad == 4 * l,
            i <= len,
            0 <= b,
            i == 4 * l * b,
            init == Seq::new(ARCH::LANES as nat, |k: int| ARCH::spec_zero()),
            step == (|acc: T, i: int| ARCH::spec_max(acc, ARCH::spec_abs(x@[i]))),
            ARCH::lanes_of(acc0) == lane_folds(init, 0, 4 * l, b as nat, step),
            ARCH::lanes_of(acc1) == lane_folds(init, l, 4 * l, b as nat, step),
            ARCH::lanes_of(acc2) == lane_folds(init, 2 * l, 4 * l, b as nat, step),
            ARCH::lanes_of(acc3) == lane_folds(init, 3 * l, 4 * l, b as nat, step),
        decreases len - i,
    {
        let x0 = ARCH::loadu(x, i);
        let x1 = ARCH::loadu(x, i + lanes);
        let x2 = ARCH::loadu(x, i + lanes * 2);
        let x3 = ARCH::loadu(x, i + lanes * 3);

        let v0 = ARCH::abs(x0);
        let v1 = ARCH::abs(x1);
        let v2 = ARCH::abs(x2);
        let v3 = ARCH::abs(x3);

        acc0 = ARCH::max(acc0, v0);
        acc1 = ARCH::max(acc1, v1);
        acc2 = ARCH::max(acc2, v2);
        acc3 = ARCH::max(acc3, v3);

        proof {
            assert(4 * l * (b + 1) == 4 * l * b + 4 * l) by (nonlinear_arith);
            assert(ARCH::lanes_of(acc0) =~= lane_folds(init, 0, 4 * l, (b + 1) as nat, step));
            assert(ARCH::lanes_of(acc1) =~= lane_folds(init, l, 4 * l, (b + 1) as nat, step));
            assert(ARCH::lanes_of(acc2) =~= lane_folds(init, 2 * l, 4 * l, (b + 1) as nat, step));
            assert(ARCH::lanes_of(acc3) =~= lane_folds(init, 3 * l, 4 * l, (b + 1) as nat, step));
            b = b + 1;
        }
        i += quad;
    }

    proof {
        lemma_quad_count(n, 0, l, b);
    }
    let ghost qe = i as int;
    let ghost quads0 = ARCH::lanes_of(acc0);
    let ghost mut t: int = 0;
    while lanes <= len - i
        invariant
            len == x@.len(),
            n == len,
            l == lanes,
            lanes == ARCH::LANES,
            lanes_supported::<T, ARCH>(),
            qe == quad_end(n, 0, l),
            qe <= i <= len,
            0 <= t,
            i == qe + l * t,
            step == (|acc: T, i: int| ARCH::spec_max(acc, ARCH::spec_abs(x@[i]))),
            ARCH::lanes_of(acc0) == lane_folds(quads0, qe, l, t as nat, step),
            quads0.len() == l,
        decreases len - i,
    {
        let x0 = ARCH::loadu(x, i);
        let v0 = ARCH::abs(x0);
        acc0 = ARCH::max(acc0, v0);

        proof {
            assert(l * (t + 1) == l * t + l) by (nonlinear_arith);
            assert(ARCH::lanes_of(acc0) =~= lane_folds(quads0, qe, l, (t + 1) as nat, step));
            t = t + 1;
        }
        i += lanes;
    }

    proof {
        lemma_single_count(n, 0, l, t);
        assert(ARCH::lanes_of(acc0) =~= accumulator(n, 0, init, 0, step));
        assert(ARCH::lanes_of(acc1) =~= accumulator(n, 0, init, 1, step));
        assert(ARCH::lanes_of(acc2) =~= accumulator(n, 0, init, 2, step));
        assert(ARCH::lanes_of(acc3) =~= accumulator(n, 0, init, 3, step));
    }

    let acc0 = ARCH::max(acc0, acc1);
    let acc1 = ARCH::max(acc2, acc3);
    let acc = ARCH::max(acc0, acc1);
    let mut max = ARCH::reduce_max(acc);

    proof {
        let comb = |a: T, b: T| ARCH::spec_max(a, b);
        assert(ARCH::lanes_of(acc) =~= combined(n, 0, init, step, comb));
    }
    let ghost v = i as int;
    let ghost r0 = max;
    while i < len
        invariant
            len == x@.len(),
            v <= i <= len,
            max == strided_fold(r0, v, 1, (i - v) as nat, |m: T, i: int| ARCH::spec_max(m, ARCH::spec_abs(x@[i]))),
        decreases len - i,
    {
        max = ARCH::scalar_max(max, ARCH::scalar_abs(x[i]));
        i += 1;
    }
    max
}

/// Absolute values are never below zero in the order of `max`.
pub open spec fn abs_above_zero<T: SimdScalar, A: SimdArch<T>>() -> bool {
    forall|a: T| #[trigger] A::spec_max(A::spec_zero(), A::spec_abs(a)) == A::spec_abs(a)
}

/// When the architecture's `max` is the maximum of a total order in which absolute values
/// are not below zero, `amax` returns the largest absolute value: every absolute value is
/// below it, it is the absolute value of the element at `w` when there is one, and zero
/// for an empty slice.
pub proof fn lemma_amax_is_largest_abs<T: SimdScalar, A: SimdArch<T>>(xs: Seq<T>) -> (w: int)
    requires
        lanes_supported::<T, A>(),
        max_is_total::<T, A>(),
        abs_above_zero::<T, A>(),
    ensures
        forall|i: int|
            0 <= i < xs.len() ==> A::spec_max(A::spec_abs(#[trigger] xs[i]), amax_spec::<T, A>(xs))
                == amax_spec::<T, A>(xs),
        xs.len() == 0 ==> amax_spec::<T, A>(xs) == A::spec_zero(),
        xs.len() > 0 ==> 0 <= w < xs.len() && amax_spec::<T, A>(xs) == A::spec_abs(xs[w]),
{
    let sel = |a: T, b: T| A::spec_max(a, b);
    let g = |i: int| A::spec_abs(xs[i]);
    let n = xs.len() as int;
    let init = Seq::new(A::LANES as nat, |k: int| A::spec_zero());
    let m = amax_spec::<T, A>(xs);
    let wb = lemma_blocked_selects(
        sel,
        g,
        |acc: T, i: int| A::spec_max(acc, A::spec_abs(xs[i])),
        |a: T, b: T| A::spec_max(a, b),
        |lanes: Seq<T>| A::spec_reduce_max(lanes),
        |m: T, i: int| A::spec_max(m, A::spec_abs(xs[i])),
        n,
        0,
        init,
    );
    assert forall|i: int| 0 <= i < n implies A::spec_max(A::spec_abs(#[trigger] xs[i]), m) == m by {
        assert(g(i) == A::spec_abs(xs[i]));
    }
    if wb.0 {
        assert(m == A::spec_zero());
        if n > 0 {
            assert(g(0) == A::spec_abs(xs[0]));
            assert(A::spec_max(A::spec_zero(), A::spec_abs(xs[0])) == A::spec_abs(xs[0]));
            lemma_below_antisym(sel, A::spec_abs(xs[0]), m);
        }
        0
    } else {
        assert(g(wb.1) == A::spec_abs(xs[wb.1]));
        wb.1
    }
}

/// The value of a chunked `amax`: the `amax` of each chunk of `size` elements, joined by
/// the architecture's `max` from zero on.
pub open spec fn chunked_amax_spec<T: SimdScalar, A: SimdArch<T>>(xs: Seq<T>, size: int) -> T {
    strided_fold(
        A::spec_zero(),
        0,
        1,
        chunk_count(xs.len() as int, size),
        |acc: T, c: int| A::spec_max(acc, amax_spec::<T, A>(chunk(xs, size, c))),
    )
}

/// Under the conditions of `lemma_amax_is_largest_abs`, joining the `amax` of the chunks
/// from zero gives the `amax` of the whole slice, whatever the chunk size.
pub proof fn lemma_chunked_amax_matches<T: SimdScalar, A: SimdArch<T>>(xs: Seq<T>, size: int)
    requires
        lanes_supported::<T, A>(),
        max_is_total::<T, A>(),
        abs_above_zero::<T, A>(),
        xs.len() > 0,
        size > 0,
    ensures
        chunked_amax_spec::<T, A>(xs, size) == amax_spec::<T, A>(xs),
{
    let n = xs.len() as int;
    let sel = |a: T, b: T| A::spec_max(a, b);
    let g = |c: int| amax_spec::<T, A>(chunk(xs, size, c));
    let k = chunk_count(n, size);
    let w = lemma_amax_is_largest_abs::<T, A>(xs);
    let m = amax_spec::<T, A>(xs);
    lemma_chunk_of(n, size, 0);
    let f = chunked_amax_spec::<T, A>(xs, size);
    let wf = lemma_fold_selects(
        sel,
        g,
        |acc: T, c: int| A::spec_max(acc, amax_spec::<T, A>(chunk(xs, size, c))),
        A::spec_zero(),
        0,
        1,
        k,
    );
    // `f` is zero or the `amax` of one chunk: below `m` either way.
    if wf == -1 {
        assert(A::spec_max(A::spec_zero(), A::spec_abs(xs[w])) == A::spec_abs(xs[w]));
    } else {
        let cf = stride_at(0, 1, wf);
        lemma_chunk_bounds(n, size, cf);
        let chf = chunk(xs, size, cf);
        let jf = lemma_amax_is_largest_abs::<T, A>(chf);
        assert(chf[jf] == xs[chunk_start(size, cf) + jf]);
        assert(A::spec_max(A::spec_abs(xs[chunk_start(size, cf) + jf]), m) == m);
    }
    // `m` is below the `amax` of the chunk holding `w`, hence below `f`.
    let cw = lemma_chunk_of(n, size, w);
    lemma_chunk_bounds(n, size, cw);
    let chw = chunk(xs, size, cw);
    let jw = lemma_amax_is_largest_abs::<T, A>(chw);
    assert(chw[w - chunk_start(size, cw)] == xs[w]);
    assert(cw == stride_at(0, 1, cw));
    lemma_below_trans(sel, m, g(cw), f);
    lemma_below_antisym(sel, f, m);
}

} // verus!
