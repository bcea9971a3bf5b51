//! Largest element of a slice.
use crate::arch::{lanes_supported, SimdArch, SimdScalar};
use crate::kernel::blocked::{
    accumulator, blocked_reduce, combined, lane_folds, lemma_quad_count, lemma_single_count, quad_end,
    stride_at, strided_fold,
};
use crate::kernel::chunks::{chunk, chunk_count, chunk_start, lemma_chunk_bounds, lemma_chunk_of};
use crate::kernel::order::{lemma_below_antisym, lemma_below_trans, lemma_fold_selects, max_is_total};
use crate::kernel::selection::lemma_blocked_selects;
use vstd::prelude::*;

verus! {

/// The value `max` computes on a non-empty `xs`: for fewer elements than one register a
/// left-to-right `scalar_max` scan, otherwise the blocked schedule of `max` started from
/// the first register.
pub open spec fn max_spec<T: SimdScalar, A: SimdArch<T>>(xs: Seq<T>) -> T {
    if xs.len() < A::LANES {
        strided_fold(xs[0], 1, 1, (xs.len() - 1) as nat, |m: T, i: int| A::spec_max(m, xs[i]))
    } else {
        blocked_max_spec::<T, A>(xs)
    }
}

/// The blocked schedule of `max` over `xs`, the accumulators started from its first
/// register.
pub open spec fn blocked_max_spec<T: SimdScalar, A: SimdArch<T>>(xs: Seq<T>) -> T {
    blocked_reduce(
        xs.len() as int,
        A::LANES as int,
        xs.subrange(0, A::LANES as int),
        |acc: T, i: int| A::spec_max(acc, xs[i]),
        |a: T, b: T| A::spec_max(a, b),
        |lanes: Seq<T>| A::spec_reduce_max(lanes),
        |m: T, i: int| A::spec_max(m, xs[i]),
    )
}

/// The register-wide part of `max` and `argmax`: the largest element of a slice that
/// holds at least one register.
pub fn blocked_max<T: SimdScalar, ARCH: SimdArch<T>>(x: &[T]) -> (r: T)
    requires
        lanes_supported::<T, ARCH>(),
        ARCH::LANES <= x@.len(),
    ensures
        r == blocked_max_spec::<T, ARCH>(x@),
{
    let len = x.len();
    let lanes = ARCH::LANES;
    let quad = lanes * 4;
    let ghost n = len as int;
    let ghost l = lanes as int;
    let ghost init = x@.subrange(0, l);
    let ghost step = |acc: T, i: int| ARCH::spec_max(acc, x@[i]);

    let first = ARCH::loadu(x, 0);
    let mut acc0 = first;
    let mut acc1 = first;
    let mut acc2 = first;
    let mut acc3 = first;
    proof {
        assert(ARCH::lanes_of(acc0) =~= lane_folds(init, l, 4 * l, 0, step));
        assert(ARCH::lanes_of(acc1) =~= lane_folds(init, 2 * l, 4 * l, 0, step));
        assert(ARCH::lanes_of(acc2) =~= lane_folds(init, 3 * l, 4 * l, 0, step));
        assert(ARCH::lanes_of(acc3) =~= lane_folds(init, 4 * l, 4 * l, 0, step));
    }

    let mut i: usize = lanes;
    let ghost mut b: int = 0;
    while quad <= len - i
        invariant
            len == x@.len(),
            n == len,
            l == lanes,
            lanes == ARCH::LANES,
            lanes_supported::<T, ARCH>(),
            quad == 4 * l,
            l <= i <= len,
            0 <= b,
            i == l + 4 * l * b,
            init == x@.subrange(0, l),
            step == (|acc: T, i: int| ARCH::spec_max(acc, x@[i])),
            ARCH::lanes_of(acc0) == lane_folds(init, l, 4 * l, b as nat, step),
            ARCH::lanes_of(acc1) == lane_folds(init, 2 * l, 4 * l, b as nat, step),
            ARCH::lanes_of(acc2) == lane_folds(init, 3 * l, 4 * l, b as nat, step),
            ARCH::lanes_of(acc3) == lane_folds(init, 4 * l, 4 * l, b as nat, step),
        decreases len - i,
    {
        let x0 = ARCH::loadu(x, i);
        let x1 = ARCH::loadu(x, i + lanes);
        let x2 = ARCH::loadu(x, i + lanes * 2);
        let x3 = ARCH::loadu(x, i + lanes * 3);

        acc0 = ARCH::max(acc0, x0);
        acc1 = ARCH::max(acc1, x1);
        acc2 = ARCH::max(acc2, x2);
        acc3 = ARCH::max(acc3, x3);

        proof {
            assert(4 * l * (b + 1) == 4 * l * b + 4 * l) by (nonlinear_arith);
            assert(ARCH::lanes_of(acc0) =~= lane_folds(init, l, 4 * l, (b + 1) as nat, step));
            assert(ARCH::lanes_of(acc1) =~= lane_folds(init, 2 * l, 4 * l, (b + 1) as nat, step));
            assert(ARCH::lanes_of(acc2) =~= lane_folds(init, 3 * l, 4 * l, (b + 1) as nat, step));
            assert(ARCH::lanes_of(acc3) =~= lane_folds(init, 4 * l, 4 * l, (b + 1) as nat, step));
            b = b + 1;
        }
        i += quad;
    }

    proof {
        lemma_quad_count(n, l, l, b);
    }
    let ghost qe = i as int;
    let ghost quads0 = ARCH::lanes_of(acc0);
    let ghost mut t: int = 0;
    while lanes <= len - i
        invariant
            len == x@.len(),
            n == len,
            l == lanes,
            lanes == ARCH::LANES,
            lanes_supported::<T, ARCH>(),
            qe == quad_end(n, l, l),
            qe <= i <= len,
            0 <= t,
            i == qe + l * t,
            step == (|acc: T, i: int| ARCH::spec_max(acc, x@[i])),
            ARCH::lanes_of(acc0) == lane_folds(quads0, qe, l, t as nat, step),
            quads0.len() == l,
        decreases len - i,
    {
        let x0 = ARCH::loadu(x, i);
        acc0 = ARCH::max(acc0, x0);
        proof {
            assert(l * (t + 1) == l * t + l) by (nonlinear_arith);
            assert(ARCH::lanes_of(acc0) =~= lane_folds(quads0, qe, l, (t + 1) as nat, step));
            t = t + 1;
        }
        i += lanes;
    }

    proof {
        lemma_single_count(n, l, l, t);
        assert(ARCH::lanes_of(acc0) =~= accumulator(n, l, init, 0, step));
        assert(ARCH::lanes_of(acc1) =~= accumulator(n, l, init, 1, step));
        assert(ARCH::lanes_of(acc2) =~= accumulator(n, l, init, 2, step));
        assert(ARCH::lanes_of(acc3) =~= accumulator(n, l, init, 3, step));
    }

    let acc0 = ARCH::max(acc0, acc1);
    let acc1 = ARCH::max(acc2, acc3);
    let acc = ARCH::max(acc0, acc1);
    let mut max = ARCH::reduce_max(acc);

    proof {
        let comb = |a: T, b: T| ARCH::spec_max(a, b);
        assert(ARCH::lanes_of(acc) =~= combined(n, l, init, step, comb));
    }
    let ghost v = i as int;
    let ghost r0 = max;
    while i < len
        invariant
            len == x@.len(),
            v <= i <= len,
            max == strided_fold(r0, v, 1, (i - v) as nat, |m: T, i: int| ARCH::spec_max(m, x@[i])),
        decreases len - i,
    {
        max = ARCH::scalar_max(max, x[i]);
        i += 1;
    }
    max
}

/// The largest element of a non-empty `x`, by the architecture's `max`.
pub fn max<T: SimdScalar, ARCH: SimdArch<T>>(x: &[T]) -> (r: T)
    requires
        lanes_supported::<T, ARCH>(),
        x@.len() > 0,
    ensures
        r == max_spec::<T, ARCH>(x@),
{
    let len = x.len();
    if len < ARCH::LANES {
        let mut max_val = x[0];
        let mut i: usize = 1;
        while i < len
            invariant
                len == x@.len(),
                1 <= i <= len,
                max_val == strided_fold(
                    x@[0],
                    1,
                    1,
                    (i - 1) as nat,
                    |m: T, i: int| ARCH::spec_max(m, x@[i]),
                ),
            decreases len - i,
        {
            max_val = ARCH::scalar_max(max_val, x[i]);
            i += 1;
        }
        return max_val;
    }
    blocked_max::<T, ARCH>(x)
}

/// When the architecture's `max` is the maximum of a total order, `max` returns the
/// largest element: it is one of the elements (at index `w`) and every element is below
/// it.
pub proof fn lemma_max_is_largest<T: SimdScalar, A: SimdArch<T>>(xs: Seq<T>) -> (w: int)
    requires
        lanes_supported::<T, A>(),
        xs.len() > 0,
        max_is_total::<T, A>(),
    ensures
        0 <= w < xs.len(),
        xs[w] == max_spec::<T, A>(xs),
        forall|i: int|
            0 <= i < xs.len() ==> A::spec_max(#[trigger] xs[i], max_spec::<T, A>(xs))
                == max_spec::<T, A>(xs),
{
    let sel = |a: T, b: T| A::spec_max(a, b);
    let g = |i: int| xs[i];
    let n = xs.len() as int;
    let m = max_spec::<T, A>(xs);
    if n < A::LANES {
        let step = |m: T, i: int| A::spec_max(m, xs[i]);
        let w = lemma_fold_selects(sel, g, step, xs[0], 1, 1, (n - 1) as nat);
        assert forall|i: int| 0 <= i < n implies A::spec_max(#[trigger] xs[i], m) == m by {
            if i > 0 {
                assert(i == stride_at(1, 1, i - 1));
                assert(g(stride_at(1, 1, i - 1)) == xs[i]);
            }
        }
        if w == -1 {
            0
        } else {
            stride_at(1, 1, w)
        }
    } else {
        let l = A::LANES as int;
        let init = xs.subrange(0, l);
        let w = lemma_blocked_selects(
            sel,
            g,
            |acc: T, i: int| A::spec_max(acc, xs[i]),
            |a: T, b: T| A::spec_max(a, b),
            |lanes: Seq<T>| A::spec_reduce_max(lanes),
            |m: T, i: int| A::spec_max(m, xs[i]),
            n,
            l,
            init,
        );
        assert(m == blocked_reduce(
            n,
            l,
            init,
            |acc: T, i: int| A::spec_max(acc, xs[i]),
            |a: T, b: T| A::spec_max(a, b),
            |lanes: Seq<T>| A::spec_reduce_max(lanes),
            |m: T, i: int| A::spec_max(m, xs[i]),
        ));
        assert forall|i: int| 0 <= i < n implies A::spec_max(#[trigger] xs[i], m) == m by {
            if i < l {
                assert(init[i] == xs[i]);
            } else {
                assert(g(i) == xs[i]);
            }
        }
        w.1
    }
}

/// The value of a chunked `max`: the `max` of each chunk of `size` elements, joined by the
/// architecture's `max` from the first chunk on.
pub open spec fn chunked_max_spec<T: SimdScalar, A: SimdArch<T>>(xs: Seq<T>, size: int) -> T {
    strided_fold(
        max_spec::<T, A>(chunk(xs, size, 0)),
        1,
        1,
        (chunk_count(xs.len() as int, size) - 1) as nat,
        |acc: T, c: int| A::spec_max(acc, max_spec::<T, A>(chunk(xs, size, c))),
    )
}

/// When the architecture's `max` is the maximum of a total order, joining the `max` of
/// the chunks gives the `max` of the whole slice, whatever the chunk size.
pub proof fn lemma_chunked_max_matches<T: SimdScalar, A: SimdArch<T>>(xs: Seq<T>, size: int)
    requires
        lanes_supported::<T, A>(),
        max_is_total::<T, A>(),
        xs.len() > 0,
        size > 0,
    ensures
        chunked_max_spec::<T, A>(xs, size) == max_spec::<T, A>(xs),
{
    let n = xs.len() as int;
    let sel = |a: T, b: T| A::spec_max(a, b);
    let g = |c: int| max_spec::<T, A>(chunk(xs, size, c));
    let k = chunk_count(n, size);
    let w = lemma_max_is_largest::<T, A>(xs);
    let m = max_spec::<T, A>(xs);
    lemma_chunk_of(n, size, 0);
    lemma_chunk_bounds(n, size, 0);
    let f = chunked_max_spec::<T, A>(xs, size);
    let wf = lemma_fold_selects(
        sel,
        g,
        |acc: T, c: int| A::spec_max(acc, max_spec::<T, A>(chunk(xs, size, c))),
        g(0),
        1,
        1,
        (k - 1) as nat,
    );
    // The joined value is the maximum of one chunk, hence an element, hence below `m`.
    let cf = if wf == -1 {
        0
    } else {
        stride_at(1, 1, wf)
    };
    assert(f == g(cf));
    lemma_chunk_bounds(n, size, cf);
    let chf = chunk(xs, size, cf);
    let jf = lemma_max_is_largest::<T, A>(chf);
    assert(chf[jf] == xs[chunk_start(size, cf) + jf]);
    assert(A::spec_max(xs[chunk_start(size, cf) + jf], m) == m);
    // The element holding `m` is below the maximum of its chunk, hence below `f`.
    let cw = lemma_chunk_of(n, size, w);
    lemma_chunk_bounds(n, size, cw);
    let chw = chunk(xs, size, cw);
    let jw = lemma_max_is_largest::<T, A>(chw);
    assert(chw[w - chunk_start(size, cw)] == xs[w]);
    if cw > 0 {
        assert(cw == stride_at(1, 1, cw - 1));
    }
    lemma_below_trans(sel, m, g(cw), f);
    lemma_below_antisym(sel, f, m);
}

} // verus!
