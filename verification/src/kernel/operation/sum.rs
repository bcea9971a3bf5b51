//! Sum of the elements of a slice.
use crate::arch::{lanes_supported, SimdArch, SimdScalar};
use crate::kernel::blocked::{
    accumulator, blocked_reduce, combined, lane_folds, lemma_quad_count, lemma_single_count, quad_end,
    strided_fold,
};
use crate::kernel::chunks::{chunk, chunk_count, chunk_end, chunk_start, lemma_chunk_bounds};
use crate::kernel::exact::{
    add_is_exact, arch_sum, lemma_arch_blocked_sums, lemma_arch_chunk_sums, lemma_range_sum_shift,
};
use vstd::prelude::*;

verus! {

/// The value `sum` computes on `xs`: the blocked schedule of additions.
pub open spec fn sum_spec<T: SimdScalar, A: SimdArch<T>>(xs: Seq<T>) -> T {
    blocked_reduce(
        xs.len() as int,
        0,
        Seq::new(A::LANES as nat, |k: int| A::spec_zero()),
        |acc: T, i: int| A::spec_add(acc, xs[i]),
        |a: T, b: T| A::spec_add(a, b),
        |lanes: Seq<T>| A::spec_horizontal_sum(lanes),
        |acc: T, i: int| A::spec_add(acc, xs[i]),
    )
}

/// Sums `x` with four register accumulators, then the leftover elements one by one.
pub fn sum<T: SimdScalar, ARCH: SimdArch<T>>(x: &[T]) -> (r: T)
    requires
        lanes_supported::<T, ARCH>(),
    ensures
        r == sum_spec::<T, ARCH>(x@),
{
    let len = x.len();
    let lanes = ARCH::LANES;
    let quad = lanes * 4;
    let ghost n = len as int;
    let ghost l = lanes as int;
    let ghost init = Seq::new(ARCH::LANES as nat, |k: int| ARCH::spec_zero());
    let ghost step = |acc: T, i: int| ARCH::spec_add(acc, x@[i]);

    let mut acc0 = ARCH::setzero();
    let mut acc1 = ARCH::setzero();
    let mut acc2 = ARCH::setzero();
    let mut acc3 = ARCH::setzero();

    let mut i: usize = 0;
    let ghost mut b: int = 0;
    while quad <= len - i
        invariant
            len == x@.len(),
            n == len,
            l == lanes,
            lanes == ARCH::LANES,
            lanes_supported::<T, ARCH>(),
            quad == 4 * l,
            i <= len,
            0 <= b,
            i == 4 * l * b,
            init == Seq::new(ARCH::LANES as nat, |k: int| ARCH::spec_zero()),
            step == (|acc: T, i: int| ARCH::spec_add(acc, x@[i])),
            ARCH::lanes_of(acc0) == lane_folds(init, 0, 4 * l, b as nat, step),
            ARCH::lanes_of(acc1) == lane_folds(init, l, 4 * l, b as nat, step),
            ARCH::lanes_of(acc2) == lane_folds(init, 2 * l, 4 * l, b as nat, step),
            ARCH::lanes_of(acc3) == lane_folds(init, 3 * l, 4 * l, b as nat, step),
        decreases len - i,
    {
        let x0 = ARCH::loadu(x, i);
        let x1 = ARCH::loadu(x, i + lanes);
        let x2 = ARCH::loadu(x, i + lanes * 2);
        let x3 = ARCH::loadu(x, i + lanes * 3);

        let ghost p0 = ARCH::lanes_of(acc0);
        let ghost p1 = ARCH::lanes_of(acc1);
        let ghost p2 = ARCH::lanes_of(acc2);
        let ghost p3 = ARCH::lanes_of(acc3);
        acc0 = ARCH::add(acc0, x0);
        acc1 = ARCH::add(acc1, x1);
        acc2 = ARCH::add(acc2, x2);
        acc3 = ARCH::add(acc3, x3);

        proof {
            assert(4 * l * (b + 1) == 4 * l * b + 4 * l) by (nonlinear_arith);
            assert(ARCH::lanes_of(acc0) =~= lane_folds(init, 0, 4 * l, (b + 1) as nat, step));
            assert(ARCH::lanes_of(acc1) =~= lane_folds(init, l, 4 * l, (b + 1) as nat, step));
            assert(ARCH::lanes_of(acc2) =~= lane_folds(init, 2 * l, 4 * l, (b + 1) as nat, step));
            assert(ARCH::lanes_of(acc3) =~= lane_folds(init, 3 * l, 4 * l, (b + 1) as nat, step));
            b = b + 1;
        }
        i += quad;
    }

    proof {
        lemma_quad_count(n, 0, l, b);
    }
    let ghost qe = i as int;
    let ghost quads0 = ARCH::lanes_of(acc0);
    let ghost mut t: int = 0;
    while lanes <= len - i
        invariant
            len == x@.len(),
            n == len,
            l == lanes,
            lanes == ARCH::LANES,
            lanes_supported::<T, ARCH>(),
            qe == quad_end(n, 0, l),
            qe <= i <= len,
            0 <= t,
            i == qe + l * t,
            step == (|acc: T, i: int| ARCH::spec_add(acc, x@[i])),
            ARCH::lanes_of(acc0) == lane_folds(quads0, qe, l, t as nat, step),
            quads0.len() == l,
        decreases len - i,
    {
        let x0 = ARCH::loadu(x, i);
        let ghost p0 = ARCH::lanes_of(acc0);
        acc0 = ARCH::add(acc0, x0);
        proof {
            assert(l * (t + 1) == l * t + l) by (nonlinear_arith);
            assert(ARCH::lanes_of(acc0) =~= lane_folds(quads0, qe, l, (t + 1) as nat, step));
            t = t + 1;
        }
        i += lanes;
    }

    proof {
        lemma_single_count(n, 0, l, t);
        assert(ARCH::lanes_of(acc0) =~= accumulator(n, 0, init, 0, step));
        assert(ARCH::lanes_of(acc1) =~= accumulator(n, 0, init, 1, step));
        assert(ARCH::lanes_of(acc2) =~= accumulator(n, 0, init, 2, step));
        assert(ARCH::lanes_of(acc3) =~= accumulator(n, 0, init, 3, step));
    }

    let acc0 = ARCH::add(acc0, acc1);
    let acc1 = ARCH::add(acc2, acc3);
    let acc = ARCH::add(acc0, acc1);
    let mut sum = ARCH::horizontal_sum(acc);

    proof {
        let comb = |a: T, b: T| ARCH::spec_add(a, b);
        assert(ARCH::lanes_of(acc) =~= combined(n, 0, init, step, comb));
    }
    let ghost v = i as int;
    let ghost r0 = sum;
    while i < len
        invariant
            len == x@.len(),
            v <= i <= len,
            sum == strided_fold(r0, v, 1, (i - v) as nat, |acc: T, i: int| ARCH::spec_add(acc, x@[i])),
        decreases len - i,
    {
        sum = ARCH::scalar_add(sum, x[i]);
        i += 1;
    }
    sum
}

/// When the architecture adds exactly, `sum` returns `x[0] + x[1] + ...` in order.
pub proof fn lemma_sum_adds_up<T: SimdScalar, A: SimdArch<T>>(xs: Seq<T>)
    requires
        lanes_supported::<T, A>(),
        add_is_exact::<T, A>(),
    ensures
        sum_spec::<T, A>(xs) == arch_sum::<T, A>(|i: int| xs[i], 0, xs.len() as int),
{
    lemma_arch_blocked_sums::<T, A>(
        |i: int| xs[i],
        |acc: T, i: int| A::spec_add(acc, xs[i]),
        |acc: T, i: int| A::spec_add(acc, xs[i]),
        xs.len() as int,
    );
}

/// The value of a chunked `sum`: the `sum` of each chunk of `size` elements, added from
/// zero on.
pub open spec fn chunked_sum_spec<T: SimdScalar, A: SimdArch<T>>(xs: Seq<T>, size: int) -> T {
    strided_fold(
        A::spec_zero(),
        0,
        1,
        chunk_count(xs.len() as int, size),
        |acc: T, c: int| A::spec_add(acc, sum_spec::<T, A>(chunk(xs, size, c))),
    )
}

/// When the architecture adds exactly, adding the `sum` of the chunks gives the `sum` of
/// the whole slice, whatever the chunk size.
pub proof fn lemma_chunked_sum_matches<T: SimdScalar, A: SimdArch<T>>(xs: Seq<T>, size: int)
    requires
        lanes_supported::<T, A>(),
        add_is_exact::<T, A>(),
        xs.len() > 0,
        size > 0,
    ensures
        chunked_sum_spec::<T, A>(xs, size) == sum_spec::<T, A>(xs),
{
    let n = xs.len() as int;
    let g = |i: int| xs[i];
    let part = |c: int| sum_spec::<T, A>(chunk(xs, size, c));
    assert forall|j: int| 0 <= j < chunk_count(n, size) implies #[trigger] part(j) == arch_sum::<
        T,
        A,
    >(g, chunk_start(size, j), chunk_end(n, size, j)) by {
        lemma_chunk_bounds(n, size, j);
        let ch = chunk(xs, size, j);
        lemma_sum_adds_up::<T, A>(ch);
        lemma_range_sum_shift(
            |a: T, b: T| A::spec_add(a, b),
            A::spec_zero(),
            |i: int| ch[i],
            g,
            chunk_start(size, j),
            0,
            ch.len() as int,
        );
    }
    lemma_arch_chunk_sums::<T, A>(
        g,
        part,
        |acc: T, c: int| A::spec_add(acc, sum_spec::<T, A>(chunk(xs, size, c))),
        n,
        size,
    );
    lemma_sum_adds_up::<T, A>(xs);
}
} // verus!
