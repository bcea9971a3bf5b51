//! What the summing schedules compute when the architecture's addition is exact: an
//! associative and commutative addition with zero as identity (as on integers, or on
//! floating-point values whose sums are all representable).
use crate::arch::{SimdArch, SimdScalar};
use crate::kernel::order::{lemma_below_refl, max_is_total};
use crate::kernel::chunks::{chunk_count, chunk_end, chunk_start, lemma_chunk_bounds, lemma_chunk_of};
use crate::kernel::blocked::{
    accumulator, blocked_reduce, combined, lane_folds, lemma_schedule_bounds, quad_count, quad_end,
    single_count, stride_at, strided_fold, vector_end,
};
use vstd::prelude::*;

verus! {

/// `plus` is associative and commutative, with `zero` as its identity.
#[verifier::opaque]
pub open spec fn is_commutative_monoid<T>(plus: spec_fn(T, T) -> T, zero: T) -> bool {
    &&& forall|a: T| #[trigger] plus(zero, a) == a
    &&& forall|a: T, b: T| #[trigger] plus(a, b) == plus(b, a)
    &&& forall|a: T, b: T, c: T| #[trigger] plus(plus(a, b), c) == plus(a, plus(b, c))
}

pub proof fn lemma_monoid<T>(plus: spec_fn(T, T) -> T, zero: T, a: T, b: T, c: T)
    requires
        is_commutative_monoid(plus, zero),
    ensures
        plus(zero, a) == a,
        plus(a, zero) == a,
        plus(a, b) == plus(b, a),
        plus(plus(a, b), c) == plus(a, plus(b, c)),
{
    reveal(is_commutative_monoid);
    assert(plus(a, zero) == plus(zero, a));
}

/// `g(lo) + g(lo + 1) + ... + g(hi - 1)`, added from the left starting at `zero`.
pub open spec fn range_sum<T>(
    plus: spec_fn(T, T) -> T,
    zero: T,
    g: spec_fn(int) -> T,
    lo: int,
    hi: int,
) -> T
    decreases hi - lo,
{
    if hi <= lo {
        zero
    } else {
        plus(range_sum(plus, zero, g, lo, hi - 1), g(hi - 1))
    }
}

/// Column `k` of the grid of `h` with `lanes` columns: `h(k) + h(k + lanes) + ...`
/// over `rows` rows.
pub open spec fn column_sum<T>(
    plus: spec_fn(T, T) -> T,
    zero: T,
    h: spec_fn(int) -> T,
    lanes: int,
    k: int,
    rows: nat,
) -> T
    decreases rows,
{
    if rows == 0 {
        zero
    } else {
        plus(column_sum(plus, zero, h, lanes, k, (rows - 1) as nat), h(k + lanes * (rows - 1)))
    }
}

/// Sums that agree term by term are equal.
pub proof fn lemma_range_sum_ext<T>(
    plus: spec_fn(T, T) -> T,
    zero: T,
    f: spec_fn(int) -> T,
    g: spec_fn(int) -> T,
    lo: int,
    hi: int,
)
    requires
        forall|i: int| lo <= i < hi ==> #[trigger] f(i) == g(i),
    ensures
        range_sum(plus, zero, f, lo, hi) == range_sum(plus, zero, g, lo, hi),
    decreases hi - lo,
{
    if hi > lo {
        lemma_range_sum_ext(plus, zero, f, g, lo, hi - 1);
    }
}

/// A sum splits at any point between its bounds.
pub proof fn lemma_range_sum_split<T>(
    plus: spec_fn(T, T) -> T,
    zero: T,
    g: spec_fn(int) -> T,
    lo: int,
    mid: int,
    hi: int,
)
    requires
        is_commutative_monoid(plus, zero),
        lo <= mid <= hi,
    ensures
        range_sum(plus, zero, g, lo, hi) == plus(
            range_sum(plus, zero, g, lo, mid),
            range_sum(plus, zero, g, mid, hi),
        ),
    decreases hi - mid,
{
    if hi == mid {
        lemma_monoid(plus, zero, range_sum(plus, zero, g, lo, mid), zero, zero);
    } else {
        lemma_range_sum_split(plus, zero, g, lo, mid, hi - 1);
        lemma_monoid(
            plus,
            zero,
            range_sum(plus, zero, g, lo, mid),
            range_sum(plus, zero, g, mid, hi - 1),
            g(hi - 1),
        );
    }
}

/// Shifting the terms of a sum shifts its bounds.
pub proof fn lemma_range_sum_shift<T>(
    plus: spec_fn(T, T) -> T,
    zero: T,
    f: spec_fn(int) -> T,
    g: spec_fn(int) -> T,
    off: int,
    lo: int,
    hi: int,
)
    requires
        forall|i: int| lo <= i < hi ==> #[trigger] f(i) == g(i + off),
    ensures
        range_sum(plus, zero, f, lo, hi) == range_sum(plus, zero, g, lo + off, hi + off),
    decreases hi - lo,
{
    if hi > lo {
        lemma_range_sum_shift(plus, zero, f, g, off, lo, hi - 1);
        assert(f(hi - 1) == g(hi - 1 + off));
    }
}

/// The sum of term-wise sums is the sum of the two sums.
pub proof fn lemma_range_sum_add<T>(
    plus: spec_fn(T, T) -> T,
    zero: T,
    p: spec_fn(int) -> T,
    f: spec_fn(int) -> T,
    g: spec_fn(int) -> T,
    lo: int,
    hi: int,
)
    requires
        is_commutative_monoid(plus, zero),
        forall|i: int| #[trigger] p(i) == plus(f(i), g(i)),
    ensures
        range_sum(plus, zero, p, lo, hi) == plus(
            range_sum(plus, zero, f, lo, hi),
            range_sum(plus, zero, g, lo, hi),
        ),
    decreases hi - lo,
{
    if hi <= lo {
        lemma_monoid(plus, zero, zero, zero, zero);
    } else {
        lemma_range_sum_add(plus, zero, p, f, g, lo, hi - 1);
        let sf = range_sum(plus, zero, f, lo, hi - 1);
        let sg = range_sum(plus, zero, g, lo, hi - 1);
        let a = f(hi - 1);
        let b = g(hi - 1);
        // (sf + sg) + (a + b) == (sf + a) + (sg + b)
        lemma_monoid(plus, zero, sf, sg, plus(a, b));
        lemma_monoid(plus, zero, sg, a, b);
        lemma_monoid(plus, zero, a, sg, b);
        lemma_monoid(plus, zero, sf, a, plus(sg, b));
        lemma_monoid(plus, zero, sg, a, zero);
    }
}

/// A strided fold that adds `g(i)` to the running value adds the column sum of its
/// indices.
pub proof fn lemma_fold_adds<T>(
    plus: spec_fn(T, T) -> T,
    zero: T,
    g: spec_fn(int) -> T,
    h: spec_fn(int) -> T,
    step: spec_fn(T, int) -> T,
    a: T,
    base: int,
    k: int,
    stride: int,
    count: nat,
)
    requires
        is_commutative_monoid(plus, zero),
        forall|acc: T, i: int| #[trigger] step(acc, i) == plus(acc, g(i)),
        forall|i: int| #[trigger] h(i) == g(base + i),
    ensures
        strided_fold(a, base + k, stride, count, step) == plus(
            a,
            column_sum(plus, zero, h, stride, k, count),
        ),
    decreases count,
{
    if count == 0 {
        lemma_monoid(plus, zero, a, zero, zero);
    } else {
        let c1 = (count - 1) as nat;
        lemma_fold_adds(plus, zero, g, h, step, a, base, k, stride, c1);
        let idx = k + stride * c1;
        assert(stride_at(base + k, stride, c1 as int) == base + idx);
        assert(h(idx) == g(base + idx));
        lemma_monoid(plus, zero, a, column_sum(plus, zero, h, stride, k, c1), h(idx));
    }
}

/// Summing a grid of `lanes` columns and `rows` rows column by column gives the sum of
/// its `lanes * rows` cells in order.
pub proof fn lemma_grid_sum<T>(
    plus: spec_fn(T, T) -> T,
    zero: T,
    h: spec_fn(int) -> T,
    lanes: int,
    rows: nat,
)
    requires
        is_commutative_monoid(plus, zero),
        lanes >= 0,
    ensures
        range_sum(plus, zero, |k: int| column_sum(plus, zero, h, lanes, k, rows), 0, lanes)
            == range_sum(plus, zero, h, 0, lanes * rows),
    decreases rows,
{
    let cols = |k: int| column_sum(plus, zero, h, lanes, k, rows);
    if rows == 0 {
        lemma_range_sum_ext(plus, zero, cols, |k: int| zero, 0, lanes);
        lemma_range_sum_zero(plus, zero, 0, lanes);
    } else {
        let r1 = (rows - 1) as nat;
        lemma_grid_sum(plus, zero, h, lanes, r1);
        let prev = |k: int| column_sum(plus, zero, h, lanes, k, r1);
        let last = |k: int| h(k + lanes * r1);
        lemma_range_sum_add(plus, zero, cols, prev, last, 0, lanes);
        lemma_range_sum_shift(plus, zero, last, h, lanes * r1, 0, lanes);
        assert(lanes * rows == lanes * r1 + lanes) by (nonlinear_arith)
            requires
                rows == r1 + 1,
        ;
        assert(0 <= lanes * r1) by (nonlinear_arith)
            requires
                lanes >= 0,
        ;
        lemma_range_sum_split(plus, zero, h, 0, lanes * r1, lanes * rows);
    }
}

/// A sum of zeros is zero.
pub proof fn lemma_range_sum_zero<T>(plus: spec_fn(T, T) -> T, zero: T, lo: int, hi: int)
    requires
        is_commutative_monoid(plus, zero),
    ensures
        range_sum(plus, zero, |k: int| zero, lo, hi) == zero,
    decreases hi - lo,
{
    if hi > lo {
        lemma_range_sum_zero(plus, zero, lo, hi - 1);
        lemma_monoid(plus, zero, zero, zero, zero);
    }
}

/// A one-column grid is its column.
pub proof fn lemma_single_column<T>(
    plus: spec_fn(T, T) -> T,
    zero: T,
    h: spec_fn(int) -> T,
    rows: nat,
)
    requires
        is_commutative_monoid(plus, zero),
    ensures
        column_sum(plus, zero, h, 1, 0, rows) == range_sum(plus, zero, h, 0, rows as int),
{
    lemma_grid_sum(plus, zero, h, 1, rows);
    let cols = |k: int| column_sum(plus, zero, h, 1, k, rows);
    assert(range_sum(plus, zero, cols, 0, 1) == plus(range_sum(plus, zero, cols, 0, 0), cols(0)));
    lemma_monoid(plus, zero, cols(0), zero, zero);
}

/// Lane `k` of the combined register, when every step adds: the four column sums of the
/// blocks of four, then the column sum of the single registers.
proof fn lemma_combined_lane_sum<T>(
    plus: spec_fn(T, T) -> T,
    zero: T,
    g: spec_fn(int) -> T,
    step: spec_fn(T, int) -> T,
    comb: spec_fn(T, T) -> T,
    n: int,
    init: Seq<T>,
    k: int,
)
    requires
        is_commutative_monoid(plus, zero),
        init.len() > 0,
        0 <= n,
        0 <= k < init.len(),
        init[k] == zero,
        forall|acc: T, i: int| #[trigger] step(acc, i) == plus(acc, g(i)),
        forall|a: T, b: T| #[trigger] comb(a, b) == plus(a, b),
    ensures
        ({
            let lanes = init.len() as int;
            let quads = |m: int|
                column_sum(plus, zero, |i: int| g(i), 4 * lanes, m, quad_count(n, 0, lanes));
            combined(n, 0, init, step, comb)[k] == plus(
                column_sum(plus, zero, quads, lanes, k, 4),
                column_sum(
                    plus,
                    zero,
                    |i: int| g(quad_end(n, 0, lanes) + i),
                    lanes,
                    k,
                    single_count(n, 0, lanes),
                ),
            )
        }),
{
    let lanes = init.len() as int;
    let q = quad_count(n, 0, lanes);
    let qe = quad_end(n, 0, lanes);
    let sc = single_count(n, 0, lanes);
    let hs = |i: int| g(i);
    let hq = |i: int| g(qe + i);
    let quads = |m: int| column_sum(plus, zero, hs, 4 * lanes, m, q);
    let c0 = quads(k);
    let c1 = quads(k + lanes);
    let c2 = quads(k + lanes * 2);
    let c3 = quads(k + lanes * 3);
    let sq = column_sum(plus, zero, hq, lanes, k, sc);
    // The four accumulators.
    lemma_fold_adds(plus, zero, g, hs, step, zero, 0, k, 4 * lanes, q);
    lemma_fold_adds(plus, zero, g, hs, step, zero, 0, lanes + k, 4 * lanes, q);
    lemma_fold_adds(plus, zero, g, hs, step, zero, 0, 2 * lanes + k, 4 * lanes, q);
    lemma_fold_adds(plus, zero, g, hs, step, zero, 0, 3 * lanes + k, 4 * lanes, q);
    lemma_monoid(plus, zero, c0, zero, zero);
    lemma_monoid(plus, zero, c1, zero, zero);
    lemma_monoid(plus, zero, c2, zero, zero);
    lemma_monoid(plus, zero, c3, zero, zero);
    let qf0 = strided_fold(init[k], k, 4 * lanes, q, step);
    assert(qf0 == c0);
    let quads0 = lane_folds(init, 0, 4 * lanes, q, step);
    assert(quads0[k] == qf0);
    lemma_fold_adds(plus, zero, g, hq, step, c0, qe, k, lanes, sc);
    let a0 = accumulator(n, 0, init, 0, step)[k];
    let a1 = accumulator(n, 0, init, 1, step)[k];
    let a2 = accumulator(n, 0, init, 2, step)[k];
    let a3 = accumulator(n, 0, init, 3, step)[k];
    assert(a0 == plus(c0, sq));
    assert(a1 == c1);
    assert(a2 == c2);
    assert(a3 == c3);
    let cm = combined(n, 0, init, step, comb)[k];
    assert(cm == plus(plus(a0, a1), plus(a2, a3)));
    // The column of the four blocks.
    let col4 = column_sum(plus, zero, quads, lanes, k, 4);
    assert(lanes * 0 == 0);
    assert(lanes * 1 == lanes);
    assert(column_sum(plus, zero, quads, lanes, k, 0) == zero);
    assert(column_sum(plus, zero, quads, lanes, k, 1) == plus(zero, c0));
    assert(column_sum(plus, zero, quads, lanes, k, 2) == plus(plus(zero, c0), c1));
    assert(column_sum(plus, zero, quads, lanes, k, 3) == plus(plus(plus(zero, c0), c1), c2));
    assert(col4 == plus(plus(plus(plus(zero, c0), c1), c2), c3));
    lemma_monoid(plus, zero, c0, c1, c2);
    // ((c0 + sq) + c1) + (c2 + c3) == (((c0 + c1) + c2) + c3) + sq
    lemma_monoid(plus, zero, c0, sq, c1);
    lemma_monoid(plus, zero, sq, c1, zero);
    lemma_monoid(plus, zero, c0, c1, sq);
    let c01 = plus(c0, c1);
    lemma_monoid(plus, zero, c01, sq, plus(c2, c3));
    lemma_monoid(plus, zero, sq, plus(c2, c3), zero);
    lemma_monoid(plus, zero, c01, plus(c2, c3), sq);
    lemma_monoid(plus, zero, c01, c2, c3);
}

/// When every step, join and tail adds and the register reduction sums its lanes in
/// order, the blocked schedule from zero lanes adds up `g(0) + ... + g(n - 1)`.
pub proof fn lemma_blocked_sums<T>(
    plus: spec_fn(T, T) -> T,
    zero: T,
    g: spec_fn(int) -> T,
    step: spec_fn(T, int) -> T,
    comb: spec_fn(T, T) -> T,
    reduce: spec_fn(Seq<T>) -> T,
    tail: spec_fn(T, int) -> T,
    n: int,
    init: Seq<T>,
)
    requires
        is_commutative_monoid(plus, zero),
        init.len() > 0,
        0 <= n,
        forall|k: int| 0 <= k < init.len() ==> #[trigger] init[k] == zero,
        forall|acc: T, i: int| #[trigger] step(acc, i) == plus(acc, g(i)),
        forall|acc: T, i: int| #[trigger] tail(acc, i) == plus(acc, g(i)),
        forall|a: T, b: T| #[trigger] comb(a, b) == plus(a, b),
        forall|v: Seq<T>|
            v.len() == init.len() ==> #[trigger] reduce(v) == range_sum(
                plus,
                zero,
                |k: int| v[k],
                0,
                init.len() as int,
            ),
    ensures
        blocked_reduce(n, 0, init, step, comb, reduce, tail) == range_sum(plus, zero, g, 0, n),
{
    let lanes = init.len() as int;
    lemma_schedule_bounds(n, 0, lanes);
    let q = quad_count(n, 0, lanes);
    let qe = quad_end(n, 0, lanes);
    let sc = single_count(n, 0, lanes);
    let ve = vector_end(n, 0, lanes);
    let hs = |i: int| g(i);
    let hq = |i: int| g(qe + i);
    let hv = |i: int| g(ve + i);
    let quads = |m: int| column_sum(plus, zero, hs, 4 * lanes, m, q);
    let c = combined(n, 0, init, step, comb);
    let lane_f = |k: int| column_sum(plus, zero, quads, lanes, k, 4);
    let lane_s = |k: int| column_sum(plus, zero, hq, lanes, k, sc);
    let lane_c = |k: int| c[k];
    assert forall|k: int| 0 <= k < lanes implies #[trigger] lane_c(k) == plus(lane_f(k), lane_s(k)) by {
        lemma_combined_lane_sum(plus, zero, g, step, comb, n, init, k);
    }
    // Sum over the lanes of the combined register.
    let both = |k: int| plus(lane_f(k), lane_s(k));
    lemma_range_sum_ext(plus, zero, lane_c, both, 0, lanes);
    lemma_range_sum_add(plus, zero, both, lane_f, lane_s, 0, lanes);
    // The blocks of four.
    lemma_grid_sum(plus, zero, quads, lanes, 4);
    assert(lanes * 4 == 4 * lanes);
    lemma_grid_sum(plus, zero, hs, 4 * lanes, q);
    lemma_range_sum_ext(plus, zero, hs, g, 0, 4 * lanes * q);
    // The single registers.
    lemma_grid_sum(plus, zero, hq, lanes, sc);
    lemma_range_sum_shift(plus, zero, hq, g, qe, 0, lanes * sc);
    // The reduction and the tail.
    let r0 = reduce(c);
    assert(c.len() == lanes);
    assert(r0 == range_sum(plus, zero, |k: int| c[k], 0, lanes));
    lemma_range_sum_ext(plus, zero, |k: int| c[k], lane_c, 0, lanes);
    lemma_fold_adds(plus, zero, g, hv, tail, r0, ve, 0, 1, (n - ve) as nat);
    lemma_single_column(plus, zero, hv, (n - ve) as nat);
    lemma_range_sum_shift(plus, zero, hv, g, ve, 0, n - ve);
    assert(stride_at(ve, 1, 0) == ve);
    lemma_range_sum_split(plus, zero, g, 0, qe, ve);
    lemma_range_sum_split(plus, zero, g, 0, ve, n);
}

/// Adding up consecutive chunks one after the other adds up their elements in order.
pub proof fn lemma_chunk_sums<T>(
    plus: spec_fn(T, T) -> T,
    zero: T,
    g: spec_fn(int) -> T,
    part: spec_fn(int) -> T,
    step: spec_fn(T, int) -> T,
    n: int,
    size: int,
    c: nat,
)
    requires
        is_commutative_monoid(plus, zero),
        size > 0,
        c <= chunk_count(n, size),
        forall|acc: T, j: int| #[trigger] step(acc, j) == plus(acc, part(j)),
        forall|j: int|
            0 <= j < chunk_count(n, size) ==> #[trigger] part(j) == range_sum(
                plus,
                zero,
                g,
                chunk_start(size, j),
                chunk_end(n, size, j),
            ),
    ensures
        strided_fold(zero, 0, 1, c, step) == range_sum(
            plus,
            zero,
            g,
            0,
            if c == 0 {
                0
            } else {
                chunk_end(n, size, c - 1)
            },
        ),
    decreases c,
{
    if c > 0 {
        let c1 = (c - 1) as nat;
        lemma_chunk_sums(plus, zero, g, part, step, n, size, c1);
        lemma_chunk_bounds(n, size, c1 as int);
        let lo = chunk_start(size, c1 as int);
        let hi = chunk_end(n, size, c1 as int);
        if c1 > 0 {
            lemma_chunk_bounds(n, size, c1 - 1);
        } else {
            assert(lo == 0);
            lemma_monoid(plus, zero, part(0), zero, zero);
        }
        assert(stride_at(0, 1, c1 as int) == c1);
        lemma_range_sum_split(plus, zero, g, 0, lo, hi);
    }
}

/// The architecture adds exactly: its addition is associative and commutative with
/// zero as identity, and `horizontal_sum` adds the lanes of a register in order.
pub open spec fn add_is_exact<T: SimdScalar, A: SimdArch<T>>() -> bool {
    &&& is_commutative_monoid(|a: T, b: T| A::spec_add(a, b), A::spec_zero())
    &&& forall|v: Seq<T>|
        v.len() == A::LANES ==> #[trigger] A::spec_horizontal_sum(v) == range_sum(
            |a: T, b: T| A::spec_add(a, b),
            A::spec_zero(),
            |k: int| v[k],
            0,
            A::LANES as int,
        )
}

/// The fused multiply-add equals a multiplication followed by an addition.
pub open spec fn fma_is_exact<T: SimdScalar, A: SimdArch<T>>() -> bool {
    forall|a: T, b: T, c: T| #[trigger] A::spec_fma(a, b, c) == A::spec_add(c, A::spec_mul(a, b))
}

/// The sum `g(lo) + ... + g(hi - 1)` with the architecture's addition.
pub open spec fn arch_sum<T: SimdScalar, A: SimdArch<T>>(g: spec_fn(int) -> T, lo: int, hi: int) -> T {
    range_sum(|a: T, b: T| A::spec_add(a, b), A::spec_zero(), g, lo, hi)
}

/// A kernel whose blocked schedule adds `g(i)` everywhere computes `arch_sum` of `g`.
pub proof fn lemma_arch_blocked_sums<T: SimdScalar, A: SimdArch<T>>(
    g: spec_fn(int) -> T,
    step: spec_fn(T, int) -> T,
    tail: spec_fn(T, int) -> T,
    n: int,
)
    requires
        add_is_exact::<T, A>(),
        A::LANES > 0,
        0 <= n,
        forall|acc: T, i: int| #[trigger] step(acc, i) == A::spec_add(acc, g(i)),
        forall|acc: T, i: int| #[trigger] tail(acc, i) == A::spec_add(acc, g(i)),
    ensures
        blocked_reduce(
            n,
            0,
            Seq::new(A::LANES as nat, |k: int| A::spec_zero()),
            step,
            |a: T, b: T| A::spec_add(a, b),
            |lanes: Seq<T>| A::spec_horizontal_sum(lanes),
            tail,
        ) == arch_sum::<T, A>(g, 0, n),
{
    let plus = |a: T, b: T| A::spec_add(a, b);
    let init = Seq::new(A::LANES as nat, |k: int| A::spec_zero());
    lemma_blocked_sums(
        plus,
        A::spec_zero(),
        g,
        step,
        |a: T, b: T| A::spec_add(a, b),
        |lanes: Seq<T>| A::spec_horizontal_sum(lanes),
        tail,
        n,
        init,
    );
}

/// Joining the chunk results of a kernel that computes `arch_sum` of `g` on every chunk
/// gives `arch_sum` of `g` on the whole slice.
pub proof fn lemma_arch_chunk_sums<T: SimdScalar, A: SimdArch<T>>(
    g: spec_fn(int) -> T,
    part: spec_fn(int) -> T,
    step: spec_fn(T, int) -> T,
    n: int,
    size: int,
)
    requires
        add_is_exact::<T, A>(),
        0 < n,
        size > 0,
        forall|acc: T, j: int| #[trigger] step(acc, j) == A::spec_add(acc, part(j)),
        forall|j: int|
            0 <= j < chunk_count(n, size) ==> #[trigger] part(j) == arch_sum::<T, A>(
                g,
                chunk_start(size, j),
                chunk_end(n, size, j),
            ),
    ensures
        strided_fold(A::spec_zero(), 0, 1, chunk_count(n, size), step) == arch_sum::<T, A>(g, 0, n),
{
    let k = chunk_count(n, size);
    lemma_chunk_of(n, size, 0);
    lemma_chunk_bounds(n, size, k - 1);
    lemma_chunk_sums(|a: T, b: T| A::spec_add(a, b), A::spec_zero(), g, part, step, n, size, k);
}

/// `a` is not below zero in the order of the architecture's `max`.
pub open spec fn non_negative<T: SimdScalar, A: SimdArch<T>>(a: T) -> bool {
    A::spec_max(A::spec_zero(), a) == a
}

/// Multiplication is commutative.
#[verifier::opaque]
pub open spec fn mul_commutes<T: SimdScalar, A: SimdArch<T>>() -> bool {
    forall|a: T, b: T| #[trigger] A::spec_mul(a, b) == A::spec_mul(b, a)
}

/// Multiplication is associative.
#[verifier::opaque]
pub open spec fn mul_associates<T: SimdScalar, A: SimdArch<T>>() -> bool {
    forall|a: T, b: T, c: T| #[trigger]
        A::spec_mul(A::spec_mul(a, b), c) == A::spec_mul(a, A::spec_mul(b, c))
}

/// One is the identity of multiplication, and zero absorbs.
#[verifier::opaque]
pub open spec fn mul_units<T: SimdScalar, A: SimdArch<T>>() -> bool {
    &&& forall|a: T| #[trigger] A::spec_mul(A::spec_one(), a) == a
    &&& forall|a: T| #[trigger] A::spec_mul(A::spec_zero(), a) == A::spec_zero()
}

/// Multiplication distributes over addition.
#[verifier::opaque]
pub open spec fn mul_distributes<T: SimdScalar, A: SimdArch<T>>() -> bool {
    forall|a: T, b: T, c: T| #[trigger]
        A::spec_mul(a, A::spec_add(b, c)) == A::spec_add(A::spec_mul(a, b), A::spec_mul(a, c))
}

/// Division undoes multiplication by a non-zero divisor, and an element and its absolute
/// value have the same square.
#[verifier::opaque]
pub open spec fn div_and_abs_exact<T: SimdScalar, A: SimdArch<T>>() -> bool {
    &&& forall|a: T, b: T|
        b != A::spec_zero() ==> #[trigger] A::spec_mul(A::spec_div(a, b), b) == a
    &&& forall|a: T| #[trigger] A::spec_mul(A::spec_abs(a), A::spec_abs(a)) == A::spec_mul(a, a)
}

/// Squares, and sums and products of non-negative elements, are non-negative; the square
/// root of a non-negative element is non-negative and has it as square.
#[verifier::opaque]
pub open spec fn order_exact<T: SimdScalar, A: SimdArch<T>>() -> bool {
    &&& forall|a: T| non_negative::<T, A>(#[trigger] A::spec_mul(a, a))
    &&& forall|a: T, b: T|
        non_negative::<T, A>(a) && non_negative::<T, A>(b) ==> non_negative::<T, A>(
            #[trigger] A::spec_add(a, b),
        )
    &&& forall|a: T, b: T|
        non_negative::<T, A>(a) && non_negative::<T, A>(b) ==> non_negative::<T, A>(
            #[trigger] A::spec_mul(a, b),
        )
    &&& forall|a: T|
        non_negative::<T, A>(a) ==> non_negative::<T, A>(#[trigger] A::spec_sqrt(a))
            && A::spec_mul(A::spec_sqrt(a), A::spec_sqrt(a)) == a
}

/// The architecture computes like the real numbers: multiplication is associative and
/// commutative with one as identity and distributes over addition, zero absorbs,
/// division undoes multiplication by a non-zero divisor, an element and its absolute
/// value have the same square; squares, and sums and products of non-negative elements,
/// are non-negative, and the square root of a non-negative element is non-negative with
/// that element as square.
pub open spec fn is_exact_field<T: SimdScalar, A: SimdArch<T>>() -> bool {
    &&& mul_commutes::<T, A>()
    &&& mul_associates::<T, A>()
    &&& mul_units::<T, A>()
    &&& mul_distributes::<T, A>()
    &&& div_and_abs_exact::<T, A>()
    &&& order_exact::<T, A>()
}

proof fn lemma_mul_comm<T: SimdScalar, A: SimdArch<T>>(a: T, b: T)
    requires
        mul_commutes::<T, A>(),
    ensures
        A::spec_mul(a, b) == A::spec_mul(b, a),
{
    reveal(mul_commutes);
}

proof fn lemma_mul_assoc<T: SimdScalar, A: SimdArch<T>>(a: T, b: T, c: T)
    requires
        mul_associates::<T, A>(),
    ensures
        A::spec_mul(A::spec_mul(a, b), c) == A::spec_mul(a, A::spec_mul(b, c)),
{
    reveal(mul_associates);
}

proof fn lemma_mul_units<T: SimdScalar, A: SimdArch<T>>(a: T)
    requires
        mul_units::<T, A>(),
    ensures
        A::spec_mul(A::spec_one(), a) == a,
        A::spec_mul(A::spec_zero(), a) == A::spec_zero(),
{
    reveal(mul_units);
}

proof fn lemma_mul_distrib<T: SimdScalar, A: SimdArch<T>>(a: T, b: T, c: T)
    requires
        mul_distributes::<T, A>(),
    ensures
        A::spec_mul(a, A::spec_add(b, c)) == A::spec_add(A::spec_mul(a, b), A::spec_mul(a, c)),
{
    reveal(mul_distributes);
}

proof fn lemma_div_abs<T: SimdScalar, A: SimdArch<T>>(a: T, b: T)
    requires
        div_and_abs_exact::<T, A>(),
    ensures
        b != A::spec_zero() ==> A::spec_mul(A::spec_div(a, b), b) == a,
        A::spec_mul(A::spec_abs(a), A::spec_abs(a)) == A::spec_mul(a, a),
{
    reveal(div_and_abs_exact);
}

/// The multiplication facts of `is_exact_field` at `a`, `b`, `c`.
pub proof fn lemma_field_mul<T: SimdScalar, A: SimdArch<T>>(a: T, b: T, c: T)
    requires
        is_exact_field::<T, A>(),
    ensures
        A::spec_mul(a, b) == A::spec_mul(b, a),
        A::spec_mul(A::spec_mul(a, b), c) == A::spec_mul(a, A::spec_mul(b, c)),
        A::spec_mul(A::spec_one(), a) == a,
        A::spec_mul(a, A::spec_one()) == a,
        A::spec_mul(a, A::spec_add(b, c)) == A::spec_add(A::spec_mul(a, b), A::spec_mul(a, c)),
        A::spec_mul(A::spec_zero(), a) == A::spec_zero(),
        A::spec_mul(a, A::spec_zero()) == A::spec_zero(),
        A::spec_mul(A::spec_abs(a), A::spec_abs(a)) == A::spec_mul(a, a),
        b != A::spec_zero() ==> A::spec_mul(A::spec_div(a, b), b) == a,
{
    lemma_mul_comm::<T, A>(a, b);
    lemma_mul_comm::<T, A>(a, A::spec_one());
    lemma_mul_comm::<T, A>(a, A::spec_zero());
    lemma_mul_assoc::<T, A>(a, b, c);
    lemma_mul_units::<T, A>(a);
    lemma_mul_distrib::<T, A>(a, b, c);
    lemma_div_abs::<T, A>(a, b);
}

/// The order facts of `is_exact_field` at `a`, `b`.
pub proof fn lemma_field_order<T: SimdScalar, A: SimdArch<T>>(a: T, b: T)
    requires
        is_exact_field::<T, A>(),
    ensures
        non_negative::<T, A>(A::spec_mul(a, a)),
        non_negative::<T, A>(a) && non_negative::<T, A>(b) ==> non_negative::<T, A>(
            A::spec_add(a, b),
        ),
        non_negative::<T, A>(a) && non_negative::<T, A>(b) ==> non_negative::<T, A>(
            A::spec_mul(a, b),
        ),
        non_negative::<T, A>(a) ==> non_negative::<T, A>(A::spec_sqrt(a)) && A::spec_mul(
            A::spec_sqrt(a),
            A::spec_sqrt(a),
        ) == a,
{
    reveal(order_exact);
}

/// `(a * b) * (a * b) == (a * a) * (b * b)`.
pub proof fn lemma_square_of_product<T: SimdScalar, A: SimdArch<T>>(a: T, b: T)
    requires
        is_exact_field::<T, A>(),
    ensures
        A::spec_mul(A::spec_mul(a, b), A::spec_mul(a, b)) == A::spec_mul(
            A::spec_mul(a, a),
            A::spec_mul(b, b),
        ),
{
    let ab = A::spec_mul(a, b);
    // (a * b) * (a * b) == a * (b * (a * b)) == a * ((b * a) * b) == a * ((a * b) * b)
    //   == a * (a * (b * b)) == (a * a) * (b * b)
    lemma_field_mul::<T, A>(a, b, ab);
    lemma_field_mul::<T, A>(b, a, b);
    lemma_field_mul::<T, A>(a, b, b);
    lemma_field_mul::<T, A>(a, a, A::spec_mul(b, b));
}

/// Multiplying a sum multiplies each term.
pub proof fn lemma_scale_sum<T: SimdScalar, A: SimdArch<T>>(
    c: T,
    g: spec_fn(int) -> T,
    h: spec_fn(int) -> T,
    lo: int,
    hi: int,
)
    requires
        is_exact_field::<T, A>(),
        forall|i: int| lo <= i < hi ==> #[trigger] h(i) == A::spec_mul(c, g(i)),
    ensures
        A::spec_mul(c, arch_sum::<T, A>(g, lo, hi)) == arch_sum::<T, A>(h, lo, hi),
    decreases hi - lo,
{
    if hi <= lo {
        lemma_field_mul::<T, A>(c, c, c);
    } else {
        lemma_scale_sum::<T, A>(c, g, h, lo, hi - 1);
        lemma_field_mul::<T, A>(c, arch_sum::<T, A>(g, lo, hi - 1), g(hi - 1));
    }
}

/// A sum of non-negative terms is non-negative.
pub proof fn lemma_sum_non_negative<T: SimdScalar, A: SimdArch<T>>(
    g: spec_fn(int) -> T,
    lo: int,
    hi: int,
)
    requires
        is_exact_field::<T, A>(),
        max_is_total::<T, A>(),
        forall|i: int| lo <= i < hi ==> non_negative::<T, A>(#[trigger] g(i)),
    ensures
        non_negative::<T, A>(arch_sum::<T, A>(g, lo, hi)),
    decreases hi - lo,
{
    if hi <= lo {
        lemma_below_refl(|a: T, b: T| A::spec_max(a, b), A::spec_zero());
    } else {
        lemma_sum_non_negative::<T, A>(g, lo, hi - 1);
        lemma_field_order::<T, A>(arch_sum::<T, A>(g, lo, hi - 1), g(hi - 1));
    }
}

} // verus!
