//! The evaluation order shared by the reduction kernels.
//!
//! Every reduction kernel walks its input in the same blocked schedule: four register
//! accumulators take four consecutive registers per round while a whole block of four
//! fits, then accumulator 0 takes single registers while one fits, the four accumulators
//! are combined lane by lane as `(acc0 . acc1) . (acc2 . acc3)`, the combined register is
//! reduced to one element, and the elements left over are folded in one at a time.
//! `blocked_reduce` names the value this schedule computes.
use vstd::arithmetic::div_mod::*;
use vstd::prelude::*;

verus! {

/// The `t`-th index of the progression `first`, `first + stride`, ...
pub open spec fn stride_at(first: int, stride: int, t: int) -> int {
    first + stride * t
}

/// Applies `step` to `acc` for the indices `first`, `first + stride`, ... (`count` of
/// them), in that order.
pub open spec fn strided_fold<T>(
    acc: T,
    first: int,
    stride: int,
    count: nat,
    step: spec_fn(T, int) -> T,
) -> T
    decreases count,
{
    if count == 0 {
        acc
    } else {
        step(
            strided_fold(acc, first, stride, (count - 1) as nat, step),
            stride_at(first, stride, count - 1),
        )
    }
}

/// One strided fold per lane: lane `k` starts from `init[k]` at index `first + k`.
pub open spec fn lane_folds<T>(
    init: Seq<T>,
    first: int,
    stride: int,
    count: nat,
    step: spec_fn(T, int) -> T,
) -> Seq<T> {
    Seq::new(init.len(), |k: int| strided_fold(init[k], first + k, stride, count, step))
}

/// How many blocks of four registers of `lanes` elements fit in `start..n`.
pub open spec fn quad_count(n: int, start: int, lanes: int) -> nat {
    if n <= start || lanes <= 0 {
        0
    } else {
        ((n - start) / (4 * lanes)) as nat
    }
}

/// Where the blocks of four registers end.
pub open spec fn quad_end(n: int, start: int, lanes: int) -> int {
    start + 4 * lanes * quad_count(n, start, lanes)
}

/// How many single registers fit after the blocks of four.
pub open spec fn single_count(n: int, start: int, lanes: int) -> nat {
    let qe = quad_end(n, start, lanes);
    if n <= qe || lanes <= 0 {
        0
    } else {
        ((n - qe) / lanes) as nat
    }
}

/// Where the register-wide part of the schedule ends; the elements from here on are
/// taken one at a time.
pub open spec fn vector_end(n: int, start: int, lanes: int) -> int {
    quad_end(n, start, lanes) + lanes * single_count(n, start, lanes)
}

/// Accumulator `j` (0 to 3) at the end of the register-wide part, every lane started
/// from `init`.
pub open spec fn accumulator<T>(
    n: int,
    start: int,
    init: Seq<T>,
    j: int,
    step: spec_fn(T, int) -> T,
) -> Seq<T> {
    let lanes = init.len() as int;
    let quads = lane_folds(init, start + j * lanes, 4 * lanes, quad_count(n, start, lanes), step);
    if j == 0 {
        lane_folds(quads, quad_end(n, start, lanes), lanes, single_count(n, start, lanes), step)
    } else {
        quads
    }
}

/// `op` applied lane by lane.
pub open spec fn lanewise<T>(a: Seq<T>, b: Seq<T>, op: spec_fn(T, T) -> T) -> Seq<T> {
    Seq::new(a.len(), |k: int| op(a[k], b[k]))
}

/// The four accumulators combined as `(acc0 . acc1) . (acc2 . acc3)`.
pub open spec fn combined<T>(
    n: int,
    start: int,
    init: Seq<T>,
    step: spec_fn(T, int) -> T,
    comb: spec_fn(T, T) -> T,
) -> Seq<T> {
    lanewise(
        lanewise(accumulator(n, start, init, 0, step), accumulator(n, start, init, 1, step), comb),
        lanewise(accumulator(n, start, init, 2, step), accumulator(n, start, init, 3, step), comb),
        comb,
    )
}

/// The value of the blocked schedule on indices `start..n`: lane-wise `step` into the
/// accumulators started from `init`, `comb` to join them, `reduce` to one element, and
/// `tail` for the elements after `vector_end`.
pub open spec fn blocked_reduce<T>(
    n: int,
    start: int,
    init: Seq<T>,
    step: spec_fn(T, int) -> T,
    comb: spec_fn(T, T) -> T,
    reduce: spec_fn(Seq<T>) -> T,
    tail: spec_fn(T, int) -> T,
) -> T {
    let v = vector_end(n, start, init.len() as int);
    strided_fold(reduce(combined(n, start, init, step, comb)), v, 1, (n - v) as nat, tail)
}

/// The loop over blocks of four stops after `b` rounds exactly when a further block no
/// longer fits.
pub proof fn lemma_quad_count(n: int, start: int, lanes: int, b: int)
    requires
        lanes > 0,
        0 <= b,
        start <= n,
        start + 4 * lanes * b <= n < start + 4 * lanes * b + 4 * lanes,
    ensures
        quad_count(n, start, lanes) == b,
        quad_end(n, start, lanes) == start + 4 * lanes * b,
{
    let d = 4 * lanes;
    assert(d * b <= n - start < d * b + d) by (nonlinear_arith)
        requires
            start + 4 * lanes * b <= n < start + 4 * lanes * b + 4 * lanes,
            d == 4 * lanes,
    ;
    if n == start {
        assert(b == 0) by (nonlinear_arith)
            requires
                d * b <= 0,
                d > 0,
                b >= 0,
        ;
    } else {
        lemma_fundamental_div_mod_converse(n - start, d, b, n - start - d * b);
    }
}

/// The loop over single registers stops after `t` rounds exactly when a further
/// register no longer fits.
pub proof fn lemma_single_count(n: int, start: int, lanes: int, t: int)
    requires
        lanes > 0,
        0 <= t,
        quad_end(n, start, lanes) <= n,
        quad_end(n, start, lanes) + lanes * t <= n < quad_end(n, start, lanes) + lanes * t
            + lanes,
    ensures
        single_count(n, start, lanes) == t,
        vector_end(n, start, lanes) == quad_end(n, start, lanes) + lanes * t,
{
    let qe = quad_end(n, start, lanes);
    if n == qe {
        assert(t == 0) by (nonlinear_arith)
            requires
                lanes * t <= 0,
                lanes > 0,
                t >= 0,
        ;
    } else {
        assert(lanes * t == t * lanes) by (nonlinear_arith);
        lemma_fundamental_div_mod_converse(n - qe, lanes, t, n - qe - lanes * t);
    }
}

/// What a register store leaves in a sequence: the stored lanes at `i..`, everything
/// else unchanged.
pub proof fn lemma_store<T>(before: Seq<T>, after: Seq<T>, i: int, lanes: Seq<T>)
    requires
        0 <= i,
        i + lanes.len() <= before.len(),
        after == before.subrange(0, i) + lanes + before.subrange(i + lanes.len(), before.len() as int),
    ensures
        after.len() == before.len(),
        forall|k: int| i <= k < i + lanes.len() ==> after[k] == lanes[k - i],
        forall|k: int| 0 <= k < before.len() && !(i <= k < i + lanes.len()) ==> after[k] == before[k],
{
}

/// A position that is a whole number of registers and less than one register from `n`
/// is where the register-wide part of an element-wise kernel ends.
pub proof fn lemma_register_end(n: int, lanes: int, count: int)
    requires
        lanes > 0,
        0 <= count,
        lanes * count <= n < lanes * count + lanes,
    ensures
        lanes * count == n - n % lanes,
{
    assert(lanes * count == count * lanes) by (nonlinear_arith);
    lemma_fundamental_div_mod_converse(n, lanes, count, n - lanes * count);
}

/// The parts of the schedule lie in order inside `start..n`.
pub proof fn lemma_schedule_bounds(n: int, start: int, lanes: int)
    requires
        lanes > 0,
        start <= n,
    ensures
        start <= quad_end(n, start, lanes),
        quad_end(n, start, lanes) <= vector_end(n, start, lanes),
        vector_end(n, start, lanes) <= n,
        n - vector_end(n, start, lanes) < lanes,
{
    let d = 4 * lanes;
    let q = quad_count(n, start, lanes);
    let qe = quad_end(n, start, lanes);
    if n > start {
        lemma_fundamental_div_mod(n - start, d);
        lemma_mod_bound(n - start, d);
        lemma_div_pos_is_pos(n - start, d);
        assert(qe <= n);
    }
    assert(start <= qe) by (nonlinear_arith)
        requires
            qe == start + 4 * lanes * q,
            lanes > 0,
    ;
    let s = single_count(n, start, lanes);
    let ve = vector_end(n, start, lanes);
    if n > qe {
        lemma_fundamental_div_mod(n - qe, lanes);
        lemma_mod_bound(n - qe, lanes);
        lemma_div_pos_is_pos(n - qe, lanes);
        assert(ve <= n);
        assert(n - ve < lanes);
    } else {
        assert(s == 0);
        assert(ve == qe) by (nonlinear_arith)
            requires
                ve == qe + lanes * s,
                s == 0,
        ;
    }
    assert(qe <= ve) by (nonlinear_arith)
        requires
            ve == qe + lanes * s,
            lanes > 0,
    ;
}

/// Which accumulator, lane and round of the blocks of four take index `i`.
pub proof fn lemma_quad_slot(n: int, start: int, lanes: int, i: int) -> (slot: (int, int, int))
    requires
        lanes > 0,
        start <= i < quad_end(n, start, lanes),
    ensures
        0 <= slot.0 < 4,
        0 <= slot.1 < lanes,
        0 <= slot.2 < quad_count(n, start, lanes),
        i == stride_at(start + slot.0 * lanes + slot.1, 4 * lanes, slot.2),
{
    let d = 4 * lanes;
    let q = quad_count(n, start, lanes);
    let off = i - start;
    lemma_fundamental_div_mod(off, d);
    lemma_mod_bound(off, d);
    let b = off / d;
    let r = off % d;
    lemma_fundamental_div_mod(r, lanes);
    lemma_mod_bound(r, lanes);
    let j = r / lanes;
    let k = r % lanes;
    assert(0 <= b) by {
        lemma_div_pos_is_pos(off, d);
    }
    assert(0 <= j < 4) by {
        lemma_div_pos_is_pos(r, lanes);
        if j >= 4 {
            assert(lanes * j >= lanes * 4) by (nonlinear_arith)
                requires
                    j >= 4,
                    lanes > 0,
            ;
        }
    }
    assert(b < q) by {
        if b >= q {
            assert(d * b >= d * q) by (nonlinear_arith)
                requires
                    b >= q,
                    d > 0,
            ;
        }
    }
    assert(i == start + j * lanes + k + 4 * lanes * b) by (nonlinear_arith)
        requires
            off == d * b + r,
            r == lanes * j + k,
            d == 4 * lanes,
            off == i - start,
    ;
    (j, k, b)
}

/// Which lane and round of the single registers take index `i`.
pub proof fn lemma_single_slot(n: int, start: int, lanes: int, i: int) -> (slot: (int, int))
    requires
        lanes > 0,
        quad_end(n, start, lanes) <= i < vector_end(n, start, lanes),
    ensures
        0 <= slot.0 < lanes,
        0 <= slot.1 < single_count(n, start, lanes),
        i == stride_at(quad_end(n, start, lanes) + slot.0, lanes, slot.1),
{
    let qe = quad_end(n, start, lanes);
    let s = single_count(n, start, lanes);
    let off = i - qe;
    lemma_fundamental_div_mod(off, lanes);
    lemma_mod_bound(off, lanes);
    let t = off / lanes;
    let k = off % lanes;
    assert(0 <= t) by {
        lemma_div_pos_is_pos(off, lanes);
    }
    assert(t < s) by {
        if t >= s {
            assert(lanes * t >= lanes * s) by (nonlinear_arith)
                requires
                    t >= s,
                    lanes > 0,
            ;
        }
    }
    (k, t)
}

} // verus!
