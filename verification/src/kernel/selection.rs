//! The blocked schedule with a selection (`max` or `min` of a total order) as its step,
//! join and tail: its value is the largest element taken.
use crate::kernel::blocked::{
    accumulator, blocked_reduce, combined, lane_folds, lemma_quad_slot, lemma_schedule_bounds,
    lemma_single_slot, quad_count, quad_end, single_count, stride_at, strided_fold, vector_end,
};
use crate::kernel::order::{
    below, is_lane_selection, is_selection, lemma_below_sel, lemma_below_trans, lemma_fold_selects,
    lemma_lane_selection,
};
use vstd::prelude::*;

verus! {

/// Accumulator `j`, lane `k`: above its start lane and every element it takes, and one
/// of them (`w.0`: the start lane; otherwise `w.1` is the index taken).
#[verifier::spinoff_prover]
pub proof fn lemma_accumulator_selects<T>(
    sel: spec_fn(T, T) -> T,
    g: spec_fn(int) -> T,
    step: spec_fn(T, int) -> T,
    n: int,
    start: int,
    init: Seq<T>,
    j: int,
    k: int,
) -> (w: (bool, int))
    requires
        is_selection(sel),
        init.len() > 0,
        0 <= start <= n,
        0 <= j < 4,
        0 <= k < init.len(),
        forall|acc: T, i: int| #[trigger] step(acc, i) == sel(acc, g(i)),
    ensures
        below(sel, init[k], accumulator(n, start, init, j, step)[k]),
        forall|b: int|
            0 <= b < quad_count(n, start, init.len() as int) ==> below(
                sel,
                g(
                    #[trigger] stride_at(
                        start + j * (init.len() as int) + k,
                        4 * (init.len() as int),
                        b,
                    ),
                ),
                accumulator(n, start, init, j, step)[k],
            ),
        j == 0 ==> forall|t: int|
            0 <= t < single_count(n, start, init.len() as int) ==> below(
                sel,
                g(
                    #[trigger] stride_at(
                        quad_end(n, start, init.len() as int) + k,
                        init.len() as int,
                        t,
                    ),
                ),
                accumulator(n, start, init, j, step)[k],
            ),
        w.0 ==> accumulator(n, start, init, j, step)[k] == init[k],
        !w.0 ==> start <= w.1 < vector_end(n, start, init.len() as int) && accumulator(
            n,
            start,
            init,
            j,
            step,
        )[k] == g(w.1),
{
    let lanes = init.len() as int;
    lemma_schedule_bounds(n, start, lanes);
    let q = quad_count(n, start, lanes);
    let qe = quad_end(n, start, lanes);
    let s = single_count(n, start, lanes);
    let ve = vector_end(n, start, lanes);
    let first = start + j * lanes + k;
    let qf = strided_fold(init[k], first, 4 * lanes, q, step);
    let quads = lane_folds(init, start + j * lanes, 4 * lanes, q, step);
    assert(quads[k] == qf);
    let wq = lemma_fold_selects(sel, g, step, init[k], first, 4 * lanes, q);
    let wq_idx = stride_at(first, 4 * lanes, wq);
    if wq != -1 {
        assert(start <= wq_idx < qe) by (nonlinear_arith)
            requires
                wq_idx == start + j * lanes + k + 4 * lanes * wq,
                0 <= j < 4,
                0 <= k < lanes,
                0 <= wq < q,
                qe == start + 4 * lanes * q,
        ;
    }
    if j == 0 {
        let acc = accumulator(n, start, init, j, step);
        assert(acc == lane_folds(quads, qe, lanes, s, step));
        assert(acc[k] == strided_fold(qf, qe + k, lanes, s, step));
        let ws = lemma_fold_selects(sel, g, step, qf, qe + k, lanes, s);
        lemma_below_trans(sel, init[k], qf, acc[k]);
        assert forall|b: int| 0 <= b < q implies below(
            sel,
            g(#[trigger] stride_at(first, 4 * lanes, b)),
            acc[k],
        ) by {
            lemma_below_trans(sel, g(stride_at(first, 4 * lanes, b)), qf, acc[k]);
        }
        if ws != -1 {
            let idx = stride_at(qe + k, lanes, ws);
            assert(qe <= idx < ve) by (nonlinear_arith)
                requires
                    idx == qe + k + lanes * ws,
                    0 <= k < lanes,
                    0 <= ws < s,
                    ve == qe + lanes * s,
            ;
            (false, idx)
        } else if wq != -1 {
            (false, wq_idx)
        } else {
            (true, 0)
        }
    } else {
        assert(accumulator(n, start, init, j, step) == quads);
        if wq != -1 {
            (false, wq_idx)
        } else {
            (true, 0)
        }
    }
}

/// The blocked schedule with `sel` as step, join and tail: its value is above every
/// start lane and every element `g(i)` for `i` in `start..n`, and is one of them
/// (`w.0`: a start lane, `w.1` which; otherwise `w.1` is the index).
#[verifier::spinoff_prover]
pub proof fn lemma_blocked_selects<T>(
    sel: spec_fn(T, T) -> T,
    g: spec_fn(int) -> T,
    step: spec_fn(T, int) -> T,
    comb: spec_fn(T, T) -> T,
    reduce: spec_fn(Seq<T>) -> T,
    tail: spec_fn(T, int) -> T,
    n: int,
    start: int,
    init: Seq<T>,
) -> (w: (bool, int))
    requires
        is_selection(sel),
        is_lane_selection(sel, reduce, init.len()),
        init.len() > 0,
        0 <= start <= n,
        forall|acc: T, i: int| #[trigger] step(acc, i) == sel(acc, g(i)),
        forall|acc: T, i: int| #[trigger] tail(acc, i) == sel(acc, g(i)),
        forall|a: T, b: T| #[trigger] comb(a, b) == sel(a, b),
    ensures
        forall|k: int|
            0 <= k < init.len() ==> below(
                sel,
                #[trigger] init[k],
                blocked_reduce(n, start, init, step, comb, reduce, tail),
            ),
        forall|i: int|
            start <= i < n ==> below(
                sel,
                #[trigger] g(i),
                blocked_reduce(n, start, init, step, comb, reduce, tail),
            ),
        w.0 ==> 0 <= w.1 < init.len() && blocked_reduce(n, start, init, step, comb, reduce, tail)
            == init[w.1],
        !w.0 ==> start <= w.1 < n && blocked_reduce(n, start, init, step, comb, reduce, tail) == g(
            w.1,
        ),
{
    let lanes = init.len() as int;
    lemma_schedule_bounds(n, start, lanes);
    let qe = quad_end(n, start, lanes);
    let ve = vector_end(n, start, lanes);
    let c = combined(n, start, init, step, comb);
    let r0 = reduce(c);
    let m = blocked_reduce(n, start, init, step, comb, reduce, tail);
    assert(c.len() == lanes);
    let wt = lemma_fold_selects(sel, g, tail, r0, ve, 1, (n - ve) as nat);
    let kr = lemma_lane_selection(sel, reduce, c);
    assert forall|k: int| 0 <= k < lanes implies below(sel, #[trigger] c[k], m) by {
        lemma_below_trans(sel, c[k], r0, m);
    }
    assert forall|k: int| 0 <= k < lanes implies below(sel, #[trigger] init[k], m) by {
        lemma_combined_lane_selects(sel, step, comb, n, start, init, k);
        lemma_accumulator_selects(sel, g, step, n, start, init, 1, k);
        let a1 = accumulator(n, start, init, 1, step)[k];
        lemma_below_trans(sel, init[k], a1, c[k]);
        lemma_below_trans(sel, init[k], c[k], m);
    }
    assert forall|i: int| start <= i < n implies below(sel, #[trigger] g(i), m) by {
        if i < qe {
            let slot = lemma_quad_slot(n, start, lanes, i);
            let (j, k, b) = slot;
            lemma_accumulator_selects(sel, g, step, n, start, init, j, k);
            lemma_combined_lane_selects(sel, step, comb, n, start, init, k);
            let aj = accumulator(n, start, init, j, step)[k];
            assert(below(sel, g(stride_at(start + j * lanes + k, 4 * lanes, b)), aj));
            lemma_below_trans(sel, g(i), aj, c[k]);
            lemma_below_trans(sel, g(i), c[k], m);
        } else if i < ve {
            let slot = lemma_single_slot(n, start, lanes, i);
            let (k, t) = slot;
            lemma_accumulator_selects(sel, g, step, n, start, init, 0, k);
            lemma_combined_lane_selects(sel, step, comb, n, start, init, k);
            let a0 = accumulator(n, start, init, 0, step)[k];
            assert(below(sel, g(stride_at(qe + k, lanes, t)), a0));
            lemma_below_trans(sel, g(i), a0, c[k]);
            lemma_below_trans(sel, g(i), c[k], m);
        } else {
            assert(i == stride_at(ve, 1, i - ve));
        }
    }
    if wt != -1 {
        (false, stride_at(ve, 1, wt))
    } else {
        let j = lemma_combined_lane_selects(sel, step, comb, n, start, init, kr);
        let wa = lemma_accumulator_selects(sel, g, step, n, start, init, j, kr);
        if wa.0 {
            (true, kr)
        } else {
            (false, wa.1)
        }
    }
}

/// Lane `k` of the combined register is above the lane `k` of every accumulator, and
/// equals the one of accumulator `j`.
pub proof fn lemma_combined_lane_selects<T>(
    sel: spec_fn(T, T) -> T,
    step: spec_fn(T, int) -> T,
    comb: spec_fn(T, T) -> T,
    n: int,
    start: int,
    init: Seq<T>,
    k: int,
) -> (j: int)
    requires
        is_selection(sel),
        0 <= k < init.len(),
        forall|a: T, b: T| #[trigger] comb(a, b) == sel(a, b),
    ensures
        0 <= j < 4,
        combined(n, start, init, step, comb)[k] == accumulator(n, start, init, j, step)[k],
        forall|jj: int|
            0 <= jj < 4 ==> below(
                sel,
                #[trigger] accumulator(n, start, init, jj, step)[k],
                combined(n, start, init, step, comb)[k],
            ),
{
    let a0 = accumulator(n, start, init, 0, step)[k];
    let a1 = accumulator(n, start, init, 1, step)[k];
    let a2 = accumulator(n, start, init, 2, step)[k];
    let a3 = accumulator(n, start, init, 3, step)[k];
    let c = combined(n, start, init, step, comb)[k];
    let l01 = sel(a0, a1);
    let l23 = sel(a2, a3);
    assert(c == sel(l01, l23));
    lemma_below_sel(sel, a0, a1);
    lemma_below_sel(sel, a2, a3);
    lemma_below_sel(sel, l01, l23);
    lemma_below_trans(sel, a0, l01, c);
    lemma_below_trans(sel, a1, l01, c);
    lemma_below_trans(sel, a2, l23, c);
    lemma_below_trans(sel, a3, l23, c);
    assert forall|jj: int| 0 <= jj < 4 implies below(
        sel,
        #[trigger] accumulator(n, start, init, jj, step)[k],
        c,
    ) by {
        if jj == 0 {
        } else if jj == 1 {
        } else if jj == 2 {
        } else {
        }
    }
    if c == a0 {
        0
    } else if c == a1 {
        1
    } else if c == a2 {
        2
    } else {
        3
    }
}

} // verus!
