//! Total orders given by a selection function (the architecture's `max` or `min` when it
//! picks one of its arguments by a total order), and folds that keep the selected value.
//!
//! For IEEE floating point the architecture's `max` and `min` are such selections away
//! from NaN (and with `-0.0` and `+0.0` taken as one value); the laws built on this are
//! about every `T` and architecture for which it holds.
use crate::arch::{SimdArch, SimdScalar};
use crate::kernel::blocked::{stride_at, strided_fold};
use vstd::std_specs::cmp::PartialEqSpec;
use vstd::prelude::*;

verus! {

/// `sel` picks one of its two arguments, is commutative and associative: it is the
/// maximum of a total order (`a` is below `b` when `sel(a, b) == b`).
#[verifier::opaque]
pub open spec fn is_selection<T>(sel: spec_fn(T, T) -> T) -> bool {
    &&& forall|a: T, b: T| #[trigger] sel(a, b) == a || sel(a, b) == b
    &&& forall|a: T, b: T| #[trigger] sel(a, b) == sel(b, a)
    &&& forall|a: T, b: T, c: T| #[trigger] sel(sel(a, b), c) == sel(a, sel(b, c))
}

/// `a` is below `b` in the order of `sel`.
pub open spec fn below<T>(sel: spec_fn(T, T) -> T, a: T, b: T) -> bool {
    sel(a, b) == b
}

/// `reduce` picks, from a register of `lanes` lanes, a lane above all lanes.
#[verifier::opaque]
pub open spec fn is_lane_selection<T>(
    sel: spec_fn(T, T) -> T,
    reduce: spec_fn(Seq<T>) -> T,
    lanes: nat,
) -> bool {
    forall|v: Seq<T>|
        v.len() == lanes ==> {
            &&& exists|k: int| 0 <= k < v.len() && #[trigger] v[k] == reduce(v)
            &&& forall|k: int| 0 <= k < v.len() ==> below(sel, #[trigger] v[k], reduce(v))
        }
}

pub proof fn lemma_below_refl<T>(sel: spec_fn(T, T) -> T, a: T)
    requires
        is_selection(sel),
    ensures
        below(sel, a, a),
{
    reveal(is_selection);
    assert(sel(a, a) == a || sel(a, a) == a);
}

pub proof fn lemma_below_trans<T>(sel: spec_fn(T, T) -> T, a: T, b: T, c: T)
    requires
        is_selection(sel),
        below(sel, a, b),
        below(sel, b, c),
    ensures
        below(sel, a, c),
{
    reveal(is_selection);
    assert(sel(sel(a, b), c) == sel(a, sel(b, c)));
}

pub proof fn lemma_below_antisym<T>(sel: spec_fn(T, T) -> T, a: T, b: T)
    requires
        is_selection(sel),
        below(sel, a, b),
        below(sel, b, a),
    ensures
        a == b,
{
    reveal(is_selection);
    assert(sel(a, b) == sel(b, a));
}

pub proof fn lemma_sel_comm<T>(sel: spec_fn(T, T) -> T, a: T, b: T)
    requires
        is_selection(sel),
    ensures
        sel(a, b) == sel(b, a),
        sel(a, b) == a || sel(a, b) == b,
{
    reveal(is_selection);
}

/// Both arguments are below what `sel` picks.
pub proof fn lemma_below_sel<T>(sel: spec_fn(T, T) -> T, a: T, b: T)
    requires
        is_selection(sel),
    ensures
        below(sel, a, sel(a, b)),
        below(sel, b, sel(a, b)),
        sel(a, b) == a || sel(a, b) == b,
{
    reveal(is_selection);
    assert(sel(sel(a, a), b) == sel(a, sel(a, b)));
    assert(sel(sel(b, b), a) == sel(b, sel(b, a)));
    assert(sel(a, a) == a || sel(a, a) == a);
    assert(sel(b, b) == b || sel(b, b) == b);
    assert(sel(a, b) == sel(b, a));
}

/// The lane `reduce` picks is one of the lanes and above all of them.
pub proof fn lemma_lane_selection<T>(
    sel: spec_fn(T, T) -> T,
    reduce: spec_fn(Seq<T>) -> T,
    v: Seq<T>,
) -> (k: int)
    requires
        is_lane_selection(sel, reduce, v.len()),
    ensures
        0 <= k < v.len(),
        v[k] == reduce(v),
        forall|kk: int| 0 <= kk < v.len() ==> below(sel, #[trigger] v[kk], reduce(v)),
{
    reveal(is_lane_selection);
    choose|k: int| 0 <= k < v.len() && #[trigger] v[k] == reduce(v)
}

/// A fold that takes the larger of the running value and `g(i)`: the result is above the
/// start and every element taken, and is the start or one of them (`w` says which:
/// -1 for the start, otherwise the round).
pub proof fn lemma_fold_selects<T>(
    sel: spec_fn(T, T) -> T,
    g: spec_fn(int) -> T,
    step: spec_fn(T, int) -> T,
    a: T,
    first: int,
    stride: int,
    count: nat,
) -> (w: int)
    requires
        is_selection(sel),
        forall|acc: T, i: int| #[trigger] step(acc, i) == sel(acc, g(i)),
    ensures
        below(sel, a, strided_fold(a, first, stride, count, step)),
        forall|t: int|
            0 <= t < count ==> below(
                sel,
                g(#[trigger] stride_at(first, stride, t)),
                strided_fold(a, first, stride, count, step),
            ),
        (w == -1 && strided_fold(a, first, stride, count, step) == a) || (0 <= w < count
            && strided_fold(a, first, stride, count, step) == g(stride_at(first, stride, w))),
    decreases count,
{
    if count == 0 {
        lemma_below_refl(sel, a);
        -1
    } else {
        let c1 = (count - 1) as nat;
        let w1 = lemma_fold_selects(sel, g, step, a, first, stride, c1);
        let prev = strided_fold(a, first, stride, c1, step);
        let gi = g(stride_at(first, stride, c1 as int));
        let m = strided_fold(a, first, stride, count, step);
        assert(m == sel(prev, gi));
        lemma_below_sel(sel, prev, gi);
        lemma_below_trans(sel, a, prev, m);
        assert forall|t: int| 0 <= t < count implies below(
            sel,
            g(#[trigger] stride_at(first, stride, t)),
            m,
        ) by {
            if t < c1 {
                lemma_below_trans(sel, g(stride_at(first, stride, t)), prev, m);
            }
        }
        if m == gi {
            c1 as int
        } else {
            w1
        }
    }
}

/// The architecture's `max` is the maximum of a total order and `reduce_max` picks the
/// largest lane.
pub open spec fn max_is_total<T: SimdScalar, A: SimdArch<T>>() -> bool {
    &&& is_selection(|a: T, b: T| A::spec_max(a, b))
    &&& is_lane_selection(
        |a: T, b: T| A::spec_max(a, b),
        |v: Seq<T>| A::spec_reduce_max(v),
        A::LANES as nat,
    )
}

/// The architecture's `min` is the minimum of a total order and `reduce_min` picks the
/// smallest lane.
pub open spec fn min_is_total<T: SimdScalar, A: SimdArch<T>>() -> bool {
    &&& is_selection(|a: T, b: T| A::spec_min(a, b))
    &&& is_lane_selection(
        |a: T, b: T| A::spec_min(a, b),
        |v: Seq<T>| A::spec_reduce_min(v),
        A::LANES as nat,
    )
}

/// `T`'s `==` is specified and is equality of values.
pub open spec fn eq_is_identity<T: PartialEq>() -> bool {
    &&& T::obeys_eq_spec()
    &&& forall|a: T, b: T| #[trigger] a.eq_spec(&b) <==> a == b
}

} // verus!
