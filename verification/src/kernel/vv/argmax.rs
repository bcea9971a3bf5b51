//! Index of the largest element of a slice.
use crate::arch::{lanes_supported, SimdArch, SimdScalar};
use crate::kernel::blocked::strided_fold;
use crate::kernel::chunks::{
    chunk, chunk_count, chunk_end, chunk_start, lemma_chunk_bounds, lemma_chunk_of,
};
use crate::kernel::order::{
    eq_is_identity, lemma_below_antisym, lemma_below_refl, lemma_below_trans, lemma_sel_comm,
    max_is_total,
};
use crate::kernel::vv::max::{blocked_max, blocked_max_spec, lemma_max_is_largest, max_spec};
use vstd::prelude::*;
use vstd::std_specs::cmp::PartialEqSpec;

verus! {

/// The scan `argmax` makes over a slice shorter than one register: the best element of
/// the first `n` elements and its index, where a later element replaces the best one
/// only when `max(best, later)` differs from `best`.
pub open spec fn argmax_scan<T: SimdScalar, A: SimdArch<T>>(xs: Seq<T>, n: nat) -> (T, int)
    decreases n,
{
    if n <= 1 {
        (xs[0], 0)
    } else {
        let prev = argmax_scan::<T, A>(xs, (n - 1) as nat);
        if A::spec_max(prev.0, xs[n - 1]).eq_spec(&prev.0) {
            prev
        } else {
            (xs[n - 1], n - 1)
        }
    }
}

/// The first index below `n` whose element equals `v`, or `n` when there is none.
pub open spec fn first_match<T: SimdScalar>(xs: Seq<T>, v: T, n: nat) -> int
    decreases n,
{
    if n == 0 {
        0
    } else {
        let f = first_match(xs, v, (n - 1) as nat);
        if f < n - 1 {
            f
        } else if xs[n - 1].eq_spec(&v) {
            n - 1
        } else {
            n as int
        }
    }
}

/// Once a match is found below `m`, looking further does not move it.
pub proof fn lemma_first_match_stays<T: SimdScalar>(xs: Seq<T>, v: T, m: nat, n: nat)
    requires
        m <= n,
        first_match(xs, v, m) < m,
    ensures
        first_match(xs, v, n) == first_match(xs, v, m),
    decreases n - m,
{
    if n > m {
        lemma_first_match_stays(xs, v, m, (n - 1) as nat);
    }
}

/// The index `argmax` returns for a non-empty `xs` (when `T`'s `==` has a specification):
/// below one register the index the scan settles on; otherwise the first index holding
/// the blocked maximum, or 0 when no element equals it.
pub open spec fn argmax_spec<T: SimdScalar, A: SimdArch<T>>(xs: Seq<T>) -> int {
    if xs.len() < A::LANES {
        argmax_scan::<T, A>(xs, xs.len()).1
    } else {
        let f = first_match(xs, blocked_max_spec::<T, A>(xs), xs.len());
        if f < xs.len() {
            f
        } else {
            0
        }
    }
}

/// Index of the largest element of a non-empty `x`.
pub fn argmax<T: SimdScalar, ARCH: SimdArch<T>>(x: &[T]) -> (r: usize)
    requires
        lanes_supported::<T, ARCH>(),
        x@.len() > 0,
    ensures
        r < x@.len(),
        T::obeys_eq_spec() ==> r == argmax_spec::<T, ARCH>(x@),
{
    let len = x.len();
    if len < ARCH::LANES {
        let mut best_i: usize = 0;
        let mut best = x[0];
        let mut i: usize = 1;
        while i < len
            invariant
                len == x@.len(),
                1 <= i <= len,
                best_i < i,
                T::obeys_eq_spec() ==> (best, best_i as int) == argmax_scan::<T, ARCH>(
                    x@,
                    i as nat,
                ),
            decreases len - i,
        {
            let value = x[i];
            if ARCH::scalar_max(best, value) != best {
                best = value;
                best_i = i;
            }
            i += 1;
        }
        return best_i;
    }
    let best = blocked_max::<T, ARCH>(x);
    let mut i: usize = 0;
    while i < len
        invariant
            len == x@.len(),
            i <= len,
            len > 0,
            ARCH::LANES <= len,
            best == blocked_max_spec::<T, ARCH>(x@),
            T::obeys_eq_spec() ==> first_match(x@, best, i as nat) == i,
        decreases len - i,
    {
        if x[i] == best {
            proof {
                if T::obeys_eq_spec() {
                    assert(x@[i as int].eq_spec(&best));
                    assert(first_match(x@, best, (i + 1) as nat) == i);
                    lemma_first_match_stays(x@, best, (i + 1) as nat, len as nat);
                }
            }
            return i;
        }
        i += 1;
    }
    0
}

/// The candidate `select_max` keeps (when `T`'s `==` has a specification).
pub open spec fn select_max_spec<T: SimdScalar, A: SimdArch<T>>(left: (T, usize), right: (T, usize)) -> (
    T,
    usize,
) {
    if left.1 == usize::MAX {
        right
    } else if right.1 == usize::MAX || A::spec_max(left.0, right.0).eq_spec(&left.0) {
        left
    } else {
        right
    }
}

/// The candidate of chunk `c` of a chunked `argmax`: the chunk's `argmax` element and
/// its index in the whole slice.
pub open spec fn argmax_candidate_spec<T: SimdScalar, A: SimdArch<T>>(
    xs: Seq<T>,
    size: int,
    c: int,
) -> (T, usize) {
    let ch = chunk(xs, size, c);
    let i = argmax_spec::<T, A>(ch);
    (ch[i], (chunk_start(size, c) + i) as usize)
}

/// The candidate a chunk at position `chunk_index` (of chunks of `chunk_size` elements)
/// contributes to a chunked `argmax`.
pub fn argmax_candidate<T: SimdScalar, ARCH: SimdArch<T>>(
    chunk: &[T],
    chunk_index: usize,
    chunk_size: usize,
) -> (r: (T, usize))
    requires
        lanes_supported::<T, ARCH>(),
        chunk@.len() > 0,
        chunk_index * chunk_size + chunk@.len() <= usize::MAX,
    ensures
        r.1 >= chunk_index * chunk_size,
        r.1 < chunk_index * chunk_size + chunk@.len(),
        r.0 == chunk@[r.1 - chunk_index * chunk_size],
        T::obeys_eq_spec() ==> r.1 == chunk_index * chunk_size + argmax_spec::<T, ARCH>(chunk@),
{
    let i = argmax::<T, ARCH>(chunk);
    (chunk[i], chunk_index * chunk_size + i)
}

/// Joins two (value, index) candidates of a chunked `argmax`, `usize::MAX` marking an
/// empty candidate: the left one wins when `max(left, right)` equals it.
pub fn select_max<T: SimdScalar, ARCH: SimdArch<T>>(left: (T, usize), right: (T, usize)) -> (r: (
    T,
    usize,
))
    ensures
        left.1 == usize::MAX ==> r == right,
        left.1 != usize::MAX && right.1 == usize::MAX ==> r == left,
        r == left || r == right,
        T::obeys_eq_spec() ==> r == select_max_spec::<T, ARCH>(left, right),
{
    if left.1 == usize::MAX {
        return right;
    }
    if right.1 == usize::MAX || ARCH::scalar_max(left.0, right.0) == left.0 {
        left
    } else {
        right
    }
}

/// The first match of a value that occurs at `w` is at or before `w`, holds the value,
/// and no earlier element does.
pub proof fn lemma_first_match_finds<T: SimdScalar>(xs: Seq<T>, v: T, n: nat, w: int)
    requires
        eq_is_identity::<T>(),
        0 <= w < n <= xs.len(),
        xs[w] == v,
    ensures
        0 <= first_match(xs, v, n) <= w,
        xs[first_match(xs, v, n)] == v,
        forall|j: int| 0 <= j < first_match(xs, v, n) ==> xs[j] != v,
    decreases n,
{
    lemma_first_match_misses(xs, v, n);
    if w < n - 1 {
        lemma_first_match_finds(xs, v, (n - 1) as nat, w);
    } else {
        lemma_first_match_misses(xs, v, (n - 1) as nat);
        assert(xs[n - 1].eq_spec(&v));
    }
}

/// Without a match below `n`, `first_match` is `n`.
pub proof fn lemma_first_match_misses<T: SimdScalar>(xs: Seq<T>, v: T, n: nat)
    requires
        eq_is_identity::<T>(),
        n <= xs.len(),
    ensures
        0 <= first_match(xs, v, n) <= n,
        first_match(xs, v, n) < n ==> xs[first_match(xs, v, n)] == v,
        forall|j: int| 0 <= j < first_match(xs, v, n) ==> xs[j] != v,
    decreases n,
{
    if n > 0 {
        lemma_first_match_misses(xs, v, (n - 1) as nat);
        let f = first_match(xs, v, (n - 1) as nat);
        if f == n - 1 && !xs[n - 1].eq_spec(&v) {
            assert(xs[n - 1] != v);
        }
    }
}

/// The scan over a short slice keeps the first largest element seen so far.
pub proof fn lemma_argmax_scan<T: SimdScalar, A: SimdArch<T>>(xs: Seq<T>, n: nat)
    requires
        max_is_total::<T, A>(),
        eq_is_identity::<T>(),
        1 <= n <= xs.len(),
    ensures
        0 <= argmax_scan::<T, A>(xs, n).1 < n,
        argmax_scan::<T, A>(xs, n).0 == xs[argmax_scan::<T, A>(xs, n).1],
        forall|j: int|
            0 <= j < n ==> A::spec_max(#[trigger] xs[j], argmax_scan::<T, A>(xs, n).0)
                == argmax_scan::<T, A>(xs, n).0,
        forall|j: int|
            0 <= j < argmax_scan::<T, A>(xs, n).1 ==> #[trigger] xs[j] != argmax_scan::<T, A>(
                xs,
                n,
            ).0,
    decreases n,
{
    let sel = |a: T, b: T| A::spec_max(a, b);
    if n == 1 {
        lemma_below_refl(sel, xs[0]);
    } else {
        lemma_argmax_scan::<T, A>(xs, (n - 1) as nat);
        let (b, bi) = argmax_scan::<T, A>(xs, (n - 1) as nat);
        let v = xs[n - 1];
        lemma_sel_comm(sel, b, v);
        if A::spec_max(b, v).eq_spec(&b) {
            assert(A::spec_max(v, b) == b);
        } else {
            assert(A::spec_max(b, v) == v);
            lemma_below_refl(sel, v);
            assert forall|j: int| 0 <= j < n implies A::spec_max(#[trigger] xs[j], v) == v by {
                if j < n - 1 {
                    lemma_below_trans(sel, xs[j], b, v);
                }
            }
            assert forall|j: int| 0 <= j < n - 1 implies #[trigger] xs[j] != v by {
                if xs[j] == v {
                    lemma_below_antisym(sel, b, v);
                    lemma_below_refl(sel, b);
                }
            }
        }
    }
}

/// When `max` is the maximum of a total order and `==` is equality, `argmax` returns
/// the index of the first largest element: every element is below the one at the
/// returned index and no earlier element equals it.
pub proof fn lemma_argmax_is_first_largest<T: SimdScalar, A: SimdArch<T>>(xs: Seq<T>)
    requires
        lanes_supported::<T, A>(),
        xs.len() > 0,
        max_is_total::<T, A>(),
        eq_is_identity::<T>(),
    ensures
        0 <= argmax_spec::<T, A>(xs) < xs.len(),
        forall|j: int|
            0 <= j < xs.len() ==> A::spec_max(#[trigger] xs[j], xs[argmax_spec::<T, A>(xs)])
                == xs[argmax_spec::<T, A>(xs)],
        forall|j: int| 0 <= j < argmax_spec::<T, A>(xs) ==> #[trigger] xs[j] != xs[argmax_spec::<T, A>(xs)],
{
    if xs.len() < A::LANES {
        lemma_argmax_scan::<T, A>(xs, xs.len());
    } else {
        let w = lemma_max_is_largest::<T, A>(xs);
        let m = blocked_max_spec::<T, A>(xs);
        assert(max_spec::<T, A>(xs) == m);
        lemma_first_match_finds(xs, m, xs.len(), w);
    }
}

/// The value of a chunked `argmax`: the candidates of the chunks joined by `select_max`
/// from the empty candidate `(d, usize::MAX)` on.
pub open spec fn chunked_argmax_spec<T: SimdScalar, A: SimdArch<T>>(xs: Seq<T>, size: int, d: T) -> (
    T,
    usize,
) {
    strided_fold(
        (d, usize::MAX),
        0,
        1,
        chunk_count(xs.len() as int, size),
        |acc: (T, usize), c: int| select_max_spec::<T, A>(acc, argmax_candidate_spec::<T, A>(xs, size, c)),
    )
}

/// After the first `c` chunks the joined candidate is the first largest element of them.
proof fn lemma_chunked_argmax_prefix<T: SimdScalar, A: SimdArch<T>>(
    xs: Seq<T>,
    size: int,
    d: T,
    c: nat,
)
    requires
        lanes_supported::<T, A>(),
        max_is_total::<T, A>(),
        eq_is_identity::<T>(),
        xs.len() <= usize::MAX,
        size > 0,
        c <= chunk_count(xs.len() as int, size),
    ensures
        ({
            let acc = strided_fold(
                (d, usize::MAX),
                0,
                1,
                c,
                |acc: (T, usize), c: int|
                    select_max_spec::<T, A>(acc, argmax_candidate_spec::<T, A>(xs, size, c)),
            );
            let hi = if c == 0 {
                0
            } else {
                chunk_end(xs.len() as int, size, c - 1)
            };
            &&& c == 0 ==> acc == (d, usize::MAX)
            &&& c > 0 ==> acc.1 < hi && acc.0 == xs[acc.1 as int]
            &&& forall|j: int| 0 <= j < hi ==> A::spec_max(#[trigger] xs[j], acc.0) == acc.0
            &&& forall|j: int| 0 <= j < acc.1 && c > 0 ==> #[trigger] xs[j] != acc.0
        }),
    decreases c,
{
    let n = xs.len() as int;
    let sel = |a: T, b: T| A::spec_max(a, b);
    let step = |acc: (T, usize), c: int|
        select_max_spec::<T, A>(acc, argmax_candidate_spec::<T, A>(xs, size, c));
    if c > 0 {
        let c1 = (c - 1) as nat;
        lemma_chunked_argmax_prefix::<T, A>(xs, size, d, c1);
        let prev = strided_fold((d, usize::MAX), 0, 1, c1, step);
        let cc = c1 as int;
        lemma_chunk_bounds(n, size, cc);
        if cc > 0 {
            lemma_chunk_bounds(n, size, cc - 1);
        }
        let lo = chunk_start(size, cc);
        let hi = chunk_end(n, size, cc);
        let ch = chunk(xs, size, cc);
        lemma_argmax_is_first_largest::<T, A>(ch);
        let i = argmax_spec::<T, A>(ch);
        let cand = argmax_candidate_spec::<T, A>(xs, size, cc);
        assert(cand.0 == xs[lo + i]);
        assert(cand.1 == lo + i);
        let acc = strided_fold((d, usize::MAX), 0, 1, c, step);
        assert(acc == select_max_spec::<T, A>(prev, cand));
        assert forall|j: int| lo <= j < hi implies A::spec_max(#[trigger] xs[j], cand.0) == cand.0 by {
            assert(ch[j - lo] == xs[j]);
        }
        assert forall|j: int| lo <= j < cand.1 implies #[trigger] xs[j] != cand.0 by {
            assert(ch[j - lo] == xs[j]);
        }
        if c1 == 0 {
            assert(acc == cand);
        } else {
            lemma_sel_comm(sel, prev.0, cand.0);
            if A::spec_max(prev.0, cand.0).eq_spec(&prev.0) {
                assert(acc == prev);
                assert(A::spec_max(cand.0, prev.0) == prev.0);
                assert forall|j: int| 0 <= j < hi implies A::spec_max(#[trigger] xs[j], acc.0)
                    == acc.0 by {
                    if j >= lo {
                        lemma_below_trans(sel, xs[j], cand.0, prev.0);
                    }
                }
            } else {
                assert(acc == cand);
                assert(A::spec_max(prev.0, cand.0) == cand.0);
                assert forall|j: int| 0 <= j < hi implies A::spec_max(#[trigger] xs[j], acc.0)
                    == acc.0 by {
                    if j < lo {
                        lemma_below_trans(sel, xs[j], prev.0, cand.0);
                    }
                }
                assert forall|j: int| 0 <= j < acc.1 && c > 0 implies #[trigger] xs[j] != acc.0 by {
                    if j < lo && xs[j] == cand.0 {
                        lemma_below_antisym(sel, prev.0, cand.0);
                        lemma_below_refl(sel, prev.0);
                    }
                }
            }
        }
    }
}

/// When `max` is the maximum of a total order and `==` is equality, joining the
/// candidates of the chunks by `select_max`, from the empty candidate on, gives the
/// element and index `argmax` gives for the whole slice, whatever the chunk size.
pub proof fn lemma_chunked_argmax_matches<T: SimdScalar, A: SimdArch<T>>(
    xs: Seq<T>,
    size: int,
    d: T,
)
    requires
        lanes_supported::<T, A>(),
        max_is_total::<T, A>(),
        eq_is_identity::<T>(),
        0 < xs.len() <= usize::MAX,
        size > 0,
    ensures
        chunked_argmax_spec::<T, A>(xs, size, d) == (
            xs[argmax_spec::<T, A>(xs)],
            argmax_spec::<T, A>(xs) as usize,
        ),
{
    let n = xs.len() as int;
    let sel = |a: T, b: T| A::spec_max(a, b);
    let k = chunk_count(n, size);
    lemma_chunk_of(n, size, 0);
    lemma_chunk_bounds(n, size, k - 1);
    lemma_chunked_argmax_prefix::<T, A>(xs, size, d, k);
    let acc = chunked_argmax_spec::<T, A>(xs, size, d);
    lemma_argmax_is_first_largest::<T, A>(xs);
    let r = argmax_spec::<T, A>(xs);
    let f = acc.1 as int;
    if f < r {
        lemma_below_antisym(sel, xs[f], xs[r]);
        assert(false);
    } else if r < f {
        lemma_below_antisym(sel, xs[f], xs[r]);
        assert(false);
    }
}

/// When `max` is the maximum of a total order and `==` is equality, `select_max` is
/// associative and the empty candidate `(d, usize::MAX)` is its identity: the chunk
/// candidates give the same result whatever the grouping of the joins.
pub proof fn lemma_select_max_associative<T: SimdScalar, A: SimdArch<T>>(
    a: (T, usize),
    b: (T, usize),
    c: (T, usize),
    d: T,
)
    requires
        max_is_total::<T, A>(),
        eq_is_identity::<T>(),
    ensures
        select_max_spec::<T, A>(select_max_spec::<T, A>(a, b), c) == select_max_spec::<T, A>(
            a,
            select_max_spec::<T, A>(b, c),
        ),
        select_max_spec::<T, A>((d, usize::MAX), a) == a,
        a.1 != usize::MAX ==> select_max_spec::<T, A>(a, (d, usize::MAX)) == a,
{
    let sel = |x: T, y: T| A::spec_max(x, y);
    lemma_sel_comm(sel, a.0, b.0);
    lemma_sel_comm(sel, b.0, c.0);
    lemma_sel_comm(sel, a.0, c.0);
    lemma_below_refl(sel, a.0);
    lemma_below_refl(sel, b.0);
    lemma_below_refl(sel, c.0);
    if a.1 != usize::MAX && b.1 != usize::MAX && c.1 != usize::MAX {
        if A::spec_max(a.0, b.0) == a.0 && A::spec_max(b.0, c.0) == b.0 {
            lemma_below_trans(sel, c.0, b.0, a.0);
        } else if A::spec_max(a.0, b.0) != a.0 && A::spec_max(b.0, c.0) != b.0 {
            lemma_below_trans(sel, a.0, b.0, c.0);
            if A::spec_max(a.0, c.0) == a.0 {
                lemma_below_antisym(sel, a.0, c.0);
            }
        }
    }
}

} // verus!
