//! `y += a * x` over two slices.
use crate::arch::{lanes_supported, SimdArch, SimdScalar};
use crate::kernel::blocked::{lemma_register_end, lemma_store};
use crate::kernel::chunks::{chunk, chunk_count, lemma_chunk_bounds};
use crate::kernel::exact::fma_is_exact;
use vstd::prelude::*;

verus! {

/// What `axpy` leaves in `y`: a fused `x * a + y` for the elements in whole registers
/// (below `n - n % LANES`), `y + x * a` for the rest.
pub open spec fn axpy_spec<T: SimdScalar, A: SimdArch<T>>(ys: Seq<T>, xs: Seq<T>, a: T) -> Seq<T> {
    let n = ys.len() as int;
    Seq::new(
        ys.len(),
        |k: int|
            if k < n - n % (A::LANES as int) {
                A::spec_fma(xs[k], a, ys[k])
            } else {
                A::spec_add(ys[k], A::spec_mul(xs[k], a))
            },
    )
}

/// Adds `a * x` to `y` element by element; the slices have equal length.
pub fn axpy<T: SimdScalar, ARCH: SimdArch<T>>(y: &mut [T], x: &[T], a: T)
    requires
        lanes_supported::<T, ARCH>(),
        old(y)@.len() == x@.len(),
    ensures
        final(y)@ == axpy_spec::<T, ARCH>(old(y)@, x@, a),
{
    let len = x.len();
    let lanes = ARCH::LANES;
    let quad = lanes * 4;
    let ghost l = lanes as int;
    let ghost orig = y@;
    let mem_a = ARCH::set1(a);

    let mut i: usize = 0;
    let ghost mut c: int = 0;
    while quad <= len - i
        invariant
            y@.len() == len,
            x@.len() == len,
            orig.len() == len,
            l == lanes,
            lanes == ARCH::LANES,
            lanes_supported::<T, ARCH>(),
            quad == 4 * l,
            i <= len,
            0 <= c,
            i == l * c,
            ARCH::lanes_of(mem_a) == Seq::new(ARCH::LANES as nat, |k: int| a),
            forall|k: int| 0 <= k < i ==> y@[k] == ARCH::spec_fma(x@[k], a, orig[k]),
            forall|k: int| i <= k < len ==> y@[k] == orig[k],
        decreases len - i,
    {
        let x0 = ARCH::loadu(x, i);
        let x1 = ARCH::loadu(x, i + lanes);
        let x2 = ARCH::loadu(x, i + lanes * 2);
        let x3 = ARCH::loadu(x, i + lanes * 3);

        let y0 = ARCH::loadu(y, i);
        let y1 = ARCH::loadu(y, i + lanes);
        let y2 = ARCH::loadu(y, i + lanes * 2);
        let y3 = ARCH::loadu(y, i + lanes * 3);

        let v0 = ARCH::fmadd(x0, mem_a, y0);
        let v1 = ARCH::fmadd(x1, mem_a, y1);
        let v2 = ARCH::fmadd(x2, mem_a, y2);
        let v3 = ARCH::fmadd(x3, mem_a, y3);

        let ghost s0 = y@;
        ARCH::storeu(y, i, v0);
        proof { lemma_store(s0, y@, i as int, ARCH::lanes_of(v0)); }
        let ghost s1 = y@;
        ARCH::storeu(y, i + lanes, v1);
        proof { lemma_store(s1, y@, i + l, ARCH::lanes_of(v1)); }
        let ghost s2 = y@;
        ARCH::storeu(y, i + lanes * 2, v2);
        proof { lemma_store(s2, y@, i + 2 * l, ARCH::lanes_of(v2)); }
        let ghost s3 = y@;
        ARCH::storeu(y, i + lanes * 3, v3);
        proof { lemma_store(s3, y@, i + 3 * l, ARCH::lanes_of(v3)); }

        proof {
            assert forall|k: int| 0 <= k < i + quad implies y@[k] == ARCH::spec_fma(
                x@[k],
                a,
                orig[k],
            ) by {
                if k >= i + 3 * l {
                } else if k >= i + 2 * l {
                } else if k >= i + l {
                } else if k >= i {
                }
            }
            assert(l * (c + 4) == l * c + 4 * l) by (nonlinear_arith);
            c = c + 4;
        }
        i += quad;
    }

    while lanes <= len - i
        invariant
            y@.len() == len,
            x@.len() == len,
            orig.len() == len,
            l == lanes,
            lanes == ARCH::LANES,
            lanes_supported::<T, ARCH>(),
            i <= len,
            0 <= c,
            i == l * c,
            ARCH::lanes_of(mem_a) == Seq::new(ARCH::LANES as nat, |k: int| a),
            forall|k: int| 0 <= k < i ==> y@[k] == ARCH::spec_fma(x@[k], a, orig[k]),
            forall|k: int| i <= k < len ==> y@[k] == orig[k],
        decreases len - i,
    {
        let x0 = ARCH::loadu(x, i);
        let y0 = ARCH::loadu(y, i);
        let v0 = ARCH::fmadd(x0, mem_a, y0);
        let ghost s0 = y@;
        ARCH::storeu(y, i, v0);
        proof {
            lemma_store(s0, y@, i as int, ARCH::lanes_of(v0));
            assert(l * (c + 1) == l * c + l) by (nonlinear_arith);
            c = c + 1;
        }
        i += lanes;
    }

    proof {
        lemma_register_end(len as int, l, c);
    }
    let ghost v = i as int;
    while i < len
        invariant
            y@.len() == len,
            x@.len() == len,
            orig.len() == len,
            0 <= v <= i <= len,
            forall|k: int| 0 <= k < v ==> y@[k] == ARCH::spec_fma(x@[k], a, orig[k]),
            forall|k: int| v <= k < i ==> y@[k] == ARCH::spec_add(
                orig[k],
                ARCH::spec_mul(x@[k], a),
            ),
            forall|k: int| i <= k < len ==> y@[k] == orig[k],
        decreases len - i,
    {
        let ghost before = y@;
        y[i] = ARCH::scalar_add(y[i], ARCH::scalar_mul(x[i], a));
        proof {
            assert(y@ == before.update(i as int, ARCH::spec_add(orig[i as int], ARCH::spec_mul(x@[i as int], a))));
        }
        i += 1;
    }
    proof {
        assert(y@ =~= axpy_spec::<T, ARCH>(orig, x@, a));
    }
}

/// When the fused multiply-add equals a multiply then an add, `axpy` leaves
/// `y[k] + x[k] * a` in every element, and so applying it chunk by chunk (for any chunk
/// size) leaves the same as applying it to the whole slices.
pub proof fn lemma_chunked_axpy_matches<T: SimdScalar, A: SimdArch<T>>(
    ys: Seq<T>,
    xs: Seq<T>,
    a: T,
    size: int,
    c: int,
)
    requires
        fma_is_exact::<T, A>(),
        ys.len() == xs.len(),
        size > 0,
        0 <= c < chunk_count(xs.len() as int, size),
    ensures
        axpy_spec::<T, A>(ys, xs, a) == Seq::new(
            ys.len(),
            |k: int| A::spec_add(ys[k], A::spec_mul(xs[k], a)),
        ),
        axpy_spec::<T, A>(chunk(ys, size, c), chunk(xs, size, c), a) == chunk(
            axpy_spec::<T, A>(ys, xs, a),
            size,
            c,
        ),
{
    lemma_chunk_bounds(xs.len() as int, size, c);
    assert(axpy_spec::<T, A>(ys, xs, a) =~= Seq::new(
        ys.len(),
        |k: int| A::spec_add(ys[k], A::spec_mul(xs[k], a)),
    ));
    assert(axpy_spec::<T, A>(chunk(ys, size, c), chunk(xs, size, c), a) =~= chunk(
        axpy_spec::<T, A>(ys, xs, a),
        size,
        c,
    ));
}

} // verus!
