//! Scaling a slice in place.
use crate::arch::{lanes_supported, SimdArch, SimdScalar};
use crate::kernel::blocked::lemma_store;
use crate::kernel::chunks::{chunk, chunk_count, lemma_chunk_bounds};
use vstd::prelude::*;

verus! {

/// What `scal` leaves in a slice holding `xs`: every element multiplied by `a`.
pub open spec fn scal_spec<T: SimdScalar, A: SimdArch<T>>(xs: Seq<T>, a: T) -> Seq<T> {
    Seq::new(xs.len(), |k: int| A::spec_mul(xs[k], a))
}

/// Multiplies every element of `x` by `a`, in place.
pub fn scal<T: SimdScalar, ARCH: SimdArch<T>>(x: &mut [T], a: T)
    requires
        lanes_supported::<T, ARCH>(),
    ensures
        final(x)@ == scal_spec::<T, ARCH>(old(x)@, a),
{
    let len = x.len();
    let lanes = ARCH::LANES;
    let quad = lanes * 4;
    let ghost l = lanes as int;
    let ghost orig = x@;
    let mem_a = ARCH::set1(a);

    let mut i: usize = 0;
    while quad <= len - i
        invariant
            x@.len() == len,
            orig.len() == len,
            l == lanes,
            lanes == ARCH::LANES,
            lanes_supported::<T, ARCH>(),
            quad == 4 * l,
            i <= len,
            ARCH::lanes_of(mem_a) == Seq::new(ARCH::LANES as nat, |k: int| a),
            forall|k: int| 0 <= k < i ==> x@[k] == ARCH::spec_mul(orig[k], a),
            forall|k: int| i <= k < len ==> x@[k] == orig[k],
        decreases len - i,
    {
        let x0 = ARCH::loadu(x, i);
        let x1 = ARCH::loadu(x, i + lanes);
        let x2 = ARCH::loadu(x, i + lanes * 2);
        let x3 = ARCH::loadu(x, i + lanes * 3);

        let v0 = ARCH::mul(x0, mem_a);
        let v1 = ARCH::mul(x1, mem_a);
        let v2 = ARCH::mul(x2, mem_a);
        let v3 = ARCH::mul(x3, mem_a);

        let ghost s0 = x@;
        ARCH::storeu(x, i, v0);
        proof { lemma_store(s0, x@, i as int, ARCH::lanes_of(v0)); }
        let ghost s1 = x@;
        ARCH::storeu(x, i + lanes, v1);
        proof { lemma_store(s1, x@, i + l, ARCH::lanes_of(v1)); }
        let ghost s2 = x@;
        ARCH::storeu(x, i + lanes * 2, v2);
        proof { lemma_store(s2, x@, i + 2 * l, ARCH::lanes_of(v2)); }
        let ghost s3 = x@;
        ARCH::storeu(x, i + lanes * 3, v3);
        proof { lemma_store(s3, x@, i + 3 * l, ARCH::lanes_of(v3)); }

        proof {
            assert forall|k: int| 0 <= k < i + quad implies x@[k] == ARCH::spec_mul(orig[k], a) by {
                if k >= i + 3 * l {
                } else if k >= i + 2 * l {
                } else if k >= i + l {
                } else if k >= i {
                }
            }
        }
        i += quad;
    }

    while lanes <= len - i
        invariant
            x@.len() == len,
            orig.len() == len,
            l == lanes,
            lanes == ARCH::LANES,
            lanes_supported::<T, ARCH>(),
            i <= len,
            ARCH::lanes_of(mem_a) == Seq::new(ARCH::LANES as nat, |k: int| a),
            forall|k: int| 0 <= k < i ==> x@[k] == ARCH::spec_mul(orig[k], a),
            forall|k: int| i <= k < len ==> x@[k] == orig[k],
        decreases len - i,
    {
        let x0 = ARCH::loadu(x, i);
        let v0 = ARCH::mul(x0, mem_a);
        let ghost s0 = x@;
        ARCH::storeu(x, i, v0);
        proof { lemma_store(s0, x@, i as int, ARCH::lanes_of(v0)); }
        i += lanes;
    }

    while i < len
        invariant
            x@.len() == len,
            orig.len() == len,
            i <= len,
            forall|k: int| 0 <= k < i ==> x@[k] == ARCH::spec_mul(orig[k], a),
            forall|k: int| i <= k < len ==> x@[k] == orig[k],
        decreases len - i,
    {
        x[i] = ARCH::scalar_mul(x[i], a);
        i += 1;
    }
    proof {
        assert(x@ =~= Seq::new(orig.len(), |k: int| ARCH::spec_mul(orig[k], a)));
    }
}

/// Scaling every chunk of `size` elements in place leaves what scaling the whole slice
/// leaves, whatever the chunk size.
pub proof fn lemma_chunked_scal_matches<T: SimdScalar, A: SimdArch<T>>(xs: Seq<T>, a: T, size: int, c: int)
    requires
        size > 0,
        0 <= c < chunk_count(xs.len() as int, size),
    ensures
        scal_spec::<T, A>(chunk(xs, size, c), a) == chunk(scal_spec::<T, A>(xs, a), size, c),
{
    lemma_chunk_bounds(xs.len() as int, size, c);
    assert(scal_spec::<T, A>(chunk(xs, size, c), a) =~= chunk(scal_spec::<T, A>(xs, a), size, c));
}

} // verus!
