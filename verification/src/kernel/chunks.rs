//! How the chunked (parallel) kernels split a slice: consecutive chunks of `size`
//! elements, the last one possibly shorter.
use vstd::arithmetic::div_mod::{lemma_div_pos_is_pos, lemma_fundamental_div_mod, lemma_mod_bound};
use vstd::prelude::*;

verus! {

/// The number of chunks of `size` elements that cover `n` elements.
pub open spec fn chunk_count(n: int, size: int) -> nat {
    if n <= 0 || size <= 0 {
        0
    } else {
        ((n + size - 1) / size) as nat
    }
}

/// Where chunk `c` starts.
pub open spec fn chunk_start(size: int, c: int) -> int {
    c * size
}

/// Where chunk `c` ends.
pub open spec fn chunk_end(n: int, size: int, c: int) -> int {
    if chunk_start(size, c) + size < n {
        chunk_start(size, c) + size
    } else {
        n
    }
}

/// Chunk `c` of `xs`.
pub open spec fn chunk<T>(xs: Seq<T>, size: int, c: int) -> Seq<T> {
    xs.subrange(chunk_start(size, c), chunk_end(xs.len() as int, size, c))
}

/// Every chunk below `chunk_count` is non-empty and inside `0..n`; the chunks follow
/// one another.
pub proof fn lemma_chunk_bounds(n: int, size: int, c: int)
    requires
        size > 0,
        0 <= c < chunk_count(n, size),
    ensures
        0 <= chunk_start(size, c) < chunk_end(n, size, c) <= n,
        chunk_end(n, size, c) - chunk_start(size, c) <= size,
        c + 1 < chunk_count(n, size) ==> chunk_end(n, size, c) == chunk_start(size, c + 1),
        c + 1 == chunk_count(n, size) ==> chunk_end(n, size, c) == n,
{
    let k = chunk_count(n, size) as int;
    lemma_fundamental_div_mod(n + size - 1, size);
    lemma_mod_bound(n + size - 1, size);
    let r = (n + size - 1) % size;
    assert(size * k + r == n + size - 1);
    assert(0 <= c * size) by (nonlinear_arith)
        requires
            c >= 0,
            size > 0,
    ;
    assert(c * size <= (k - 1) * size) by (nonlinear_arith)
        requires
            c + 1 <= k,
            size > 0,
    ;
    assert((k - 1) * size == size * k - size) by (nonlinear_arith);
    assert(c * size < n);
    assert((c + 1) * size == c * size + size) by (nonlinear_arith);
    if c + 1 == k {
        assert(c * size + size == size * k) by (nonlinear_arith)
            requires
                c + 1 == k,
        ;
    } else {
        assert(c * size + size <= (k - 1) * size) by (nonlinear_arith)
            requires
                c + 2 <= k,
                size > 0,
        ;
    }
}

/// The chunk that holds index `i`.
pub proof fn lemma_chunk_of(n: int, size: int, i: int) -> (c: int)
    requires
        size > 0,
        0 <= i < n,
    ensures
        0 <= c < chunk_count(n, size),
        chunk_start(size, c) <= i < chunk_end(n, size, c),
{
    lemma_fundamental_div_mod(i, size);
    lemma_mod_bound(i, size);
    lemma_div_pos_is_pos(i, size);
    let c = i / size;
    let k = chunk_count(n, size) as int;
    lemma_fundamental_div_mod(n + size - 1, size);
    lemma_mod_bound(n + size - 1, size);
    let r = (n + size - 1) % size;
    assert(c < k) by (nonlinear_arith)
        requires
            i == size * c + i % size,
            0 <= i % size < size,
            i < n,
            size * k + r == n + size - 1,
            0 <= r < size,
            size > 0,
    ;
    assert(c * size <= i < c * size + size) by (nonlinear_arith)
        requires
            i == size * c + i % size,
            0 <= i % size < size,
    ;
    c
}

} // verus!
