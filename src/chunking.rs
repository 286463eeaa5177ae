//! How an input of a given length is cut into consecutive chunks.
use vstd::arithmetic::div_mod::lemma_fundamental_div_mod;
use vstd::arithmetic::mul::{lemma_mul_inequality, lemma_mul_strict_inequality};
use vstd::prelude::*;

verus! {

/// Default largest chunk size, and the input length up to which no worker is spawned.
pub const THRESHOLD: usize = 2;

/// Number of chunks of at most `t` elements that cover `len` elements: `ceil(len / t)`.
pub open spec fn chunk_count(len: int, t: int) -> int {
    if len % t == 0 {
        len / t
    } else {
        len / t + 1
    }
}

/// First element index of chunk `c`.
pub open spec fn chunk_start(c: int, t: int) -> int {
    c * t
}

/// One past the last element index of chunk `c` (the last chunk may be short).
pub open spec fn chunk_end(c: int, t: int, len: int) -> int {
    if c * t + t <= len {
        c * t + t
    } else {
        len
    }
}

/// A contiguous range `[start, end)` of the input, the `index`-th chunk.
#[derive(Clone, Copy, Debug, PartialEq, Eq)]
pub struct ChunkRange {
    pub index: usize,
    pub start: usize,
    pub end: usize,
}

impl ChunkRange {
    /// The range that chunk `c` covers in an input of `len` elements cut every `t`.
    pub open spec fn is_chunk(self, c: int, t: int, len: int) -> bool {
        &&& self.index == c
        &&& self.start == chunk_start(c, t)
        &&& self.end == chunk_end(c, t, len)
    }
}

/// Every chunk but none past the end starts inside the input, and the
/// chunks together reach the end of the input.
pub proof fn lemma_chunk_bounds(len: int, t: int, c: int)
    requires
        len >= 0,
        t > 0,
        0 <= c,
    ensures
        c < chunk_count(len, t) <==> c * t < len,
        chunk_count(len, t) >= 0,
        chunk_count(len, t) * t >= len,
        chunk_count(len, t) == 0 <==> len == 0,
{
    lemma_fundamental_div_mod(len, t);
    let q = len / t;
    let r = len % t;
    assert(q * t == t * q) by (nonlinear_arith);
    assert(q >= 0) by {
        if q < 0 {
            lemma_mul_inequality(q, -1, t);
            assert(q * t <= -1 * t);
        }
    }
    if c < chunk_count(len, t) {
        if r == 0 {
            lemma_mul_inequality(c + 1, q, t);
            assert((c + 1) * t == c * t + t) by (nonlinear_arith);
        } else {
            lemma_mul_inequality(c, q, t);
        }
    } else {
        lemma_mul_inequality(chunk_count(len, t), c, t);
        if r != 0 {
            assert((q + 1) * t == q * t + t) by (nonlinear_arith);
        }
    }
    if r != 0 {
        assert((q + 1) * t == q * t + t) by (nonlinear_arith);
    }
    if len > 0 && q == 0 {
        assert(r != 0);
    }
    if q > 0 {
        lemma_mul_inequality(1, q, t);
    }
}

/// Number of chunks of at most `threshold` elements that cover `len` elements.
pub fn count_chunks(len: usize, threshold: usize) -> (r: usize)
    requires
        threshold > 0,
    ensures
        r == chunk_count(len as int, threshold as int),
{
    proof {
        lemma_fundamental_div_mod(len as int, threshold as int);
        assert(threshold * (len / threshold) >= len / threshold) by (nonlinear_arith)
            requires
                threshold > 0,
                len / threshold >= 0,
        ;
    }
    let q = len / threshold;
    if len % threshold > 0 {
        q + 1
    } else {
        q
    }
}

/// Cuts `len` elements into consecutive chunks of `threshold` elements, the
/// last one possibly shorter; the chunks cover every index exactly once, in order.
pub fn partition(len: usize, threshold: usize) -> (chunks: Vec<ChunkRange>)
    requires
        threshold > 0,
    ensures
        chunks@.len() == chunk_count(len as int, threshold as int),
        forall|c: int|
            0 <= c < chunks@.len() ==> (#[trigger] chunks@[c]).is_chunk(
                c,
                threshold as int,
                len as int,
            ),
{
    let count = count_chunks(len, threshold);
    let mut chunks: Vec<ChunkRange> = Vec::new();
    let mut c: usize = 0;
    while c < count
        invariant
            threshold > 0,
            count == chunk_count(len as int, threshold as int),
            c <= count,
            chunks@.len() == c,
            forall|k: int|
                0 <= k < c ==> (#[trigger] chunks@[k]).is_chunk(
                    k,
                    threshold as int,
                    len as int,
                ),
        decreases count - c,
    {
        proof {
            lemma_chunk_bounds(len as int, threshold as int, c as int);
        }
        let start = c * threshold;
        let end = if len - start > threshold {
            start + threshold
        } else {
            len
        };
        chunks.push(ChunkRange { index: c, start, end });
        c = c + 1;
    }
    chunks
}

} // verus!
