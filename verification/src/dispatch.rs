//! The dispatcher's arithmetic: how a list of jobs is cut into chunks that are
//! fanned out one after another.

use vstd::prelude::*;

verus! {

/// The number of jobs that are fanned out together.
pub const CHUNK_SIZE: usize = 10;

/// The number of chunks of `chunk_size` that `total` jobs make, the last one
/// possibly short.
pub open spec fn chunk_count(total: int, chunk_size: int) -> int {
    (total + chunk_size - 1) / chunk_size
}

/// Where chunk `k` begins.
pub open spec fn chunk_start(k: int, chunk_size: int) -> int {
    k * chunk_size
}

/// Where chunk `k` ends: a whole chunk further, or at `total`.
pub open spec fn chunk_end(k: int, total: int, chunk_size: int) -> int {
    if (k + 1) * chunk_size < total {
        (k + 1) * chunk_size
    } else {
        total
    }
}

proof fn lemma_chunk_steps(k: int, chunk_size: int)
    requires
        chunk_size > 0,
        k >= 0,
    ensures
        chunk_start(0, chunk_size) == 0,
        chunk_start(k + 1, chunk_size) == chunk_start(k, chunk_size) + chunk_size,
        chunk_start(k, chunk_size) >= 0,
{
    assert(0 * chunk_size == 0);
    assert((k + 1) * chunk_size == k * chunk_size + chunk_size) by (nonlinear_arith);
    assert(k * chunk_size >= 0) by (nonlinear_arith)
        requires
            k >= 0,
            chunk_size > 0,
    ;
}

proof fn lemma_chunk_count(k: int, total: int, chunk_size: int)
    requires
        chunk_size > 0,
        k >= 0,
        k == 0 ==> total == 0,
        k > 0 ==> chunk_start(k - 1, chunk_size) < total <= chunk_start(k, chunk_size),
    ensures
        chunk_count(total, chunk_size) == k,
{
    if k == 0 {
        assert((0 + chunk_size - 1) / chunk_size == 0) by (nonlinear_arith)
            requires
                chunk_size > 0,
        ;
    } else {
        assert((total + chunk_size - 1) / chunk_size == k) by (nonlinear_arith)
            requires
                chunk_size > 0,
                k > 0,
                (k - 1) * chunk_size < total <= k * chunk_size,
        ;
    }
}

/// The chunks of `total` jobs as half-open ranges of positions, in order: each
/// begins where the one before ended, each but the last holds `chunk_size` jobs,
/// none is empty, and together they cover `0..total`.
pub fn chunk_bounds(total: usize, chunk_size: usize) -> (chunks: Vec<(usize, usize)>)
    requires
        chunk_size > 0,
    ensures
        chunks.len() == chunk_count(total as int, chunk_size as int),
        forall|k: int|
            0 <= k < chunks.len() ==> {
                &&& (#[trigger] chunks[k]).0 == chunk_start(k, chunk_size as int)
                &&& chunks[k].1 == chunk_end(k, total as int, chunk_size as int)
                &&& chunks[k].0 < chunks[k].1 <= total
                &&& chunks[k].1 - chunks[k].0 <= chunk_size
            },
        forall|k: int| 0 <= k < chunks.len() - 1 ==> (#[trigger] chunks[k]).1 == chunks[k + 1].0,
        chunks.len() > 0 ==> chunks[0].0 == 0 && chunks[chunks.len() - 1].1 == total,
{
    let mut chunks: Vec<(usize, usize)> = Vec::new();
    let mut start: usize = 0;
    proof {
        lemma_chunk_steps(0, chunk_size as int);
    }
    while start < total
        invariant
            chunk_size > 0,
            start <= total,
            start < total ==> start == chunk_start(chunks.len() as int, chunk_size as int),
            start == total && chunks.len() == 0 ==> total == 0,
            start == total && chunks.len() > 0 ==> chunk_start(
                chunks.len() - 1,
                chunk_size as int,
            ) < total <= chunk_start(chunks.len() as int, chunk_size as int),
            forall|k: int|
                0 <= k < chunks.len() ==> {
                    &&& (#[trigger] chunks[k]).0 == chunk_start(k, chunk_size as int)
                    &&& chunks[k].1 == chunk_end(k, total as int, chunk_size as int)
                    &&& chunks[k].0 < chunks[k].1 <= total
                    &&& chunks[k].1 - chunks[k].0 <= chunk_size
                },
            forall|k: int|
                0 <= k < chunks.len() - 1 ==> (#[trigger] chunks[k]).1 == chunks[k + 1].0,
            chunks.len() > 0 ==> chunks[chunks.len() - 1].1 == start,
        decreases total - start,
    {
        let ghost k = chunks.len() as int;
        proof {
            lemma_chunk_steps(k, chunk_size as int);
        }
        let end: usize = if total - start > chunk_size {
            start + chunk_size
        } else {
            total
        };
        chunks.push((start, end));
        start = end;
    }
    proof {
        lemma_chunk_count(chunks.len() as int, total as int, chunk_size as int);
        lemma_chunk_steps(0, chunk_size as int);
    }
    chunks
}

} // verus!
