//! Divides the buffer's byte range `[0, len)` into contiguous,
//! non-overlapping chunks of a target size; the final chunk is truncated
//! to the buffer's length. No record-boundary awareness exists here:
//! alignment is the worker's job.

use vstd::prelude::*;
use vstd::arithmetic::div_mod::lemma_fundamental_div_mod_converse;
use crate::stat::{max_int, min_int};

verus! {

/// A half-open byte range `[start, end)` of the shared buffer.
#[derive(Clone, Copy, Debug, PartialEq, Eq, Structural)]
pub struct ChunkRange {
    pub start: usize,
    pub end: usize,
}

/// How many chunks a plan for `len` bytes at chunk size `size` holds.
pub open spec fn plan_len(len: int, size: int) -> int {
    (len + size - 1) / size
}

/// Range `i` of the plan: `[i*size, min((i+1)*size, len))`.
pub open spec fn plan_range_start(size: int, i: int) -> int {
    i * size
}

pub open spec fn plan_range_end(len: int, size: int, i: int) -> int {
    min_int(i * size + size, len)
}

/// Plan the chunk ranges for a buffer of `len` bytes: `ceil(len/size)`
/// contiguous, gapless, non-empty ranges that together cover `[0, len)`
/// exactly once. A zero-length buffer yields no ranges.
pub fn plan_chunks(len: usize, size: usize) -> (r: Vec<ChunkRange>)
    requires
        size >= 1,
    ensures
        r@.len() == plan_len(len as int, size as int),
        forall|i: int| 0 <= i < r@.len() ==> (#[trigger] r@[i]).start == plan_range_start(
            size as int,
            i,
        ) && r@[i].end == plan_range_end(len as int, size as int, i),
        forall|i: int| 0 <= i < r@.len() ==> (#[trigger] r@[i]).start < r@[i].end <= len,
        forall|i: int| 0 < i < r@.len() ==> (#[trigger] r@[i]).start == r@[i - 1].end,
        r@.len() > 0 ==> r@[0].start == 0 && r@[r@.len() - 1].end == len,
        len == 0 ==> r@.len() == 0,
{
    let mut v: Vec<ChunkRange> = Vec::new();
    let mut start: usize = 0;
    proof {
        // With nothing planned, zero chunks cover [0, 0).
        lemma_fundamental_div_mod_converse(0 + size - 1, size as int, 0, size - 1);
        assert(v@.len() == 0);
        assert(start == v@.len() * size);
    }
    while start < len
        invariant
            size >= 1,
            start <= len,
            start == v@.len() * size || start == len,
            v@.len() == plan_len(start as int, size as int),
            forall|i: int| 0 <= i < v@.len() ==> (#[trigger] v@[i]).start == plan_range_start(
                size as int,
                i,
            ) && v@[i].end == plan_range_end(len as int, size as int, i),
            forall|i: int| 0 <= i < v@.len() ==> (#[trigger] v@[i]).start < v@[i].end <= len,
            forall|i: int| 0 < i < v@.len() ==> (#[trigger] v@[i]).start == v@[i - 1].end,
            v@.len() > 0 ==> v@[0].start == 0 && v@[v@.len() - 1].end == start,
        decreases len - start,
    {
        let ghost k = v@.len() as int;
        proof {
            // Inside the loop `start < len`, so `start == k * size`.
            assert(start == k * size);
            assert((k + 1) * size == k * size + size) by (nonlinear_arith);
        }
        let end = if len - start < size {
            len
        } else {
            start + size
        };
        v.push(ChunkRange { start, end });
        proof {
            assert(v@[v@.len() - 1].end == end);
            if k == 0 {
                assert(v@[0].start == k * size);
                assert(k * size == 0) by (nonlinear_arith)
                    requires
                        k == 0,
                ;
            }
            if end == len {
                // The final, possibly truncated chunk: len = k*size + r
                // with 1 <= r <= size.
                let r = len - k * size;
                lemma_fundamental_div_mod_converse(
                    len + size - 1,
                    size as int,
                    k + 1,
                    r - 1,
                );
            } else {
                lemma_fundamental_div_mod_converse(
                    end + size - 1,
                    size as int,
                    k + 1,
                    size - 1,
                );
            }
        }
        start = end;
    }
    v
}

/// The chunk size that spreads `len` bytes over at most `workers`
/// chunks: `ceil(len/workers)`, at least one byte.
pub open spec fn worker_chunk_size(len: int, workers: int) -> int {
    max_int((len + workers - 1) / workers, 1)
}

/// Plan by worker count instead of chunk size: the same partition of
/// `[0, len)`, with at most `workers` ranges.
pub fn plan_for_workers(len: usize, workers: usize) -> (r: Vec<ChunkRange>)
    requires
        workers >= 1,
    ensures
        r@.len() == plan_len(len as int, worker_chunk_size(len as int, workers as int)),
        r@.len() <= workers,
        forall|i: int| 0 <= i < r@.len() ==> (#[trigger] r@[i]).start < r@[i].end <= len,
        forall|i: int| 0 < i < r@.len() ==> (#[trigger] r@[i]).start == r@[i - 1].end,
        r@.len() > 0 ==> r@[0].start == 0 && r@[r@.len() - 1].end == len,
        len == 0 ==> r@.len() == 0,
{
    let size = if len == 0 {
        1
    } else {
        1 + (len - 1) / workers
    };
    proof {
        let l = len as int;
        let w = workers as int;
        let s = size as int;
        if l == 0 {
            // The ceiling of 0/w is 0, so the size floor of one applies.
            lemma_fundamental_div_mod_converse(w - 1, w, 0, w - 1);
            assert(worker_chunk_size(l, w) == 1);
            lemma_fundamental_div_mod_converse(l + s - 1, s, 0, s - 1);
            assert(plan_len(l, s) == 0);
        } else {
            let q = (l - 1) / w;
            let r = (l - 1) % w;
            vstd::arithmetic::div_mod::lemma_fundamental_div_mod(l - 1, w);
            vstd::arithmetic::div_mod::lemma_mod_bound(l - 1, w);
            assert((q + 1) * w == w * q + w) by (nonlinear_arith);
            lemma_fundamental_div_mod_converse(l + w - 1, w, q + 1, r);
            assert(size as int == worker_chunk_size(l, w));
            // At most `workers` chunks: w chunks of size s cover l bytes.
            assert(w * s == w * q + w) by (nonlinear_arith)
                requires
                    s == q + 1,
            ;
            assert(w * s >= l);
            assert(w * s + s - 1 == w * s + (s - 1));
            lemma_fundamental_div_mod_converse(w * s + s - 1, s, w, s - 1);
            vstd::arithmetic::div_mod::lemma_div_is_ordered(l + s - 1, w * s + s - 1, s);
            assert(plan_len(l, s) <= w);
        }
    }
    plan_chunks(len, size)
}

} // verus!
