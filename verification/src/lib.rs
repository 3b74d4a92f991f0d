//! Per-key summary statistics (minimum, mean, maximum) over a large
//! delimited byte buffer, computed by partitioning the buffer into
//! contiguous chunks, aggregating each chunk independently, and merging
//! the partial results with an associative, commutative combine. The
//! merged map is rendered key-sorted with one fractional decimal digit
//! per value.
//!
//! Values are decimal numbers carried as integers scaled by ten
//! (tenths), which matches the one-fractional-digit precision of the
//! rendered report.
//!
//! Chunks may be aggregated in any order — concurrently, if the caller
//! wishes: `run` folds them sequentially, while a parallel caller can
//! hand each range of `plan_chunks` to `process_chunk` on its own
//! thread and fold the results with `merge_into`.

use vstd::prelude::*;

pub mod agg;
pub mod parser;
pub mod planner;
pub mod reducer;
pub mod report;
pub mod stat;
pub mod worker;

use crate::agg::{as_map, entry_keys_unique, merge_maps, Aggregate};
use crate::planner::{plan_chunks, plan_len, plan_range_end, plan_range_start};
use crate::reducer::merge_into;
use crate::report::{entries_sorted, render_report, render_report_bytes, sort_entries};
use crate::stat::{Stat, StatModel};
use crate::worker::{chunk_view, process_chunk};

verus! {

/// The global key -> summary map after merging the first `n` chunks of
/// the plan for `s` at chunk size `size`.
pub open spec fn global_fold(s: Seq<u8>, size: int, n: int) -> Map<Seq<u8>, StatModel>
    decreases n,
{
    if n <= 0 {
        Map::empty()
    } else {
        merge_maps(
            global_fold(s, size, n - 1),
            chunk_view(
                s,
                plan_range_start(size, n - 1),
                plan_range_end(s.len() as int, size, n - 1),
                n - 1 == 0,
            ),
        )
    }
}

/// The global map of the whole plan for `s` at chunk size `size`.
pub open spec fn global_view(s: Seq<u8>, size: int) -> Map<Seq<u8>, StatModel> {
    global_fold(s, size, plan_len(s.len() as int, size))
}

/// `out` renders `m`: it is the rendering of the one key-sorted,
/// duplicate-free table that denotes `m`.
pub open spec fn report_matches(m: Map<Seq<u8>, StatModel>, out: Seq<u8>) -> bool {
    exists|es: Seq<(Vec<u8>, Stat)>|
        entry_keys_unique(es) && entries_sorted(es) && as_map(es) == m && out == render_report(es)
}

/// The merged aggregate of the plan's first `m` chunks equals the
/// single-chunk aggregate of the bytes they cover, provided every
/// internal boundary among them falls on a terminator byte.
proof fn lemma_plan_fold_prefix(s: Seq<u8>, size: int, m: int)
    requires
        size >= 1,
        0 <= m <= plan_len(s.len() as int, size),
        forall|i: int| 1 <= i < m ==> s[#[trigger] (i * size)] == 10,
    ensures
        global_fold(s, size, m) == chunk_view(
            s,
            0,
            crate::stat::min_int(m * size, s.len() as int),
            true,
        ),
    decreases m,
{
    let len = s.len() as int;
    if m == 0 {
        assert(m * size == 0) by (nonlinear_arith)
            requires
                m == 0,
        ;
        assert(s.subrange(0, 0).len() == 0);
        crate::agg::lemma_merge_empty(Map::empty());
        assert(chunk_view(s, 0, 0, true) =~= Map::<Seq<u8>, StatModel>::empty());
    } else {
        lemma_plan_fold_prefix(s, size, m - 1);
        let b = (m - 1) * size;
        let e = plan_range_end(len, size, m - 1);
        assert(m * size == (m - 1) * size + size) by (nonlinear_arith);
        assert(e == crate::stat::min_int(m * size, len));
        if m == 1 {
            assert((m - 1) * size == 0) by (nonlinear_arith)
                requires
                    m == 1,
            ;
            crate::agg::lemma_merge_empty(chunk_view(s, 0, e, true));
        } else {
            // Chunk m-1 is not the last conceivable one: its start lies
            // strictly inside the buffer.
            let q = plan_len(len, size);
            vstd::arithmetic::div_mod::lemma_fundamental_div_mod(len + size - 1, size);
            assert((m - 1) * size <= (q - 1) * size) by (nonlinear_arith)
                requires
                    m <= q,
                    size >= 1,
            ;
            assert((q - 1) * size == q * size - size) by (nonlinear_arith);
            assert(q * size == size * q) by (nonlinear_arith);
            assert(b < len);
            assert(s[b] == 10);
            crate::worker::lemma_boundary_split(s, b, e);
            assert(crate::stat::min_int((m - 1) * size, len) == b);
        }
    }
}

/// Chunked processing agrees with single-chunk processing whenever every
/// internal chunk boundary of the plan falls on a record terminator:
/// splitting the buffer loses no record then.
pub proof fn lemma_chunking_invariant(s: Seq<u8>, size: int)
    requires
        size >= 1,
        forall|i: int| 1 <= i < plan_len(s.len() as int, size) ==> s[#[trigger] (i * size)] == 10,
    ensures
        global_view(s, size) == chunk_view(s, 0, s.len() as int, true),
{
    let len = s.len() as int;
    let q = plan_len(len, size);
    lemma_plan_fold_prefix(s, size, q);
    vstd::arithmetic::div_mod::lemma_fundamental_div_mod(len + size - 1, size);
    assert(q * size == size * q) by (nonlinear_arith);
    assert(q * size >= len);
    assert(crate::stat::min_int(q * size, len) == len);
}

/// Two plans whose internal boundaries all fall on record terminators
/// produce the same global aggregate, whatever their chunk sizes: in
/// particular a many-chunk plan agrees with a single-chunk one.
pub proof fn lemma_chunking_independent(s: Seq<u8>, size_a: int, size_b: int)
    requires
        size_a >= 1,
        size_b >= 1,
        forall|i: int| 1 <= i < plan_len(s.len() as int, size_a) ==> s[#[trigger] (i * size_a)] == 10,
        forall|i: int| 1 <= i < plan_len(s.len() as int, size_b) ==> s[#[trigger] (i * size_b)] == 10,
    ensures
        global_view(s, size_a) == global_view(s, size_b),
{
    lemma_chunking_invariant(s, size_a);
    lemma_chunking_invariant(s, size_b);
}

/// Run the whole pipeline over one buffer, chunked at `chunk_size`:
/// plan the ranges, aggregate every chunk, merge the local aggregates,
/// and render the sorted report.
#[verifier::loop_isolation(false)]
pub fn run(buf: &[u8], chunk_size: usize) -> (r: Vec<u8>)
    requires
        chunk_size >= 1,
    ensures
        report_matches(global_view(buf@, chunk_size as int), r@),
{
    let ranges = plan_chunks(buf.len(), chunk_size);
    let n = ranges.len();
    let mut global = Aggregate { entries: Vec::new(), weight: 0 };
    let mut i: usize = 0;
    while i < n
        invariant
            0 <= i <= n,
            n == ranges@.len(),
            global.wf(),
            global@ == global_fold(buf@, chunk_size as int, i as int),
            global.weight == if i == 0 {
                0int
            } else {
                ranges@[i - 1].end as int
            },
        decreases n - i,
    {
        let r = ranges[i];
        let local = process_chunk(buf, r.start, r.end, i == 0);
        merge_into(&mut global, &local);
        i = i + 1;
    }
    let ghost gmap = global@;
    proof {
        assert(gmap == global_view(buf@, chunk_size as int));
    }
    let sorted = sort_entries(global.entries);
    let out = render_report_bytes(&sorted);
    proof {
        assert(entry_keys_unique(sorted@) && entries_sorted(sorted@) && as_map(sorted@)
            == global_view(buf@, chunk_size as int) && out@ == render_report(sorted@));
    }
    out
}

} // verus!
