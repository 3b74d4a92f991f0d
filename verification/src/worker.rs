//! One worker's job: given a byte range of the shared buffer,
//! resynchronize to a record boundary, parse the records that lie
//! within the range, and fold them into a local key -> summary table.
//!
//! Any chunk but the first discards everything up to and including the
//! first terminator in its range: those bytes belong to a record begun
//! in the previous chunk. A record whose bytes span two chunks is
//! therefore lost rather than double-counted: the chunk that ends inside
//! it parses a truncated line, which the record checks normally drop.

use vstd::prelude::*;
use vstd::assert_seqs_equal;
use vstd::map::*;
use crate::agg::{agg_record, agg_step, as_map, entry_keys_unique, lemma_merge_assoc, lemma_merge_empty, merge_maps, Aggregate};
use crate::parser::{find_byte, first_index, lemma_first_index_props, parse_record, parse_record_spec, trim_end_spec};
use crate::stat::{stat_combine, stat_model_wf, stat_observe, stat_singleton, Stat, StatModel};

verus! {

/// The terminator-delimited lines of `s`: the terminator belongs to no
/// line, and a final unterminated line is still a line.
pub open spec fn lines_of(s: Seq<u8>) -> Seq<Seq<u8>>
    decreases s.len(),
{
    if s.len() == 0 {
        Seq::empty()
    } else {
        let j = first_index(s, 10);
        if 0 <= j && j < s.len() {
            seq![s.subrange(0, j)] + lines_of(s.subrange(j + 1, s.len() as int))
        } else {
            seq![s]
        }
    }
}

/// The valid records among a sequence of lines, in order.
pub open spec fn records_of(lines: Seq<Seq<u8>>) -> Seq<(Seq<u8>, int)>
    decreases lines.len(),
{
    if lines.len() == 0 {
        Seq::empty()
    } else {
        match parse_record_spec(lines[0]) {
            Some(r) => seq![r] + records_of(lines.drop_first()),
            None => records_of(lines.drop_first()),
        }
    }
}

/// Fold a sequence of records into a key -> summary map, front to back.
pub open spec fn agg_fold(m: Map<Seq<u8>, StatModel>, recs: Seq<(Seq<u8>, int)>) -> Map<
    Seq<u8>,
    StatModel,
>
    decreases recs.len(),
{
    if recs.len() == 0 {
        m
    } else {
        agg_fold(agg_step(m, recs[0].0, recs[0].1), recs.drop_first())
    }
}

/// Where chunk `[start, end)` of `s` begins contributing records: the
/// first chunk at its own start; a later chunk just after the first
/// terminator in its range, or nowhere when the range holds none.
pub open spec fn chunk_body_start(s: Seq<u8>, start: int, end: int, first: bool) -> int {
    if first {
        start
    } else {
        let j = first_index(s.subrange(start, end), 10);
        if j < 0 {
            end
        } else {
            start + j + 1
        }
    }
}

/// The key -> summary map that chunk `[start, end)` of `s` contributes.
pub open spec fn chunk_view(s: Seq<u8>, start: int, end: int, first: bool) -> Map<
    Seq<u8>,
    StatModel,
> {
    agg_fold(
        Map::empty(),
        records_of(lines_of(s.subrange(chunk_body_start(s, start, end, first), end))),
    )
}

/// Folding a record sequence starts with its first record.
pub proof fn lemma_fold_cons(m: Map<Seq<u8>, StatModel>, r: (Seq<u8>, int), rs: Seq<(Seq<u8>, int)>)
    ensures
        agg_fold(m, seq![r] + rs) == agg_fold(agg_step(m, r.0, r.1), rs),
{
    let l = seq![r] + rs;
    assert(l[0] == r);
    assert(l.drop_first() == rs);
}

/// The records of a line sequence start with its first line's record,
/// if that line is one.
pub proof fn lemma_records_cons(line: Seq<u8>, rest: Seq<Seq<u8>>)
    ensures
        records_of(seq![line] + rest) == match parse_record_spec(line) {
            Some(r) => seq![r] + records_of(rest),
            None => records_of(rest),
        },
{
    let l = seq![line] + rest;
    assert(l[0] == line);
    assert(l.drop_first() == rest);
}

/// A line that is no record contributes nothing: whatever stands around
/// it, the record sequence is as if the line were not there.
pub proof fn lemma_invalid_line_dropped(line: Seq<u8>, rest: Seq<Seq<u8>>)
    requires
        parse_record_spec(line) is None,
    ensures
        records_of(seq![line] + rest) == records_of(rest),
{
    lemma_records_cons(line, rest);
}

/// The records of concatenated line sequences are the concatenated
/// records.
pub proof fn lemma_records_concat(l1: Seq<Seq<u8>>, l2: Seq<Seq<u8>>)
    ensures
        records_of(l1 + l2) == records_of(l1) + records_of(l2),
    decreases l1.len(),
{
    if l1.len() == 0 {
        assert(l1 + l2 == l2);
        assert_seqs_equal!(records_of(l1) + records_of(l2) == records_of(l2));
    } else {
        assert((l1 + l2)[0] == l1[0]);
        assert((l1 + l2).drop_first() == l1.drop_first() + l2);
        lemma_records_concat(l1.drop_first(), l2);
        match parse_record_spec(l1[0]) {
            Some(r) => {
                assert_seqs_equal!(seq![r] + (records_of(l1.drop_first()) + records_of(l2))
                    == (seq![r] + records_of(l1.drop_first())) + records_of(l2));
            },
            None => {},
        }
    }
}

/// Folding concatenated record sequences folds them in turn.
pub proof fn lemma_fold_concat(
    m: Map<Seq<u8>, StatModel>,
    r1: Seq<(Seq<u8>, int)>,
    r2: Seq<(Seq<u8>, int)>,
)
    ensures
        agg_fold(m, r1 + r2) == agg_fold(agg_fold(m, r1), r2),
    decreases r1.len(),
{
    if r1.len() == 0 {
        assert(r1 + r2 == r2);
    } else {
        assert((r1 + r2)[0] == r1[0]);
        assert((r1 + r2).drop_first() == r1.drop_first() + r2);
        lemma_fold_concat(agg_step(m, r1[0].0, r1[0].1), r1.drop_first(), r2);
    }
}

/// One record folded into a map is the merge with its singleton
/// aggregate: observing is combining with a one-observation summary.
proof fn lemma_step_is_merge_single(m: Map<Seq<u8>, StatModel>, k: Seq<u8>, v: int)
    ensures
        agg_step(m, k, v) == merge_maps(m, agg_step(Map::empty(), k, v)),
{
    let single = agg_step(Map::empty(), k, v);
    assert_maps_equal!(agg_step(m, k, v), merge_maps(m, single), key => {
        if key == k && m.dom().contains(k) {
            assert(stat_combine(m[k], stat_singleton(v)) == stat_observe(m[k], v));
        }
    });
}

/// Folding records into `m` merges `m` with their own aggregate: the
/// reason local aggregates can be built independently and merged later.
pub proof fn lemma_fold_is_merge(m: Map<Seq<u8>, StatModel>, r: Seq<(Seq<u8>, int)>)
    ensures
        agg_fold(m, r) == merge_maps(m, agg_fold(Map::empty(), r)),
    decreases r.len(),
{
    if r.len() == 0 {
        lemma_merge_empty(m);
    } else {
        let x = r[0];
        let rest = r.drop_first();
        let single = agg_step(Map::empty(), x.0, x.1);
        lemma_fold_is_merge(agg_step(m, x.0, x.1), rest);
        lemma_fold_is_merge(single, rest);
        lemma_step_is_merge_single(m, x.0, x.1);
        lemma_merge_assoc(m, single, agg_fold(Map::empty(), rest));
    }
}

/// Records around a terminator split: the records of `s` are those
/// before the terminator at `b` followed by those after it.
pub proof fn lemma_lines_split(s: Seq<u8>, b: int)
    requires
        0 <= b < s.len(),
        s[b] == 10,
    ensures
        records_of(lines_of(s)) == records_of(lines_of(s.subrange(0, b))) + records_of(
            lines_of(s.subrange(b + 1, s.len() as int)),
        ),
    decreases s.len(),
{
    lemma_first_index_props(s, 10);
    let j = first_index(s, 10);
    assert(j != -1);
    assert(0 <= j <= b);
    let tail = s.subrange(j + 1, s.len() as int);
    assert(lines_of(s) == seq![s.subrange(0, j)] + lines_of(tail));
    let p = s.subrange(0, b);
    if j == b {
        assert(forall|t: int| 0 <= t < b ==> p[t] == s[t] && (#[trigger] s[t]) != 10);
        lemma_first_index_props(p, 10);
        assert(first_index(p, 10) == -1);
        if b == 0 {
            assert(p.len() == 0);
            assert(lines_of(p) == Seq::<Seq<u8>>::empty());
            lemma_records_cons(s.subrange(0, j), lines_of(tail));
            assert(trim_end_spec(s.subrange(0, j)) == s.subrange(0, j));
            assert(parse_record_spec(s.subrange(0, j)) is None);
            assert_seqs_equal!(records_of(lines_of(p)) + records_of(lines_of(tail))
                == records_of(lines_of(tail)));
        } else {
            assert(lines_of(p) == seq![p]);
            assert(p == s.subrange(0, j));
            lemma_records_concat(seq![s.subrange(0, j)], lines_of(tail));
        }
    } else {
        assert(tail[b - j - 1] == s[b]);
        lemma_lines_split(tail, b - j - 1);
        lemma_first_index_props(p, 10);
        assert(p[j] == 10);
        assert(forall|t: int| 0 <= t < j ==> p[t] == s[t] && (#[trigger] s[t]) != 10);
        assert(first_index(p, 10) == j);
        assert(lines_of(p) == seq![p.subrange(0, j)] + lines_of(p.subrange(j + 1, b)));
        assert(p.subrange(0, j) =~= s.subrange(0, j));
        assert(p.subrange(j + 1, b) =~= tail.subrange(0, b - j - 1));
        assert(tail.subrange(b - j - 1 + 1, tail.len() as int) =~= s.subrange(
            b + 1,
            s.len() as int,
        ));
        lemma_records_concat(seq![s.subrange(0, j)], lines_of(tail));
        lemma_records_concat(seq![s.subrange(0, j)], lines_of(tail.subrange(0, b - j - 1)));
        assert_seqs_equal!(
            (records_of(seq![s.subrange(0, j)])
                + records_of(lines_of(tail.subrange(0, b - j - 1))))
                + records_of(lines_of(s.subrange(b + 1, s.len() as int)))
            == records_of(seq![s.subrange(0, j)])
                + (records_of(lines_of(tail.subrange(0, b - j - 1)))
                    + records_of(lines_of(s.subrange(b + 1, s.len() as int)))));
    }
}

/// Splitting a range at a terminator byte loses nothing: the two
/// chunks' aggregates merge to the undivided chunk's aggregate.
pub proof fn lemma_boundary_split(s: Seq<u8>, b: int, e: int)
    requires
        0 <= b < e <= s.len(),
        s[b] == 10,
    ensures
        merge_maps(chunk_view(s, 0, b, true), chunk_view(s, b, e, false)) == chunk_view(
            s,
            0,
            e,
            true,
        ),
{
    let t = s.subrange(0, e);
    assert(t[b] == 10);
    lemma_lines_split(t, b);
    let sub = s.subrange(b, e);
    assert(sub[0] == 10);
    assert(first_index(sub, 10) == 0);
    assert(chunk_body_start(s, b, e, false) == b + 1);
    assert(t.subrange(0, b) =~= s.subrange(0, b));
    assert(t.subrange(b + 1, e) =~= s.subrange(b + 1, e));
    let r1 = records_of(lines_of(s.subrange(0, b)));
    let r2 = records_of(lines_of(s.subrange(b + 1, e)));
    lemma_fold_concat(Map::empty(), r1, r2);
    lemma_fold_is_merge(agg_fold(Map::empty(), r1), r2);
}

/// Process one chunk: skip to the record boundary, parse the records in
/// `[start, end)`, and return their local aggregate.
#[verifier::loop_isolation(false)]
#[verifier::rlimit(60)]
pub fn process_chunk(buf: &[u8], start: usize, end: usize, first: bool) -> (r: Aggregate)
    requires
        start <= end,
        end <= buf@.len(),
    ensures
        r.wf(),
        r.weight == end - start,
        r@ == chunk_view(buf@, start as int, end as int, first),
{
    let mut pos: usize;
    if first {
        pos = start;
    } else {
        match find_byte(buf, start, end, 10) {
            Some(j) => {
                pos = j + 1;
                proof {
                    let sub = buf@.subrange(start as int, end as int);
                    lemma_first_index_props(sub, 10);
                    assert(sub[j - start] == 10);
                    assert(first_index(sub, 10) == j - start);
                }
            },
            None => {
                pos = end;
                proof {
                    let sub = buf@.subrange(start as int, end as int);
                    lemma_first_index_props(sub, 10);
                    assert(first_index(sub, 10) == -1);
                }
            },
        }
    }
    assert(chunk_body_start(buf@, start as int, end as int, first) == pos as int);
    let ghost bstart = pos as int;
    let mut entries: Vec<(Vec<u8>, Stat)> = Vec::new();
    let ghost mut nrec: int = 0;
    proof {
        assert(entries@.len() == 0);
        assert(buf@.subrange(bstart, end as int) == buf@.subrange(pos as int, end as int));
    }
    while pos < end
        invariant
            start as int <= bstart <= pos <= end,
            end <= buf@.len(),
            entry_keys_unique(entries@),
            forall|i: int| 0 <= i < entries@.len() ==> stat_model_wf(
                (#[trigger] entries@[i]).1@,
            ) && entries@[i].1@.count <= nrec,
            0 <= nrec <= pos - bstart,
            agg_fold(Map::empty(), records_of(lines_of(buf@.subrange(bstart, end as int))))
                == agg_fold(
                as_map(entries@),
                records_of(lines_of(buf@.subrange(pos as int, end as int))),
            ),
        decreases end - pos,
    {
        let ghost rem = buf@.subrange(pos as int, end as int);
        let line_end: usize;
        let next: usize;
        match find_byte(buf, pos, end, 10) {
            Some(j) => {
                line_end = j;
                next = j + 1;
            },
            None => {
                line_end = end;
                next = end;
            },
        }
        let ghost line = buf@.subrange(pos as int, line_end as int);
        let ghost rest = buf@.subrange(next as int, end as int);
        proof {
            lemma_first_index_props(rem, 10);
            if line_end < end {
                assert(rem[line_end - pos] == 10);
                assert(first_index(rem, 10) == line_end - pos);
                assert_seqs_equal!(rem.subrange(0, line_end - pos) == line);
                assert_seqs_equal!(rem.subrange(line_end - pos + 1, rem.len() as int) == rest);
                assert(lines_of(rem) == seq![line] + lines_of(rest));
            } else {
                assert(first_index(rem, 10) == -1);
                assert(rem == line);
                assert(rest.len() == 0);
                assert(lines_of(rest) =~= Seq::<Seq<u8>>::empty());
                assert_seqs_equal!(lines_of(rem) == seq![line] + lines_of(rest));
            }
            lemma_records_cons(line, lines_of(rest));
        }
        match parse_record(buf, pos, line_end) {
            Some((key, v)) => {
                proof {
                    lemma_fold_cons(
                        as_map(entries@),
                        (key@, v as int),
                        records_of(lines_of(rest)),
                    );
                }
                agg_record(&mut entries, key, v, Ghost(nrec as nat));
                proof {
                    nrec = nrec + 1;
                }
            },
            None => {},
        }
        pos = next;
    }
    proof {
        assert(buf@.subrange(pos as int, end as int).len() == 0);
        assert(records_of(lines_of(buf@.subrange(pos as int, end as int))) =~= Seq::<
            (Seq<u8>, int),
        >::empty());
    }
    let weight = end - start;
    proof {
        assert(forall|i: int| 0 <= i < entries@.len() ==> (#[trigger] entries@[i]).1@.count
            <= weight);
    }
    Aggregate { entries, weight }
}

} // verus!
