use chunkstats::planner::{plan_chunks, plan_for_workers};
use chunkstats::run;
use chunkstats::stat::Stat;
use chunkstats::worker::process_chunk;

fn report(input: &[u8], chunk_size: usize) -> String {
    String::from_utf8(run(input, chunk_size)).unwrap()
}

#[test]
fn single_chunk_two_keys() {
    let out = report(b"A;10.0\nB;20.0\nA;30.0\n", 1 << 20);
    assert_eq!(out, "{A=10.0/20.0/30.0, B=20.0/20.0/20.0}");
}

#[test]
fn malformed_middle_line_dropped() {
    let out = report(b"X;5.5\nY;abc\nX;4.5\n", 1 << 20);
    assert_eq!(out, "{X=4.5/5.0/5.5}");
}

#[test]
fn empty_input_empty_report() {
    assert_eq!(report(b"", 4), "{}");
    assert_eq!(report(b"", 1), "{}");
}

#[test]
fn chunking_on_terminators_matches_single_chunk() {
    // 18 bytes, three 6-byte records; a terminator sits at offset 11, so
    // the two-chunk plan at size 11 splits exactly on it.
    let input = b"A;1.0\nB;2.0\nC;3.0\n";
    assert_eq!(input[11], b'\n');
    let single = report(input, 100);
    let double = report(input, 11);
    assert_eq!(single, "{A=1.0/1.0/1.0, B=2.0/2.0/2.0, C=3.0/3.0/3.0}");
    assert_eq!(single, double);
}

#[test]
fn chunk_ranges_partition_the_buffer() {
    let ranges = plan_chunks(10, 4);
    assert_eq!(ranges.len(), 3);
    assert_eq!((ranges[0].start, ranges[0].end), (0, 4));
    assert_eq!((ranges[1].start, ranges[1].end), (4, 8));
    assert_eq!((ranges[2].start, ranges[2].end), (8, 10));
    assert!(plan_chunks(0, 7).is_empty());
    let exact = plan_chunks(12, 4);
    assert_eq!(exact.len(), 3);
    assert_eq!((exact[2].start, exact[2].end), (8, 12));
}

#[test]
fn plan_by_worker_count() {
    let r = plan_for_workers(10, 3);
    assert_eq!(r.len(), 3);
    assert_eq!((r[0].start, r[0].end), (0, 4));
    assert_eq!((r[1].start, r[1].end), (4, 8));
    assert_eq!((r[2].start, r[2].end), (8, 10));
    assert!(plan_for_workers(0, 5).is_empty());
    let one = plan_for_workers(7, 1);
    assert_eq!(one.len(), 1);
    assert_eq!((one[0].start, one[0].end), (0, 7));
    assert!(plan_for_workers(3, 16).len() <= 16);
}

#[test]
fn three_field_line_excluded_from_count_and_sum() {
    // The malformed line carries key A too: it must change neither A's
    // count (mean would move) nor its extremes.
    let out = report(b"A;1.0\nA;1.0;9.0\nA;3.0\n", 1 << 20);
    assert_eq!(out, "{A=1.0/2.0/3.0}");
}

#[test]
fn non_numeric_and_empty_value_excluded() {
    let out = report(b"A;2.0\nA;x\nA;\nB;1.\nB;.5\nB;3.0\n", 1 << 20);
    assert_eq!(out, "{A=2.0/2.0/2.0, B=3.0/3.0/3.0}");
}

#[test]
fn boundary_crossing_record_is_lost() {
    // Chunk size 12 cuts the second record in two: the first chunk sees
    // a truncated line "BBB" and drops it, the second chunk discards its
    // leading partial bytes. The record is gone, not double-counted.
    let input = b"AAAA;1.0\nBBBB;2.0\n";
    let out = report(input, 12);
    assert_eq!(out, "{AAAA=1.0/1.0/1.0}");
    let whole = report(input, 100);
    assert_eq!(whole, "{AAAA=1.0/1.0/1.0, BBBB=2.0/2.0/2.0}");
}

#[test]
fn negative_values_and_truncating_mean() {
    let out = report(b"X;-1.0\nX;-2.0\n", 1 << 20);
    assert_eq!(out, "{X=-2.0/-1.5/-1.0}");
    // 4.5 and 5.0 average to 4.75: rounded toward zero to 4.7.
    let out2 = report(b"X;5.0\nX;4.5\n", 1 << 20);
    assert_eq!(out2, "{X=4.5/4.7/5.0}");
    let out3 = report(b"X;-5.0\nX;-4.5\n", 1 << 20);
    assert_eq!(out3, "{X=-5.0/-4.7/-4.5}");
}

#[test]
fn value_grammar_edges() {
    // A plus sign, extra fractional digits (ignored beyond tenths),
    // leading zeros, trailing whitespace, and a missing final terminator.
    let out = report(b"P;+2.5\nQ;1.29\nR;007\nS;4.0 \r\nT;9.9", 1 << 20);
    assert_eq!(out, "{P=2.5/2.5/2.5, Q=1.2/1.2/1.2, R=7.0/7.0/7.0, S=4.0/4.0/4.0, T=9.9/9.9/9.9}");
}

#[test]
fn oversized_value_dropped() {
    let out = report(b"X;99999999999999999999\nX;1.0\n", 1 << 20);
    assert_eq!(out, "{X=1.0/1.0/1.0}");
}

#[test]
fn empty_key_is_a_key() {
    let out = report(b";5.0\nA;1.0\n", 1 << 20);
    assert_eq!(out, "{=5.0/5.0/5.0, A=1.0/1.0/1.0}");
}

#[test]
fn keys_sorted_bytewise() {
    let out = report(b"b;1.0\nB;2.0\nab;3.0\na;4.0\n", 1 << 20);
    assert_eq!(out, "{B=2.0/2.0/2.0, a=4.0/4.0/4.0, ab=3.0/3.0/3.0, b=1.0/1.0/1.0}");
}

#[test]
fn later_chunk_skips_to_first_terminator() {
    // A non-first chunk discards everything up to and including the
    // first terminator of its range.
    let input = b"A;1.0\nB;2.0\nC;3.0\n";
    let local = process_chunk(input, 0, 11, false);
    // Range [0, 11) starts chunk index > 0: "A;1.0\n" is discarded,
    // "B;2.0" remains.
    assert_eq!(local.entries.len(), 1);
    assert_eq!(local.entries[0].0, b"B".to_vec());
    assert_eq!(local.entries[0].1.count, 1);
    assert_eq!(local.entries[0].1.sum, 20);
}

#[test]
fn rendering_digit_widths() {
    let out = report(b"A;123.4\nB;0.5\nC;-0.5\nD;1000.0\n", 1 << 20);
    assert_eq!(
        out,
        "{A=123.4/123.4/123.4, B=0.5/0.5/0.5, C=-0.5/-0.5/-0.5, D=1000.0/1000.0/1000.0}"
    );
}

#[test]
fn stat_observe_and_combine() {
    let mut a = Stat::new(100);
    a.observe(300);
    assert_eq!((a.min, a.max, a.sum, a.count), (100, 300, 400, 2));
    let b = Stat::new(-50);
    let c = a.combine(&b);
    assert_eq!((c.min, c.max, c.sum, c.count), (-50, 300, 350, 3));
    let d = b.combine(&a);
    assert_eq!((d.min, d.max, d.sum, d.count), (c.min, c.max, c.sum, c.count));
    assert_eq!(c.mean(), 116);
    let mut n = Stat::new(-100);
    n.observe(-250);
    assert_eq!(n.mean(), -175);
}

#[test]
fn combine_associative_on_values() {
    let a = Stat::new(10);
    let b = Stat::new(-20);
    let c = Stat::new(30);
    let left = a.combine(&b).combine(&c);
    let right = a.combine(&b.combine(&c));
    assert_eq!((left.min, left.max, left.sum, left.count), (right.min, right.max, right.sum, right.count));
}
