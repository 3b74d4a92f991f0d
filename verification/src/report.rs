//! Renders the global aggregate: keys in ascending byte-wise
//! lexicographic order, each with its minimum, mean and maximum printed
//! with exactly one fractional decimal digit, as
//! `{key=min/mean/max, key=min/mean/max}`.

use vstd::prelude::*;
use vstd::map::*;
use vstd::assert_seqs_equal;
use crate::agg::{as_map, entry_keys_unique, lemma_as_map_remove, Aggregate};
use crate::stat::{mean_tenths, stat_model_wf, Stat, StatModel, VALUE_BOUND};

verus! {

/// Byte-wise lexicographic order: `a` is no later than `b`.
pub open spec fn lex_le(a: Seq<u8>, b: Seq<u8>) -> bool
    decreases a.len(),
{
    if a.len() == 0 {
        true
    } else if b.len() == 0 {
        false
    } else if a[0] < b[0] {
        true
    } else if a[0] > b[0] {
        false
    } else {
        lex_le(a.drop_first(), b.drop_first())
    }
}

/// The lexicographic order is total.
pub proof fn lemma_lex_total(a: Seq<u8>, b: Seq<u8>)
    ensures
        lex_le(a, b) || lex_le(b, a),
    decreases a.len(),
{
    if a.len() > 0 && b.len() > 0 && a[0] == b[0] {
        lemma_lex_total(a.drop_first(), b.drop_first());
    }
}

/// The lexicographic order is transitive.
pub proof fn lemma_lex_trans(a: Seq<u8>, b: Seq<u8>, c: Seq<u8>)
    requires
        lex_le(a, b),
        lex_le(b, c),
    ensures
        lex_le(a, c),
    decreases a.len(),
{
    if a.len() > 0 && b.len() > 0 && c.len() > 0 && a[0] == b[0] && b[0] == c[0] {
        lemma_lex_trans(a.drop_first(), b.drop_first(), c.drop_first());
    }
}

/// Entries in ascending key order.
pub open spec fn entries_sorted(s: Seq<(Vec<u8>, Stat)>) -> bool {
    forall|p: int, q: int| 0 <= p < q < s.len() ==> lex_le(
        (#[trigger] s[p]).0@,
        (#[trigger] s[q]).0@,
    )
}

/// Whether `a` is lexicographically no later than `b`.
pub fn key_le(a: &[u8], b: &[u8]) -> (r: bool)
    ensures
        r == lex_le(a@, b@),
{
    let alen = a.len();
    let blen = b.len();
    let mut i: usize = 0;
    proof {
        assert(a@.skip(0) == a@);
        assert(b@.skip(0) == b@);
    }
    loop
        invariant
            0 <= i,
            i <= alen,
            i <= blen,
            alen == a@.len(),
            blen == b@.len(),
            lex_le(a@, b@) == lex_le(a@.skip(i as int), b@.skip(i as int)),
        decreases alen - i,
    {
        if i == alen {
            return true;
        }
        if i == blen {
            return false;
        }
        let x = a[i];
        let y = b[i];
        if x < y {
            return true;
        }
        if x > y {
            return false;
        }
        proof {
            assert(a@.skip(i as int).drop_first() == a@.skip(i + 1));
            assert(b@.skip(i as int).drop_first() == b@.skip(i + 1));
        }
        i = i + 1;
    }
}

/// Index of a least key in the table.
fn find_min_key(entries: &Vec<(Vec<u8>, Stat)>) -> (r: usize)
    requires
        entries@.len() > 0,
    ensures
        r < entries@.len(),
        forall|t: int| 0 <= t < entries@.len() ==> lex_le(
            entries@[r as int].0@,
            (#[trigger] entries@[t]).0@,
        ),
{
    let n = entries.len();
    let mut best: usize = 0;
    let mut i: usize = 1;
    proof {
        lemma_lex_total(entries@[0].0@, entries@[0].0@);
    }
    while i < n
        invariant
            best < i <= n,
            n == entries@.len(),
            forall|t: int| 0 <= t < i ==> lex_le(
                entries@[best as int].0@,
                (#[trigger] entries@[t]).0@,
            ),
        decreases n - i,
    {
        let ghost old_best = best as int;
        if key_le(entries[i].0.as_slice(), entries[best].0.as_slice()) {
            best = i;
            proof {
                assert forall|t: int| 0 <= t < i + 1 implies lex_le(
                    entries@[best as int].0@,
                    (#[trigger] entries@[t]).0@,
                ) by {
                    if t < i {
                        lemma_lex_trans(
                            entries@[best as int].0@,
                            entries@[old_best].0@,
                            entries@[t].0@,
                        );
                    } else {
                        lemma_lex_total(entries@[best as int].0@, entries@[t].0@);
                    }
                }
            }
        } else {
            proof {
                lemma_lex_total(entries@[i as int].0@, entries@[old_best].0@);
            }
        }
        i = i + 1;
    }
    best
}

/// Sort the table by key, ascending. The denoted map is unchanged.
#[verifier::loop_isolation(false)]
#[verifier::rlimit(60)]
pub fn sort_entries(v: Vec<(Vec<u8>, Stat)>) -> (r: Vec<(Vec<u8>, Stat)>)
    requires
        entry_keys_unique(v@),
        forall|i: int| 0 <= i < v@.len() ==> stat_model_wf((#[trigger] v@[i]).1@),
    ensures
        entry_keys_unique(r@),
        entries_sorted(r@),
        as_map(r@) == as_map(v@),
        forall|i: int| 0 <= i < r@.len() ==> stat_model_wf((#[trigger] r@[i]).1@),
{
    let mut rem = v;
    let mut out: Vec<(Vec<u8>, Stat)> = Vec::new();
    proof {
        assert_maps_equal!(as_map(out@).union_prefer_right(as_map(rem@)), as_map(v@));
    }
    while rem.len() > 0
        invariant
            entry_keys_unique(rem@),
            entry_keys_unique(out@),
            entries_sorted(out@),
            forall|p: int, q: int| 0 <= p < out@.len() && 0 <= q < rem@.len() ==> (
            #[trigger] out@[p]).0@ != (#[trigger] rem@[q]).0@ && lex_le(out@[p].0@, rem@[q].0@),
            forall|i: int| 0 <= i < out@.len() ==> stat_model_wf((#[trigger] out@[i]).1@),
            forall|i: int| 0 <= i < rem@.len() ==> stat_model_wf((#[trigger] rem@[i]).1@),
            as_map(out@).union_prefer_right(as_map(rem@)) == as_map(v@),
        decreases rem@.len(),
    {
        let ghost rem0 = rem@;
        let ghost out0 = out@;
        let m = find_min_key(&rem);
        proof {
            lemma_as_map_remove(rem0, m as int);
        }
        let e = rem.remove(m);
        let ghost k = e.0@;
        out.push(e);
        proof {
            assert(out@.drop_last() == out0);
            assert(forall|q: int| 0 <= q < m ==> (#[trigger] rem@[q]) == rem0[q]);
            assert(forall|q: int| m <= q < rem@.len() ==> (#[trigger] rem@[q]) == rem0[q + 1]);
            assert_maps_equal!(as_map(out@).union_prefer_right(as_map(rem@)),
                as_map(out0).union_prefer_right(as_map(rem0)));
        }
    }
    proof {
        assert(rem@.len() == 0);
        assert_maps_equal!(as_map(out@).union_prefer_right(as_map(rem@)), as_map(out@));
    }
    out
}

/// The decimal digits of `n`, most significant first.
pub open spec fn dec_digits(n: nat) -> Seq<u8>
    decreases n,
{
    if n < 10 {
        seq![(48 + n) as u8]
    } else {
        dec_digits(n / 10) + seq![(48 + n % 10) as u8]
    }
}

/// A value in tenths, rendered with one fractional digit: an optional
/// minus sign, the whole part, a dot, one digit.
pub open spec fn render_value(v: int) -> Seq<u8> {
    let m = if v >= 0 {
        v
    } else {
        -v
    };
    let sign: Seq<u8> = if v < 0 {
        seq![45u8]
    } else {
        Seq::empty()
    };
    sign + dec_digits((m / 10) as nat) + seq![46u8, (48 + m % 10) as u8]
}

/// One report entry: `key=min/mean/max`.
pub open spec fn render_entry(k: Seq<u8>, st: StatModel) -> Seq<u8> {
    k + seq![61u8] + render_value(st.min) + seq![47u8] + render_value(mean_tenths(st)) + seq![47u8]
        + render_value(st.max)
}

/// The entries joined by `", "`.
pub open spec fn render_entries(s: Seq<(Vec<u8>, Stat)>) -> Seq<u8>
    decreases s.len(),
{
    if s.len() == 0 {
        Seq::empty()
    } else if s.len() == 1 {
        render_entry(s[0].0@, s[0].1@)
    } else {
        render_entry(s[0].0@, s[0].1@) + seq![44u8, 32u8] + render_entries(s.drop_first())
    }
}

/// The whole report: the entries, braced.
pub open spec fn render_report(s: Seq<(Vec<u8>, Stat)>) -> Seq<u8> {
    seq![123u8] + render_entries(s) + seq![125u8]
}

/// Reversing after one more push puts the pushed element first.
proof fn lemma_reverse_push(s: Seq<u8>, x: u8)
    ensures
        s.push(x).reverse() == seq![x] + s.reverse(),
{
    assert_seqs_equal!(s.push(x).reverse() == seq![x] + s.reverse());
}

/// Appending one more entry extends the joined rendering.
proof fn lemma_render_snoc(s: Seq<(Vec<u8>, Stat)>, e: (Vec<u8>, Stat))
    ensures
        render_entries(s.push(e)) == if s.len() == 0 {
            render_entry(e.0@, e.1@)
        } else {
            render_entries(s) + seq![44u8, 32u8] + render_entry(e.0@, e.1@)
        },
    decreases s.len(),
{
    let t = s.push(e);
    if s.len() == 0 {
        assert(t.len() == 1);
        assert(t[0] == e);
    } else {
        assert(t[0] == s[0]);
        assert(t.drop_first() == s.drop_first().push(e));
        lemma_render_snoc(s.drop_first(), e);
        if s.len() == 1 {
            assert(render_entries(s) == render_entry(s[0].0@, s[0].1@));
            assert_seqs_equal!(render_entries(t) ==
                render_entries(s) + seq![44u8, 32u8] + render_entry(e.0@, e.1@));
        } else {
            assert_seqs_equal!(render_entries(t) ==
                render_entries(s) + seq![44u8, 32u8] + render_entry(e.0@, e.1@));
        }
    }
}

/// Append the decimal digits of `n`.
fn push_digits(out: &mut Vec<u8>, n: u64)
    ensures
        final(out)@ == old(out)@ + dec_digits(n as nat),
{
    let mut tmp: Vec<u8> = Vec::new();
    let mut m = n;
    let d = (m % 10) as u8;
    tmp.push(48 + d);
    proof {
        assert(tmp@ =~= seq![(48 + n % 10) as u8]);
        assert_seqs_equal!(tmp@.reverse() == tmp@);
    }
    m = m / 10;
    while m > 0
        invariant
            tmp@.len() >= 1,
            if m > 0 {
                dec_digits(n as nat) == dec_digits(m as nat) + tmp@.reverse()
            } else {
                dec_digits(n as nat) == tmp@.reverse()
            },
        decreases m,
    {
        let ghost tmp0 = tmp@;
        let d = (m % 10) as u8;
        tmp.push(48 + d);
        proof {
            lemma_reverse_push(tmp0, (48 + m % 10) as u8);
        }
        m = m / 10;
        proof {
            if m > 0 {
                assert(dec_digits((m * 10 + tmp@.last() - 48) as nat) == dec_digits(m as nat)
                    + seq![tmp@.last()]);
            }
            assert_seqs_equal!(dec_digits(n as nat) ==
                if m > 0 { dec_digits(m as nat) + tmp@.reverse() } else { tmp@.reverse() });
        }
    }
    while tmp.len() > 0
        invariant
            out@ + tmp@.reverse() == old(out)@ + dec_digits(n as nat),
        decreases tmp@.len(),
    {
        let ghost tmp0 = tmp@;
        let b = tmp.pop().unwrap();
        out.push(b);
        proof {
            assert(tmp0 == tmp@.push(b));
            lemma_reverse_push(tmp@, b);
            assert_seqs_equal!(out@ + tmp@.reverse() == old(out)@ + dec_digits(n as nat));
        }
    }
    proof {
        assert_seqs_equal!(tmp@.reverse() == Seq::<u8>::empty());
        assert_seqs_equal!(out@ == old(out)@ + dec_digits(n as nat));
    }
}

/// Append a value in tenths as `render_value` describes.
fn push_value(out: &mut Vec<u8>, v: i64)
    requires
        -VALUE_BOUND <= v <= VALUE_BOUND,
    ensures
        final(out)@ == old(out)@ + render_value(v as int),
{
    let m: u64 = if v < 0 {
        out.push(45);
        (-v) as u64
    } else {
        v as u64
    };
    push_digits(out, m / 10);
    out.push(46);
    out.push(48 + (m % 10) as u8);
    proof {
        assert_seqs_equal!(out@ == old(out)@ + render_value(v as int));
    }
}

/// Render the sorted table as the final report bytes.
#[verifier::loop_isolation(false)]
pub fn render_report_bytes(entries: &Vec<(Vec<u8>, Stat)>) -> (r: Vec<u8>)
    requires
        forall|i: int| 0 <= i < entries@.len() ==> stat_model_wf((#[trigger] entries@[i]).1@),
    ensures
        r@ == render_report(entries@),
{
    let mut out: Vec<u8> = Vec::new();
    out.push(123);
    let n = entries.len();
    let mut i: usize = 0;
    while i < n
        invariant
            0 <= i <= n,
            n == entries@.len(),
            out@ == seq![123u8] + render_entries(entries@.subrange(0, i as int)),
        decreases n - i,
    {
        let ghost pre = entries@.subrange(0, i as int);
        let ghost pre1 = entries@.subrange(0, i + 1 as int);
        proof {
            assert(pre1 == pre.push(entries@[i as int]));
            lemma_render_snoc(pre, entries@[i as int]);
        }
        if i > 0 {
            out.push(44);
            out.push(32);
        }
        // key
        let ghost before_entry = out@;
        let klen = entries[i].0.len();
        let mut j: usize = 0;
        while j < klen
            invariant
                0 <= j <= klen,
                i < n == entries@.len(),
                klen == entries@[i as int].0@.len(),
                out@ == before_entry + entries@[i as int].0@.subrange(0, j as int),
            decreases klen - j,
        {
            let b = *vstd::slice::slice_index_get(entries[i].0.as_slice(), j);
            out.push(b);
            proof {
                assert_seqs_equal!(out@ ==
                    before_entry + entries@[i as int].0@.subrange(0, j + 1));
            }
            j = j + 1;
        }
        proof {
            assert(entries@[i as int].0@.subrange(0, klen as int) == entries@[i as int].0@);
        }
        out.push(61);
        let st = entries[i].1;
        push_value(&mut out, st.min);
        out.push(47);
        let mv = st.mean();
        push_value(&mut out, mv);
        out.push(47);
        push_value(&mut out, st.max);
        proof {
            assert_seqs_equal!(out@ == seq![123u8] + render_entries(pre1));
        }
        i = i + 1;
    }
    proof {
        assert(entries@.subrange(0, n as int) == entries@);
    }
    out.push(125);
    proof {
        assert_seqs_equal!(out@ == render_report(entries@));
    }
    out
}

} // verus!
