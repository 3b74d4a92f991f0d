//! One record is one terminator-delimited line `key;value`. The line is
//! trimmed of trailing whitespace, must contain exactly one `;`, and its
//! value must be a decimal number: an optional sign, one or more digits,
//! and an optional fractional part of one or more digits. The value is
//! carried in tenths; fractional digits beyond the first do not
//! contribute. A value whose magnitude exceeds `VALUE_BOUND` tenths is
//! rejected. A line that fails any of these checks is no record.

use vstd::prelude::*;
use vstd::assert_seqs_equal;
use crate::stat::VALUE_BOUND;

verus! {

pub open spec fn is_digit(b: u8) -> bool {
    48 <= b <= 57
}

/// ASCII whitespace stripped from the end of a line.
pub open spec fn is_trim_byte(b: u8) -> bool {
    b == 9 || b == 10 || b == 11 || b == 12 || b == 13 || b == 32
}

pub open spec fn all_digits(s: Seq<u8>) -> bool {
    forall|i: int| 0 <= i < s.len() ==> is_digit(#[trigger] s[i])
}

/// The number denoted by a sequence of decimal digits.
pub open spec fn digits_val(s: Seq<u8>) -> int
    decreases s.len(),
{
    if s.len() == 0 {
        0
    } else {
        digits_val(s.drop_last()) * 10 + (s.last() - 48)
    }
}

/// Index of the first occurrence of `b` in `s`, or -1.
pub open spec fn first_index(s: Seq<u8>, b: u8) -> int
    decreases s.len(),
{
    if s.len() == 0 {
        -1
    } else if s[0] == b {
        0
    } else {
        let r = first_index(s.drop_first(), b);
        if r < 0 {
            -1
        } else {
            r + 1
        }
    }
}

/// `s` with every trailing whitespace byte removed.
pub open spec fn trim_end_spec(s: Seq<u8>) -> Seq<u8>
    decreases s.len(),
{
    if s.len() > 0 && is_trim_byte(s.last()) {
        trim_end_spec(s.drop_last())
    } else {
        s
    }
}

/// Clamp a parsed magnitude to the value cap and apply the sign.
pub open spec fn cap_value(m: int, neg: bool) -> Option<int> {
    if m > VALUE_BOUND {
        None
    } else if neg {
        Some(-m)
    } else {
        Some(m)
    }
}

/// The value, in tenths, denoted by `s`, if `s` is a decimal number.
pub open spec fn parse_value_spec(s: Seq<u8>) -> Option<int> {
    let neg = s.len() > 0 && s[0] == 45;
    let body = if s.len() > 0 && (s[0] == 43 || s[0] == 45) {
        s.drop_first()
    } else {
        s
    };
    if body.len() == 0 {
        None
    } else {
        let d = first_index(body, 46);
        if d < 0 {
            if all_digits(body) {
                cap_value(digits_val(body) * 10, neg)
            } else {
                None
            }
        } else {
            let ip = body.subrange(0, d);
            let fp = body.subrange(d + 1, body.len() as int);
            if 1 <= d && fp.len() >= 1 && all_digits(ip) && all_digits(fp) {
                cap_value(digits_val(ip) * 10 + (fp[0] - 48), neg)
            } else {
                None
            }
        }
    }
}

/// The record denoted by one line: the trimmed line must hold exactly
/// one `;`; the bytes before it are the key, the bytes after it must be
/// a decimal value.
pub open spec fn parse_record_spec(line: Seq<u8>) -> Option<(Seq<u8>, int)> {
    let t = trim_end_spec(line);
    let p = first_index(t, 59);
    if p < 0 {
        None
    } else {
        let key = t.subrange(0, p);
        let rest = t.subrange(p + 1, t.len() as int);
        if first_index(rest, 59) >= 0 {
            None
        } else {
            match parse_value_spec(rest) {
                Some(v) => Some((key, v)),
                None => None,
            }
        }
    }
}

/// What `first_index` finds is the first occurrence.
pub proof fn lemma_first_index_props(s: Seq<u8>, b: u8)
    ensures
        first_index(s, b) == -1 ==> forall|i: int| 0 <= i < s.len() ==> s[i] != b,
        first_index(s, b) != -1 ==> {
            let k = first_index(s, b);
            &&& 0 <= k < s.len()
            &&& s[k] == b
            &&& forall|i: int| 0 <= i < k ==> s[i] != b
        },
    decreases s.len(),
{
    if s.len() > 0 && s[0] != b {
        lemma_first_index_props(s.drop_first(), b);
        let r = first_index(s.drop_first(), b);
        assert(forall|i: int| 1 <= i < s.len() ==> s[i] == s.drop_first()[i - 1]);
    }
}

/// Digit sequences denote non-negative numbers.
pub proof fn lemma_digits_val_nonneg(s: Seq<u8>)
    requires
        all_digits(s),
    ensures
        digits_val(s) >= 0,
    decreases s.len(),
{
    if s.len() > 0 {
        assert(all_digits(s.drop_last()));
        lemma_digits_val_nonneg(s.drop_last());
    }
}

/// A prefix of a digit sequence denotes at most the whole.
pub proof fn lemma_digits_val_prefix_le(s: Seq<u8>, k: int)
    requires
        all_digits(s),
        0 <= k <= s.len(),
    ensures
        digits_val(s.subrange(0, k)) <= digits_val(s),
    decreases s.len() - k,
{
    if k == s.len() {
        assert(s.subrange(0, k) == s);
    } else {
        lemma_digits_val_prefix_le(s, k + 1);
        let p = s.subrange(0, k);
        let q = s.subrange(0, k + 1);
        assert(q.drop_last() == p);
        lemma_digits_val_nonneg(p);
        assert(is_digit(q.last()));
    }
}

/// Where the trailing run of whitespace starts determines the trim.
pub proof fn lemma_trim_end_at(s: Seq<u8>, k: int)
    requires
        0 <= k <= s.len(),
        forall|i: int| k <= i < s.len() ==> is_trim_byte(#[trigger] s[i]),
        k > 0 ==> !is_trim_byte(s[k - 1]),
    ensures
        trim_end_spec(s) == s.subrange(0, k),
    decreases s.len(),
{
    if s.len() == 0 {
        assert(s.subrange(0, 0) == s);
    } else if k == s.len() {
        if !is_trim_byte(s.last()) {
            assert(s.subrange(0, k) == s);
        } else {
            assert(false);
        }
    } else {
        assert(is_trim_byte(s.last()));
        lemma_trim_end_at(s.drop_last(), k);
        assert(s.drop_last().subrange(0, k) == s.subrange(0, k));
    }
}

/// Whether `b` is whitespace that the line trim removes.
pub fn trim_byte(b: u8) -> (r: bool)
    ensures
        r == is_trim_byte(b),
{
    b == 9 || b == 11 || b == 12 || b == 13 || b == 32 || b == 10
}

/// First occurrence of `target` in `buf[lo..hi]`, if any.
pub fn find_byte(buf: &[u8], lo: usize, hi: usize, target: u8) -> (r: Option<usize>)
    requires
        lo <= hi <= buf@.len(),
    ensures
        match r {
            Some(j) => lo <= j < hi && buf@[j as int] == target && forall|t: int|
                lo <= t < j ==> buf@[t] != target,
            None => forall|t: int| lo <= t < hi ==> buf@[t] != target,
        },
{
    let mut i = lo;
    while i < hi
        invariant
            lo <= i <= hi <= buf@.len(),
            forall|t: int| lo <= t < i ==> buf@[t] != target,
        decreases hi - i,
    {
        if buf[i] == target {
            return Some(i);
        }
        i = i + 1;
    }
    None
}

/// Parse `buf[lo..hi]` as a decimal value in tenths, exactly as
/// `parse_value_spec` describes.
#[verifier::loop_isolation(false)]
#[verifier::rlimit(60)]
pub fn parse_value(buf: &[u8], lo: usize, hi: usize) -> (r: Option<i64>)
    requires
        lo <= hi <= buf@.len(),
    ensures
        match r {
            Some(v) => parse_value_spec(buf@.subrange(lo as int, hi as int)) == Some(v as int)
                && -VALUE_BOUND <= v <= VALUE_BOUND,
            None => parse_value_spec(buf@.subrange(lo as int, hi as int)) is None,
        },
{
    let ghost s = buf@.subrange(lo as int, hi as int);
    if lo == hi {
        return None;
    }
    let c0 = buf[lo];
    let neg = c0 == 45;
    let bstart = if c0 == 43 || c0 == 45 {
        lo + 1
    } else {
        lo
    };
    let ghost body = buf@.subrange(bstart as int, hi as int);
    proof {
        if c0 == 43 || c0 == 45 {
            assert_seqs_equal!(body == s.drop_first());
        } else {
            assert(body == s);
        }
    }
    if bstart == hi {
        return None;
    }
    let dot = find_byte(buf, bstart, hi, 46);
    proof {
        lemma_first_index_props(body, 46);
        match dot {
            Some(d) => {
                assert(body[d - bstart] == 46);
                assert(first_index(body, 46) == d - bstart);
            },
            None => {
                assert(first_index(body, 46) == -1);
            },
        }
    }
    let ip_end = match dot {
        Some(d) => d,
        None => hi,
    };
    if ip_end == bstart {
        // The integer part is empty: no digits before the dot.
        return None;
    }
    let ghost ip = buf@.subrange(bstart as int, ip_end as int);
    proof {
        match dot {
            Some(d) => {
                assert_seqs_equal!(ip == body.subrange(0, d - bstart));
            },
            None => {
                assert(ip == body);
            },
        }
    }
    let mut acc: i64 = 0;
    let mut j = bstart;
    while j < ip_end
        invariant
            bstart <= j <= ip_end <= hi <= buf@.len(),
            ip == buf@.subrange(bstart as int, ip_end as int),
            all_digits(ip.subrange(0, j - bstart)),
            acc == digits_val(ip.subrange(0, j - bstart)),
            0 <= acc <= VALUE_BOUND,
        decreases ip_end - j,
    {
        let b = buf[j];
        let ghost pre = ip.subrange(0, j - bstart);
        let ghost pre1 = ip.subrange(0, j + 1 - bstart);
        proof {
            assert(pre1.drop_last() == pre);
            assert(pre1.last() == buf@[j as int]);
        }
        if b < 48 || b > 57 {
            // A non-digit in the integer part: the line is no record.
            assert(!all_digits(ip));
            return None;
        }
        let d = (b - 48) as i64;
        let next = acc * 10 + d;
        if next > VALUE_BOUND {
            // Any completion of the digits only grows the magnitude
            // past the cap, so the outcome is fixed already.
            proof {
                if all_digits(ip) {
                    lemma_digits_val_prefix_le(ip, j + 1 - bstart);
                    lemma_digits_val_nonneg(ip);
                    assert(digits_val(ip) * 10 + 0 > VALUE_BOUND) by (nonlinear_arith)
                        requires
                            digits_val(ip) > VALUE_BOUND,
                    ;
                    if dot is Some {
                        let fpl = body.subrange(
                            first_index(body, 46) + 1,
                            body.len() as int,
                        );
                        if fpl.len() >= 1 && all_digits(fpl) {
                            assert(is_digit(fpl[0]));
                            assert(digits_val(ip) * 10 + (fpl[0] - 48) > VALUE_BOUND);
                        }
                    }
                }
            }
            return None;
        }
        acc = next;
        j = j + 1;
    }
    assert(ip.subrange(0, ip_end - bstart) == ip);
    // acc == digits_val(ip) and the integer part is all digits.
    match dot {
        None => {
            let total = acc * 10;
            if total > VALUE_BOUND {
                return None;
            }
            if neg {
                Some(-total)
            } else {
                Some(total)
            }
        },
        Some(d) => {
            if d + 1 == hi {
                // Empty fractional part.
                return None;
            }
            let ghost fp = buf@.subrange(d + 1 as int, hi as int);
            proof {
                assert_seqs_equal!(fp == body.subrange(d - bstart + 1, body.len() as int));
            }
            // Every fractional byte must be a digit.
            let mut k = d + 1;
            while k < hi
                invariant
                    d + 1 <= k <= hi <= buf@.len(),
                    fp == buf@.subrange(d + 1 as int, hi as int),
                    all_digits(fp.subrange(0, k - d - 1)),
                decreases hi - k,
            {
                let b = buf[k];
                let ghost pre = fp.subrange(0, k - d - 1);
                let ghost pre1 = fp.subrange(0, k - d);
                proof {
                    assert(pre1.drop_last() == pre);
                    assert(pre1.last() == buf@[k as int]);
                }
                if b < 48 || b > 57 {
                    assert(!all_digits(fp));
                    return None;
                }
                k = k + 1;
            }
            assert(fp.subrange(0, hi - d - 1) == fp);
            let f = (buf[d + 1] - 48) as i64;
            assert(f == fp[0] - 48);
            let total = acc * 10 + f;
            if total > VALUE_BOUND {
                return None;
            }
            if neg {
                Some(-total)
            } else {
                Some(total)
            }
        },
    }
}

/// Parse one line `buf[lo..hi]` as a record, exactly as
/// `parse_record_spec` describes.
pub fn parse_record(buf: &[u8], lo: usize, hi: usize) -> (r: Option<(Vec<u8>, i64)>)
    requires
        lo <= hi <= buf@.len(),
    ensures
        match r {
            Some(kv) => parse_record_spec(buf@.subrange(lo as int, hi as int)) == Some(
                (kv.0@, kv.1 as int),
            ) && -VALUE_BOUND <= kv.1 <= VALUE_BOUND,
            None => parse_record_spec(buf@.subrange(lo as int, hi as int)) is None,
        },
{
    let ghost line = buf@.subrange(lo as int, hi as int);
    // Trim trailing whitespace.
    let mut t = hi;
    while t > lo && trim_byte(buf[t - 1])
        invariant
            lo <= t <= hi <= buf@.len(),
            forall|i: int| t <= i < hi ==> is_trim_byte(#[trigger] buf@[i]),
        decreases t,
    {
        t = t - 1;
    }
    let ghost ts = buf@.subrange(lo as int, t as int);
    proof {
        lemma_trim_end_at(line, t - lo);
        assert_seqs_equal!(ts == line.subrange(0, t - lo));
    }
    // Exactly one ';'.
    let semi = find_byte(buf, lo, t, 59);
    proof {
        lemma_first_index_props(ts, 59);
    }
    let p = match semi {
        None => {
            assert(first_index(ts, 59) == -1);
            return None;
        },
        Some(p) => {
            assert(ts[p - lo] == 59);
            assert(first_index(ts, 59) == p - lo);
            p
        },
    };
    let ghost rest = buf@.subrange(p + 1 as int, t as int);
    proof {
        assert_seqs_equal!(rest == ts.subrange(p - lo + 1, ts.len() as int));
        lemma_first_index_props(rest, 59);
    }
    match find_byte(buf, p + 1, t, 59) {
        Some(q) => {
            assert(rest[q - p - 1] == 59);
            assert(first_index(rest, 59) >= 0);
            None
        },
        None => {
            assert(first_index(rest, 59) == -1);
            match parse_value(buf, p + 1, t) {
                None => None,
                Some(v) => {
                    let key_slice = vstd::slice::slice_subrange(buf, lo, p);
                    let key = vstd::slice::slice_to_vec(key_slice);
                    proof {
                        assert_seqs_equal!(key@ == ts.subrange(0, p - lo));
                    }
                    Some((key, v))
                },
            }
        },
    }
}

} // verus!
