//! Running summary of the values observed for one key: minimum, maximum,
//! sum and count. The mean is never stored; it is computed on demand from
//! sum and count so that no rounding error accumulates across merges.
//!
//! Values are integers in tenths. Their magnitude is capped at
//! `VALUE_BOUND`, which keeps every sum representable: a sum of at most
//! `usize::MAX` values, each at most `VALUE_BOUND` in magnitude, fits
//! comfortably in an `i128`.

use vstd::prelude::*;
use vstd::arithmetic::div_mod::{lemma_div_is_ordered, lemma_div_multiples_vanish};

verus! {

/// Largest magnitude, in tenths, of a value the parser accepts.
pub const VALUE_BOUND: i64 = 999_999_999_999_999;

/// Mathematical model of a summary: the same four fields, unbounded.
pub ghost struct StatModel {
    pub min: int,
    pub max: int,
    pub sum: int,
    pub count: nat,
}

pub open spec fn min_int(a: int, b: int) -> int {
    if a <= b {
        a
    } else {
        b
    }
}

pub open spec fn max_int(a: int, b: int) -> int {
    if a >= b {
        a
    } else {
        b
    }
}

/// The summary of a single observation.
pub open spec fn stat_singleton(v: int) -> StatModel {
    StatModel { min: v, max: v, sum: v, count: 1 }
}

/// The summary after one more observation.
pub open spec fn stat_observe(s: StatModel, v: int) -> StatModel {
    StatModel {
        min: min_int(s.min, v),
        max: max_int(s.max, v),
        sum: s.sum + v,
        count: s.count + 1,
    }
}

/// Merge of two summaries of disjoint observation sets.
pub open spec fn stat_combine(a: StatModel, b: StatModel) -> StatModel {
    StatModel {
        min: min_int(a.min, b.min),
        max: max_int(a.max, b.max),
        sum: a.sum + b.sum,
        count: a.count + b.count,
    }
}

/// A summary is well formed when it describes at least one observation,
/// its extremes are within the value cap and ordered, and its sum lies
/// between `count * min` and `count * max`.
pub open spec fn stat_model_wf(s: StatModel) -> bool {
    &&& 1 <= s.count
    &&& -VALUE_BOUND <= s.min <= s.max <= VALUE_BOUND
    &&& s.count * s.min <= s.sum <= s.count * s.max
}

/// The mean in tenths, rounded toward zero.
pub open spec fn mean_tenths(s: StatModel) -> int
    recommends
        s.count > 0,
{
    if s.sum >= 0 {
        s.sum / (s.count as int)
    } else {
        -((-s.sum) / (s.count as int))
    }
}

/// Merging summaries is commutative.
pub proof fn lemma_combine_commutative(a: StatModel, b: StatModel)
    ensures
        stat_combine(a, b) == stat_combine(b, a),
{
}

/// Merging summaries is associative.
pub proof fn lemma_combine_associative(a: StatModel, b: StatModel, c: StatModel)
    ensures
        stat_combine(stat_combine(a, b), c) == stat_combine(a, stat_combine(b, c)),
{
}

/// A singleton summary is well formed.
pub proof fn lemma_singleton_wf(v: int)
    requires
        -VALUE_BOUND <= v <= VALUE_BOUND,
    ensures
        stat_model_wf(stat_singleton(v)),
{
}

/// Observing one more value preserves well-formedness.
pub proof fn lemma_observe_wf(s: StatModel, v: int)
    requires
        stat_model_wf(s),
        -VALUE_BOUND <= v <= VALUE_BOUND,
    ensures
        stat_model_wf(stat_observe(s, v)),
{
    let t = stat_observe(s, v);
    assert((s.count + 1) * t.min <= s.sum + v && s.sum + v <= (s.count + 1) * t.max)
        by (nonlinear_arith)
        requires
            1 <= s.count,
            s.count * s.min <= s.sum <= s.count * s.max,
            t.min <= s.min,
            t.min <= v,
            s.max <= t.max,
            v <= t.max,
    ;
}

/// Merging preserves well-formedness.
pub proof fn lemma_combine_wf(a: StatModel, b: StatModel)
    requires
        stat_model_wf(a),
        stat_model_wf(b),
    ensures
        stat_model_wf(stat_combine(a, b)),
{
    let t = stat_combine(a, b);
    assert(t.count * t.min <= a.sum + b.sum && a.sum + b.sum <= t.count * t.max)
        by (nonlinear_arith)
        requires
            1 <= a.count,
            1 <= b.count,
            a.count * a.min <= a.sum <= a.count * a.max,
            b.count * b.min <= b.sum <= b.count * b.max,
            t.min <= a.min,
            t.min <= b.min,
            a.max <= t.max,
            b.max <= t.max,
            t.count == a.count + b.count,
    ;
}

/// The sum of a well-formed summary is bounded by `count * VALUE_BOUND`
/// in magnitude.
pub proof fn lemma_sum_bound(s: StatModel)
    requires
        stat_model_wf(s),
    ensures
        -(s.count * VALUE_BOUND) <= s.sum <= s.count * VALUE_BOUND,
{
    assert(s.count * (-VALUE_BOUND) <= s.count * s.min && s.count * s.max <= s.count
        * VALUE_BOUND && s.count * (-VALUE_BOUND) == -(s.count * VALUE_BOUND))
        by (nonlinear_arith)
        requires
            1 <= s.count,
            -VALUE_BOUND <= s.min <= s.max <= VALUE_BOUND,
    ;
}

/// The mean of a well-formed summary lies between its minimum and its
/// maximum.
pub proof fn lemma_mean_bounds(s: StatModel)
    requires
        stat_model_wf(s),
    ensures
        s.min <= mean_tenths(s) <= s.max,
{
    let c = s.count as int;
    if s.sum >= 0 {
        lemma_div_multiples_vanish(s.min, c);
        assert(c * s.min == s.count * s.min);
        lemma_div_is_ordered(c * s.min, s.sum, c);
        lemma_div_multiples_vanish(s.max, c);
        assert(c * s.max == s.count * s.max);
        lemma_div_is_ordered(s.sum, c * s.max, c);
    } else {
        // min <= -((-sum) / c): from count * min <= sum.
        lemma_div_multiples_vanish(-s.min, c);
        assert(c * (-s.min) == -(c * s.min)) by (nonlinear_arith);
        lemma_div_is_ordered(-s.sum, c * (-s.min), c);
        // -((-sum) / c) <= max.
        if s.max >= 0 {
            vstd::arithmetic::div_mod::lemma_div_pos_is_pos(-s.sum, c);
        } else {
            lemma_div_multiples_vanish(-s.max, c);
            assert(c * (-s.max) == -(c * s.max)) by (nonlinear_arith);
            lemma_div_is_ordered(c * (-s.max), -s.sum, c);
        }
    }
}

/// Running summary of one key, in tenths. `sum` is wide enough that it
/// cannot overflow while `count` fits in a machine word and every value
/// respects `VALUE_BOUND`.
#[derive(Clone, Copy, Debug)]
pub struct Stat {
    pub min: i64,
    pub max: i64,
    pub sum: i128,
    pub count: usize,
}

impl View for Stat {
    type V = StatModel;

    open spec fn view(&self) -> StatModel {
        StatModel {
            min: self.min as int,
            max: self.max as int,
            sum: self.sum as int,
            count: self.count as nat,
        }
    }
}

impl Stat {
    pub open spec fn wf(self) -> bool {
        stat_model_wf(self@)
    }

    /// Summary of a single observation.
    pub fn new(v: i64) -> (r: Stat)
        requires
            -VALUE_BOUND <= v <= VALUE_BOUND,
        ensures
            r@ == stat_singleton(v as int),
            r.wf(),
    {
        Stat { min: v, max: v, sum: v as i128, count: 1 }
    }

    /// Fold one more observation into the summary.
    pub fn observe(&mut self, v: i64)
        requires
            old(self).wf(),
            -VALUE_BOUND <= v <= VALUE_BOUND,
            old(self).count < usize::MAX,
        ensures
            final(self)@ == stat_observe(old(self)@, v as int),
            final(self).wf(),
    {
        proof {
            lemma_sum_bound(self@);
            lemma_count_times_bound_fits(self@.count);
            lemma_observe_wf(self@, v as int);
        }
        if v < self.min {
            self.min = v;
        }
        if v > self.max {
            self.max = v;
        }
        self.sum = self.sum + (v as i128);
        self.count = self.count + 1;
    }

    /// Merge another summary of disjoint observations into a new one.
    pub fn combine(&self, other: &Stat) -> (r: Stat)
        requires
            self.wf(),
            other.wf(),
            self.count + other.count <= usize::MAX,
        ensures
            r@ == stat_combine(self@, other@),
            r.wf(),
    {
        proof {
            lemma_sum_bound(self@);
            lemma_sum_bound(other@);
            lemma_count_times_bound_fits(self@.count);
            lemma_count_times_bound_fits(other@.count);
            lemma_combine_wf(self@, other@);
        }
        Stat {
            min: if self.min <= other.min {
                self.min
            } else {
                other.min
            },
            max: if self.max >= other.max {
                self.max
            } else {
                other.max
            },
            sum: self.sum + other.sum,
            count: self.count + other.count,
        }
    }

    /// The mean in tenths, rounded toward zero.
    pub fn mean(&self) -> (r: i64)
        requires
            self.wf(),
        ensures
            r as int == mean_tenths(self@),
            -VALUE_BOUND <= r <= VALUE_BOUND,
    {
        proof {
            lemma_mean_bounds(self@);
            lemma_sum_bound(self@);
            lemma_count_times_bound_fits(self@.count);
        }
        let neg = self.sum < 0;
        let mag: u128 = if neg {
            (-self.sum) as u128
        } else {
            self.sum as u128
        };
        let q: u128 = mag / (self.count as u128);
        proof {
            if self.sum >= 0 {
                assert(q == mean_tenths(self@));
            } else {
                assert(q == (-self@.sum) / (self@.count as int));
                assert(-(q as int) == mean_tenths(self@));
            }
        }
        if neg {
            -(q as i64)
        } else {
            q as i64
        }
    }
}

/// `count * VALUE_BOUND` stays far below the `i128` range for any
/// machine-word count.
proof fn lemma_count_times_bound_fits(c: nat)
    requires
        c <= usize::MAX,
    ensures
        c * VALUE_BOUND <= 0xffff_ffff_ffff_ffff * (VALUE_BOUND as int),
        0xffff_ffff_ffff_ffff * (VALUE_BOUND as int) + VALUE_BOUND < i128::MAX,
{
    assert(c * VALUE_BOUND <= 0xffff_ffff_ffff_ffff * (VALUE_BOUND as int))
        by (nonlinear_arith)
        requires
            c <= 0xffff_ffff_ffff_ffff,
    ;
}

} // verus!
