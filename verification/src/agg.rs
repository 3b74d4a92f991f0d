//! A key -> summary table, used both for one chunk's local aggregate and
//! for the merged global aggregate. The table is an association list
//! with pairwise distinct keys; its meaning is the finite map `as_map`.
//!
//! Each table carries a `weight`: the number of input bytes it
//! summarizes. Every count in the table is at most the weight, and
//! weights add up across disjoint chunks, so merging never overflows a
//! count.

use vstd::prelude::*;
use vstd::map::*;
use crate::stat::{
    Stat, StatModel, stat_combine, stat_model_wf, stat_observe, stat_singleton, VALUE_BOUND,
    lemma_combine_associative, lemma_observe_wf, lemma_singleton_wf,
};

verus! {

pub struct Aggregate {
    pub entries: Vec<(Vec<u8>, Stat)>,
    pub weight: usize,
}

pub open spec fn entry_keys_unique(s: Seq<(Vec<u8>, Stat)>) -> bool {
    forall|i: int, j: int| 0 <= i < j < s.len() ==> (#[trigger] s[i]).0@ != (#[trigger] s[j]).0@
}

/// The finite map an association list denotes.
pub open spec fn as_map(s: Seq<(Vec<u8>, Stat)>) -> Map<Seq<u8>, StatModel>
    decreases s.len(),
{
    if s.len() == 0 {
        Map::empty()
    } else {
        as_map(s.drop_last()).insert(s.last().0@, s.last().1@)
    }
}

/// Fold one record into a map: first sight inserts a singleton summary,
/// a later sight folds the value in.
pub open spec fn agg_step(m: Map<Seq<u8>, StatModel>, k: Seq<u8>, v: int) -> Map<
    Seq<u8>,
    StatModel,
> {
    if m.dom().contains(k) {
        m.insert(k, stat_observe(m[k], v))
    } else {
        m.insert(k, stat_singleton(v))
    }
}

impl View for Aggregate {
    type V = Map<Seq<u8>, StatModel>;

    open spec fn view(&self) -> Map<Seq<u8>, StatModel> {
        as_map(self.entries@)
    }
}

impl Aggregate {
    pub open spec fn wf(self) -> bool {
        &&& entry_keys_unique(self.entries@)
        &&& forall|i: int| 0 <= i < self.entries@.len() ==> stat_model_wf(
            (#[trigger] self.entries@[i]).1@,
        ) && self.entries@[i].1@.count <= self.weight
    }
}

/// A key of the map is a key of the list and conversely.
pub proof fn lemma_as_map_dom(s: Seq<(Vec<u8>, Stat)>)
    ensures
        forall|k: Seq<u8>| #[trigger] as_map(s).dom().contains(k) <==> exists|i: int|
            0 <= i < s.len() && (#[trigger] s[i]).0@ == k,
    decreases s.len(),
{
    if s.len() > 0 {
        let dl = s.drop_last();
        lemma_as_map_dom(dl);
        assert forall|k: Seq<u8>| #[trigger] as_map(s).dom().contains(k) implies exists|i: int|
            0 <= i < s.len() && (#[trigger] s[i]).0@ == k by {
            if k == s.last().0@ {
                assert(s[s.len() - 1].0@ == k);
            } else {
                assert(as_map(dl).dom().contains(k));
                let i = choose|i: int| 0 <= i < dl.len() && (#[trigger] dl[i]).0@ == k;
                assert(s[i] == dl[i]);
                assert(s[i].0@ == k);
            }
        }
        assert forall|k: Seq<u8>| (exists|i: int| 0 <= i < s.len() && (#[trigger] s[i]).0@ == k)
            implies #[trigger] as_map(s).dom().contains(k) by {
            let i = choose|i: int| 0 <= i < s.len() && (#[trigger] s[i]).0@ == k;
            if i < s.len() - 1 {
                assert(dl[i] == s[i]);
                assert(dl[i].0@ == k);
                assert(as_map(dl).dom().contains(k));
            } else {
                assert(k == s.last().0@);
            }
        }
    }
}

/// With no later duplicate, the map holds exactly the entry's summary.
pub proof fn lemma_as_map_index(s: Seq<(Vec<u8>, Stat)>, i: int)
    requires
        0 <= i < s.len(),
        forall|j: int| i < j < s.len() ==> (#[trigger] s[j]).0@ != s[i].0@,
    ensures
        as_map(s).dom().contains(s[i].0@),
        as_map(s)[s[i].0@] == s[i].1@,
    decreases s.len(),
{
    if i < s.len() - 1 {
        assert(forall|j: int| i < j < s.drop_last().len() ==> (#[trigger] s.drop_last()[j]).0@
            != s.drop_last()[i].0@);
        lemma_as_map_index(s.drop_last(), i);
        assert(s[s.len() - 1].0@ != s[i].0@);
    }
}

/// Replacing the entry at `i` by one with the same key updates the map
/// at that key.
pub proof fn lemma_as_map_update(s: Seq<(Vec<u8>, Stat)>, i: int, e: (Vec<u8>, Stat))
    requires
        entry_keys_unique(s),
        0 <= i < s.len(),
        e.0@ == s[i].0@,
    ensures
        as_map(s.update(i, e)) == as_map(s).insert(e.0@, e.1@),
        entry_keys_unique(s.update(i, e)),
    decreases s.len(),
{
    let t = s.update(i, e);
    assert(forall|j: int| 0 <= j < s.len() && j != i ==> (#[trigger] t[j]) == s[j]);
    if i == s.len() - 1 {
        assert(t.drop_last() == s.drop_last());
        assert_maps_equal!(as_map(s.drop_last()).insert(e.0@, e.1@),
            as_map(s.drop_last()).insert(s.last().0@, s.last().1@).insert(e.0@, e.1@));
    } else {
        assert(entry_keys_unique(s.drop_last()));
        lemma_as_map_update(s.drop_last(), i, e);
        assert(t.drop_last() == s.drop_last().update(i, e));
        assert(t.last() == s.last());
        assert(s.last().0@ != e.0@);
        assert_maps_equal!(as_map(s.drop_last()).insert(e.0@, e.1@).insert(s.last().0@, s.last().1@),
            as_map(s.drop_last()).insert(s.last().0@, s.last().1@).insert(e.0@, e.1@));
    }
}

/// Taking the entry at `i` out removes exactly its key from the map.
pub proof fn lemma_as_map_remove(s: Seq<(Vec<u8>, Stat)>, i: int)
    requires
        entry_keys_unique(s),
        0 <= i < s.len(),
    ensures
        as_map(s) == as_map(s.remove(i)).insert(s[i].0@, s[i].1@),
        !as_map(s.remove(i)).dom().contains(s[i].0@),
        entry_keys_unique(s.remove(i)),
    decreases s.len(),
{
    let t = s.remove(i);
    assert(forall|j: int| 0 <= j < i ==> (#[trigger] t[j]) == s[j]);
    assert(forall|j: int| i <= j < t.len() ==> (#[trigger] t[j]) == s[j + 1]);
    lemma_as_map_dom(t);
    if i == s.len() - 1 {
        assert(t == s.drop_last());
    } else {
        assert(entry_keys_unique(s.drop_last()));
        lemma_as_map_remove(s.drop_last(), i);
        assert(t.drop_last() == s.drop_last().remove(i));
        assert(t.last() == s.last());
        assert(s.last().0@ != s[i].0@);
        assert_maps_equal!(as_map(s.drop_last().remove(i)).insert(s[i].0@, s[i].1@)
                .insert(s.last().0@, s.last().1@),
            as_map(s.drop_last().remove(i)).insert(s.last().0@, s.last().1@)
                .insert(s[i].0@, s[i].1@));
    }
}

/// Whether two byte strings are equal.
pub fn bytes_eq(a: &[u8], b: &[u8]) -> (r: bool)
    ensures
        r == (a@ == b@),
{
    if a.len() != b.len() {
        proof {
            assert(a@.len() != b@.len());
        }
        return false;
    }
    let n = a.len();
    let mut i: usize = 0;
    while i < n
        invariant
            0 <= i <= n,
            n == a@.len() == b@.len(),
            forall|t: int| 0 <= t < i ==> a@[t] == b@[t],
        decreases n - i,
    {
        if a[i] != b[i] {
            return false;
        }
        i = i + 1;
    }
    proof {
        assert(a@ =~= b@);
    }
    true
}

/// Index of `key` in the table, if present.
pub(crate) fn find_entry(entries: &Vec<(Vec<u8>, Stat)>, key: &[u8]) -> (r: Option<usize>)
    ensures
        match r {
            Some(i) => i < entries@.len() && entries@[i as int].0@ == key@,
            None => forall|i: int| 0 <= i < entries@.len() ==> (#[trigger] entries@[i]).0@ != key@,
        },
{
    let n = entries.len();
    let mut i: usize = 0;
    while i < n
        invariant
            0 <= i <= n,
            n == entries@.len(),
            forall|t: int| 0 <= t < i ==> (#[trigger] entries@[t]).0@ != key@,
        decreases n - i,
    {
        if bytes_eq(entries[i].0.as_slice(), key) {
            return Some(i);
        }
        i = i + 1;
    }
    None
}

/// Fold one record into the table, as `agg_step` describes. `bound`
/// caps every count before the call; afterwards `bound + 1` does.
#[verifier::loop_isolation(false)]
pub fn agg_record(
    entries: &mut Vec<(Vec<u8>, Stat)>,
    key: Vec<u8>,
    v: i64,
    Ghost(bound): Ghost<nat>,
)
    requires
        entry_keys_unique(old(entries)@),
        forall|i: int| 0 <= i < old(entries)@.len() ==> stat_model_wf(
            (#[trigger] old(entries)@[i]).1@,
        ) && old(entries)@[i].1@.count <= bound,
        -VALUE_BOUND <= v <= VALUE_BOUND,
        bound < usize::MAX,
    ensures
        entry_keys_unique(final(entries)@),
        forall|i: int| 0 <= i < final(entries)@.len() ==> stat_model_wf(
            (#[trigger] final(entries)@[i]).1@,
        ) && final(entries)@[i].1@.count <= bound + 1,
        as_map(final(entries)@) == agg_step(as_map(old(entries)@), key@, v as int),
{
    let ghost s0 = entries@;
    match find_entry(entries, key.as_slice()) {
        Some(i) => {
            proof {
                lemma_as_map_dom(s0);
                lemma_as_map_index(s0, i as int);
            }
            let p = vstd::std_specs::vec::vec_index_mut(entries, i);
            proof {
                lemma_observe_wf(p.1@, v as int);
            }
            p.1.observe(v);
            proof {
                lemma_as_map_update(s0, i as int, (s0[i as int].0, entries@[i as int].1));
                assert(entries@ =~= s0.update(
                    i as int,
                    (s0[i as int].0, entries@[i as int].1),
                ));
            }
        },
        None => {
            proof {
                lemma_as_map_dom(s0);
                lemma_singleton_wf(v as int);
            }
            let st = Stat::new(v);
            entries.push((key, st));
            proof {
                assert(entries@.drop_last() == s0);
            }
        },
    }
}

/// Merge of two key -> summary maps: a key of both carries the combined
/// summary, a key of one carries that one's summary.
pub open spec fn merge_maps(a: Map<Seq<u8>, StatModel>, b: Map<Seq<u8>, StatModel>) -> Map<
    Seq<u8>,
    StatModel,
> {
    Map::new(
        |k: Seq<u8>| a.dom().contains(k) || b.dom().contains(k),
        |k: Seq<u8>|
            if a.dom().contains(k) && b.dom().contains(k) {
                stat_combine(a[k], b[k])
            } else if b.dom().contains(k) {
                b[k]
            } else {
                a[k]
            },
    )
}

/// Merging aggregate maps is associative.
pub proof fn lemma_merge_assoc(
    a: Map<Seq<u8>, StatModel>,
    b: Map<Seq<u8>, StatModel>,
    c: Map<Seq<u8>, StatModel>,
)
    ensures
        merge_maps(merge_maps(a, b), c) == merge_maps(a, merge_maps(b, c)),
{
    assert_maps_equal!(merge_maps(merge_maps(a, b), c), merge_maps(a, merge_maps(b, c)),
        k => {
        if a.dom().contains(k) && b.dom().contains(k) && c.dom().contains(k) {
            lemma_combine_associative(a[k], b[k], c[k]);
        }
    });
}

/// Merging with the empty map changes nothing.
pub proof fn lemma_merge_empty(a: Map<Seq<u8>, StatModel>)
    ensures
        merge_maps(Map::empty(), a) == a,
        merge_maps(a, Map::empty()) == a,
{
    assert_maps_equal!(merge_maps(Map::<Seq<u8>, StatModel>::empty(), a), a);
    assert_maps_equal!(merge_maps(a, Map::<Seq<u8>, StatModel>::empty()), a);
}

} // verus!
