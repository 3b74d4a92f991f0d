//! Folds the workers' local aggregates into one global aggregate with
//! the associative, commutative combine, so the outcome is independent
//! of the order in which chunks were dispatched, completed, or folded.

use vstd::prelude::*;
use vstd::map::*;
use crate::agg::{
    as_map, entry_keys_unique, find_entry, lemma_as_map_dom, lemma_as_map_index,
    lemma_as_map_update, merge_maps, Aggregate,
};
use crate::stat::{stat_combine, stat_model_wf};

verus! {

/// Every summary a well-formed table maps a key to is itself well
/// formed, with a count at most the table's weight.
pub proof fn lemma_wf_map_bounds(a: Aggregate)
    requires
        a.wf(),
    ensures
        forall|k: Seq<u8>| #[trigger] a@.dom().contains(k) ==> stat_model_wf(a@[k])
            && a@[k].count <= a.weight,
{
    lemma_as_map_dom(a.entries@);
    assert forall|k: Seq<u8>| #[trigger] a@.dom().contains(k) implies stat_model_wf(a@[k])
        && a@[k].count <= a.weight by {
        let i = choose|i: int| 0 <= i < a.entries@.len() && (#[trigger] a.entries@[i]).0@ == k;
        lemma_as_map_index(a.entries@, i);
    }
}

/// Fold one local aggregate into the global one. The weights add, which
/// is why no count can overflow: counts never exceed the weight.
#[verifier::loop_isolation(false)]
#[verifier::rlimit(60)]
pub fn merge_into(g: &mut Aggregate, l: &Aggregate)
    requires
        old(g).wf(),
        l.wf(),
        old(g).weight + l.weight <= usize::MAX,
    ensures
        final(g).wf(),
        final(g).weight == old(g).weight + l.weight,
        final(g)@ == merge_maps(old(g)@, l@),
{
    proof {
        lemma_wf_map_bounds(*old(g));
        lemma_wf_map_bounds(*l);
        lemma_as_map_dom(l.entries@);
    }
    let ghost g0 = old(g)@;
    let n = l.entries.len();
    let mut i: usize = 0;
    while i < n
        invariant
            0 <= i <= n,
            n == l.entries@.len(),
            g.weight == old(g).weight,
            entry_keys_unique(g.entries@),
            forall|t: int| 0 <= t < g.entries@.len() ==> stat_model_wf(
                (#[trigger] g.entries@[t]).1@,
            ) && g.entries@[t].1@.count <= old(g).weight + l.weight,
            as_map(g.entries@) == merge_maps(g0, as_map(l.entries@.subrange(0, i as int))),
        decreases n - i,
    {
        let ghost pre = l.entries@.subrange(0, i as int);
        let ghost pre1 = l.entries@.subrange(0, i + 1 as int);
        let ghost k = l.entries@[i as int].0@;
        let ghost lv = l.entries@[i as int].1@;
        proof {
            assert(pre1.drop_last() == pre);
            assert(as_map(pre1) == as_map(pre).insert(k, lv));
            // `k` has not been merged yet: it is no key of the prefix.
            lemma_as_map_dom(pre);
            assert(forall|t: int| 0 <= t < i ==> (#[trigger] pre[t]).0@ != k);
            assert(!as_map(pre).dom().contains(k));
            lemma_as_map_index(l.entries@, i as int);
            assert(l@.dom().contains(k) && l@[k] == lv);
        }
        let ghost gmid = g.entries@;
        match find_entry(&g.entries, l.entries[i].0.as_slice()) {
            Some(j) => {
                proof {
                    lemma_as_map_dom(gmid);
                    lemma_as_map_index(gmid, j as int);
                    // The entry for `k` is untouched so far: `k` occurs
                    // once in `l`, and not in the merged prefix.
                    assert(as_map(gmid)[k] == merge_maps(g0, as_map(pre))[k]);
                    assert(g0.dom().contains(k));
                    assert(as_map(gmid)[k] == g0[k]);
                }
                let st = l.entries[i].1;
                let p = vstd::std_specs::vec::vec_index_mut(&mut g.entries, j);
                let combined = p.1.combine(&st);
                p.1 = combined;
                proof {
                    lemma_as_map_update(gmid, j as int, (gmid[j as int].0, g.entries@[j as int].1));
                    assert(g.entries@ =~= gmid.update(
                        j as int,
                        (gmid[j as int].0, g.entries@[j as int].1),
                    ));
                    assert(as_map(g.entries@) == as_map(gmid).insert(k, stat_combine(g0[k], lv)));
                    assert_maps_equal!(as_map(gmid).insert(k, stat_combine(g0[k], lv)),
                        merge_maps(g0, as_map(pre1)));
                }
            },
            None => {
                proof {
                    lemma_as_map_dom(gmid);
                    // `k` is in neither the table nor the prefix, hence
                    // not in the pre-merge global map either.
                    assert(!as_map(gmid).dom().contains(k));
                    assert(!g0.dom().contains(k));
                }
                let key = vstd::slice::slice_to_vec(l.entries[i].0.as_slice());
                let st = l.entries[i].1;
                g.entries.push((key, st));
                proof {
                    assert(g.entries@.drop_last() == gmid);
                    assert(as_map(g.entries@) == as_map(gmid).insert(k, lv));
                    assert_maps_equal!(as_map(gmid).insert(k, lv),
                        merge_maps(g0, as_map(pre1)));
                }
            },
        }
        i = i + 1;
    }
    proof {
        assert(l.entries@.subrange(0, n as int) == l.entries@);
    }
    g.weight = g.weight + l.weight;
}

} // verus!
