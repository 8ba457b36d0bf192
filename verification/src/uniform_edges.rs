//! Uniform random supports and shuffles over index ranges.
use rand::rngs::StdRng;
use std::collections::HashSet;
use vstd::prelude::*;

use crate::rng::random_below;
use crate::seqs::{lemma_seq_sum_update, seq_sum};
use crate::OccNum;
use vstd::seq_lib::{to_multiset_contains, to_multiset_update};

verus! {

broadcast use vstd::std_specs::hash::group_hash_axioms;

/// `ix` holds `e` distinct indices, each below `l`.
pub open spec fn distinct_indices(ix: Seq<usize>, l: int, e: int) -> bool {
    &&& ix.len() == e
    &&& forall|k: int| 0 <= k < ix.len() ==> #[trigger] ix[k] < l
    &&& forall|a: int, b: int| 0 <= a < b < ix.len() ==> #[trigger] ix[a] != #[trigger] ix[b]
}

/// Choose `e` distinct indices of `[0, l)` (Floyd's algorithm): each
/// `e`-subset is equally likely.
pub fn sample_uniform_support(l: usize, e: usize, rng: &mut StdRng) -> (ix: Vec<usize>)
    requires
        e <= l,
    ensures
        distinct_indices(ix@, l as int, e as int),
{
    let mut chosen: HashSet<usize> = HashSet::new();
    let mut ix: Vec<usize> = Vec::new();
    let mut j: usize = l - e;
    while j < l
        invariant
            e <= l,
            l - e <= j <= l,
            ix@.len() == j - (l - e),
            forall|k: int| 0 <= k < ix@.len() ==> #[trigger] ix@[k] < j,
            forall|a: int, b: int| 0 <= a < b < ix@.len() ==> #[trigger] ix@[a] != #[trigger] ix@[b],
            forall|x: usize| chosen@.contains(x) <==> ix@.contains(x),
        decreases l - j,
    {
        let t = random_below(rng, j + 1);
        let pick = if chosen.contains(&t) {
            j
        } else {
            t
        };
        proof {
            assert(!ix@.contains(pick)) by {
                if ix@.contains(pick) {
                    let k = choose|k: int| 0 <= k < ix@.len() && ix@[k] == pick;
                    assert(ix@[k] < j);
                }
            }
        }
        let ghost old_ix = ix@;
        let ghost old_chosen = chosen@;
        chosen.insert(pick);
        ix.push(pick);
        proof {
            assert(chosen@ == old_chosen.insert(pick));
            assert(ix@ == old_ix.push(pick));
            assert forall|x: usize| chosen@.contains(x) <==> ix@.contains(x) by {
                if x == pick {
                    assert(ix@[ix@.len() - 1] == pick);
                } else {
                    if old_ix.contains(x) {
                        let k = choose|k: int| 0 <= k < old_ix.len() && old_ix[k] == x;
                        assert(ix@[k] == x);
                    }
                    if ix@.contains(x) {
                        let k = choose|k: int| 0 <= k < ix@.len() && ix@[k] == x;
                        assert(old_ix[k] == x);
                    }
                }
            }
        }
        j = j + 1;
    }
    ix
}

/// Swap two entries of an occupation vector; the multiset of values and
/// the sum are kept.
fn swap_entries(v: &mut Vec<OccNum>, a: usize, b: usize)
    requires
        a < old(v)@.len(),
        b < old(v)@.len(),
    ensures
        final(v)@ == old(v)@.update(a as int, old(v)@[b as int]).update(b as int, old(v)@[a as int]),
        final(v)@.to_multiset() == old(v)@.to_multiset(),
        seq_sum(final(v)@) == seq_sum(old(v)@),
{
    let ghost o = v@;
    let x = v[a];
    let y = v[b];
    v.set(a, y);
    v.set(b, x);
    proof {
        lemma_seq_sum_update(o, a as int, y);
        lemma_seq_sum_update(o.update(a as int, y), b as int, x);
        if a != b {
            broadcast use vstd::multiset::group_multiset_axioms;
            to_multiset_update(o, a as int, y);
            to_multiset_update(o.update(a as int, y), b as int, x);
            to_multiset_contains(o, x);
            assert(o[a as int] == x);
            assert(o.contains(x));
            let m = o.to_multiset();
            assert(m.insert(y).remove(x).insert(x).remove(y) =~= m);
        } else {
            assert(v@ =~= o);
        }
    }
}

/// Uniform Fisher-Yates shuffle in place: the result is a permutation of
/// the input, so its sum and any bound on every entry are kept.
pub fn shuffle_slice(v: &mut Vec<OccNum>, rng: &mut StdRng)
    ensures
        final(v)@.len() == old(v)@.len(),
        final(v)@.to_multiset() == old(v)@.to_multiset(),
        seq_sum(final(v)@) == seq_sum(old(v)@),
{
    let len = v.len();
    if len < 2 {
        return;
    }
    let ghost o = v@;
    let mut k: usize = len - 1;
    while k >= 1
        invariant
            k < len,
            v@.len() == len,
            v@.to_multiset() == o.to_multiset(),
            seq_sum(v@) == seq_sum(o),
        decreases k,
    {
        let idx = random_below(rng, k + 1);
        swap_entries(v, k, idx);
        k = k - 1;
    }
}

} // verus!
