//! Exact ME fixed-strength sampling by stub matching.
//!
//! Every target node `j` contributes `s_in[j]` incoming stubs; the stubs are
//! shuffled uniformly and consumed source by source (`s_out[i]` stubs for
//! node `i`). Each source's targets are grouped into pair occupations, so the
//! result carries the out- and in-strengths exactly, with its pairs in
//! increasing `(source, target)` order.
use rand::rngs::StdRng;
use rand::seq::SliceRandom;
use vstd::prelude::*;

use crate::fixed_pairs::strength_at;
use crate::fixed_strength::FixedStrengthError;
use crate::output::SampledNetwork;
use crate::rng::rng_from_seed;
use crate::seqs::{lemma_seq_sum_nonneg, seq_sum, sort_block, sum_u64};
use crate::text::{num_msg, push_num};
use crate::OccNum;
use vstd::seq_lib::{lemma_multiset_commutative, to_multiset_build, to_multiset_contains};

verus! {

broadcast use vstd::multiset::group_multiset_axioms;

/// Largest total stub count handled by the direct backend.
pub const MAX_EXPLICIT_STUBS: u64 = 10_000_000;

/// Calls `rand::seq::SliceRandom::shuffle`: rand documents an in-place
/// uniformly random permutation, so the contract claims only that the
/// result is a permutation of the input.
#[verifier::external_body]
fn shuffle_stubs(v: &mut Vec<u64>, rng: &mut StdRng)
    ensures
        final(v)@.len() == old(v)@.len(),
        final(v)@.to_multiset() == old(v)@.to_multiset(),
{
    v.shuffle(rng);
}

/// Pairs strictly increase in `(source, target)` order.
pub open spec fn pairs_increasing(src: Seq<u64>, tgt: Seq<u64>) -> bool {
    forall|a: int, b: int|
        0 <= a < b < src.len() ==> #[trigger] src[a] < #[trigger] src[b] || (src[a] == src[b]
            && tgt[a] < tgt[b])
}

/// A stub-matching sample of the strengths: aligned arrays, strictly
/// increasing pairs inside `[0, n)^2`, positive occupations, and exact out-
/// and in-strengths at every node.
pub open spec fn matches_strengths(net: SampledNetwork, s_out: Seq<u64>, s_in: Seq<u64>) -> bool {
    &&& net.targets@.len() == net.sources@.len()
    &&& net.occ_nums@.len() == net.sources@.len()
    &&& pairs_increasing(net.sources@, net.targets@)
    &&& forall|k: int|
        0 <= k < net.sources@.len() ==> #[trigger] net.sources@[k] < s_out.len() && net.targets@[k]
            < s_out.len() && net.occ_nums@[k] >= 1
    &&& forall|v: int|
        0 <= v < s_out.len() ==> #[trigger] strength_at(net.sources@, net.occ_nums@, v) == s_out[v]
            && strength_at(net.targets@, net.occ_nums@, v) == s_in[v]
}

/// Appending a pair adds its occupation to the strength of its endpoint.
proof fn lemma_strength_push(side: Seq<u64>, occ: Seq<u64>, a: u64, o: u64, v: int)
    requires
        side.len() == occ.len(),
    ensures
        strength_at(side.push(a), occ.push(o), v) == strength_at(side, occ, v) + if a == v {
            o as int
        } else {
            0int
        },
{
    assert(side.push(a).drop_last() =~= side);
    assert(occ.push(o).take(side.len() as int) =~= occ);
}

/// A sequence of one repeated value counts that value once per entry.
proof fn lemma_constant_run_count(s: Seq<u64>, x: u64, v: u64)
    requires
        forall|i: int| 0 <= i < s.len() ==> s[i] == x,
    ensures
        s.to_multiset().count(v) == if v == x { s.len() } else { 0 },
    decreases s.len(),
{
    if s.len() == 0 {
        to_multiset_contains(s, v);
    } else {
        let t = s.drop_last();
        lemma_constant_run_count(t, x, v);
        assert(t.push(s.last()) =~= s);
        to_multiset_build(t, s.last());
    }
}

/// The incoming stubs: node `j` repeated `s_in[j]` times, in node order.
fn build_in_stubs(strength_in: &[u64]) -> (stubs: Vec<u64>)
    requires
        seq_sum(strength_in@) <= u64::MAX,
    ensures
        stubs@.len() == seq_sum(strength_in@),
        forall|x: u64|
            #[trigger] stubs@.to_multiset().count(x) == if x < strength_in@.len() {
                strength_in@[x as int] as nat
            } else {
                0
            },
{
    let mut stubs: Vec<u64> = Vec::new();
    proof {
        assert forall|x: u64| #[trigger] stubs@.to_multiset().count(x) == 0 by {
            to_multiset_contains(stubs@, x);
        }
    }
    let mut j: usize = 0;
    while j < strength_in.len()
        invariant
            j <= strength_in@.len(),
            seq_sum(strength_in@) <= u64::MAX,
            stubs@.len() == seq_sum(strength_in@.take(j as int)),
            forall|x: u64|
                #[trigger] stubs@.to_multiset().count(x) == if x < j {
                    strength_in@[x as int] as nat
                } else {
                    0
                },
        decreases strength_in@.len() - j,
    {
        let s = strength_in[j];
        let mut k: u64 = 0;
        while k < s
            invariant
                j < strength_in@.len(),
                s == strength_in@[j as int],
                k <= s,
                stubs@.len() == seq_sum(strength_in@.take(j as int)) + k,
                forall|x: u64|
                    #[trigger] stubs@.to_multiset().count(x) == if x < j {
                        strength_in@[x as int] as nat
                    } else if x == j {
                        k as nat
                    } else {
                        0
                    },
            decreases s - k,
        {
            proof {
                to_multiset_build(stubs@, j as u64);
            }
            stubs.push(j as u64);
            k = k + 1;
        }
        proof {
            assert(strength_in@.take(j + 1).drop_last() =~= strength_in@.take(j as int));
        }
        j = j + 1;
    }
    proof {
        assert(strength_in@.take(strength_in@.len() as int) =~= strength_in@);
    }
    stubs
}

/// Message for unequal out- and in-strength totals.
fn unbalanced_message(total_out: u64, total_in: u64) -> String {
    let mut m = num_msg("total out-strength (", total_out, ") != total in-strength (");
    push_num(&mut m, total_in, ")");
    m
}

/// Exact ME microcanonical fixed-strength sample by stub matching, with a
/// generator seeded from `seed`.
///
/// Fails with `InvalidResidual` when the strength totals differ, with
/// `ArithmeticOverflow` when the total stub count does not fit in `usize`,
/// and with `TooLargeForDirect` (carrying the total) above
/// [`MAX_EXPLICIT_STUBS`]; otherwise returns a network with exactly the
/// given out- and in-strengths.
pub fn sample_strength_stub_matching(strength_out: &[u64], strength_in: &[u64], seed: u64) -> (r:
    Result<SampledNetwork, FixedStrengthError>)
    requires
        strength_out@.len() == strength_in@.len(),
        seq_sum(strength_out@) <= u64::MAX,
        seq_sum(strength_in@) <= u64::MAX,
    ensures
        (r matches Err(e) && e is InvalidResidual) <==> seq_sum(strength_out@) != seq_sum(
            strength_in@,
        ),
        (r matches Err(e) && e is ArithmeticOverflow) <==> (seq_sum(strength_out@) == seq_sum(
            strength_in@,
        ) && seq_sum(strength_out@) > usize::MAX),
        (r matches Err(e) && e is TooLargeForDirect) <==> (seq_sum(strength_out@) == seq_sum(
            strength_in@,
        ) && seq_sum(strength_out@) <= usize::MAX && seq_sum(strength_out@) > MAX_EXPLICIT_STUBS),
        r matches Err(FixedStrengthError::TooLargeForDirect(t)) ==> t == seq_sum(strength_out@),
        r matches Err(e) ==> e is InvalidResidual || e is ArithmeticOverflow || e is TooLargeForDirect,
        r matches Ok(net) ==> matches_strengths(net, strength_out@, strength_in@),
{
    let n = strength_out.len();
    let total_out = sum_u64(strength_out);
    let total_in = sum_u64(strength_in);
    if total_out != total_in {
        return Err(FixedStrengthError::InvalidResidual(unbalanced_message(total_out, total_in)));
    }
    if total_out > usize::MAX as u64 {
        return Err(
            FixedStrengthError::ArithmeticOverflow(num_msg("total stub count ", total_out, " does not fit in usize")),
        );
    }
    if total_out > MAX_EXPLICIT_STUBS {
        return Err(FixedStrengthError::TooLargeForDirect(total_out));
    }
    let mut stubs = build_in_stubs(strength_in);
    let mut rng = rng_from_seed(seed);
    shuffle_stubs(&mut stubs, &mut rng);
    let mut sources: Vec<u64> = Vec::new();
    let mut targets: Vec<u64> = Vec::new();
    let mut occ_nums: Vec<OccNum> = Vec::new();
    proof {
        assert forall|v: u64| strength_at(targets@, occ_nums@, v as int) == stubs@.take(0).to_multiset().count(v) by {
            to_multiset_contains(stubs@.take(0), v);
        }
    }
    let mut idx: usize = 0;
    let mut src: usize = 0;
    while src < n
        invariant
            n == strength_out@.len(),
            n == strength_in@.len(),
            seq_sum(strength_out@) == seq_sum(strength_in@),
            seq_sum(strength_out@) <= MAX_EXPLICIT_STUBS,
            stubs@.len() == seq_sum(strength_out@),
            forall|x: u64|
                #[trigger] stubs@.to_multiset().count(x) == if x < n {
                    strength_in@[x as int] as nat
                } else {
                    0
                },
            src <= n,
            idx == seq_sum(strength_out@.take(src as int)),
            idx <= stubs@.len(),
            targets@.len() == sources@.len(),
            occ_nums@.len() == sources@.len(),
            pairs_increasing(sources@, targets@),
            forall|k: int|
                0 <= k < sources@.len() ==> #[trigger] sources@[k] < src && targets@[k] < n
                    && occ_nums@[k] >= 1,
            forall|u: int|
                0 <= u < n ==> #[trigger] strength_at(sources@, occ_nums@, u) == if u < src {
                    strength_out@[u] as int
                } else {
                    0int
                },
            forall|v: u64|
                #[trigger] strength_at(targets@, occ_nums@, v as int) == stubs@.take(
                    idx as int,
                ).to_multiset().count(v),
        decreases n - src,
    {
        proof {
            assert(strength_out@.take(src + 1).drop_last() =~= strength_out@.take(src as int));
            crate::seqs::lemma_seq_sum_prefix(strength_out@, src + 1);
        }
        let s = strength_out[src] as usize;
        let mut block: Vec<u64> = Vec::new();
        let mut q: usize = 0;
        while q < s
            invariant
                q <= s,
                idx + s <= stubs.len(),
                block@ == stubs@.subrange(idx as int, idx + q),
            decreases s - q,
        {
            block.push(stubs[idx + q]);
            proof {
                assert(block@ =~= stubs@.subrange(idx as int, idx + q + 1));
            }
            q = q + 1;
        }
        let ghost raw = block@;
        sort_block(&mut block);
        proof {
            assert forall|v: u64| #[trigger] block@.take(0).to_multiset().count(v) == 0 by {
                to_multiset_contains(block@.take(0), v);
            }
        }
        let mut b: usize = 0;
        while b < s
            invariant
                n == strength_out@.len(),
                src < n,
                s == strength_out@[src as int],
                idx + s <= stubs@.len(),
                raw == stubs@.subrange(idx as int, idx + s),
                block@.len() == s,
                block@.to_multiset() == raw.to_multiset(),
                forall|i: int, j: int| 0 <= i <= j < s ==> block@[i] <= block@[j],
                forall|x: u64|
                    #[trigger] stubs@.to_multiset().count(x) == if x < n {
                        strength_in@[x as int] as nat
                    } else {
                        0
                    },
                b <= s,
                targets@.len() == sources@.len(),
                occ_nums@.len() == sources@.len(),
                pairs_increasing(sources@, targets@),
                forall|k: int|
                    0 <= k < sources@.len() ==> #[trigger] sources@[k] <= src && targets@[k] < n
                        && occ_nums@[k] >= 1,
                b < s ==> forall|k: int|
                    0 <= k < sources@.len() ==> #[trigger] sources@[k] < src || (sources@[k] == src
                        && targets@[k] < block@[b as int]),
                forall|u: int|
                    0 <= u < n ==> #[trigger] strength_at(sources@, occ_nums@, u) == if u < src {
                        strength_out@[u] as int
                    } else if u == src {
                        b as int
                    } else {
                        0int
                    },
                forall|v: u64|
                    #[trigger] strength_at(targets@, occ_nums@, v as int) == stubs@.take(
                        idx as int,
                    ).to_multiset().count(v) + block@.take(b as int).to_multiset().count(v),
            decreases s - b,
        {
            let x = block[b];
            let mut e = b + 1;
            while e < s && block[e] == x
                invariant
                    b < e <= s,
                    block@.len() == s,
                    x == block@[b as int],
                    forall|i: int| b <= i < e ==> block@[i] == x,
                decreases s - e,
            {
                e = e + 1;
            }
            proof {
                let run = block@.subrange(b as int, e as int);
                assert(block@.take(e as int) =~= block@.take(b as int) + run);
                lemma_multiset_commutative(block@.take(b as int), run);
                assert forall|i: int| 0 <= i < run.len() implies run[i] == x by {
                    assert(run[i] == block@[b + i]);
                }
                assert forall|v: u64| #[trigger] block@.take(e as int).to_multiset().count(v)
                    == block@.take(b as int).to_multiset().count(v) + if v == x {
                    (e - b) as nat
                } else {
                    0
                } by {
                    lemma_constant_run_count(run, x, v);
                }
                // The run's value is a stub, hence a node.
                to_multiset_contains(block@, x);
                assert(block@.contains(x)) by {
                    assert(block@[b as int] == x);
                }
                to_multiset_contains(raw, x);
                let w = choose|w: int| 0 <= w < raw.len() && raw[w] == x;
                assert(stubs@[idx + w] == x);
                to_multiset_contains(stubs@, x);
                assert(stubs@.contains(x));
                assert(x < n);
                if e < s {
                    assert(block@[b as int] <= block@[e as int]);
                    assert(block@[e as int] != x);
                }
                let sv = sources@;
                let tv = targets@;
                let ov = occ_nums@;
                assert forall|u: int| 0 <= u < n implies #[trigger] strength_at(
                    sv.push(src as u64),
                    ov.push((e - b) as u64),
                    u,
                ) == strength_at(sv, ov, u) + if src as u64 == u {
                    (e - b) as int
                } else {
                    0int
                } by {
                    lemma_strength_push(sv, ov, src as u64, (e - b) as u64, u);
                }
                assert forall|v: u64| #[trigger] strength_at(
                    tv.push(x),
                    ov.push((e - b) as u64),
                    v as int,
                ) == strength_at(tv, ov, v as int) + if x == v {
                    (e - b) as int
                } else {
                    0int
                } by {
                    lemma_strength_push(tv, ov, x, (e - b) as u64, v as int);
                }
            }
            sources.push(src as u64);
            targets.push(x);
            occ_nums.push((e - b) as u64);
            proof {
                assert forall|a: int, c: int|
                    0 <= a < c < sources@.len() implies #[trigger] sources@[a] < #[trigger] sources@[c]
                    || (sources@[a] == sources@[c] && targets@[a] < targets@[c]) by {
                
                }
            }
            b = e;
        }
        proof {
            assert(block@.take(s as int) =~= block@);
            assert(stubs@.take(idx + s) =~= stubs@.take(idx as int) + raw);
            lemma_multiset_commutative(stubs@.take(idx as int), raw);
        }
        idx = idx + s;
        src = src + 1;
    }
    proof {
        assert(strength_out@.take(n as int) =~= strength_out@);
        assert(stubs@.take(idx as int) =~= stubs@);
    }
    Ok(SampledNetwork { sources, targets, occ_nums })
}

} // verus!
