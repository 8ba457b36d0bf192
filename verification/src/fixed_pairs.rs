//! Fixed-pair accounting and residualization.
//!
//! Fixed (known) pairs are node pairs whose occupation number is frozen
//! before ensemble dispatch. Their contributions to every integer
//! observable are computed once, and the residual constraints are what the
//! free pairs must satisfy. A fixed pair with occupation zero is an
//! ordinary fixed pair, not a separate "prohibited pair" concept.
use std::collections::HashSet;
use vstd::prelude::*;

use crate::mask::{sat_sub, PairMask};
use crate::seqs::{copy_slice, seq_sum};
use crate::OccNum;

verus! {

broadcast use vstd::std_specs::hash::group_hash_axioms;

/// The `k`-th and `l`-th coordinates differ whenever `k != l`.
pub open spec fn coords_distinct(src: Seq<u64>, tgt: Seq<u64>) -> bool {
    forall|k: int, l: int|
        #![trigger src[k], src[l]]
        0 <= k < l < src.len() ==> (src[k], tgt[k]) != (src[l], tgt[l])
}

/// All coordinates lie in `[0, n)` and respect the self-loop policy.
pub open spec fn coords_admissible(src: Seq<u64>, tgt: Seq<u64>, n: nat, self_loops: bool) -> bool {
    forall|k: int|
        0 <= k < src.len() ==> #[trigger] src[k] < n && tgt[k] < n && (self_loops || src[k]
            != tgt[k])
}

/// Total occupation carried by fixed pairs whose `side` coordinate is `v`.
pub open spec fn strength_at(side: Seq<u64>, occ: Seq<u64>, v: int) -> int
    decreases side.len(),
{
    if side.len() == 0 || occ.len() < side.len() {
        0
    } else {
        strength_at(side.drop_last(), occ.take(side.len() - 1), v) + if side.last() == v {
            occ[side.len() - 1] as int
        } else {
            0int
        }
    }
}

/// Number of fixed pairs with positive occupation whose `side` coordinate is `v`.
pub open spec fn degree_at(side: Seq<u64>, occ: Seq<u64>, v: int) -> int
    decreases side.len(),
{
    if side.len() == 0 || occ.len() < side.len() {
        0
    } else {
        degree_at(side.drop_last(), occ.take(side.len() - 1), v) + if side.last() == v
            && occ[side.len() - 1] > 0 {
            1int
        } else {
            0int
        }
    }
}

/// Number of positive entries.
pub open spec fn positive_count(occ: Seq<u64>) -> int
    decreases occ.len(),
{
    if occ.len() == 0 {
        0
    } else {
        positive_count(occ.drop_last()) + if occ.last() > 0 {
            1int
        } else {
            0int
        }
    }
}

/// Fixed pairs with explicit occupation numbers.
///
/// `sources`/`targets`/`occ_nums` are parallel arrays. `occ_nums[i]` may be
/// zero: a fixed-zero pair is a valid occupation state. `mask` is the
/// induced sparse pair mask.
#[derive(Clone)]
pub struct FixedPairs {
    pub sources: Vec<u64>,
    pub targets: Vec<u64>,
    pub occ_nums: Vec<OccNum>,
    pub mask: PairMask,
}

impl FixedPairs {
    /// Build `FixedPairs` from parallel arrays, computing the sparse mask.
    ///
    /// Fails exactly when the arrays differ in length, a coordinate lies
    /// outside `[0, node_count)`, a self-loop is given while self-loops are
    /// forbidden, or a coordinate pair repeats.
    pub fn new(
        node_count: usize,
        self_loops: bool,
        sources: &[u64],
        targets: &[u64],
        occ_nums: &[OccNum],
    ) -> (r: Result<Self, String>)
        requires
            node_count * node_count <= usize::MAX,
        ensures
            r.is_ok() <==> (sources@.len() == targets@.len() && sources@.len() == occ_nums@.len()
                && coords_admissible(sources@, targets@, node_count as nat, self_loops)
                && coords_distinct(sources@, targets@)),
            r matches Ok(f) ==> {
                &&& f.sources@ == sources@
                &&& f.targets@ == targets@
                &&& f.occ_nums@ == occ_nums@
                &&& f.mask.wf()
                &&& f.mask@.n == node_count
                &&& f.mask@.self_loops == self_loops
                &&& f.mask@.listed == f.mask@.policy_masked()
                &&& f.mask@.n_free == sat_sub(node_count * node_count, f.mask@.masked_count())
                &&& f.mask@.free_count_consistent()
                &&& forall|i: int, j: int|
                    #![trigger f.mask@.explicit.contains((i, j))]
                    f.mask@.explicit.contains((i, j)) <==> exists|k: int|
                        0 <= k < sources@.len() && sources@[k] == i && targets@[k] == j
            },
    {
        if sources.len() != targets.len() || sources.len() != occ_nums.len() {
            return Err(
                "known_source, known_target, and known_occnum must have the same length".to_owned(),
            );
        }
        let mut seen: Vec<HashSet<u64>> = Vec::new();
        let mut r: usize = 0;
        while r < node_count
            invariant
                r <= node_count,
                seen@.len() == r,
                forall|a: int| 0 <= a < r ==> (#[trigger] seen@[a])@ == Set::<u64>::empty(),
            decreases node_count - r,
        {
            seen.push(HashSet::new());
            r = r + 1;
        }
        let mut k: usize = 0;
        while k < sources.len()
            invariant
                k <= sources@.len(),
                sources@.len() == targets@.len(),
                seen@.len() == node_count,
                coords_admissible(sources@.take(k as int), targets@.take(k as int), node_count as nat, self_loops),
                coords_distinct(sources@.take(k as int), targets@.take(k as int)),
                forall|a: int, b: u64|
                    0 <= a < node_count ==> (#[trigger] seen@[a]@.contains(b) <==> exists|q: int|
                        0 <= q < k && sources@[q] == a && targets@[q] == b),
            decreases sources@.len() - k,
        {
            let s = sources[k];
            let t = targets[k];
            if s >= node_count as u64 || t >= node_count as u64 {
                proof {
                    assert(!coords_admissible(sources@, targets@, node_count as nat, self_loops)) by {
                        assert(!(sources@[k as int] < node_count && targets@[k as int] < node_count));
                    }
                }
                return Err("known pair index out of range".to_owned());
            }
            if !self_loops && s == t {
                proof {
                    assert(!coords_admissible(sources@, targets@, node_count as nat, self_loops)) by {
                        assert(sources@[k as int] == targets@[k as int]);
                    }
                }
                return Err("known self-loop conflicts with self_loops=False".to_owned());
            }
            let ghost seen_before = seen@;
            let fresh = seen[s as usize].insert(t);
            if !fresh {
                proof {
                    let q = choose|q: int| 0 <= q < k && sources@[q] == s && targets@[q] == t;
                    assert(!coords_distinct(sources@, targets@)) by {
                        assert(sources@[q] == sources@[k as int] && targets@[q] == targets@[k as int]);
                    }
                }
                return Err("duplicate known pair coordinates".to_owned());
            }
            proof {
                let sk = sources@.take(k + 1);
                let tk = targets@.take(k + 1);
                assert(sources@.take(k as int) =~= sk.take(k as int));
                assert(targets@.take(k as int) =~= tk.take(k as int));
                assert forall|a: int| 0 <= a < sk.len() implies #[trigger] sk[a] < node_count
                    && tk[a] < node_count && (self_loops || sk[a] != tk[a]) by {
                    if a < k {
                        assert(sk[a] == sources@.take(k as int)[a]);
                        assert(tk[a] == targets@.take(k as int)[a]);
                    }
                }
                assert forall|a: int, b: int| #![trigger sk[a], sk[b]] 0 <= a < b < sk.len() implies (sk[a], tk[a]) != (
                sk[b], tk[b]) by {
                    if b < k {
                        assert(sk[a] == sources@.take(k as int)[a]);
                        assert(tk[a] == targets@.take(k as int)[a]);
                        assert(sk[b] == sources@.take(k as int)[b]);
                        assert(tk[b] == targets@.take(k as int)[b]);
                    } else {
                        if sk[a] == sk[b] && tk[a] == tk[b] {
                            assert(seen_before[s as int]@.contains(t)) by {
                                assert(0 <= a < k && sources@[a] == s && targets@[a] == t);
                            }
                        }
                    }
                }
            }
            k = k + 1;
        }
        assert(sources@.take(k as int) =~= sources@);
        assert(targets@.take(k as int) =~= targets@);
        let mask = PairMask::new(node_count, self_loops, sources, targets);
        proof {
            assert forall|i: int, j: int|
                #![trigger mask@.explicit.contains((i, j))]
                mask@.explicit.contains((i, j)) <==> exists|q: int|
                    0 <= q < sources@.len() && sources@[q] == i && targets@[q] == j by {
                if exists|q: int| 0 <= q < sources@.len() && sources@[q] == i && targets@[q] == j {
                    let q = choose|q: int|
                        0 <= q < sources@.len() && sources@[q] == i && targets@[q] == j;
                    assert(sources@[q] < node_count && targets@[q] < node_count && (self_loops
                        || sources@[q] != targets@[q]));
                }
            }
        }
        Ok(FixedPairs {
            sources: copy_slice(sources),
            targets: copy_slice(targets),
            occ_nums: copy_slice(occ_nums),
            mask,
        })
    }

    /// Empty fixed pairs for the unmasked case.
    pub fn empty(node_count: usize, self_loops: bool) -> (f: Self)
        requires
            node_count * node_count <= usize::MAX,
        ensures
            f.sources@.len() == 0,
            f.targets@.len() == 0,
            f.occ_nums@.len() == 0,
            f.mask.wf(),
            f.mask@.n == node_count,
            f.mask@.self_loops == self_loops,
            f.mask@.explicit == Set::<(int, int)>::empty(),
            f.mask@.listed == f.mask@.policy_masked(),
            f.mask@.n_free == node_count * node_count - (if self_loops {
                0
            } else {
                node_count
            }),
            f.mask@.free_count_consistent(),
    {
        let mask = PairMask::from_self_loops(node_count, self_loops);
        FixedPairs { sources: Vec::new(), targets: Vec::new(), occ_nums: Vec::new(), mask }
    }

    /// The sparse pair mask induced by the self-loop policy and fixed pairs.
    pub fn mask(&self) -> (m: &PairMask)
        ensures
            m == &self.mask,
    {
        &self.mask
    }
}

/// Fixed coordinates lie in `[0, n)` and the three arrays are parallel.
pub open spec fn fixed_arrays_ok(fixed: &FixedPairs, n: nat) -> bool {
    &&& fixed.sources@.len() == fixed.targets@.len()
    &&& fixed.sources@.len() == fixed.occ_nums@.len()
    &&& forall|k: int|
        0 <= k < fixed.sources@.len() ==> #[trigger] fixed.sources@[k] < n && fixed.targets@[k] < n
}

/// Each occupied pair carries at least one event, so there are no more
/// occupied pairs than events.
pub proof fn lemma_positive_count_at_most_sum(occ: Seq<u64>)
    ensures
        positive_count(occ) <= seq_sum(occ),
    decreases occ.len(),
{
    if occ.len() > 0 {
        lemma_positive_count_at_most_sum(occ.drop_last());
    }
}

/// Per-node strength contributions are bounded by the total occupation.
proof fn lemma_strength_at_bounded(side: Seq<u64>, occ: Seq<u64>, v: int)
    requires
        occ.len() == side.len(),
    ensures
        0 <= strength_at(side, occ, v) <= seq_sum(occ),
    decreases side.len(),
{
    if side.len() > 0 {
        assert(occ.take(side.len() - 1) =~= occ.drop_last());
        lemma_strength_at_bounded(side.drop_last(), occ.drop_last(), v);
    }
}

/// Per-node degree contributions are bounded by the number of pairs.
proof fn lemma_degree_at_bounded(side: Seq<u64>, occ: Seq<u64>, v: int)
    requires
        occ.len() == side.len(),
    ensures
        0 <= degree_at(side, occ, v) <= side.len(),
    decreases side.len(),
{
    if side.len() > 0 {
        assert(occ.take(side.len() - 1) =~= occ.drop_last());
        lemma_degree_at_bounded(side.drop_last(), occ.drop_last(), v);
    }
}

/// The number of positive entries is bounded by the length.
proof fn lemma_positive_count_bounded(occ: Seq<u64>)
    ensures
        0 <= positive_count(occ) <= occ.len(),
    decreases occ.len(),
{
    if occ.len() > 0 {
        lemma_positive_count_bounded(occ.drop_last());
    }
}

/// Contributions of fixed pairs to every integer observable.
#[derive(Clone, Debug)]
pub struct FixedContributions {
    pub total_events: u64,
    pub total_edges: u64,
    pub strength_out: Vec<u64>,
    pub strength_in: Vec<u64>,
    pub degree_out: Vec<u64>,
    pub degree_in: Vec<u64>,
}

impl Default for FixedContributions {
    /// No contributions: zero totals and empty per-node vectors.
    fn default() -> (c: Self)
        ensures
            c.total_events == 0,
            c.total_edges == 0,
            c.strength_out@.len() == 0,
            c.strength_in@.len() == 0,
            c.degree_out@.len() == 0,
            c.degree_in@.len() == 0,
    {
        FixedContributions {
            total_events: 0,
            total_edges: 0,
            strength_out: Vec::new(),
            strength_in: Vec::new(),
            degree_out: Vec::new(),
            degree_in: Vec::new(),
        }
    }
}

/// The fixed pairs as `(coordinate, occupation)` entries, position by
/// position.
pub open spec fn side_entries(side: Seq<u64>, occ: Seq<u64>) -> Seq<(u64, u64)> {
    Seq::new(side.len(), |k: int| (side[k], occ[k]))
}

/// The occupations of the fixed pairs whose `side` coordinate is `v`, with
/// zero in place of every other pair.
pub open spec fn occupations_at(side: Seq<u64>, occ: Seq<u64>, v: int) -> Seq<u64> {
    Seq::new(side.len(), |k: int| if side[k] == v { occ[k] } else { 0u64 })
}

/// An entry whose coordinate is `v` and whose occupation is at least one.
pub open spec fn occupied_at(v: int) -> spec_fn((u64, u64)) -> bool {
    |e: (u64, u64)| e.0 == v && e.1 >= 1
}

/// The number of occupied fixed pairs is the length of the subsequence of
/// occupations that are at least one.
pub proof fn lemma_positive_count_is_occupied(occ: Seq<u64>)
    ensures
        positive_count(occ) == occ.filter(|o: u64| o >= 1).len(),
    decreases occ.len(),
{
    if occ.len() == 0 {
        occ.lemma_filter_len(|o: u64| o >= 1);
    } else {
        lemma_positive_count_is_occupied(occ.drop_last());
        occ.drop_last().lemma_filter_len_push(|o: u64| o >= 1, occ.last());
        assert(occ.drop_last().push(occ.last()) =~= occ);
    }
}

/// The degree contribution of node `v` on one side is the number of fixed
/// pairs with that coordinate and an occupation of at least one.
pub proof fn lemma_degree_at_counts_occupied(side: Seq<u64>, occ: Seq<u64>, v: int)
    requires
        side.len() == occ.len(),
    ensures
        degree_at(side, occ, v) == side_entries(side, occ).filter(occupied_at(v)).len(),
    decreases side.len(),
{
    let pred = occupied_at(v);
    if side.len() == 0 {
        side_entries(side, occ).lemma_filter_len(pred);
    } else {
        let n = side.len() - 1;
        lemma_degree_at_counts_occupied(side.drop_last(), occ.take(n), v);
        let front = side_entries(side.drop_last(), occ.take(n));
        front.lemma_filter_len_push(pred, (side[n], occ[n]));
        assert(front.push((side[n], occ[n])) =~= side_entries(side, occ));
    }
}

/// The strength contribution of node `v` on one side is the sum of the
/// occupations of the fixed pairs with that coordinate.
pub proof fn lemma_strength_at_sums_occupations(side: Seq<u64>, occ: Seq<u64>, v: int)
    requires
        side.len() == occ.len(),
    ensures
        strength_at(side, occ, v) == seq_sum(occupations_at(side, occ, v)),
    decreases side.len(),
{
    if side.len() > 0 {
        let n = side.len() - 1;
        lemma_strength_at_sums_occupations(side.drop_last(), occ.take(n), v);
        let whole = occupations_at(side, occ, v);
        let front = occupations_at(side.drop_last(), occ.take(n), v);
        assert(whole.drop_last() =~= front);
    }
}

/// Compute fixed-pair contributions in one pass over the fixed pairs.
///
/// Events count every occupation; edges, and the degree vectors, count only
/// pairs with positive occupation.
pub fn compute_fixed_contributions(node_count: usize, fixed: &FixedPairs) -> (c: FixedContributions)
    requires
        fixed_arrays_ok(fixed, node_count as nat),
        seq_sum(fixed.occ_nums@) <= u64::MAX,
    ensures
        c.total_events == seq_sum(fixed.occ_nums@),
        c.total_edges == positive_count(fixed.occ_nums@),
        c.total_edges == fixed.occ_nums@.filter(|o: u64| o >= 1).len(),
        c.total_edges <= c.total_events,
        forall|v: int|
            0 <= v < node_count ==> #[trigger] c.degree_out@[v] == side_entries(
                fixed.sources@,
                fixed.occ_nums@,
            ).filter(occupied_at(v)).len(),
        forall|v: int|
            0 <= v < node_count ==> #[trigger] c.degree_in@[v] == side_entries(
                fixed.targets@,
                fixed.occ_nums@,
            ).filter(occupied_at(v)).len(),
        forall|v: int|
            0 <= v < node_count ==> #[trigger] c.strength_out@[v] == seq_sum(
                occupations_at(fixed.sources@, fixed.occ_nums@, v),
            ),
        forall|v: int|
            0 <= v < node_count ==> #[trigger] c.strength_in@[v] == seq_sum(
                occupations_at(fixed.targets@, fixed.occ_nums@, v),
            ),
        c.strength_out@.len() == node_count,
        c.strength_in@.len() == node_count,
        c.degree_out@.len() == node_count,
        c.degree_in@.len() == node_count,
        forall|v: int|
            0 <= v < node_count ==> #[trigger] c.strength_out@[v] == strength_at(
                fixed.sources@,
                fixed.occ_nums@,
                v,
            ),
        forall|v: int|
            0 <= v < node_count ==> #[trigger] c.strength_in@[v] == strength_at(
                fixed.targets@,
                fixed.occ_nums@,
                v,
            ),
        forall|v: int|
            0 <= v < node_count ==> #[trigger] c.degree_out@[v] == degree_at(
                fixed.sources@,
                fixed.occ_nums@,
                v,
            ),
        forall|v: int|
            0 <= v < node_count ==> #[trigger] c.degree_in@[v] == degree_at(
                fixed.targets@,
                fixed.occ_nums@,
                v,
            ),
{
    let mut strength_out: Vec<u64> = Vec::new();
    let mut strength_in: Vec<u64> = Vec::new();
    let mut degree_out: Vec<u64> = Vec::new();
    let mut degree_in: Vec<u64> = Vec::new();
    let mut r: usize = 0;
    while r < node_count
        invariant
            r <= node_count,
            strength_out@.len() == r,
            strength_in@.len() == r,
            degree_out@.len() == r,
            degree_in@.len() == r,
            forall|v: int| 0 <= v < r ==> #[trigger] strength_out@[v] == 0,
            forall|v: int| 0 <= v < r ==> #[trigger] strength_in@[v] == 0,
            forall|v: int| 0 <= v < r ==> #[trigger] degree_out@[v] == 0,
            forall|v: int| 0 <= v < r ==> #[trigger] degree_in@[v] == 0,
        decreases node_count - r,
    {
        strength_out.push(0);
        strength_in.push(0);
        degree_out.push(0);
        degree_in.push(0);
        r = r + 1;
    }
    let mut total_events: u64 = 0;
    let mut total_edges: u64 = 0;
    let ghost src = fixed.sources@;
    let ghost tgt = fixed.targets@;
    let ghost occ = fixed.occ_nums@;
    let mut k: usize = 0;
    while k < fixed.sources.len()
        invariant
            fixed_arrays_ok(fixed, node_count as nat),
            src == fixed.sources@,
            tgt == fixed.targets@,
            occ == fixed.occ_nums@,
            seq_sum(occ) <= u64::MAX,
            k <= src.len(),
            strength_out@.len() == node_count,
            strength_in@.len() == node_count,
            degree_out@.len() == node_count,
            degree_in@.len() == node_count,
            total_events == seq_sum(occ.take(k as int)),
            total_edges == positive_count(occ.take(k as int)),
            forall|v: int|
                0 <= v < node_count ==> #[trigger] strength_out@[v] == strength_at(
                    src.take(k as int),
                    occ.take(k as int),
                    v,
                ),
            forall|v: int|
                0 <= v < node_count ==> #[trigger] strength_in@[v] == strength_at(
                    tgt.take(k as int),
                    occ.take(k as int),
                    v,
                ),
            forall|v: int|
                0 <= v < node_count ==> #[trigger] degree_out@[v] == degree_at(
                    src.take(k as int),
                    occ.take(k as int),
                    v,
                ),
            forall|v: int|
                0 <= v < node_count ==> #[trigger] degree_in@[v] == degree_at(
                    tgt.take(k as int),
                    occ.take(k as int),
                    v,
                ),
        decreases src.len() - k,
    {
        let si = fixed.sources[k] as usize;
        let ti = fixed.targets[k] as usize;
        let o = fixed.occ_nums[k];
        let ghost k1 = (k + 1) as int;
        proof {
            assert(src.take(k1).drop_last() =~= src.take(k as int));
            assert(tgt.take(k1).drop_last() =~= tgt.take(k as int));
            assert(occ.take(k1).drop_last() =~= occ.take(k as int));
            assert(occ.take(k1).take(k as int) =~= occ.take(k as int));
            crate::seqs::lemma_seq_sum_prefix(occ, k1);
            lemma_strength_at_bounded(src.take(k1), occ.take(k1), si as int);
            lemma_strength_at_bounded(tgt.take(k1), occ.take(k1), ti as int);
            lemma_degree_at_bounded(src.take(k1), occ.take(k1), si as int);
            lemma_degree_at_bounded(tgt.take(k1), occ.take(k1), ti as int);
            lemma_positive_count_bounded(occ.take(k1));
            assert(strength_at(tgt.take(k1), occ.take(k1), ti as int) == strength_at(
                tgt.take(k as int),
                occ.take(k as int),
                ti as int,
            ) + if o > 0 { o as int } else { 0int });
            assert(degree_at(tgt.take(k1), occ.take(k1), ti as int) == degree_at(
                tgt.take(k as int),
                occ.take(k as int),
                ti as int,
            ) + if o > 0 { 1int } else { 0int });
        }
        total_events = total_events + o;
        if o > 0 {
            total_edges = total_edges + 1;
            strength_out.set(si, strength_out[si] + o);
            strength_in.set(ti, strength_in[ti] + o);
            degree_out.set(si, degree_out[si] + 1);
            degree_in.set(ti, degree_in[ti] + 1);
        }
        k = k + 1;
    }
    proof {
        assert(src.take(k as int) =~= src);
        assert(tgt.take(k as int) =~= tgt);
        assert(occ.take(k as int) =~= occ);
        lemma_positive_count_is_occupied(occ);
        lemma_positive_count_at_most_sum(occ);
        assert forall|v: int| 0 <= v < node_count implies #[trigger] degree_out@[v] == side_entries(
            src,
            occ,
        ).filter(occupied_at(v)).len() by {
            assert(degree_out@[v] == degree_at(src, occ, v));
            lemma_degree_at_counts_occupied(src, occ, v);
        }
        assert forall|v: int| 0 <= v < node_count implies #[trigger] degree_in@[v] == side_entries(
            tgt,
            occ,
        ).filter(occupied_at(v)).len() by {
            assert(degree_in@[v] == degree_at(tgt, occ, v));
            lemma_degree_at_counts_occupied(tgt, occ, v);
        }
        assert forall|v: int| 0 <= v < node_count implies #[trigger] strength_out@[v] == seq_sum(
            occupations_at(src, occ, v),
        ) by {
            assert(strength_out@[v] == strength_at(src, occ, v));
            lemma_strength_at_sums_occupations(src, occ, v);
        }
        assert forall|v: int| 0 <= v < node_count implies #[trigger] strength_in@[v] == seq_sum(
            occupations_at(tgt, occ, v),
        ) by {
            assert(strength_in@[v] == strength_at(tgt, occ, v));
            lemma_strength_at_sums_occupations(tgt, occ, v);
        }
    }
    FixedContributions {
        total_events,
        total_edges,
        strength_out,
        strength_in,
        degree_out,
        degree_in,
    }
}

/// Residual constraints after subtracting fixed-pair contributions.
///
/// `None` fields mean the observable is not constrained.
#[derive(Clone, Debug)]
pub struct ResidualConstraints {
    pub total_events: Option<u64>,
    pub total_edges: Option<u64>,
    pub strength_out: Option<Vec<u64>>,
    pub strength_in: Option<Vec<u64>>,
    pub degree_out: Option<Vec<u64>>,
    pub degree_in: Option<Vec<u64>>,
}

impl Default for ResidualConstraints {
    /// No constrained observable.
    fn default() -> (r: Self)
        ensures
            r.total_events is None,
            r.total_edges is None,
            r.strength_out is None,
            r.strength_in is None,
            r.degree_out is None,
            r.degree_in is None,
    {
        ResidualConstraints {
            total_events: None,
            total_edges: None,
            strength_out: None,
            strength_in: None,
            degree_out: None,
            degree_in: None,
        }
    }
}

/// A given constraint sequence can absorb its contribution: right length and
/// elementwise at least the contribution.
pub open spec fn covers(full: Option<&[u64]>, fixed_part: Seq<u64>, n: nat) -> bool {
    match full {
        None => true,
        Some(seq) => seq@.len() == n && forall|v: int|
            0 <= v < n ==> #[trigger] seq@[v] >= fixed_part[v],
    }
}

/// The residual of a constraint sequence, elementwise `full - fixed_part`.
pub open spec fn residual_of(res: Option<Vec<u64>>, full: Option<&[u64]>, fixed_part: Seq<u64>) -> bool {
    match full {
        None => res.is_none(),
        Some(seq) => res matches Some(r) && r@.len() == seq@.len() && forall|v: int|
            0 <= v < seq@.len() ==> #[trigger] r@[v] == seq@[v] - fixed_part[v],
    }
}

/// Elementwise `full - fixed_part` for one optional constraint sequence.
fn subtract_sequence(node_count: usize, full: Option<&[u64]>, fixed_part: &Vec<u64>) -> (r: Result<
    Option<Vec<u64>>,
    String,
>)
    requires
        fixed_part@.len() == node_count,
    ensures
        r.is_ok() <==> covers(full, fixed_part@, node_count as nat),
        r matches Ok(res) ==> residual_of(res, full, fixed_part@),
{
    match full {
        None => Ok(None),
        Some(seq) => {
            if seq.len() != node_count {
                return Err("constraint sequence length mismatch".to_owned());
            }
            let mut res: Vec<u64> = Vec::new();
            let mut v: usize = 0;
            while v < node_count
                invariant
                    v <= node_count,
                    full == Some(seq),
                    seq@.len() == node_count,
                    fixed_part@.len() == node_count,
                    res@.len() == v,
                    forall|a: int| 0 <= a < v ==> #[trigger] seq@[a] >= fixed_part@[a] && res@[a]
                        == seq@[a] - fixed_part@[a],
                decreases node_count - v,
            {
                if seq[v] < fixed_part[v] {
                    assert(!covers(full, fixed_part@, node_count as nat)) by {
                        if covers(full, fixed_part@, node_count as nat) {
                            assert(seq@[v as int] >= fixed_part@[v as int]);
                        }
                    }
                    return Err("fixed pairs over-satisfy the constraint".to_owned());
                }
                res.push(seq[v] - fixed_part[v]);
                v = v + 1;
            }
            Ok(Some(res))
        },
    }
}

/// Scalar residual `full - fixed_part` when the scalar is constrained.
pub open spec fn scalar_residual(full: Option<u64>, fixed_part: u64) -> Option<u64> {
    match full {
        None => None,
        Some(t) => Some((t - fixed_part) as u64),
    }
}

/// Subtract fixed contributions from full constraints.
///
/// Fails exactly when a given sequence has the wrong length or is below the
/// fixed contribution somewhere, or a given total is below its fixed
/// contribution; otherwise every given constraint is replaced by its
/// residual and every absent one stays absent.
pub fn residualize(
    node_count: usize,
    fixed: &FixedContributions,
    full_total_events: Option<u64>,
    full_total_edges: Option<u64>,
    full_strength_out: Option<&[u64]>,
    full_strength_in: Option<&[u64]>,
    full_degree_out: Option<&[u64]>,
    full_degree_in: Option<&[u64]>,
) -> (r: Result<ResidualConstraints, String>)
    requires
        fixed.strength_out@.len() == node_count,
        fixed.strength_in@.len() == node_count,
        fixed.degree_out@.len() == node_count,
        fixed.degree_in@.len() == node_count,
    ensures
        r.is_ok() <==> {
            &&& covers(full_strength_out, fixed.strength_out@, node_count as nat)
            &&& covers(full_strength_in, fixed.strength_in@, node_count as nat)
            &&& covers(full_degree_out, fixed.degree_out@, node_count as nat)
            &&& covers(full_degree_in, fixed.degree_in@, node_count as nat)
            &&& (full_total_events matches Some(t) ==> t >= fixed.total_events)
            &&& (full_total_edges matches Some(e) ==> e >= fixed.total_edges)
        },
        r matches Ok(res) ==> {
            &&& residual_of(res.strength_out, full_strength_out, fixed.strength_out@)
            &&& residual_of(res.strength_in, full_strength_in, fixed.strength_in@)
            &&& residual_of(res.degree_out, full_degree_out, fixed.degree_out@)
            &&& residual_of(res.degree_in, full_degree_in, fixed.degree_in@)
            &&& res.total_events == scalar_residual(full_total_events, fixed.total_events)
            &&& res.total_edges == scalar_residual(full_total_edges, fixed.total_edges)
        },
{
    let strength_out = subtract_sequence(node_count, full_strength_out, &fixed.strength_out)?;
    let strength_in = subtract_sequence(node_count, full_strength_in, &fixed.strength_in)?;
    let degree_out = subtract_sequence(node_count, full_degree_out, &fixed.degree_out)?;
    let degree_in = subtract_sequence(node_count, full_degree_in, &fixed.degree_in)?;
    let total_events = match full_total_events {
        Some(t) => {
            if t < fixed.total_events {
                return Err("fixed pairs exceed total_events".to_owned());
            }
            Some(t - fixed.total_events)
        },
        None => None,
    };
    let total_edges = match full_total_edges {
        Some(e) => {
            if e < fixed.total_edges {
                return Err("fixed pairs exceed total_edges".to_owned());
            }
            Some(e - fixed.total_edges)
        },
        None => None,
    };
    Ok(ResidualConstraints {
        total_events,
        total_edges,
        strength_out,
        strength_in,
        degree_out,
        degree_in,
    })
}

} // verus!
