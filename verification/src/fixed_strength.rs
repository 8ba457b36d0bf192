//! Fixed-strength microcanonical ingredients: errors, backends, the domain
//! of admissible ordered pairs and the 4-cycle move of the strength MCMC.
use std::collections::HashSet;
use vstd::prelude::*;
use vstd::std_specs::hash::spec_hash_keys_iter;
use vstd::std_specs::iter::IteratorSpec;

use crate::distribution::OccupationFamily;
use crate::fixed_et::{
    lemma_linear_to_pair_roundtrip, lemma_pair_to_linear_roundtrip, pair_space, spec_linear_to_pair,
    spec_pair_to_linear,
};
use crate::me_direct::MAX_EXPLICIT_STUBS;
use crate::OccNum;
use crate::text::{concat_str, decimal, decimal_chars};

verus! {

broadcast use vstd::std_specs::hash::group_hash_axioms;

/// Errors that can occur during fixed-strength sampling.
#[derive(Clone, Debug, PartialEq, Eq)]
pub enum FixedStrengthError {
    /// The residual problem is infeasible.
    InvalidResidual(String),
    /// Too large for the direct stub-matching backend.
    TooLargeForDirect(u64),
    /// The direct stub-matching backend cannot handle this configuration
    /// (self-loops forbidden, masked domain, or fixed cells).
    DirectNotApplicable(String),
    /// Total stub count overflowed `usize`.
    ArithmeticOverflow(String),
    /// Initialization via max flow or greedy construction failed.
    InitializationFailed(String),
    /// An internal error occurred during MCMC.
    McmcError(String),
}

impl FixedStrengthError {
    /// Human-readable description of the error.
    pub fn to_string(&self) -> (s: String)
        ensures
            s@ == (match self {
                FixedStrengthError::InvalidResidual(m) => "invalid residual problem: "@ + m@,
                FixedStrengthError::TooLargeForDirect(t) => "total stubs "@ + decimal_chars(*t as nat)
                    + " exceeds maximum for direct backend"@,
                FixedStrengthError::DirectNotApplicable(m) => "direct stub-matching not applicable: "@ + m@,
                FixedStrengthError::ArithmeticOverflow(m) => "arithmetic overflow: "@ + m@,
                FixedStrengthError::InitializationFailed(m) => "initialization failed: "@ + m@,
                FixedStrengthError::McmcError(m) => "MCMC error: "@ + m@,
            }),
    {
        match self {
            FixedStrengthError::InvalidResidual(m) => concat_str("invalid residual problem: ", m.as_str()),
            FixedStrengthError::TooLargeForDirect(t) => {
                let head = concat_str("total stubs ", decimal(*t).as_str());
                concat_str(head.as_str(), " exceeds maximum for direct backend")
            },
            FixedStrengthError::DirectNotApplicable(m) => concat_str(
                "direct stub-matching not applicable: ",
                m.as_str(),
            ),
            FixedStrengthError::ArithmeticOverflow(m) => concat_str("arithmetic overflow: ", m.as_str()),
            FixedStrengthError::InitializationFailed(m) => concat_str("initialization failed: ", m.as_str()),
            FixedStrengthError::McmcError(m) => concat_str("MCMC error: ", m.as_str()),
        }
    }
}

/// Backend used by the fixed-strength sampler.
#[derive(Clone, Copy, Debug, PartialEq, Eq, Structural)]
pub enum StrengthBackend {
    /// Exact stub matching (ME, complete domain, self-loops allowed).
    MeDirect,
    /// 4-cycle Metropolis MCMC.
    CycleMcmc,
}

/// The per-source target sets hold exactly the listed pairs.
pub open spec fn rows_hold(rows: Seq<HashSet<u64>>, pairs: Seq<(u64, u64)>) -> bool {
    forall|a: u64, b: u64|
        (a < rows.len() && rows[a as int]@.contains(b)) <==> #[trigger] pairs.contains((a, b))
}

/// `v` lists exactly the admissible pairs of `d` whose source is below `s`.
pub open spec fn lists_sources_below(d: PairDomain, v: Seq<(u64, u64)>, s: int) -> bool {
    forall|p: (u64, u64)| #[trigger] v.contains(p) <==> (p.0 < s && d.admits(p.0, p.1))
}

/// Domain of admissible ordered pairs for a fixed-strength problem.
///
/// `Complete` admits every ordered pair of `node_count` nodes (optionally
/// without the diagonal); `Sparse` admits exactly the listed pairs, held as
/// one target set per source node (`allowed[s]` holds the targets of `s`).
#[derive(Clone, Debug)]
pub enum PairDomain {
    /// All `N x N` ordered pairs, optionally excluding self-loops.
    Complete { node_count: usize, self_loops: bool },
    /// An explicit set of admissible pairs, grouped by source.
    Sparse { node_count: usize, allowed: Vec<HashSet<u64>> },
}

impl PairDomain {
    /// Whether `(src, tgt)` belongs to the domain.
    pub open spec fn admits(&self, src: u64, tgt: u64) -> bool {
        match self {
            PairDomain::Complete { node_count, self_loops } => {
                &&& src < *node_count
                &&& tgt < *node_count
                &&& (*self_loops || src != tgt)
            },
            PairDomain::Sparse { allowed, .. } => src < allowed@.len() && allowed@[src as int]@.contains(
                tgt,
            ),
        }
    }

    /// The sparse domain of the listed pairs on `node_count` nodes.
    pub fn sparse_from_pairs(node_count: usize, pairs: &[(u64, u64)]) -> (d: Self)
        requires
            forall|k: int| 0 <= k < pairs@.len() ==> #[trigger] pairs@[k].0 < usize::MAX,
        ensures
            d is Sparse,
            d->Sparse_node_count == node_count,
            forall|s: u64, t: u64| d.admits(s, t) <==> pairs@.contains((s, t)),
    {
        let mut allowed: Vec<HashSet<u64>> = Vec::new();
        let mut k: usize = 0;
        while k < pairs.len()
            invariant
                k <= pairs@.len(),
                forall|q: int| 0 <= q < pairs@.len() ==> #[trigger] pairs@[q].0 < usize::MAX,
                rows_hold(allowed@, pairs@.take(k as int)),
            decreases pairs@.len() - k,
        {
            let (s, t) = pairs[k];
            let ghost before = allowed@;
            while allowed.len() <= s as usize
                invariant
                    s < usize::MAX,
                    allowed@.len() >= before.len(),
                    forall|i: int| 0 <= i < before.len() ==> #[trigger] allowed@[i] == before[i],
                    forall|i: int| before.len() <= i < allowed@.len() ==> #[trigger] allowed@[i]@
                        == Set::<u64>::empty(),
                decreases s + 1 - allowed@.len(),
            {
                allowed.push(HashSet::new());
            }
            let ghost mid = allowed@;
            allowed[s as usize].insert(t);
            proof {
                assert(allowed@.len() == mid.len());
                assert(allowed@[s as int]@ == mid[s as int]@.insert(t));
                assert(forall|i: int| 0 <= i < mid.len() && i != s ==> #[trigger] allowed@[i] == mid[i]);
                assert forall|a: u64, b: u64|
                    (a < allowed@.len() && allowed@[a as int]@.contains(b)) <==> #[trigger] pairs@.take(
                        k + 1,
                    ).contains((a, b)) by {
                    assert(pairs@.take(k + 1) =~= pairs@.take(k as int).push((s, t)));
                    let old_has = a < before.len() && before[a as int]@.contains(b);
                    assert(rows_hold(before, pairs@.take(k as int)));
                    assert(old_has <==> pairs@.take(k as int).contains((a, b)));
                    if a == s {
                        assert(allowed@[a as int]@ == mid[a as int]@.insert(t));
                        if a < before.len() {
                            assert(mid[a as int] == before[a as int]);
                        } else {
                            assert(mid[a as int]@ == Set::<u64>::empty());
                        }
                    } else if a < allowed@.len() {
                        assert(allowed@[a as int] == mid[a as int]);
                        if a >= before.len() {
                            assert(mid[a as int]@ == Set::<u64>::empty());
                        } else {
                            assert(mid[a as int] == before[a as int]);
                        }
                    }
                    if pairs@.take(k as int).contains((a, b)) {
                        let q = choose|q: int| 0 <= q < k && #[trigger] pairs@.take(k as int)[q] == (a, b);
                        assert(pairs@.take(k + 1)[q] == (a, b));
                    }
                    if pairs@.take(k + 1).contains((a, b)) && (a, b) != (s, t) {
                        let q = choose|q: int| 0 <= q < k + 1 && #[trigger] pairs@.take(k + 1)[q] == (a, b);
                        assert(q < k);
                        assert(pairs@.take(k as int)[q] == (a, b));
                    }
                    if (a, b) == (s, t) {
                        assert(pairs@.take(k + 1)[k as int] == (s, t));
                    }
                }
                assert(rows_hold(allowed@, pairs@.take(k + 1)));
            }
            k = k + 1;
        }
        proof {
            assert(pairs@.take(pairs@.len() as int) =~= pairs@);
        }
        PairDomain::Sparse { node_count, allowed }
    }

    /// Number of nodes in the graph.
    pub fn node_count(&self) -> (n: usize)
        ensures
            n == (match self {
                PairDomain::Complete { node_count, .. } => *node_count,
                PairDomain::Sparse { node_count, .. } => *node_count,
            }),
    {
        match self {
            PairDomain::Complete { node_count, .. } => *node_count,
            PairDomain::Sparse { node_count, .. } => *node_count,
        }
    }

    /// Whether self-loops are allowed: the complete domain's policy, or
    /// whether a sparse domain lists some pair `(i, i)`.
    pub fn self_loops_allowed(&self) -> (b: bool)
        ensures
            b == (match self {
                PairDomain::Complete { self_loops, .. } => *self_loops,
                PairDomain::Sparse { .. } => exists|i: u64| #[trigger] self.admits(i, i),
            }),
    {
        match self {
            PairDomain::Complete { self_loops, .. } => *self_loops,
            PairDomain::Sparse { allowed, .. } => {
                let mut s: usize = 0;
                while s < allowed.len()
                    invariant
                        *self == (PairDomain::Sparse { node_count: self->Sparse_node_count, allowed: *allowed }),
                        s <= allowed@.len(),
                        forall|i: u64| i < s ==> !#[trigger] self.admits(i, i),
                    decreases allowed@.len() - s,
                {
                    if allowed[s].contains(&(s as u64)) {
                        assert(self.admits(s as u64, s as u64));
                        return true;
                    }
                    s = s + 1;
                }
                proof {
                    assert forall|i: u64| !#[trigger] self.admits(i, i) by {
                        if i < s {
                        }
                    }
                }
                false
            },
        }
    }

    /// Returns `true` if the ordered pair `(src, tgt)` is admissible.
    pub fn is_admissible(&self, src: u64, tgt: u64) -> (b: bool)
        ensures
            b == self.admits(src, tgt),
    {
        match self {
            PairDomain::Complete { node_count, self_loops } => {
                if !*self_loops && src == tgt {
                    return false;
                }
                src < *node_count as u64 && tgt < *node_count as u64
            },
            PairDomain::Sparse { allowed, .. } => {
                if src < allowed.len() as u64 {
                    allowed[src as usize].contains(&tgt)
                } else {
                    false
                }
            },
        }
    }

    /// Maximum occupation per admissible pair for the family: the layer
    /// count `M` for B, unbounded (`OccNum::MAX`) for ME and W.
    pub fn capacity(&self, family: OccupationFamily) -> (c: OccNum)
        ensures
            c == (match family {
                OccupationFamily::Binomial(m) => m as OccNum,
                _ => OccNum::MAX,
            }),
    {
        match family {
            OccupationFamily::Binomial(m) => m as OccNum,
            _ => OccNum::MAX,
        }
    }

    /// Flow-network capacity of the edge `src -> tgt` given the residual
    /// marginals: the smallest of the family capacity and both residuals.
    pub fn flow_capacity(&self, family: OccupationFamily, src_out_res: OccNum, tgt_in_res: OccNum) -> (c:
        OccNum)
        ensures
            c <= src_out_res,
            c <= tgt_in_res,
            c <= (match family {
                OccupationFamily::Binomial(m) => m as OccNum,
                _ => OccNum::MAX,
            }),
            c == src_out_res || c == tgt_in_res || c == (match family {
                OccupationFamily::Binomial(m) => m as OccNum,
                _ => OccNum::MAX,
            }),
    {
        let cap = self.capacity(family);
        let a = if cap <= src_out_res {
            cap
        } else {
            src_out_res
        };
        if a <= tgt_in_res {
            a
        } else {
            tgt_in_res
        }
    }

    /// All admissible ordered pairs: in row-major order for a complete
    /// domain; for a sparse domain, each listed pair once.
    pub fn iter_admissible(&self) -> (v: Vec<(u64, u64)>)
        requires
            self is Complete ==> pair_space(self->Complete_node_count as int, self->Complete_self_loops)
                <= usize::MAX,
        ensures
            v@.no_duplicates(),
            forall|p: (u64, u64)| v@.contains(p) <==> self.admits(p.0, p.1),
            self matches PairDomain::Complete { node_count, self_loops } ==> {
                &&& v@.len() == pair_space(node_count as int, *self_loops)
                &&& forall|k: int|
                    0 <= k < v@.len() ==> ((#[trigger] v@[k]).0 as int, v@[k].1 as int)
                        == spec_linear_to_pair(k, node_count as int, *self_loops)
            },
    {
        match self {
            PairDomain::Complete { node_count, self_loops } => {
                let n = *node_count;
                let sl = *self_loops;
                let ghost d: int = if sl { n as int } else { n - 1 };
                let mut v: Vec<(u64, u64)> = Vec::new();
                let mut i: usize = 0;
                while i < n
                    invariant
                        *self == (PairDomain::Complete { node_count: n, self_loops: sl }),
                        i <= n,
                        d == (if sl { n as int } else { n - 1 }),
                        pair_space(n as int, sl) <= usize::MAX,
                        v@.len() == i * d,
                        forall|k: int|
                            0 <= k < v@.len() ==> ((#[trigger] v@[k]).0 as int, v@[k].1 as int)
                                == spec_linear_to_pair(k, n as int, sl),
                    decreases n - i,
                {
                    let mut j: usize = 0;
                    while j < n
                        invariant
                            *self == (PairDomain::Complete { node_count: n, self_loops: sl }),
                            i < n,
                            j <= n,
                            d == (if sl { n as int } else { n - 1 }),
                            pair_space(n as int, sl) <= usize::MAX,
                            v@.len() == i * d + (if !sl && j > i { j - 1 } else { j as int }),
                            forall|k: int|
                                0 <= k < v@.len() ==> ((#[trigger] v@[k]).0 as int, v@[k].1 as int)
                                    == spec_linear_to_pair(k, n as int, sl),
                        decreases n - j,
                    {
                        if sl || i != j {
                            proof {
                                lemma_pair_to_linear_roundtrip(i as int, j as int, n as int, sl);
                                assert(spec_pair_to_linear(i as int, j as int, n as int, sl) == v@.len()) by (nonlinear_arith)
                                    requires
                                        d == (if sl { n as int } else { n - 1 }),
                                        v@.len() == i * d + (if !sl && j > i { j - 1 } else { j as int }),
                                        sl || i != j,
                                ;
                            }
                            v.push((i as u64, j as u64));
                        }
                        j = j + 1;
                    }
                    proof {
                        assert(i * d + d == (i + 1) * d) by (nonlinear_arith);
                    }
                    i = i + 1;
                }
                proof {
                    assert(n * d == pair_space(n as int, sl)) by (nonlinear_arith)
                        requires
                            d == (if sl { n as int } else { n - 1 }),
                            pair_space(n as int, sl) == (if sl { n * n } else if n == 0 { 0 } else { n * (n - 1) }),
                    ;
                    assert forall|a: int, b: int| 0 <= a < b < v@.len() implies v@[a] != v@[b] by {
                        lemma_linear_to_pair_roundtrip(a, n as int, sl);
                        lemma_linear_to_pair_roundtrip(b, n as int, sl);
                        assert((v@[a].0 as int, v@[a].1 as int) == spec_linear_to_pair(a, n as int, sl));
                        assert((v@[b].0 as int, v@[b].1 as int) == spec_linear_to_pair(b, n as int, sl));
                    }
                    assert forall|p: (u64, u64)| v@.contains(p) <==> self.admits(p.0, p.1) by {
                        if v@.contains(p) {
                            let k = choose|k: int| 0 <= k < v@.len() && v@[k] == p;
                            lemma_linear_to_pair_roundtrip(k, n as int, sl);
                            assert((v@[k].0 as int, v@[k].1 as int) == spec_linear_to_pair(k, n as int, sl));
                        }
                        if self.admits(p.0, p.1) {
                            lemma_pair_to_linear_roundtrip(p.0 as int, p.1 as int, n as int, sl);
                            let k = spec_pair_to_linear(p.0 as int, p.1 as int, n as int, sl);
                            assert((v@[k].0 as int, v@[k].1 as int) == spec_linear_to_pair(k, n as int, sl));
                            assert(v@[k] == p);
                        }
                    }
                }
                v
            },
            PairDomain::Sparse { allowed, .. } => {
                let mut v: Vec<(u64, u64)> = Vec::new();
                let mut s: usize = 0;
                while s < allowed.len()
                    invariant
                        *self == (PairDomain::Sparse { node_count: self->Sparse_node_count, allowed: *allowed }),
                        s <= allowed@.len(),
                        v@.no_duplicates(),
                        lists_sources_below(*self, v@, s as int),
                    decreases allowed@.len() - s,
                {
                    let row = &allowed[s];
                    let ghost base = v@;
                    let ghost keys = spec_hash_keys_iter(row).remaining();
                    let ghost mut cnt: int = 0;
                    for t in it: row.iter()
                        invariant
                            it.seq() == keys,
                            cnt == it.index(),
                            v@.len() == base.len() + cnt,
                            forall|q: int| 0 <= q < base.len() ==> #[trigger] v@[q] == base[q],
                            forall|q: int|
                                base.len() <= q < base.len() + cnt ==> #[trigger] v@[q] == (
                                    s as u64,
                                    *keys[q - base.len()],
                                ),
                    {
                        v.push((s as u64, *t));
                        proof {
                            cnt = cnt + 1;
                        }
                    }
                    proof {
                        assert(cnt == keys.len());
                        assert(keys.unref().to_set() == row@);
                        assert(keys.no_duplicates());
                        assert forall|a: int, b: int| 0 <= a < b < v@.len() implies v@[a] != v@[b] by {
                            if b >= base.len() && a < base.len() {
                                assert(v@[b] == (s as u64, *keys[b - base.len()]));
                                assert(base.contains(v@[a]));
                                assert(base.contains(v@[a]) <==> (v@[a].0 < s && self.admits(v@[a].0, v@[a].1)));
                            } else if a >= base.len() {
                                assert(v@[a] == (s as u64, *keys[a - base.len()]));
                                assert(v@[b] == (s as u64, *keys[b - base.len()]));
                            } else {
                                assert(v@[a] == base[a] && v@[b] == base[b]);
                            }
                        }
                        assert(lists_sources_below(*self, base, s as int));
                        assert forall|p: (u64, u64)| #[trigger] v@.contains(p) <==> (p.0 < s + 1 && self.admits(p.0, p.1)) by {
                            if v@.contains(p) {
                                let k = choose|k: int| 0 <= k < v@.len() && v@[k] == p;
                                if k < base.len() {
                                    assert(base[k] == p);
                                    assert(base.contains(p));
                                    assert(base.contains(p) <==> (p.0 < s && self.admits(p.0, p.1)));
                                } else {
                                    assert(p == (s as u64, *keys[k - base.len()]));
                                    assert(keys.unref()[k - base.len()] == p.1);
                                    assert(keys.unref().contains(p.1));
                                    assert(row@.contains(p.1));
                                }
                            }
                            if p.0 < s + 1 && self.admits(p.0, p.1) {
                                if p.0 < s {
                                    assert(base.contains(p) <==> (p.0 < s && self.admits(p.0, p.1)));
                                    assert(base.contains(p));
                                    let k = choose|k: int| 0 <= k < base.len() && base[k] == p;
                                    assert(v@[k] == p);
                                } else {
                                    assert(row@.contains(p.1));
                                    assert(keys.unref().to_set().contains(p.1));
                                    let k = choose|k: int| 0 <= k < keys.unref().len() && keys.unref()[k] == p.1;
                                    assert(v@[base.len() + k] == p);
                                }
                            }
                        }
                        assert(lists_sources_below(*self, v@, s + 1));
                    }
                    s = s + 1;
                }
                proof {
                    assert forall|p: (u64, u64)| v@.contains(p) <==> self.admits(p.0, p.1) by {
                        assert(v@.contains(p) <==> (p.0 < allowed@.len() && self.admits(p.0, p.1)));
                    }
                }
                v
            },
        }
    }
}

/// A 4-cycle occupation delta before validation: `(src, tgt, delta)` for
/// each of the four corners.
#[derive(Clone, Copy, Debug)]
pub struct Cycle4Proposal {
    pub deltas: [(u64, u64, i64); 4],
}

/// The corners of the 4-cycle `a -> b`, `c -> d` (`+sign`) and `a -> d`,
/// `c -> b` (`-sign`).
pub open spec fn cycle4_deltas(a: u64, c: u64, b: u64, d: u64, sign: i64) -> Seq<(u64, u64, i64)> {
    seq![(a, b, sign), (c, d, sign), (a, d, -sign as i64), (c, b, -sign as i64)]
}

/// Sum of the deltas among the first `n` entries whose source (`src`) or
/// target (`!src`) is `v`.
pub open spec fn side_delta(ds: Seq<(u64, u64, i64)>, src: bool, v: u64, n: int) -> int
    decreases n,
{
    if n <= 0 {
        0
    } else {
        side_delta(ds, src, v, n - 1) + if (if src { ds[n - 1].0 } else { ds[n - 1].1 }) == v {
            ds[n - 1].2 as int
        } else {
            0int
        }
    }
}

/// Net delta on the pair `(s, t)` over the first `n` entries.
pub open spec fn pair_delta(ds: Seq<(u64, u64, i64)>, s: u64, t: u64, n: int) -> int
    decreases n,
{
    if n <= 0 {
        0
    } else {
        pair_delta(ds, s, t, n - 1) + if ds[n - 1].0 == s && ds[n - 1].1 == t {
            ds[n - 1].2 as int
        } else {
            0int
        }
    }
}

/// Build a 4-cycle proposal from two source nodes, two target nodes and a
/// sign.
pub fn build_cycle4(a: u64, c: u64, b: u64, d: u64, sign: i64) -> (p: Cycle4Proposal)
    requires
        sign != i64::MIN,
    ensures
        p.deltas@ == cycle4_deltas(a, c, b, d, sign),
{
    let p = Cycle4Proposal { deltas: [(a, b, sign), (c, d, sign), (a, d, -sign), (c, b, -sign)] };
    proof {
        assert(p.deltas@ =~= cycle4_deltas(a, c, b, d, sign));
    }
    p
}

/// Every row and every column of a 4-cycle receives one `+sign` and one
/// `-sign`, so the move preserves all out- and in-strengths.
pub proof fn lemma_cycle4_preserves_strengths(a: u64, c: u64, b: u64, d: u64, sign: i64, v: u64)
    requires
        sign != i64::MIN,
    ensures
        side_delta(cycle4_deltas(a, c, b, d, sign), true, v, 4) == 0,
        side_delta(cycle4_deltas(a, c, b, d, sign), false, v, 4) == 0,
{
    let ds = cycle4_deltas(a, c, b, d, sign);
    reveal_with_fuel(side_delta, 5);
    assert(ds[0] == (a, b, sign) && ds[1] == (c, d, sign));
    assert(ds[2] == (a, d, -sign as i64) && ds[3] == (c, b, -sign as i64));
}

/// A cell of the proposal whose net delta is nonzero stays non-negative,
/// admissible and within the capacity.
pub open spec fn cycle4_cell_ok(
    ds: Seq<(u64, u64, i64)>,
    current: Seq<OccNum>,
    domain: PairDomain,
    cap: OccNum,
    k: int,
) -> bool {
    let net = pair_delta(ds, ds[k].0, ds[k].1, 4);
    net != 0 ==> {
        &&& current[k] + net >= 0
        &&& domain.admits(ds[k].0, ds[k].1)
        &&& current[k] + net <= cap
    }
}

/// The acceptance rule for a 4-cycle proposal: some cell changes, and every
/// cell passes [`cycle4_cell_ok`].
pub open spec fn cycle4_valid(
    ds: Seq<(u64, u64, i64)>,
    current: Seq<OccNum>,
    domain: PairDomain,
    cap: OccNum,
) -> bool {
    &&& exists|k: int| 0 <= k < 4 && #[trigger] pair_delta(ds, ds[k].0, ds[k].1, 4) != 0
    &&& forall|k: int| 0 <= k < 4 ==> #[trigger] cycle4_cell_ok(ds, current, domain, cap, k)
}

/// Validate a 4-cycle proposal given the current occupation of each of its
/// four cells: after merging the deltas of coinciding cells, some cell must
/// change, and every changed cell must stay non-negative, admissible and
/// within `cap`.
pub fn validate_cycle4(proposal: &Cycle4Proposal, current: &[OccNum; 4], domain: &PairDomain, cap: OccNum) -> (ok:
    bool)
    ensures
        ok == cycle4_valid(proposal.deltas@, current@, *domain, cap),
{
    let ghost ds = proposal.deltas@;
    let mut is_noop = true;
    let mut k: usize = 0;
    while k < 4
        invariant
            ds == proposal.deltas@,
            ds.len() == 4,
            k <= 4,
            is_noop <==> forall|q: int| 0 <= q < k ==> #[trigger] pair_delta(ds, ds[q].0, ds[q].1, 4) == 0,
            forall|q: int| 0 <= q < k ==> #[trigger] cycle4_cell_ok(ds, current@, *domain, cap, q),
        decreases 4 - k,
    {
        let (src, tgt, _) = proposal.deltas[k];
        let mut net: i128 = 0;
        let mut j: usize = 0;
        while j < 4
            invariant
                ds == proposal.deltas@,
                ds.len() == 4,
                k < 4,
                j <= 4,
                src == ds[k as int].0,
                tgt == ds[k as int].1,
                net == pair_delta(ds, src, tgt, j as int),
                -0x8000_0000_0000_0000 * j <= net <= 0x7fff_ffff_ffff_ffff * j,
            decreases 4 - j,
        {
            let (s2, t2, dj) = proposal.deltas[j];
            if s2 == src && t2 == tgt {
                net = net + dj as i128;
            }
            j = j + 1;
        }
        if net != 0 {
            is_noop = false;
            let new_occ: i128 = current[k] as i128 + net;
            proof {
                assert(net == pair_delta(ds, ds[k as int].0, ds[k as int].1, 4));
                assert(new_occ == current@[k as int] + net);
            }
            if new_occ < 0 {
                assert(!cycle4_cell_ok(ds, current@, *domain, cap, k as int));
                return false;
            }
            if !domain.is_admissible(src, tgt) {
                assert(!cycle4_cell_ok(ds, current@, *domain, cap, k as int));
                return false;
            }
            if new_occ > cap as i128 {
                assert(!cycle4_cell_ok(ds, current@, *domain, cap, k as int));
                return false;
            }
        }
        k = k + 1;
    }
    if is_noop {
        proof {
            assert forall|q: int| 0 <= q < 4 implies #[trigger] pair_delta(ds, ds[q].0, ds[q].1, 4) == 0 by {}
        }
        return false;
    }
    true
}

/// A proposal is accepted exactly when it changes some cell and every
/// changed cell ends with an occupation between zero and `cap`, the
/// capacity itself included, on an admissible pair.
pub proof fn lemma_cycle4_accepts_within_capacity(
    ds: Seq<(u64, u64, i64)>,
    current: Seq<OccNum>,
    domain: PairDomain,
    cap: OccNum,
)
    requires
        ds.len() == 4,
        current.len() == 4,
    ensures
        cycle4_valid(ds, current, domain, cap) <==> ((exists|k: int|
            0 <= k < 4 && #[trigger] pair_delta(ds, ds[k].0, ds[k].1, 4) != 0) && forall|k: int|
            0 <= k < 4 && #[trigger] pair_delta(ds, ds[k].0, ds[k].1, 4) != 0 ==> {
                &&& 0 <= current[k] + pair_delta(ds, ds[k].0, ds[k].1, 4) <= cap
                &&& domain.admits(ds[k].0, ds[k].1)
            }),
{
    if cycle4_valid(ds, current, domain, cap) {
        assert forall|k: int| 0 <= k < 4 && #[trigger] pair_delta(ds, ds[k].0, ds[k].1, 4) != 0 implies {
            &&& 0 <= current[k] + pair_delta(ds, ds[k].0, ds[k].1, 4) <= cap
            &&& domain.admits(ds[k].0, ds[k].1)
        } by {
            assert(cycle4_cell_ok(ds, current, domain, cap, k));
        }
    }
}

/// On a 4-cycle with distinct sources (`a != c`) and distinct targets
/// (`b != d`) the four cells are distinct: the move is accepted exactly when
/// `a -> b` and `c -> d` can gain `sign` and `a -> d` and `c -> b` can lose
/// it, each staying between zero and `cap` (a cell may be filled up to
/// `cap`), and all four pairs are admissible.
pub proof fn lemma_cycle4_distinct_corners(
    a: u64,
    c: u64,
    b: u64,
    d: u64,
    sign: i64,
    current: Seq<OccNum>,
    domain: PairDomain,
    cap: OccNum,
)
    requires
        sign != 0,
        sign != i64::MIN,
        a != c,
        b != d,
        current.len() == 4,
    ensures
        cycle4_valid(cycle4_deltas(a, c, b, d, sign), current, domain, cap) <==> {
            &&& 0 <= current[0] + sign <= cap
            &&& 0 <= current[1] + sign <= cap
            &&& 0 <= current[2] - sign <= cap
            &&& 0 <= current[3] - sign <= cap
            &&& domain.admits(a, b)
            &&& domain.admits(c, d)
            &&& domain.admits(a, d)
            &&& domain.admits(c, b)
        },
{
    let ds = cycle4_deltas(a, c, b, d, sign);
    reveal_with_fuel(pair_delta, 5);
    assert(ds[0] == (a, b, sign) && ds[1] == (c, d, sign));
    assert(ds[2] == (a, d, -sign as i64) && ds[3] == (c, b, -sign as i64));
    assert(pair_delta(ds, a, b, 4) == sign);
    assert(pair_delta(ds, c, d, 4) == sign);
    assert(pair_delta(ds, a, d, 4) == -sign);
    assert(pair_delta(ds, c, b, 4) == -sign);
    lemma_cycle4_accepts_within_capacity(ds, current, domain, cap);
    assert(pair_delta(ds, ds[0].0, ds[0].1, 4) != 0);
    if cycle4_valid(ds, current, domain, cap) {
        assert(cycle4_cell_ok(ds, current, domain, cap, 0));
        assert(cycle4_cell_ok(ds, current, domain, cap, 1));
        assert(cycle4_cell_ok(ds, current, domain, cap, 2));
        assert(cycle4_cell_ok(ds, current, domain, cap, 3));
    }
}

/// Whether the exact ME stub-matching backend applies: ME occupations, a
/// complete domain with self-loops, no fixed pairs, no pair costs, and at
/// most [`MAX_EXPLICIT_STUBS`] stubs. `has_costs` tells whether the target
/// carries pair costs.
pub fn can_use_me_direct(
    family: OccupationFamily,
    self_loops: bool,
    domain: &PairDomain,
    has_fixed_pairs: bool,
    total: OccNum,
    has_costs: bool,
) -> (b: bool)
    ensures
        b == (family == OccupationFamily::Poisson && self_loops && !has_fixed_pairs && domain is Complete
            && total <= MAX_EXPLICIT_STUBS && !has_costs),
{
    if !matches!(family, OccupationFamily::Poisson) {
        return false;
    }
    if !self_loops {
        return false;
    }
    if has_fixed_pairs {
        return false;
    }
    if matches!(domain, PairDomain::Sparse { .. }) {
        return false;
    }
    if total > MAX_EXPLICIT_STUBS {
        return false;
    }
    if has_costs {
        return false;
    }
    true
}

} // verus!
