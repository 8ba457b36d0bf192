//! Fixed-(E, T) microcanonical ingredients: errors, the arithmetic
//! index-to-pair map over admissible ordered pairs, residual validation
//! and the uniform support stage of the sampler.
use rand::rngs::StdRng;
use vstd::prelude::*;

use crate::mcmc::McmcConfig;
use crate::model::family::OccupationFamily;
use crate::rng::{random_below, rng_from_seed};
use crate::uniform_edges::{distinct_indices, sample_uniform_support};
use crate::fixed_et_rejection::{
    positive_occupations, try_b_subset_rejection, try_multinomial_rejection,
    try_w_weak_composition_rejection,
};
use crate::fixed_total::{
    balanced_fill, fixed_total_sample_of, gibbs_sweep_len, is_split_sampler, occupations_ok,
    sample_fixed_total,
};
use crate::output::{assemble_network, support_of, SampledNetwork};
use crate::support::at_least_one;
use crate::seqs::seq_sum;
use crate::OccNum;
use crate::text::{concat_str, num_msg, push_num};
use vstd::arithmetic::div_mod::{
    lemma_fundamental_div_mod, lemma_fundamental_div_mod_converse_div,
    lemma_fundamental_div_mod_converse_mod,
};

verus! {

/// Errors that can occur during fixed-(E, T) sampling.
#[derive(Clone, Debug, PartialEq, Eq)]
pub enum FixedETError {
    /// The residual problem is infeasible.
    InvalidResidual(String),
}

impl FixedETError {
    /// Human-readable description of the error.
    pub fn to_string(&self) -> (s: String)
        ensures
            s@ == (match self {
                FixedETError::InvalidResidual(m) => "invalid residual problem: "@ + m@,
            }),
    {
        match self {
            FixedETError::InvalidResidual(m) => concat_str("invalid residual problem: ", m.as_str()),
        }
    }
}

/// Number of admissible ordered pairs on `n` nodes: `n^2` with self-loops,
/// `n (n - 1)` without.
pub open spec fn pair_space(n: int, self_loops: bool) -> int {
    if self_loops {
        n * n
    } else if n == 0 {
        0
    } else {
        n * (n - 1)
    }
}

/// [`pair_space`] saturated at `usize::MAX`.
pub open spec fn saturated_pair_space(n: int, self_loops: bool) -> int {
    if pair_space(n, self_loops) <= usize::MAX {
        pair_space(n, self_loops)
    } else {
        usize::MAX as int
    }
}

/// Total number of admissible pairs, saturated at `usize::MAX`.
pub fn total_admissible_pairs(n: usize, self_loops: bool) -> (l: usize)
    ensures
        l == saturated_pair_space(n as int, self_loops),
{
    let m: usize = if self_loops {
        n
    } else if n == 0 {
        0
    } else {
        n - 1
    };
    proof {
        assert(n * m == pair_space(n as int, self_loops)) by (nonlinear_arith)
            requires
                m == (if self_loops { n as int } else if n == 0 { 0int } else { n - 1 }),
        ;
    }
    match n.checked_mul(m) {
        Some(l) => l,
        None => usize::MAX,
    }
}

/// The pair with linear index `idx`: row-major over all `n^2` pairs with
/// self-loops; row-major over the off-diagonal pairs without.
pub open spec fn spec_linear_to_pair(idx: int, n: int, self_loops: bool) -> (int, int) {
    if self_loops {
        (idx / n, idx % n)
    } else {
        let i = idx / (n - 1);
        let jr = idx % (n - 1);
        (i, if jr >= i { jr + 1 } else { jr })
    }
}

/// Inverse of [`spec_linear_to_pair`] on admissible pairs.
pub open spec fn spec_pair_to_linear(i: int, j: int, n: int, self_loops: bool) -> int {
    if self_loops {
        i * n + j
    } else {
        i * (n - 1) + if j > i { j - 1 } else { j }
    }
}

/// Whether `(i, j)` is an admissible pair on `n` nodes.
pub open spec fn admissible_pair(i: int, j: int, n: int, self_loops: bool) -> bool {
    0 <= i < n && 0 <= j < n && (self_loops || i != j)
}

/// Map a linear index to a source/target pair.
///
/// With self-loops: `i = idx / n`, `j = idx % n`. Without: `i = idx / (n-1)`,
/// `j = idx % (n-1)`, shifted past the diagonal when `j >= i`.
pub fn linear_to_pair(idx: usize, n: usize, self_loops: bool) -> (p: (usize, usize))
    requires
        n > (if self_loops { 0int } else { 1int }),
    ensures
        (p.0 as int, p.1 as int) == spec_linear_to_pair(idx as int, n as int, self_loops),
{
    if self_loops {
        (idx / n, idx % n)
    } else {
        let i = idx / (n - 1);
        let j_raw = idx % (n - 1);
        let j = if j_raw >= i {
            j_raw + 1
        } else {
            j_raw
        };
        (i, j)
    }
}

/// Every index of `[0, L)` maps to an admissible pair, and back to itself.
pub proof fn lemma_linear_to_pair_roundtrip(idx: int, n: int, self_loops: bool)
    requires
        n > (if self_loops { 0int } else { 1int }),
        0 <= idx < pair_space(n, self_loops),
    ensures
        admissible_pair(
            spec_linear_to_pair(idx, n, self_loops).0,
            spec_linear_to_pair(idx, n, self_loops).1,
            n,
            self_loops,
        ),
        spec_pair_to_linear(
            spec_linear_to_pair(idx, n, self_loops).0,
            spec_linear_to_pair(idx, n, self_loops).1,
            n,
            self_loops,
        ) == idx,
{
    let d = if self_loops { n } else { n - 1 };
    let i = idx / d;
    let r = idx % d;
    lemma_fundamental_div_mod(idx, d);
    assert(0 <= r < d) by (nonlinear_arith)
        requires
            d > 0,
            r == idx % d,
    ;
    assert(0 <= i < n) by (nonlinear_arith)
        requires
            d > 0,
            idx == d * i + r,
            0 <= r < d,
            0 <= idx < n * d,
    ;
    assert(i * d == d * i) by (nonlinear_arith);
}

/// Every admissible pair has an index in `[0, L)`, and that index maps back
/// to the pair.
pub proof fn lemma_pair_to_linear_roundtrip(i: int, j: int, n: int, self_loops: bool)
    requires
        admissible_pair(i, j, n, self_loops),
    ensures
        0 <= spec_pair_to_linear(i, j, n, self_loops) < pair_space(n, self_loops),
        spec_linear_to_pair(spec_pair_to_linear(i, j, n, self_loops), n, self_loops) == (i, j),
{
    let d = if self_loops { n } else { n - 1 };
    let r = if self_loops { j } else if j > i { j - 1 } else { j };
    let idx = i * d + r;
    assert(d > 0 && 0 <= r < d);
    assert(0 <= idx < n * d) by (nonlinear_arith)
        requires
            0 <= i < n,
            0 <= r < d,
            idx == i * d + r,
    ;
    lemma_fundamental_div_mod_converse_div(idx, d, i, r);
    lemma_fundamental_div_mod_converse_mod(idx, d, i, r);
}

/// `(i1, j1)` comes strictly before `(i2, j2)` in row-major order.
pub open spec fn lex_before(p: (int, int), q: (int, int)) -> bool {
    p.0 < q.0 || (p.0 == q.0 && p.1 < q.1)
}

/// The linear index of admissible pairs increases with row-major order.
proof fn lemma_pair_to_linear_monotone(p: (int, int), q: (int, int), n: int, self_loops: bool)
    requires
        admissible_pair(p.0, p.1, n, self_loops),
        admissible_pair(q.0, q.1, n, self_loops),
        lex_before(p, q),
    ensures
        spec_pair_to_linear(p.0, p.1, n, self_loops) < spec_pair_to_linear(q.0, q.1, n, self_loops),
{
    let d = if self_loops { n } else { n - 1 };
    let r1 = if self_loops { p.1 } else if p.1 > p.0 { p.1 - 1 } else { p.1 };
    let r2 = if self_loops { q.1 } else if q.1 > q.0 { q.1 - 1 } else { q.1 };
    assert(0 <= r1 < d && 0 <= r2 < d);
    if p.0 < q.0 {
        assert(p.0 * d + r1 < q.0 * d + r2) by (nonlinear_arith)
            requires
                p.0 < q.0,
                0 <= r1 < d,
                0 <= r2,
        ;
    } else {
        assert(r1 < r2);
    }
}

/// Linear indices enumerate the admissible pairs in strictly increasing
/// row-major order: a smaller index always gives an earlier pair.
pub proof fn lemma_linear_to_pair_increasing(a: int, b: int, n: int, self_loops: bool)
    requires
        n > (if self_loops { 0int } else { 1int }),
        0 <= a < b < pair_space(n, self_loops),
    ensures
        lex_before(spec_linear_to_pair(a, n, self_loops), spec_linear_to_pair(b, n, self_loops)),
{
    lemma_linear_to_pair_roundtrip(a, n, self_loops);
    lemma_linear_to_pair_roundtrip(b, n, self_loops);
    let pa = spec_linear_to_pair(a, n, self_loops);
    let pb = spec_linear_to_pair(b, n, self_loops);
    if !lex_before(pa, pb) {
        if pa == pb {
            assert(a == b);
        } else {
            lemma_pair_to_linear_monotone(pb, pa, n, self_loops);
        }
    }
}

/// Default MCMC configuration for the fixed-(E, T) Gibbs occupation backend.
pub fn default_config(seed: u64) -> (c: McmcConfig)
    ensures
        c.burn_in_sweeps == 20,
        c.sweeps_per_sample == 5,
        c.proposals_per_sweep.is_none(),
        c.seed == seed,
{
    McmcConfig { burn_in_sweeps: 20, sweeps_per_sample: 5, proposals_per_sweep: None, seed }
}

/// The residual `(E, T)` problem over `L` admissible pairs is infeasible:
/// more edges than pairs, exactly one of `E` and `T` zero, fewer events than
/// edges, or (for B) more events than `M * E`.
pub open spec fn et_residual_infeasible(family: OccupationFamily, l: int, e: int, t: int) -> bool {
    ||| e > l
    ||| (e == 0) != (t == 0)
    ||| e > 0 && t < e
    ||| (family.spec_max_occupation() matches Some(m) && t > m * e)
}

/// Validate a residual fixed-(E, T) problem over `l` admissible pairs.
pub fn check_fixed_et_residual(family: OccupationFamily, l: usize, e: usize, t: OccNum) -> (r: Result<
    (),
    FixedETError,
>)
    ensures
        r is Err <==> et_residual_infeasible(family, l as int, e as int, t as int),
{
    if e > l {
        let mut m = num_msg("residual_edges (", e as u64, ") exceeds admissible pair count (");
        push_num(&mut m, l as u64, ")");
        return Err(FixedETError::InvalidResidual(m));
    }
    if (e == 0) != (t == 0) {
        let mut m = num_msg("inconsistent (E,T) = (", e as u64, ",");
        push_num(&mut m, t, "): both must be zero or both positive");
        return Err(FixedETError::InvalidResidual(m));
    }
    let e64 = e as OccNum;
    if e > 0 && t < e64 {
        let mut m = num_msg("residual total ", t, " < residual edges ");
        push_num(&mut m, e64, " (each edge needs ≥1 event)");
        return Err(FixedETError::InvalidResidual(m));
    }
    if let Some(max) = family.max_occupation() {
        // The capacity `M * E`, saturated at the largest `u64`.
        if let Some(capacity) = max.checked_mul(e64) {
            if t > capacity {
                let mut m = num_msg("total ", t, " exceeds B capacity ");
                push_num(&mut m, max, " × ");
                push_num(&mut m, e64, " = ");
                push_num(&mut m, capacity, "");
                return Err(FixedETError::InvalidResidual(m));
            }
        }
    }
    Ok(())
}

/// Occupations that need no sampling: none for `E = 0`, the whole total on
/// a single edge, or one event per edge when `T = E`. Each is the balanced
/// fill of `T` over `E` cells.
pub fn trivial_occupations(e: usize, t: OccNum) -> (r: Option<Vec<OccNum>>)
    ensures
        r is Some <==> (e <= 1 || t == e),
        r matches Some(v) ==> {
            &&& v@.len() == e
            &&& e == 1 ==> v@ == seq![t]
            &&& e != 1 ==> forall|k: int| 0 <= k < v@.len() ==> #[trigger] v@[k] == 1
            &&& v@ == balanced_fill(e as nat, t as int)
        },
{
    if e == 0 {
        let v: Vec<OccNum> = Vec::new();
        proof {
            assert(v@ =~= balanced_fill(0, t as int));
        }
        return Some(v);
    }
    if e == 1 {
        let v = vec![t];
        proof {
            assert(v@ =~= balanced_fill(1, t as int));
        }
        return Some(v);
    }
    if t == e as OccNum {
        let mut v: Vec<OccNum> = Vec::new();
        let mut k: usize = 0;
        while k < e
            invariant
                k <= e,
                v@.len() == k,
                forall|q: int| 0 <= q < v@.len() ==> #[trigger] v@[q] == 1,
            decreases e - k,
        {
            v.push(1);
            k = k + 1;
        }
        proof {
            let ei = e as int;
            assert(0int / ei == 0 && 0int % ei == 0) by (nonlinear_arith)
                requires
                    ei >= 2,
            ;
            assert(v@ =~= balanced_fill(e as nat, t as int));
        }
        return Some(v);
    }
    None
}

/// Trivial occupations are feasible: a single edge carries the whole
/// total; otherwise every edge carries one event and the total is `E`.
pub proof fn lemma_trivial_occupations(v: Seq<OccNum>, e: int, t: int, family: OccupationFamily)
    requires
        e <= 1 || t == e,
        v.len() == e,
        e == 1 ==> v == seq![t as OccNum],

        e != 1 ==> forall|k: int| 0 <= k < v.len() ==> #[trigger] v[k] == 1,
        0 <= t <= u64::MAX,
        e == 0 ==> t == 0,
        e >= 1 ==> t >= e,
        family.spec_max_occupation() matches Some(m) ==> t <= m * e,
    ensures
        seq_sum(v) == t,
        occupations_ok(v, family),
    decreases v.len(),
{
    if e == 1 {
        assert(v.drop_last() =~= Seq::<OccNum>::empty());
        assert(v[0] == t as OccNum);
        assert(seq_sum(v) == seq_sum(v.drop_last()) + v[0]);
    } else if e > 1 {
        lemma_all_ones_sum(v);
        if let Some(m) = family.spec_max_occupation() {
            assert(m >= 1) by (nonlinear_arith)
                requires
                    t <= m * e,
                    t == e,
                    e > 1,
            ;
        }
    }
}

/// A sequence of ones sums to its length.
proof fn lemma_all_ones_sum(v: Seq<OccNum>)
    requires
        forall|k: int| 0 <= k < v.len() ==> #[trigger] v[k] == 1,
    ensures
        seq_sum(v) == v.len(),
    decreases v.len(),
{
    if v.len() > 0 {
        let w = v.drop_last();
        assert forall|k: int| 0 <= k < w.len() implies #[trigger] w[k] == 1 by {
            assert(w[k] == v[k]);
        }
        lemma_all_ones_sum(w);
    }
}

/// The support stage of the fixed-(E, T) sampler: validate the residual
/// problem, then choose `E` distinct admissible-pair indices uniformly
/// (a single uniform index when `E = 1`) and map each through `get_pair`.
pub fn sample_fixed_et_support<G: Fn(usize) -> (u64, u64)>(
    family: OccupationFamily,
    l: usize,
    e: usize,
    t: OccNum,
    rng: &mut StdRng,
    get_pair: G,
) -> (r: Result<Vec<(u64, u64)>, FixedETError>)
    requires
        forall|idx: usize| idx < l ==> #[trigger] get_pair.requires((idx,)),
    ensures
        r is Err <==> et_residual_infeasible(family, l as int, e as int, t as int),
        r matches Ok(pairs) ==> pairs@.len() == e,
        r matches Ok(pairs) ==> exists|ix: Seq<usize>|
            #[trigger] distinct_indices(ix, l as int, e as int) && forall|k: int|
                0 <= k < e ==> get_pair.ensures((ix[k],), #[trigger] pairs@[k]),
{
    check_fixed_et_residual(family, l, e, t)?;
    if e == 0 {
        let pairs: Vec<(u64, u64)> = Vec::new();
        proof {
            assert(distinct_indices(Seq::<usize>::empty(), l as int, 0));
        }
        return Ok(pairs);
    }
    let ix: Vec<usize> = if e == 1 {
        let idx = random_below(rng, l);
        vec![idx]
    } else {
        sample_uniform_support(l, e, rng)
    };
    let mut pairs: Vec<(u64, u64)> = Vec::new();
    let mut k: usize = 0;
    while k < e
        invariant
            k <= e,
            distinct_indices(ix@, l as int, e as int),
            forall|idx: usize| idx < l ==> #[trigger] get_pair.requires((idx,)),
            pairs@.len() == k,
            forall|q: int| 0 <= q < k ==> get_pair.ensures((ix@[q],), #[trigger] pairs@[q]),
        decreases e - k,
    {
        let p = get_pair(ix[k]);
        pairs.push(p);
        k = k + 1;
    }
    Ok(pairs)
}

/// ME (multi-edge) occupancy law for fixed-(E, T) sampling: occupations
/// weighted by `1 / prod t_i!`, unbounded.
#[derive(Clone, Copy, Debug)]
pub struct MeFamily;

/// B (binary layers) occupancy law with `layers` layers: occupations
/// weighted by `prod C(M, t_i)`, each at most `M`.
#[derive(Clone, Copy, Debug)]
pub struct BFamily {
    pub layers: OccNum,
}

/// W (weighted) occupancy law with `layers` layers: occupations weighted by
/// `prod C(M + t_i - 1, t_i)`, unbounded.
#[derive(Clone, Copy, Debug)]
pub struct WFamily {
    pub layers: OccNum,
}

impl MeFamily {
    /// ME occupations are unbounded.
    pub fn max_occnum(&self) -> (m: Option<OccNum>)
        ensures
            m is None,
    {
        None
    }

    /// ME needs no check beyond `T >= E`.
    pub fn validate_residual(&self, e: usize, t: OccNum) -> (r: Result<(), FixedETError>)
        ensures
            r is Ok,
    {
        Ok(())
    }

    /// Multinomial rejection: see [`try_multinomial_rejection`].
    pub fn try_rejection(&self, t: OccNum, e: usize, max_attempts: usize, rng: &mut StdRng) -> (r:
        Result<Vec<OccNum>, ()>)
        requires
            t <= usize::MAX,
            e > 0 || t == 0,
        ensures
            r matches Ok(c) ==> positive_occupations(c@, e as int, t as int),
            (max_attempts == 0 || t < e) ==> r is Err,
            (max_attempts > 0 && ((e == 0 && t == 0) || (e == 1 && t >= 1))) ==> r is Ok,
    {
        try_multinomial_rejection(t, e, max_attempts, rng)
    }

    /// Work of one multinomial rejection attempt: `T + E` draws.
    pub fn rejection_cost_per_attempt(&self, t: OccNum, e: usize) -> (c: u64)
        requires
            t + e <= u64::MAX,
        ensures
            c == t + e,
    {
        t + e as u64
    }
}

impl BFamily {
    /// B occupations are capped at the layer count.
    pub fn max_occnum(&self) -> (m: Option<OccNum>)
        ensures
            m == Some(self.layers),
    {
        Some(self.layers)
    }

    /// B rejects a total above the layer capacity `M * E`.
    pub fn validate_residual(&self, e: usize, t: OccNum) -> (r: Result<(), FixedETError>)
        ensures
            r is Err <==> t > self.layers * e,
    {
        if let Some(capacity) = self.layers.checked_mul(e as OccNum) {
            if t > capacity {
                let mut m = num_msg("B residual total ", t, " exceeds M·E = ");
                push_num(&mut m, self.layers, "×");
                push_num(&mut m, e as u64, " = ");
                push_num(&mut m, capacity, "");
                return Err(FixedETError::InvalidResidual(m));
            }
        }
        Ok(())
    }

    /// Binary-cell subset rejection: see [`try_b_subset_rejection`].
    pub fn try_rejection(&self, t: OccNum, e: usize, max_attempts: usize, rng: &mut StdRng) -> (r:
        Result<Vec<OccNum>, ()>)
        requires
            self.layers <= usize::MAX,
            e * self.layers <= usize::MAX,
            t <= e * self.layers,
        ensures
            r matches Ok(c) ==> positive_occupations(c@, e as int, t as int) && forall|i: int|
                0 <= i < c@.len() ==> #[trigger] c@[i] <= self.layers,
            (max_attempts == 0 || t < e) ==> r is Err,
            (max_attempts > 0 && self.layers >= 1 && t == e * self.layers) ==> r is Ok,
    {
        try_b_subset_rejection(self.layers, t, e, max_attempts, rng)
    }

    /// Work of one binary-cell subset attempt: the smaller of `T` and
    /// `M E - T` (complement mode), at least one.
    pub fn rejection_cost_per_attempt(&self, t: OccNum, e: usize) -> (c: u64)
        requires
            self.layers * e <= u64::MAX,
        ensures
            c == ({
                let free = if self.layers * e >= t { self.layers * e - t } else { 0 };
                let smaller = if t <= free { t as int } else { free };
                if smaller >= 1 { smaller } else { 1 }
            }),
    {
        let total = self.layers * e as OccNum;
        let free = if total >= t {
            total - t
        } else {
            0
        };
        let smaller = if t <= free {
            t
        } else {
            free
        };
        if smaller >= 1 {
            smaller
        } else {
            1
        }
    }
}

impl WFamily {
    /// W occupations are unbounded.
    pub fn max_occnum(&self) -> (m: Option<OccNum>)
        ensures
            m is None,
    {
        None
    }

    /// W needs no check beyond `T >= E`.
    pub fn validate_residual(&self, e: usize, t: OccNum) -> (r: Result<(), FixedETError>)
        ensures
            r is Ok,
    {
        Ok(())
    }

    /// Weak-composition rejection: see [`try_w_weak_composition_rejection`].
    pub fn try_rejection(&self, t: OccNum, e: usize, max_attempts: usize, rng: &mut StdRng) -> (r:
        Result<Vec<OccNum>, ()>)
        requires
            self.layers >= 1,
            e >= 1,
            self.layers <= usize::MAX,
            t + e * self.layers <= usize::MAX,
        ensures
            r matches Ok(c) ==> positive_occupations(c@, e as int, t as int),
            (max_attempts == 0 || t < e) ==> r is Err,
            (max_attempts > 0 && e == 1 && t >= 1) ==> r is Ok,
    {
        try_w_weak_composition_rejection(self.layers, t, e, max_attempts, rng)
    }

    /// Work of one weak-composition rejection attempt: `M E + T`.
    pub fn rejection_cost_per_attempt(&self, t: OccNum, e: usize) -> (c: u64)
        requires
            self.layers * e + t <= u64::MAX,
        ensures
            c == self.layers * e + t,
    {
        proof {
            assert(self.layers * e >= 0) by (nonlinear_arith);
        }
        self.layers * e as OccNum + t
    }
}

/// `occ` is what the occupation stage of a network sampler gives for `E`
/// cells and total `T`: the balanced fill when nothing needs drawing
/// (`E <= 1` or `T = E`), otherwise a fixed-total Gibbs sample under
/// `config` ([`fixed_total_sample_of`]).
pub open spec fn occupation_stage_of<S: Fn(OccNum, u64) -> (OccNum, OccNum)>(
    split: S,
    e: nat,
    t: int,
    config: McmcConfig,
    occ: Seq<OccNum>,
) -> bool {
    if e <= 1 || t == e {
        occ == balanced_fill(e, t)
    } else {
        fixed_total_sample_of(split, e, t, config, occ)
    }
}

/// Run the full fixed-(E, T) pipeline: validate, choose the support
/// uniformly among the `l` admissible pairs (`get_pair` maps an index to its
/// pair), allocate positive occupations with the fixed-total pair-Gibbs
/// chain (configured by `config`, drawing splits with `split`), and pair
/// them up. `rng` drives the support only.
///
/// Fails exactly on infeasible residual problems. A returned network has
/// `E` pairs taken at distinct indices, and occupations that are positive,
/// within the family's cap, sum to `T`, and come from the occupation stage
/// ([`occupation_stage_of`]).
pub fn sample_fixed_et_core<G: Fn(usize) -> (u64, u64), S: Fn(OccNum, u64) -> (OccNum, OccNum)>(
    family: OccupationFamily,
    l: usize,
    e: usize,
    t: OccNum,
    config: &McmcConfig,
    rng: &mut StdRng,
    get_pair: G,
    split: &S,
) -> (r: Result<SampledNetwork, FixedETError>)
    requires
        forall|idx: usize| idx < l ==> #[trigger] get_pair.requires((idx,)),
        is_split_sampler(*split, family),
        (at_least_one(config.burn_in_sweeps as int) + at_least_one(config.sweeps_per_sample as int))
            * gibbs_sweep_len(*config, e as int) <= u64::MAX,
    ensures
        r is Err <==> et_residual_infeasible(family, l as int, e as int, t as int),
        r matches Ok(net) ==> {
            &&& net.sources@.len() == e
            &&& net.targets@.len() == e
            &&& net.occ_nums@.len() == e
            &&& seq_sum(net.occ_nums@) == t
            &&& occupations_ok(net.occ_nums@, family)
            &&& exists|ix: Seq<usize>|
                #[trigger] distinct_indices(ix, l as int, e as int) && forall|k: int|
                    0 <= k < e ==> get_pair.ensures((ix[k],), #[trigger] support_of(net)[k])
            &&& occupation_stage_of(*split, e as nat, t as int, *config, net.occ_nums@)
        },
{
    let pairs = sample_fixed_et_support(family, l, e, t, rng, get_pair)?;
    let occupations = match trivial_occupations(e, t) {
        Some(v) => v,
        None => {
            match sample_fixed_total(family, e, t, config, split) {
                Ok(v) => v,
                Err(_) => {
                    return Err(FixedETError::InvalidResidual("occupation allocation failed".to_owned()));
                },
            }
        },
    };
    proof {
        if e <= 1 || t == e {
            lemma_trivial_occupations(occupations@, e as int, t as int, family);
        }
    }
    let net = assemble_network(pairs.as_slice(), occupations.as_slice());
    proof {
        let ix = choose|ix: Seq<usize>|
            #[trigger] distinct_indices(ix, l as int, e as int) && forall|k: int|
                0 <= k < e ==> get_pair.ensures((ix[k],), #[trigger] pairs@[k]);
        assert(support_of(net) == pairs@);
        assert(forall|k: int|
            0 <= k < e ==> get_pair.ensures((ix[k],), #[trigger] support_of(net)[k]));
    }
    Ok(net)
}

/// `ix` is a witness that the network's pairs sit at distinct indices of
/// the row-major enumeration of admissible pairs on `n` nodes.
pub open spec fn indexed_pairs(net: SampledNetwork, ix: Seq<usize>, n: int, self_loops: bool) -> bool {
    forall|k: int|
        0 <= k < ix.len() ==> ((#[trigger] support_of(net)[k]).0 as int, support_of(net)[k].1 as int)
            == spec_linear_to_pair(ix[k] as int, n, self_loops)
}

/// Distinct indices below the number of admissible pairs map to distinct
/// admissible pairs.
proof fn lemma_indexed_pairs_admissible(net: SampledNetwork, ix: Seq<usize>, n: int, self_loops: bool, e: int)
    requires
        n > (if self_loops { 0int } else { 1int }),
        distinct_indices(ix, pair_space(n, self_loops), e),
        indexed_pairs(net, ix, n, self_loops),
        support_of(net).len() == e,
    ensures
        support_of(net).no_duplicates(),
        forall|k: int|
            0 <= k < e ==> admissible_pair(
                (#[trigger] support_of(net)[k]).0 as int,
                support_of(net)[k].1 as int,
                n,
                self_loops,
            ),
{
    let p = support_of(net);
    assert forall|k: int| 0 <= k < e implies admissible_pair(
        (#[trigger] p[k]).0 as int,
        p[k].1 as int,
        n,
        self_loops,
    ) by {
        assert(ix[k] < pair_space(n, self_loops));
        lemma_linear_to_pair_roundtrip(ix[k] as int, n, self_loops);
    }
    assert forall|a: int, b: int| 0 <= a < b < p.len() implies p[a] != p[b] by {
        assert(ix[a] != ix[b]);
        assert(ix[a] < pair_space(n, self_loops) && ix[b] < pair_space(n, self_loops));
        lemma_linear_to_pair_roundtrip(ix[a] as int, n, self_loops);
        lemma_linear_to_pair_roundtrip(ix[b] as int, n, self_loops);
    }
}

/// What the index-mapped fixed-(E, T) samplers return: an error exactly on
/// infeasible residual problems over the admissible pairs of `n` nodes;
/// otherwise `E` distinct admissible pairs with positive occupations, within
/// the family's cap, summing to `T`.
pub open spec fn indexed_outcome(
    r: Result<SampledNetwork, FixedETError>,
    family: OccupationFamily,
    n: int,
    self_loops: bool,
    e: int,
    t: int,
) -> bool {
    &&& r is Err <==> et_residual_infeasible(family, saturated_pair_space(n, self_loops), e, t)
    &&& r matches Ok(net) ==> {
        &&& net.sources@.len() == e
        &&& net.targets@.len() == e
        &&& net.occ_nums@.len() == e
        &&& seq_sum(net.occ_nums@) == t
        &&& occupations_ok(net.occ_nums@, family)
        &&& support_of(net).no_duplicates()
        &&& forall|k: int|
            0 <= k < e ==> admissible_pair(
                (#[trigger] support_of(net)[k]).0 as int,
                support_of(net)[k].1 as int,
                n,
                self_loops,
            )
    }
}

/// What the explicit-list fixed-(E, T) samplers return: an error exactly on
/// infeasible residual problems over the `L` listed pairs; otherwise `E`
/// pairs taken at distinct list positions, with positive occupations within
/// the family's cap summing to `T`.
pub open spec fn explicit_outcome(
    r: Result<SampledNetwork, FixedETError>,
    family: OccupationFamily,
    sources: Seq<u64>,
    targets: Seq<u64>,
    e: int,
    t: int,
) -> bool {
    &&& r is Err <==> et_residual_infeasible(family, sources.len() as int, e, t)
    &&& r matches Ok(net) ==> {
        &&& net.sources@.len() == e
        &&& net.targets@.len() == e
        &&& net.occ_nums@.len() == e
        &&& seq_sum(net.occ_nums@) == t
        &&& occupations_ok(net.occ_nums@, family)
        &&& exists|ix: Seq<usize>|
            #[trigger] distinct_indices(ix, sources.len() as int, e) && forall|k: int|
                0 <= k < e ==> #[trigger] support_of(net)[k] == (sources[ix[k] as int], targets[ix[k] as int])
    }
}

/// Shared body of the index-mapped fixed-(E, T) samplers.
fn sample_indexed<S: Fn(OccNum, u64) -> (OccNum, OccNum)>(
    family: OccupationFamily,
    node_count: usize,
    self_loops: bool,
    residual_edges: usize,
    residual_total: OccNum,
    seed: u64,
    split: &S,
) -> (r: Result<SampledNetwork, FixedETError>)
    requires
        is_split_sampler(*split, family),
        25 * residual_edges <= u64::MAX,
    ensures
        indexed_outcome(r, family, node_count as int, self_loops, residual_edges as int, residual_total as int),
{
    let l = total_admissible_pairs(node_count, self_loops);
    let mut rng = rng_from_seed(seed);
    let config = default_config(seed);
    let n = node_count;
    let sl = self_loops;
    let get_pair = |idx: usize| -> (p: (u64, u64))
        requires
            idx < l,
            l == saturated_pair_space(n as int, sl),
        ensures
            (p.0 as int, p.1 as int) == spec_linear_to_pair(idx as int, n as int, sl),
        {
            proof {
                assert(pair_space(n as int, sl) > 0);
                if sl {
                    assert(n > 0) by (nonlinear_arith)
                        requires
                            n * n > 0,
                            n >= 0,
                    ;
                } else {
                    assert(n > 1);
                }
            }
            let (i, j) = linear_to_pair(idx, n, sl);
            (i as u64, j as u64)
        };
    let r = sample_fixed_et_core(family, l, residual_edges, residual_total, &config, &mut rng, get_pair, split);
    proof {
        if r is Ok {
            let net = r->Ok_0;
            let ix = choose|ix: Seq<usize>|
                #[trigger] distinct_indices(ix, l as int, residual_edges as int) && forall|k: int|
                    0 <= k < residual_edges ==> get_pair.ensures((ix[k],), #[trigger] support_of(net)[k]);
            assert(indexed_pairs(net, ix, n as int, sl));
            if residual_edges > 0 {
                assert(ix[0] < l);
                assert(pair_space(n as int, sl) > 0);
                assert(n > (if sl { 0int } else { 1int })) by {
                    if sl {
                        assert(n > 0) by (nonlinear_arith)
                            requires
                                n * n > 0,
                                n >= 0,
                        ;
                    }
                }
                assert(distinct_indices(ix, pair_space(n as int, sl), residual_edges as int));
                lemma_indexed_pairs_admissible(net, ix, n as int, sl, residual_edges as int);
            } else {
                assert(support_of(net) =~= Seq::<(u64, u64)>::empty());
            }
        }
    }
    r
}

/// Shared body of the explicit-list fixed-(E, T) samplers.
fn sample_explicit<S: Fn(OccNum, u64) -> (OccNum, OccNum)>(
    family: OccupationFamily,
    admissible_sources: &[u64],
    admissible_targets: &[u64],
    residual_edges: usize,
    residual_total: OccNum,
    seed: u64,
    split: &S,
) -> (r: Result<SampledNetwork, FixedETError>)
    requires
        admissible_targets@.len() >= admissible_sources@.len(),
        is_split_sampler(*split, family),
        25 * residual_edges <= u64::MAX,
    ensures
        explicit_outcome(
            r,
            family,
            admissible_sources@,
            admissible_targets@,
            residual_edges as int,
            residual_total as int,
        ),
{
    let l = admissible_sources.len();
    let mut rng = rng_from_seed(seed);
    let config = default_config(seed);
    let get_pair = |idx: usize| -> (p: (u64, u64))
        requires
            idx < l,
            l == admissible_sources@.len(),
            admissible_targets@.len() >= admissible_sources@.len(),
        ensures
            p == (admissible_sources@[idx as int], admissible_targets@[idx as int]),
        { (admissible_sources[idx], admissible_targets[idx]) };
    let r = sample_fixed_et_core(family, l, residual_edges, residual_total, &config, &mut rng, get_pair, split);
    proof {
        if r is Ok {
            let net = r->Ok_0;
            let ix = choose|ix: Seq<usize>|
                #[trigger] distinct_indices(ix, l as int, residual_edges as int) && forall|k: int|
                    0 <= k < residual_edges ==> get_pair.ensures((ix[k],), #[trigger] support_of(net)[k]);
            assert forall|k: int| 0 <= k < residual_edges implies #[trigger] support_of(net)[k] == (
            admissible_sources@[ix[k] as int], admissible_targets@[ix[k] as int]) by {
                assert(get_pair.ensures((ix[k],), support_of(net)[k]));
            }
        }
    }
    r
}

/// ME fixed-(E, T) sampler over the admissible pairs of `node_count` nodes.
pub fn sample_me_fixed_et<S: Fn(OccNum, u64) -> (OccNum, OccNum)>(
    node_count: usize,
    self_loops: bool,
    residual_edges: usize,
    residual_total: OccNum,
    seed: u64,
    split: &S,
) -> (r: Result<SampledNetwork, FixedETError>)
    requires
        is_split_sampler(*split, OccupationFamily::ME),
        25 * residual_edges <= u64::MAX,
    ensures
        indexed_outcome(
            r,
            OccupationFamily::ME,
            node_count as int,
            self_loops,
            residual_edges as int,
            residual_total as int,
        ),
{
    sample_indexed(OccupationFamily::ME, node_count, self_loops, residual_edges, residual_total, seed, split)
}

/// ME fixed-(E, T) sampler over explicit admissible-pair arrays.
pub fn sample_me_fixed_et_explicit<S: Fn(OccNum, u64) -> (OccNum, OccNum)>(
    admissible_sources: &[u64],
    admissible_targets: &[u64],
    residual_edges: usize,
    residual_total: OccNum,
    seed: u64,
    split: &S,
) -> (r: Result<SampledNetwork, FixedETError>)
    requires
        admissible_targets@.len() >= admissible_sources@.len(),
        is_split_sampler(*split, OccupationFamily::ME),
        25 * residual_edges <= u64::MAX,
    ensures
        explicit_outcome(
            r,
            OccupationFamily::ME,
            admissible_sources@,
            admissible_targets@,
            residual_edges as int,
            residual_total as int,
        ),
{
    sample_explicit(
        OccupationFamily::ME,
        admissible_sources,
        admissible_targets,
        residual_edges,
        residual_total,
        seed,
        split,
    )
}

/// B fixed-(E, T) sampler with `layers` layers (read as a `u32`) over the
/// admissible pairs of `node_count` nodes.
pub fn sample_b_fixed_et<S: Fn(OccNum, u64) -> (OccNum, OccNum)>(
    node_count: usize,
    self_loops: bool,
    layers: OccNum,
    residual_edges: usize,
    residual_total: OccNum,
    seed: u64,
    split: &S,
) -> (r: Result<SampledNetwork, FixedETError>)
    requires
        is_split_sampler(*split, OccupationFamily::B { layers: layers as u32 }),
        25 * residual_edges <= u64::MAX,
    ensures
        indexed_outcome(
            r,
            OccupationFamily::B { layers: layers as u32 },
            node_count as int,
            self_loops,
            residual_edges as int,
            residual_total as int,
        ),
{
    sample_indexed(
        OccupationFamily::B { layers: layers as u32 },
        node_count,
        self_loops,
        residual_edges,
        residual_total,
        seed,
        split,
    )
}

/// B fixed-(E, T) sampler with `layers` layers (read as a `u32`) over
/// explicit admissible-pair arrays.
pub fn sample_b_fixed_et_explicit<S: Fn(OccNum, u64) -> (OccNum, OccNum)>(
    admissible_sources: &[u64],
    admissible_targets: &[u64],
    layers: OccNum,
    residual_edges: usize,
    residual_total: OccNum,
    seed: u64,
    split: &S,
) -> (r: Result<SampledNetwork, FixedETError>)
    requires
        admissible_targets@.len() >= admissible_sources@.len(),
        is_split_sampler(*split, OccupationFamily::B { layers: layers as u32 }),
        25 * residual_edges <= u64::MAX,
    ensures
        explicit_outcome(
            r,
            OccupationFamily::B { layers: layers as u32 },
            admissible_sources@,
            admissible_targets@,
            residual_edges as int,
            residual_total as int,
        ),
{
    sample_explicit(
        OccupationFamily::B { layers: layers as u32 },
        admissible_sources,
        admissible_targets,
        residual_edges,
        residual_total,
        seed,
        split,
    )
}

/// W fixed-(E, T) sampler with `layers` layers (read as a `u32`) over the
/// admissible pairs of `node_count` nodes.
pub fn sample_w_fixed_et<S: Fn(OccNum, u64) -> (OccNum, OccNum)>(
    node_count: usize,
    self_loops: bool,
    layers: OccNum,
    residual_edges: usize,
    residual_total: OccNum,
    seed: u64,
    split: &S,
) -> (r: Result<SampledNetwork, FixedETError>)
    requires
        is_split_sampler(*split, OccupationFamily::W { layers: layers as u32 }),
        25 * residual_edges <= u64::MAX,
    ensures
        indexed_outcome(
            r,
            OccupationFamily::W { layers: layers as u32 },
            node_count as int,
            self_loops,
            residual_edges as int,
            residual_total as int,
        ),
{
    sample_indexed(
        OccupationFamily::W { layers: layers as u32 },
        node_count,
        self_loops,
        residual_edges,
        residual_total,
        seed,
        split,
    )
}

/// W fixed-(E, T) sampler with `layers` layers (read as a `u32`) over
/// explicit admissible-pair arrays.
pub fn sample_w_fixed_et_explicit<S: Fn(OccNum, u64) -> (OccNum, OccNum)>(
    admissible_sources: &[u64],
    admissible_targets: &[u64],
    layers: OccNum,
    residual_edges: usize,
    residual_total: OccNum,
    seed: u64,
    split: &S,
) -> (r: Result<SampledNetwork, FixedETError>)
    requires
        admissible_targets@.len() >= admissible_sources@.len(),
        is_split_sampler(*split, OccupationFamily::W { layers: layers as u32 }),
        25 * residual_edges <= u64::MAX,
    ensures
        explicit_outcome(
            r,
            OccupationFamily::W { layers: layers as u32 },
            admissible_sources@,
            admissible_targets@,
            residual_edges as int,
            residual_total as int,
        ),
{
    sample_explicit(
        OccupationFamily::W { layers: layers as u32 },
        admissible_sources,
        admissible_targets,
        residual_edges,
        residual_total,
        seed,
        split,
    )
}

} // verus!
