//! Fixed-(k, T) microcanonical ingredients for directed graphs: errors,
//! configuration, degree-sequence validation and heterogeneity diagnostics.
use vstd::prelude::*;


use crate::degree_state::{degree_realizable, in_count, out_count, realizes};
use crate::mcmc::McmcCounters;
use crate::seqs::{lemma_seq_sum_u32_zero, seq_sum_u32, sum_u32};
use crate::support::{
    admits_fn, all_zero_degrees, greedy_directed_initialize, greedy_pass_ok, FixedDegreeMcmcConfig,
};
use crate::text::{concat_str, num_msg, push_num};


verus! {

/// Errors that can occur during fixed-(k, T) sampling.
#[derive(Clone, Debug, PartialEq, Eq)]
pub enum FixedKTError {
    /// The residual problem is infeasible.
    InvalidResidual(String),
    /// Not enough edges to perform a switch.
    TooFewEdges,
    /// No feasible support could be constructed.
    InitializationFailed(String),
    /// Occupation allocation failed.
    OccupationError(String),
    /// Configuration error.
    ConfigError(String),
}

impl FixedKTError {
    /// Human-readable description of the error.
    pub fn to_string(&self) -> (s: String)
        ensures
            s@ == (match self {
                FixedKTError::InvalidResidual(m) => "invalid residual problem: "@ + m@,
                FixedKTError::TooFewEdges => "need at least 2 edges for a switch"@,
                FixedKTError::InitializationFailed(m) => "support initialization failed: "@ + m@,
                FixedKTError::OccupationError(m) => "occupation allocation failed: "@ + m@,
                FixedKTError::ConfigError(m) => "configuration error: "@ + m@,
            }),
    {
        match self {
            FixedKTError::InvalidResidual(m) => concat_str("invalid residual problem: ", m.as_str()),
            FixedKTError::TooFewEdges => "need at least 2 edges for a switch".to_owned(),
            FixedKTError::InitializationFailed(m) => concat_str("support initialization failed: ", m.as_str()),
            FixedKTError::OccupationError(m) => concat_str("occupation allocation failed: ", m.as_str()),
            FixedKTError::ConfigError(m) => concat_str("configuration error: ", m.as_str()),
        }
    }
}

/// Representation mode: direct, or complement of the support.
#[derive(Clone, Copy, Debug, PartialEq, Eq, Structural)]
pub enum RepresentationMode {
    Direct,
    Complement,
}

/// Heterogeneity classification of a degree-sequence pair.
#[derive(Clone, Copy, Debug, PartialEq, Eq, Structural)]
pub enum DegreeHeterogeneity {
    Light,
    Heterogeneous,
    HubDominated,
}

/// The initialization method used for the support.
#[derive(Clone, Copy, Debug, PartialEq, Eq, Structural)]
pub enum InitializationMethod {
    GreedyDirected,
}

/// Diagnostics collected during support MCMC.
#[derive(Clone, Debug)]
pub struct FixedDegreeDiagnostics {
    /// Generic MCMC counters (proposals, accepted, held, rejected).
    pub mcmc: McmcCounters,
    pub representation: RepresentationMode,
    pub heterogeneity: DegreeHeterogeneity,
    pub self_loop_holds: u64,
    pub duplicate_holds: u64,
    pub no_op_holds: u64,
}

impl FixedDegreeDiagnostics {
    /// Zeroed counters, direct representation, light heterogeneity.
    pub fn new() -> (d: Self)
        ensures
            d.mcmc.is_zero(),
            d.representation == RepresentationMode::Direct,
            d.heterogeneity == DegreeHeterogeneity::Light,
            d.self_loop_holds == 0,
            d.duplicate_holds == 0,
            d.no_op_holds == 0,
    {
        FixedDegreeDiagnostics {
            mcmc: McmcCounters::new(),
            representation: RepresentationMode::Direct,
            heterogeneity: DegreeHeterogeneity::Light,
            self_loop_holds: 0,
            duplicate_holds: 0,
            no_op_holds: 0,
        }
    }
}

impl Default for FixedDegreeDiagnostics {
    /// Same as [`FixedDegreeDiagnostics::new`].
    fn default() -> (d: Self)
        ensures
            d.mcmc.is_zero(),
            d.representation == RepresentationMode::Direct,
            d.heterogeneity == DegreeHeterogeneity::Light,
            d.self_loop_holds == 0,
            d.duplicate_holds == 0,
            d.no_op_holds == 0,
    {
        FixedDegreeDiagnostics::new()
    }
}

/// Largest element of a sequence (0 for the empty sequence).
pub open spec fn seq_max_u32(s: Seq<u32>) -> u32
    decreases s.len(),
{
    if s.len() == 0 {
        0
    } else {
        let m = seq_max_u32(s.drop_last());
        if s.last() > m {
            s.last()
        } else {
            m
        }
    }
}

/// Largest element of a slice (0 when empty).
pub fn max_u32(s: &[u32]) -> (m: u32)
    ensures
        m == seq_max_u32(s@),
{
    let mut m: u32 = 0;
    let mut i: usize = 0;
    while i < s.len()
        invariant
            i <= s.len(),
            m == seq_max_u32(s@.take(i as int)),
        decreases s.len() - i,
    {
        assert(s@.take(i + 1).drop_last() =~= s@.take(i as int));
        if s[i] > m {
            m = s[i];
        }
        i = i + 1;
    }
    assert(s@.take(i as int) =~= s@);
    m
}

/// Heterogeneity class from the out-degree total and the largest degree.
///
/// With `E = total / 2` and `rho = max^2 / (2E) = max^2 / total`: light when
/// `rho < 0.1`, heterogeneous when `rho < 1`, hub-dominated otherwise; an
/// empty graph is light.
pub open spec fn heterogeneity_class(total: int, max_degree: int) -> DegreeHeterogeneity {
    if total <= 0 {
        DegreeHeterogeneity::Light
    } else if 10 * (max_degree * max_degree) < total {
        DegreeHeterogeneity::Light
    } else if max_degree * max_degree < total {
        DegreeHeterogeneity::Heterogeneous
    } else {
        DegreeHeterogeneity::HubDominated
    }
}

/// The thresholds of the heterogeneity classes, with `rho = max^2 / total`
/// for a positive total: hub-dominated exactly when `rho >= 1`, light
/// exactly when `rho < 1/10`, heterogeneous in between; an empty total is
/// light.
pub proof fn lemma_heterogeneity_thresholds(total: int, max_degree: int)
    ensures
        total <= 0 ==> heterogeneity_class(total, max_degree) == DegreeHeterogeneity::Light,
        total > 0 ==> (heterogeneity_class(total, max_degree) == DegreeHeterogeneity::HubDominated
            <==> max_degree * max_degree >= total),
        total > 0 ==> (heterogeneity_class(total, max_degree) == DegreeHeterogeneity::Light
            <==> 10 * (max_degree * max_degree) < total),
        total > 0 ==> (heterogeneity_class(total, max_degree) == DegreeHeterogeneity::Heterogeneous
            <==> (total <= 10 * (max_degree * max_degree) && max_degree * max_degree < total)),
{
    assert(max_degree * max_degree >= 0) by (nonlinear_arith);
}

/// Raising the largest degree never lowers the class: light, then
/// heterogeneous, then hub-dominated.
pub proof fn lemma_heterogeneity_monotone(total: int, m1: int, m2: int)
    requires
        0 <= m1 <= m2,
    ensures
        heterogeneity_class(total, m2) == DegreeHeterogeneity::Light ==> heterogeneity_class(
            total,
            m1,
        ) == DegreeHeterogeneity::Light,
        heterogeneity_class(total, m1) == DegreeHeterogeneity::HubDominated ==> heterogeneity_class(
            total,
            m2,
        ) == DegreeHeterogeneity::HubDominated,
{
    assert(m1 * m1 <= m2 * m2) by (nonlinear_arith)
        requires
            0 <= m1 <= m2,
    ;
}

/// Classify degree-sequence heterogeneity (exact rational thresholds).
pub fn classify_heterogeneity(out_degrees: &[u32], in_degrees: &[u32]) -> (h: DegreeHeterogeneity)
    ensures
        h == heterogeneity_class(
            seq_sum_u32(out_degrees@),
            if seq_max_u32(out_degrees@) >= seq_max_u32(in_degrees@) {
                seq_max_u32(out_degrees@) as int
            } else {
                seq_max_u32(in_degrees@) as int
            },
        ),
{
    let mut total: u128 = 0;
    let mut i: usize = 0;
    while i < out_degrees.len()
        invariant
            i <= out_degrees.len(),
            total == seq_sum_u32(out_degrees@.take(i as int)),
            total <= i * 0x1_0000_0000,
        decreases out_degrees.len() - i,
    {
        assert(out_degrees@.take(i + 1).drop_last() =~= out_degrees@.take(i as int));
        assert(i < usize::MAX);
        total = total + out_degrees[i] as u128;
        i = i + 1;
    }
    assert(out_degrees@.take(i as int) =~= out_degrees@);
    if total == 0 {
        return DegreeHeterogeneity::Light;
    }
    let max_out = max_u32(out_degrees);
    let max_in = max_u32(in_degrees);
    let m: u128 = if max_out >= max_in {
        max_out as u128
    } else {
        max_in as u128
    };
    assert(m * m <= 0xffff_ffff * 0xffff_ffff) by (nonlinear_arith)
        requires
            m <= 0xffff_ffff,
    ;
    let sq = m * m;
    if 10 * sq < total {
        DegreeHeterogeneity::Light
    } else if sq < total {
        DegreeHeterogeneity::Heterogeneous
    } else {
        DegreeHeterogeneity::HubDominated
    }
}

/// Largest admissible degree: `N` with self-loops, `N - 1` without
/// (`N` taken as `u32`).
pub open spec fn max_allowed_degree(n: nat, self_loops: bool) -> int {
    if self_loops {
        (n as u32) as int
    } else {
        (n as u32) - 1
    }
}

/// Complement degrees `max_allowed - d`, clamped at zero.
pub open spec fn complement_degrees(d: Seq<u32>, max_allowed: int) -> Seq<u32> {
    Seq::new(
        d.len(),
        |i: int|
            if d[i] >= max_allowed {
                0u32
            } else {
                (max_allowed - d[i]) as u32
            },
    )
}

/// Complementing twice gives back any degree sequence within the bound.
pub proof fn lemma_complement_involution(d: Seq<u32>, max_allowed: int)
    requires
        0 <= max_allowed <= u32::MAX,
        all_at_most(d, max_allowed),
    ensures
        complement_degrees(complement_degrees(d, max_allowed), max_allowed) == d,
{
    let c = complement_degrees(d, max_allowed);
    assert forall|i: int| 0 <= i < d.len() implies #[trigger] complement_degrees(c, max_allowed)[i]
        == d[i] by {
        assert(d[i] <= max_allowed);
    }
    assert(complement_degrees(c, max_allowed) =~= d);
}

/// Choosing the representation is idempotent: the sequence that
/// [`maybe_complement`] works on is never complemented again, since
/// complementing it back restores the larger original.
pub proof fn lemma_maybe_complement_idempotent(d: Seq<u32>, max_allowed: int)
    requires
        0 <= max_allowed <= u32::MAX,
        all_at_most(d, max_allowed),
    ensures
        ({
            let c = complement_degrees(d, max_allowed);
            let work = if seq_sum_u32(c) < seq_sum_u32(d) {
                c
            } else {
                d
            };
            !(seq_sum_u32(complement_degrees(work, max_allowed)) < seq_sum_u32(work))
        }),
{
    let c = complement_degrees(d, max_allowed);
    if seq_sum_u32(c) < seq_sum_u32(d) {
        lemma_complement_involution(d, max_allowed);
    }
}

/// The sum of a sequence whose entries are at most `b` is at most `len * b`.
proof fn lemma_sum_bounded(s: Seq<u32>, b: int)
    requires
        forall|i: int| 0 <= i < s.len() ==> #[trigger] s[i] <= b,
        b >= 0,
    ensures
        seq_sum_u32(s) <= s.len() * b,
    decreases s.len(),
{
    if s.len() > 0 {
        lemma_sum_bounded(s.drop_last(), b);
        assert((s.len() - 1) * b + b == s.len() * b) by (nonlinear_arith);
    }
}

/// Elementwise `max_allowed - d` clamped at zero.
fn complement_vec(d: &[u32], max_allowed: u32) -> (c: Vec<u32>)
    ensures
        c@ == complement_degrees(d@, max_allowed as int),
{
    let mut c: Vec<u32> = Vec::new();
    let mut i: usize = 0;
    while i < d.len()
        invariant
            i <= d.len(),
            c@ == complement_degrees(d@, max_allowed as int).take(i as int),
        decreases d.len() - i,
    {
        c.push(max_allowed.saturating_sub(d[i]));
        i = i + 1;
        assert(c@ =~= complement_degrees(d@, max_allowed as int).take(i as int));
    }
    assert(complement_degrees(d@, max_allowed as int).take(i as int) =~= complement_degrees(
        d@,
        max_allowed as int,
    ));
    c
}

/// Use the complement of the degree sequence if it has fewer edges.
///
/// Returns the working out/in degrees, the representation chosen and the
/// working edge count. The complement is chosen exactly when its edge
/// count is strictly smaller.
pub fn maybe_complement(out_degrees: &[u32], in_degrees: &[u32], self_loops: bool) -> (r: (
    Vec<u32>,
    Vec<u32>,
    RepresentationMode,
    usize,
))
    requires
        self_loops || (out_degrees@.len() as u32) >= 1,
        seq_sum_u32(out_degrees@) <= usize::MAX,
        out_degrees@.len() * max_allowed_degree(out_degrees@.len(), self_loops) <= usize::MAX,
    ensures
        ({
            let max_allowed = max_allowed_degree(out_degrees@.len(), self_loops);
            let comp_out = complement_degrees(out_degrees@, max_allowed);
            let comp_e = seq_sum_u32(comp_out);
            let direct_e = seq_sum_u32(out_degrees@);
            if comp_e < direct_e {
                r.0@ == comp_out && r.1@ == complement_degrees(in_degrees@, max_allowed) && r.2
                    == RepresentationMode::Complement && r.3 == comp_e
            } else {
                r.0@ == out_degrees@ && r.1@ == in_degrees@ && r.2 == RepresentationMode::Direct
                    && r.3 == direct_e
            }
        }),
{
    let n = out_degrees.len() as u32;
    let max_allowed = if self_loops {
        n
    } else {
        n - 1
    };
    let direct_e = sum_u32(out_degrees) as usize;
    let comp_out = complement_vec(out_degrees, max_allowed);
    let comp_in = complement_vec(in_degrees, max_allowed);
    proof {
        lemma_sum_bounded(comp_out@, max_allowed as int);
    }
    let comp_e = sum_u32(comp_out.as_slice()) as usize;
    if comp_e < direct_e {
        (comp_out, comp_in, RepresentationMode::Complement, comp_e)
    } else {
        (
            crate::seqs::copy_slice(out_degrees),
            crate::seqs::copy_slice(in_degrees),
            RepresentationMode::Direct,
            direct_e,
        )
    }
}

/// A validated directed degree-sequence pair.
#[derive(Clone, Debug)]
pub struct DirectedDegreeSequence {
    pub out_degrees: Vec<u32>,
    pub in_degrees: Vec<u32>,
    pub edge_count: usize,
    pub max_out_degree: u32,
    pub max_in_degree: u32,
}

/// Every degree is at most `bound`.
pub open spec fn all_at_most(d: Seq<u32>, bound: int) -> bool {
    forall|i: int| 0 <= i < d.len() ==> #[trigger] d[i] <= bound
}

/// The degree pair fails the basic checks: lengths differ, no nodes,
/// unequal totals, or a degree above the largest admissible degree.
pub open spec fn degree_pair_invalid(out_degrees: Seq<u32>, in_degrees: Seq<u32>, self_loops: bool) -> bool {
    ||| out_degrees.len() != in_degrees.len()
    ||| out_degrees.len() == 0
    ||| seq_sum_u32(out_degrees) != seq_sum_u32(in_degrees)
    ||| !all_at_most(out_degrees, max_allowed_degree(out_degrees.len(), self_loops))
    ||| !all_at_most(in_degrees, max_allowed_degree(out_degrees.len(), self_loops))
}

/// First index in `[0, d.len())` whose degree exceeds `bound`, if any.
fn first_above(d: &Vec<u32>, bound: u32) -> (r: Option<usize>)
    ensures
        r is None <==> all_at_most(d@, bound as int),
        r matches Some(i) ==> i < d@.len() && d@[i as int] > bound,
{
    let mut i: usize = 0;
    while i < d.len()
        invariant
            i <= d@.len(),
            forall|k: int| 0 <= k < i ==> d@[k] <= bound,
        decreases d@.len() - i,
    {
        if d[i] > bound {
            return Some(i);
        }
        i = i + 1;
    }
    None
}

impl DirectedDegreeSequence {
    /// Validate a pair of out/in degree vectors.
    ///
    /// Fails when the lengths differ, the sequence is empty, the totals
    /// differ, or a degree exceeds the largest admissible degree (`N` with
    /// self-loops, `N - 1` without). Otherwise it succeeds exactly when the
    /// greedy constructor builds a realizing support, so success implies
    /// the pair is graphical.
    pub fn new(out_degrees: Vec<u32>, in_degrees: Vec<u32>, self_loops: bool) -> (r: Result<
        Self,
        FixedKTError,
    >)
        requires
            out_degrees@.len() > 0 ==> (self_loops || (out_degrees@.len() as u32) >= 1),
            out_degrees@.len() == in_degrees@.len() ==> seq_sum_u32(out_degrees@) < usize::MAX
                && seq_sum_u32(in_degrees@) <= u64::MAX,
        ensures
            degree_pair_invalid(out_degrees@, in_degrees@, self_loops) ==> r is Err,
            !degree_pair_invalid(out_degrees@, in_degrees@, self_loops) && all_zero_degrees(
                out_degrees@,
                in_degrees@,
            ) ==> r is Ok,
            !degree_pair_invalid(out_degrees@, in_degrees@, self_loops) && greedy_pass_ok(
                out_degrees@,
                in_degrees@,
                self_loops,
                admits_fn(None),
            ) ==> r is Ok,
            r matches Err(e) ==> e is InvalidResidual,
            r matches Ok(seq) ==> {
                &&& seq.out_degrees@ == out_degrees@
                &&& seq.in_degrees@ == in_degrees@
                &&& out_degrees@.len() == in_degrees@.len()
                &&& out_degrees@.len() > 0
                &&& seq.edge_count == seq_sum_u32(out_degrees@)
                &&& seq_sum_u32(out_degrees@) == seq_sum_u32(in_degrees@)
                &&& all_at_most(out_degrees@, max_allowed_degree(out_degrees@.len(), self_loops))
                &&& all_at_most(in_degrees@, max_allowed_degree(out_degrees@.len(), self_loops))
                &&& seq.max_out_degree == seq_max_u32(out_degrees@)
                &&& seq.max_in_degree == seq_max_u32(in_degrees@)
                &&& degree_realizable(out_degrees@, in_degrees@, self_loops)
            },
    {
        let n = out_degrees.len();
        if in_degrees.len() != n {
            let mut m = num_msg("out_degrees length (", n as u64, ") != in_degrees length (");
            push_num(&mut m, in_degrees.len() as u64, ")");
            return Err(FixedKTError::InvalidResidual(m));
        }
        if n == 0 {
            return Err(FixedKTError::InvalidResidual("empty degree sequence".to_owned()));
        }
        let nn = n as u32;
        let max_allowed = if self_loops {
            nn
        } else {
            nn - 1
        };
        proof {
            lemma_seq_sum_u32_zero(out_degrees@);
        }
        let sum_out = sum_u32(out_degrees.as_slice());
        let sum_in = sum_u32(in_degrees.as_slice());
        if sum_out != sum_in {
            let mut m = num_msg("out-degree sum (", sum_out, ") != in-degree sum (");
            push_num(&mut m, sum_in, ")");
            return Err(FixedKTError::InvalidResidual(m));
        }
        let edge_count = sum_out as usize;
        let max_out = max_u32(out_degrees.as_slice());
        let max_in = max_u32(in_degrees.as_slice());
        if let Some(i) = first_above(&out_degrees, max_allowed) {
            let mut m = num_msg("out_degree[", i as u64, "] = ");
            push_num(&mut m, out_degrees[i] as u64, " exceeds max allowed ");
            push_num(&mut m, max_allowed as u64, "");
            return Err(FixedKTError::InvalidResidual(m));
        }
        if let Some(i) = first_above(&in_degrees, max_allowed) {
            let mut m = num_msg("in_degree[", i as u64, "] = ");
            push_num(&mut m, in_degrees[i] as u64, " exceeds max allowed ");
            push_num(&mut m, max_allowed as u64, "");
            return Err(FixedKTError::InvalidResidual(m));
        }
        if edge_count == 0 {
            proof {
                lemma_seq_sum_u32_zero(out_degrees@);
                lemma_seq_sum_u32_zero(in_degrees@);
                let empty = Seq::<(u64, u64)>::empty();
                assert forall|v: int| 0 <= v < n implies #[trigger] out_count(empty, v)
                    == out_degrees@[v] && in_count(empty, v) == in_degrees@[v] by {
                    assert(out_degrees@[v] == 0);
                    assert(in_degrees@[v] == 0);
                }
                assert(realizes(empty, out_degrees@, in_degrees@, self_loops));
                lemma_zero_max(out_degrees@);
                lemma_zero_max(in_degrees@);
            }
            return Ok(DirectedDegreeSequence {
                out_degrees,
                in_degrees,
                edge_count: 0,
                max_out_degree: 0,
                max_in_degree: 0,
            });
        }
        if let Err(msg) = check_directed_graphicality(out_degrees.as_slice(), in_degrees.as_slice(), self_loops) {
            return Err(FixedKTError::InvalidResidual(msg));
        }
        Ok(DirectedDegreeSequence {
            out_degrees,
            in_degrees,
            edge_count,
            max_out_degree: max_out,
            max_in_degree: max_in,
        })
    }

    /// Number of nodes.
    pub fn node_count(&self) -> (n: usize)
        ensures
            n == self.out_degrees@.len(),
    {
        self.out_degrees.len()
    }
}

/// Constructive graphicality check: the pair is declared graphical when
/// the greedy constructor (with its randomized retries) builds a support
/// that realizes it. A failure does not prove the pair non-graphical; the
/// pair is declared graphical whenever the deterministic greedy pass
/// succeeds ([`greedy_pass_ok`]), in particular for the all-zero pair.
pub fn check_directed_graphicality(out_degrees: &[u32], in_degrees: &[u32], self_loops: bool) -> (r:
    Result<(), String>)
    requires
        out_degrees@.len() == in_degrees@.len(),
        seq_sum_u32(out_degrees@) < usize::MAX,
    ensures
        r is Ok ==> degree_realizable(out_degrees@, in_degrees@, self_loops),
        all_zero_degrees(out_degrees@, in_degrees@) ==> r is Ok,
        greedy_pass_ok(out_degrees@, in_degrees@, self_loops, admits_fn(None)) ==> r is Ok,
{
    match greedy_directed_initialize(out_degrees, in_degrees, self_loops, None) {
        Ok(state) => {
            proof {
                assert(realizes(state.edges@, out_degrees@, in_degrees@, self_loops));
            }
            Ok(())
        },
        Err(_) => Err("graphicality check failed".to_owned()),
    }
}

/// The maximum of an all-zero sequence is zero.
proof fn lemma_zero_max(s: Seq<u32>)
    requires
        forall|i: int| 0 <= i < s.len() ==> s[i] == 0,
    ensures
        seq_max_u32(s) == 0,
    decreases s.len(),
{
    if s.len() > 0 {
        lemma_zero_max(s.drop_last());
    }
}

/// Configuration for fixed-(k, T) sampling.
#[derive(Clone, Debug)]
pub struct FixedKTConfig {
    pub mcmc: FixedDegreeMcmcConfig,
    pub self_loops: bool,
    /// Optional admissible-pair list restricting the support (masked
    /// problems after fixed-pair residualization).
    pub admissible_pairs: Option<Vec<(u64, u64)>>,
}

impl FixedKTConfig {
    /// Configuration with the given MCMC settings and self-loop policy and no
    /// admissible-pair restriction.
    pub fn new(mcmc: FixedDegreeMcmcConfig, self_loops: bool) -> (c: Self)
        ensures
            c.mcmc == mcmc,
            c.self_loops == self_loops,
            c.admissible_pairs.is_none(),
    {
        FixedKTConfig { mcmc, self_loops, admissible_pairs: None }
    }
}

impl Default for FixedKTConfig {
    /// Default MCMC settings, no self-loops, no restriction.
    fn default() -> (c: Self)
        ensures
            c.mcmc.burn_in_sweeps == 50,
            c.mcmc.sweeps_per_sample == 10,
            c.mcmc.seed == 0,
            c.mcmc.proposals_per_sweep.is_none(),
            !c.mcmc.self_loops,
            !c.self_loops,
            c.admissible_pairs.is_none(),
    {
        FixedKTConfig { mcmc: FixedDegreeMcmcConfig::default(), self_loops: false, admissible_pairs: None }
    }
}

} // verus!
