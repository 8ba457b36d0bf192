//! The support stage of fixed-(k, T) sampling: validate the degree pair and
//! the residual total, then sample a directed support by switch MCMC.
//!
//! Occupations are then allocated by the fixed-total pair-Gibbs chain and
//! paired with the support by [`crate::output::assemble_network`].
use vstd::prelude::*;

use crate::degree_state::{degree_realizable, in_count, lemma_realized_edge_count, out_count, realizes};
use crate::fixed_kt::{
    degree_pair_invalid, max_allowed_degree, DirectedDegreeSequence, FixedKTConfig, FixedKTError,
};
use crate::mcmc::McmcConfig;
use crate::model::family::OccupationFamily;
use crate::seqs::{copy_slice, lemma_seq_sum_u32_zero, seq_sum_u32};
use crate::support::{
    admits, admits_fn, all_admitted, all_zero_degrees, at_least_one, degree_support_sample_of,
    greedy_pass_ok, sample_fixed_degree_support, support_work_pair, uses_complement,
};
use crate::fixed_et::{lemma_trivial_occupations, occupation_stage_of, trivial_occupations};
use crate::fixed_total::{gibbs_sweep_len, is_split_sampler, occupations_ok, sample_fixed_total};
use crate::output::{assemble_network, support_of, SampledNetwork};
use crate::seqs::seq_sum;
use crate::text::{num_msg, push_num};
use crate::OccNum;

verus! {

/// The residual total cannot be spread over `E` edges: a positive total
/// with no edges, fewer events than edges, or (for B) more than `M * E`.
pub open spec fn kt_residual_infeasible(family: OccupationFamily, e: int, total: int) -> bool {
    ||| e == 0 && total != 0
    ||| e > 0 && total < e
    ||| e > 0 && (family.spec_max_occupation() matches Some(m) && total > m * e)
}

/// Admissibility by an optional owned pair list, as a predicate.
pub open spec fn admits_vec_fn(ap: Option<Vec<(u64, u64)>>) -> spec_fn(u64, u64) -> bool {
    |s: u64, t: u64|
        match ap {
            None => true,
            Some(v) => v@.contains((s, t)),
        }
}

/// Inputs on which the fixed-(k, T) support stage owes a result: the
/// degree pair and the total are valid, and the deterministic greedy pass
/// succeeds both for the graphicality check and for the pair the support
/// sampler builds (under the configured admissible pairs).
pub open spec fn kt_support_owed(
    family: OccupationFamily,
    out_degrees: Seq<u32>,
    in_degrees: Seq<u32>,
    total: int,
    config: FixedKTConfig,
) -> bool {
    let work = support_work_pair(out_degrees, in_degrees, config.self_loops);
    &&& !degree_pair_invalid(out_degrees, in_degrees, config.self_loops)
    &&& !kt_residual_infeasible(family, seq_sum_u32(out_degrees), total)
    &&& greedy_pass_ok(out_degrees, in_degrees, config.self_loops, admits_fn(None))
    &&& greedy_pass_ok(work.0, work.1, config.self_loops, admits_vec_fn(config.admissible_pairs))
}

/// The Gibbs occupation configuration derived from the support MCMC
/// configuration (spec form of [`gibbs_config`]).
pub open spec fn gibbs_config_of(config: FixedKTConfig) -> McmcConfig {
    McmcConfig {
        burn_in_sweeps: config.mcmc.burn_in_sweeps,
        sweeps_per_sample: config.mcmc.sweeps_per_sample,
        proposals_per_sweep: config.mcmc.proposals_per_sweep,
        seed: config.mcmc.seed,
    }
}

/// The Gibbs occupation configuration derived from the support MCMC
/// configuration.
pub fn gibbs_config(config: &FixedKTConfig) -> (c: McmcConfig)
    ensures
        c == gibbs_config_of(*config),
{
    McmcConfig {
        burn_in_sweeps: config.mcmc.burn_in_sweeps,
        sweeps_per_sample: config.mcmc.sweeps_per_sample,
        proposals_per_sweep: config.mcmc.proposals_per_sweep,
        seed: config.mcmc.seed,
    }
}

/// An optional borrowed pair list that lists the same pairs as the owned
/// one.
pub open spec fn same_pair_list(a: Option<&[(u64, u64)]>, b: Option<Vec<(u64, u64)>>) -> bool {
    match (a, b) {
        (None, None) => true,
        (Some(x), Some(y)) => x@ == y@,
        _ => false,
    }
}

/// `v` is a support the fixed-(k, T) support stage can return: a support
/// sample for the degrees under the configured switch chain and admissible
/// pairs ([`degree_support_sample_of`]), with some number of accepted
/// switches.
pub open spec fn kt_support_sample_of(
    out_degrees: Seq<u32>,
    in_degrees: Seq<u32>,
    config: FixedKTConfig,
    v: Seq<(u64, u64)>,
) -> bool {
    exists|ap: Option<&[(u64, u64)]>, accepted: int|
        same_pair_list(ap, config.admissible_pairs) && #[trigger] degree_support_sample_of(
            out_degrees,
            in_degrees,
            config.self_loops,
            config.mcmc,
            ap,
            v,
            accepted,
        )
}

/// Validate `(k_out, k_in, T)` for the family and sample the directed
/// support of a fixed-(k, T) network.
///
/// Fails with `InvalidResidual` when the degree pair fails the basic checks
/// or the greedy graphicality check, or when `T` cannot be spread over the
/// `E = sum k_out` edges; fails with `InitializationFailed` when no support
/// could be built. A returned support realizes the degrees exactly; in
/// direct representation it uses only the configured admissible pairs; for
/// a positive edge count it is a switch-chain sample
/// ([`kt_support_sample_of`]).
pub fn sample_fixed_kt_support(
    family: OccupationFamily,
    out_degrees: &[u32],
    in_degrees: &[u32],
    total: OccNum,
    config: &FixedKTConfig,
) -> (r: Result<Vec<(u64, u64)>, FixedKTError>)
    requires
        out_degrees@.len() <= u32::MAX,
        out_degrees@.len() * out_degrees@.len() < usize::MAX,
        seq_sum_u32(out_degrees@) < usize::MAX,
        seq_sum_u32(in_degrees@) <= u64::MAX,
        (at_least_one(config.mcmc.burn_in_sweeps as int) + at_least_one(
            config.mcmc.sweeps_per_sample as int,
        )) * (seq_sum_u32(out_degrees@) + 1) <= u64::MAX,
    ensures
        degree_pair_invalid(out_degrees@, in_degrees@, config.self_loops) ==> (r matches Err(e)
            && e is InvalidResidual),
        kt_residual_infeasible(family, seq_sum_u32(out_degrees@), total as int) ==> (r matches Err(
            e,
        ) && e is InvalidResidual),
        !degree_pair_invalid(out_degrees@, in_degrees@, config.self_loops) && all_zero_degrees(
            out_degrees@,
            in_degrees@,
        ) && total == 0 ==> (r matches Ok(edges) && edges@.len() == 0),
        !degree_realizable(out_degrees@, in_degrees@, config.self_loops) ==> (r matches Err(e)
            && e is InvalidResidual),
        kt_support_owed(family, out_degrees@, in_degrees@, total as int, *config) ==> r is Ok,
        r matches Err(e) ==> e is InvalidResidual || e is InitializationFailed,
        r matches Ok(edges) ==> {
            &&& !degree_pair_invalid(out_degrees@, in_degrees@, config.self_loops)
            &&& !kt_residual_infeasible(family, seq_sum_u32(out_degrees@), total as int)
            &&& realizes(edges@, out_degrees@, in_degrees@, config.self_loops)
            &&& edges@.len() == seq_sum_u32(out_degrees@)
            &&& seq_sum_u32(out_degrees@) > 0 ==> kt_support_sample_of(
                out_degrees@,
                in_degrees@,
                *config,
                edges@,
            )
            &&& !uses_complement(out_degrees@, config.self_loops) ==> forall|k: int|
                0 <= k < edges@.len() ==> (config.admissible_pairs matches Some(ap) ==> ap@.contains(
                    #[trigger] edges@[k],
                ))
        },
{
    proof {
        lemma_seq_sum_u32_zero(out_degrees@);
    }
    let seq = DirectedDegreeSequence::new(
        copy_slice(out_degrees),
        copy_slice(in_degrees),
        config.self_loops,
    )?;
    let e = seq.edge_count;
    let e64 = e as OccNum;
    if e == 0 {
        if total == 0 {
            let edges: Vec<(u64, u64)> = Vec::new();
            proof {
                lemma_seq_sum_u32_zero(out_degrees@);
                lemma_seq_sum_u32_zero(in_degrees@);
                assert forall|v: int| 0 <= v < out_degrees@.len() implies #[trigger] out_count(
                    edges@,
                    v,
                ) == out_degrees@[v] && in_count(edges@, v) == in_degrees@[v] by {
                    assert(out_degrees@[v] == 0);
                    assert(in_degrees@[v] == 0);
                }
            }
            return Ok(edges);
        } else {
            return Err(FixedKTError::InvalidResidual(num_msg("zero edges but total occupation ", total, " > 0")));
        }
    }
    if total < e64 {
        let mut m = num_msg("total occupation ", total, " < edge count ");
        push_num(&mut m, e64, " (each edge needs ≥1 event)");
        return Err(FixedKTError::InvalidResidual(m));
    }
    if let Some(max) = family.max_occupation() {
        // The capacity `M * E`, saturated at the largest `u64`.
        if let Some(capacity) = max.checked_mul(e64) {
            if total > capacity {
                let mut m = num_msg("total occupation ", total, " exceeds B capacity ");
                push_num(&mut m, max, " × ");
                push_num(&mut m, e64, " = ");
                push_num(&mut m, capacity, "");
                return Err(FixedKTError::InvalidResidual(m));
            }
        }
    }
    let admissible: Option<&[(u64, u64)]> = match &config.admissible_pairs {
        Some(v) => Some(v.as_slice()),
        None => None,
    };
    proof {
        assert(admits_fn(admissible) =~= admits_vec_fn(config.admissible_pairs)) by {
            assert forall|a: u64, b: u64| #[trigger] admits_fn(admissible)(a, b) == admits_vec_fn(
                config.admissible_pairs,
            )(a, b) by {
                match config.admissible_pairs {
                    Some(v) => {
                        assert(admissible matches Some(sl) && sl@ == v@);
                    },
                    None => {},
                }
            }
        }
    }
    let (state, diag) = sample_fixed_degree_support(
        seq.out_degrees.as_slice(),
        seq.in_degrees.as_slice(),
        config.self_loops,
        &config.mcmc,
        admissible,
    )?;
    proof {
        assert(same_pair_list(admissible, config.admissible_pairs));
        assert(degree_support_sample_of(
            out_degrees@,
            in_degrees@,
            config.self_loops,
            config.mcmc,
            admissible,
            state.edges@,
            diag.mcmc.accepted as int,
        ));
        lemma_realized_edge_count(state.edges@, out_degrees@, in_degrees@, config.self_loops);
        if !uses_complement(out_degrees@, config.self_loops) {
            assert(all_admitted(state.edges@, admissible));
            assert forall|k: int| 0 <= k < state.edges@.len() implies (
            config.admissible_pairs matches Some(ap) ==> ap@.contains(#[trigger] state.edges@[k])) by {
                assert(admits(admissible, state.edges@[k].0, state.edges@[k].1));
            }
        }
    }
    Ok(state.edges)
}

/// Run the full fixed-(k, T) pipeline: validate, sample the directed
/// support, allocate positive occupations with the fixed-total pair-Gibbs
/// chain (configured by [`gibbs_config`], drawing splits with `split`), and
/// pair them with the support.
///
/// Fails as [`sample_fixed_kt_support`] does. A returned network has
/// `E = sum k_out` pairs realizing the degrees, drawn by the switch chain
/// ([`kt_support_sample_of`]), and occupations that are positive, within
/// the family's cap, sum to `T`, and come from the occupation stage
/// ([`occupation_stage_of`]).
pub fn sample_fixed_kt_core<S: Fn(OccNum, u64) -> (OccNum, OccNum)>(
    family: OccupationFamily,
    out_degrees: &[u32],
    in_degrees: &[u32],
    total: OccNum,
    config: &FixedKTConfig,
    split: &S,
) -> (r: Result<SampledNetwork, FixedKTError>)
    requires
        out_degrees@.len() <= u32::MAX,
        out_degrees@.len() * out_degrees@.len() < usize::MAX,
        seq_sum_u32(out_degrees@) < usize::MAX,
        seq_sum_u32(in_degrees@) <= u64::MAX,
        (at_least_one(config.mcmc.burn_in_sweeps as int) + at_least_one(
            config.mcmc.sweeps_per_sample as int,
        )) * (seq_sum_u32(out_degrees@) + 1) <= u64::MAX,
        (at_least_one(config.mcmc.burn_in_sweeps as int) + at_least_one(
            config.mcmc.sweeps_per_sample as int,
        )) * gibbs_sweep_len(gibbs_config_of(*config), seq_sum_u32(out_degrees@)) <= u64::MAX,
        is_split_sampler(*split, family),
    ensures
        degree_pair_invalid(out_degrees@, in_degrees@, config.self_loops) ==> (r matches Err(e)
            && e is InvalidResidual),
        kt_residual_infeasible(family, seq_sum_u32(out_degrees@), total as int) ==> (r matches Err(
            e,
        ) && e is InvalidResidual),
        !degree_pair_invalid(out_degrees@, in_degrees@, config.self_loops) && all_zero_degrees(
            out_degrees@,
            in_degrees@,
        ) && total == 0 ==> (r matches Ok(net) && net.sources@.len() == 0),
        !degree_realizable(out_degrees@, in_degrees@, config.self_loops) ==> (r matches Err(e)
            && e is InvalidResidual),
        kt_support_owed(family, out_degrees@, in_degrees@, total as int, *config) ==> r is Ok,
        r matches Err(e) ==> e is InvalidResidual || e is InitializationFailed,
        r matches Ok(net) ==> {
            &&& !degree_pair_invalid(out_degrees@, in_degrees@, config.self_loops)
            &&& !kt_residual_infeasible(family, seq_sum_u32(out_degrees@), total as int)
            &&& net.sources@.len() == seq_sum_u32(out_degrees@)
            &&& net.targets@.len() == net.sources@.len()
            &&& net.occ_nums@.len() == net.sources@.len()
            &&& realizes(support_of(net), out_degrees@, in_degrees@, config.self_loops)
            &&& seq_sum(net.occ_nums@) == total
            &&& occupations_ok(net.occ_nums@, family)
            &&& seq_sum_u32(out_degrees@) > 0 ==> kt_support_sample_of(
                out_degrees@,
                in_degrees@,
                *config,
                support_of(net),
            )
            &&& occupation_stage_of(
                *split,
                seq_sum_u32(out_degrees@) as nat,
                total as int,
                gibbs_config_of(*config),
                net.occ_nums@,
            )
        },
{
    let edges = sample_fixed_kt_support(family, out_degrees, in_degrees, total, config)?;
    let e = edges.len();
    let occupations = match trivial_occupations(e, total) {
        Some(v) => v,
        None => {
            let gibbs = gibbs_config(config);
            match sample_fixed_total(family, e, total, &gibbs, split) {
                Ok(v) => v,
                Err(_) => {
                    return Err(FixedKTError::OccupationError("occupation allocation failed".to_owned()));
                },
            }
        },
    };
    proof {
        if e <= 1 || total == e {
            lemma_trivial_occupations(occupations@, e as int, total as int, family);
        }
    }
    let net = assemble_network(edges.as_slice(), occupations.as_slice());
    Ok(net)
}

} // verus!
