use menobis_core::degree_state::DegreeSupportState;
use menobis_core::fixed_kt::{
    check_directed_graphicality, classify_heterogeneity, maybe_complement, DegreeHeterogeneity,
    DirectedDegreeSequence, FixedDegreeDiagnostics, FixedKTConfig, FixedKTError, RepresentationMode,
};
use menobis_core::mcmc::McmcCounters;
use menobis_core::support::{
    apply_switch, directed_switch_step, greedy_directed_initialize,
    greedy_directed_initialize_with_admissibility, invert_complement, sample_fixed_degree_support,
    FixedDegreeChain, FixedDegreeMcmcConfig, SwitchOutcome,
};
use rand::rngs::StdRng;
use rand::SeedableRng;
use std::collections::HashSet;

fn rate_of(c: &McmcCounters) -> f64 {
    if c.proposals == 0 {
        0.0
    } else {
        c.accepted as f64 / c.proposals as f64
    }
}

fn chain_config(burn_in: usize, thin: usize, seed: u64, self_loops: bool) -> FixedDegreeMcmcConfig {
    FixedDegreeMcmcConfig {
        burn_in_sweeps: burn_in,
        sweeps_per_sample: thin,
        seed,
        proposals_per_sweep: None,
        self_loops,
    }
}

fn four_cycle_state() -> DegreeSupportState {
    // N=4, edges: 0→1, 1→2, 2→3, 3→0 (a directed 4-cycle)
    let edges = vec![(0, 1), (1, 2), (2, 3), (3, 0)];
    DegreeSupportState::new(4, edges, false)
}

// ---- support state ----

#[test]
fn empty_state() {
    let state = DegreeSupportState::new(5, vec![], false);
    assert_eq!(state.edge_count(), 0);
    assert!(!state.contains(&(0, 1)));
}

#[test]
fn insert_and_remove() {
    let mut state = DegreeSupportState::new(5, vec![], false);
    state.insert((0, 1));
    assert!(state.contains(&(0, 1)));
    assert_eq!(state.edge_count(), 1);
    assert_eq!(state.out_degree(0), 1);
    assert_eq!(state.in_degree(1), 1);

    state.remove(&(0, 1));
    assert!(!state.contains(&(0, 1)));
    assert_eq!(state.edge_count(), 0);
}

#[test]
fn swap_remove_preserves_correctness() {
    let mut state = DegreeSupportState::new(4, vec![(0, 1), (1, 2), (2, 3)], false);
    assert_eq!(state.edge_count(), 3);
    state.remove(&(1, 2));
    assert_eq!(state.edge_count(), 2);
    assert!(state.contains(&(0, 1)));
    assert!(state.contains(&(2, 3)));
    assert!(!state.contains(&(1, 2)));
}

#[test]
fn build_from_edges() {
    let edges = vec![(0, 1), (1, 0), (0, 2), (2, 1)];
    let state = DegreeSupportState::new(3, edges, false);
    assert_eq!(state.edge_count(), 4);
    assert_eq!(state.out_degree(0), 2);
    assert_eq!(state.in_degree(0), 1);
}

#[test]
fn insert_then_remove_restores_edge_list() {
    let mut state = DegreeSupportState::new(4, vec![(0, 1), (2, 3)], false);
    let before = state.edges.clone();
    state.insert((3, 1));
    state.remove(&(3, 1));
    assert_eq!(state.edges, before);
    assert_eq!(state.out_degree_sequence(), vec![1, 0, 1, 0]);
    state.debug_validate();
}

#[test]
fn swap_remove_moves_last_edge_into_the_gap() {
    let mut state = DegreeSupportState::new(4, vec![(0, 1), (1, 2), (2, 3)], false);
    state.remove(&(0, 1));
    assert_eq!(state.edges, vec![(2, 3), (1, 2)]);
    assert_eq!(state.in_degree(3), 1);
    assert_eq!(state.out_degree_sequence(), vec![0, 1, 1, 0]);
}

// ---- initializer ----

#[test]
fn initializer_directed_cycle() {
    let out = vec![1u32, 1, 1, 1];
    let inp = vec![1u32, 1, 1, 1];
    let state = greedy_directed_initialize(&out, &inp, false, None).unwrap();
    assert_eq!(state.edge_count(), 4);
    assert_eq!(state.out_degree_sequence(), out);
    for (i, &d) in inp.iter().enumerate() {
        assert_eq!(state.in_degree(i), d as usize);
    }
}

#[test]
fn initializer_out_star() {
    let n = 5;
    let mut out = vec![0u32; n];
    out[0] = (n - 1) as u32;
    let mut inp = vec![0u32; n];
    for item in inp.iter_mut().skip(1) {
        *item = 1;
    }
    let state = greedy_directed_initialize(&out, &inp, false, None).unwrap();
    assert_eq!(state.edge_count(), n - 1);
    assert_eq!(state.out_degree_sequence(), out);
    for (i, &d) in inp.iter().enumerate() {
        assert_eq!(state.in_degree(i), d as usize);
    }
}

#[test]
fn initializer_complete_directed() {
    let n = 4;
    let out = vec![(n - 1) as u32; n];
    let inp = vec![(n - 1) as u32; n];
    let state = greedy_directed_initialize(&out, &inp, false, None).unwrap();
    assert_eq!(state.edge_count(), n * (n - 1));
    for i in 0..n {
        for j in 0..n {
            if i != j {
                assert!(state.contains(&(i as u64, j as u64)));
            }
        }
    }
}

#[test]
fn initializer_empty_degrees() {
    let out = vec![0u32; 3];
    let inp = vec![0u32; 3];
    let state = greedy_directed_initialize(&out, &inp, false, None).unwrap();
    assert_eq!(state.edge_count(), 0);
}

#[test]
fn initializer_tricky_degrees() {
    let out = vec![2u32, 1, 1];
    let inp = vec![1u32, 2, 1];
    let state = greedy_directed_initialize(&out, &inp, false, None).unwrap();
    assert_eq!(state.out_degree_sequence(), out);
    for (i, &d) in inp.iter().enumerate() {
        assert_eq!(state.in_degree(i), d as usize);
    }
}

#[test]
fn initializer_deterministic_reproducibility() {
    let out = vec![2u32, 1, 1];
    let inp = vec![1u32, 2, 1];
    let a = greedy_directed_initialize(&out, &inp, false, None).unwrap();
    let b = greedy_directed_initialize(&out, &inp, false, None).unwrap();
    assert_eq!(a.edges, b.edges);
}

#[test]
fn same_seed_reproduces_randomized_support() {
    let out = vec![2u32, 2, 0];
    let inp = vec![1u32, 1, 2];
    let run = |seed: u64| -> Vec<(u64, u64)> {
        let mut rng = StdRng::seed_from_u64(seed);
        let s = greedy_directed_initialize_with_admissibility(&out, &inp, true, &mut rng, |_, _| true)
            .unwrap();
        let mut edges = s.edges.clone();
        edges.sort_unstable();
        edges
    };
    assert_eq!(run(7), run(7), "same seed must reproduce the support");
    let distinct = [run(1), run(2), run(3), run(4), run(5), run(6), run(7), run(8)]
        .iter()
        .collect::<HashSet<_>>()
        .len();
    assert!(distinct > 1, "expected more than one support across seeds");
}

#[test]
fn admissibility_predicate_excludes_pairs() {
    let out = vec![1u32, 1, 1];
    let inp = vec![1u32, 1, 1];
    let mut rng = StdRng::seed_from_u64(3);
    for _ in 0..20 {
        let state = greedy_directed_initialize_with_admissibility(
            &out,
            &inp,
            true,
            &mut rng,
            |s, t| (s, t) != (0, 1),
        )
        .unwrap();
        assert!(!state.contains(&(0, 1)), "excluded pair (0,1) must never be constructed");
        assert_eq!(state.out_degree_sequence(), out);
        assert_eq!(state.in_degree(0), 1, "node 0 must still receive in-degree 1 from another row");
    }
}

#[test]
fn initializer_fails_on_non_graphical_pair() {
    // Node 0 needs two targets but only node 1 can receive without loops.
    let out = vec![2u32, 0];
    let inp = vec![1u32, 1];
    assert!(matches!(
        greedy_directed_initialize(&out, &inp, false, None),
        Err(FixedKTError::InitializationFailed(_))
    ));
}

#[test]
fn initializer_respects_admissible_list() {
    let out = vec![1u32, 1, 1];
    let inp = vec![1u32, 1, 1];
    let admissible = vec![(0u64, 2u64), (1, 0), (2, 1)];
    let state = greedy_directed_initialize(&out, &inp, false, Some(&admissible)).unwrap();
    let mut edges = state.edges.clone();
    edges.sort_unstable();
    assert_eq!(edges, vec![(0, 2), (1, 0), (2, 1)]);
}

// ---- switch ----

#[test]
fn switch_preserves_degrees() {
    let mut state = four_cycle_state();
    let out_before = state.out_degree_sequence();
    let mut rng = StdRng::seed_from_u64(42);
    for _ in 0..100 {
        directed_switch_step(&mut state, false, &mut rng, None);
        assert_eq!(state.out_degree_sequence(), out_before);
        state.debug_validate();
    }
}

#[test]
fn edge_count_preserved() {
    let mut state = four_cycle_state();
    let m = state.edge_count();
    let mut rng = StdRng::seed_from_u64(42);
    for _ in 0..100 {
        directed_switch_step(&mut state, false, &mut rng, None);
        assert_eq!(state.edge_count(), m);
    }
}

#[test]
fn no_self_loops_after_switch() {
    let mut state = four_cycle_state();
    let mut rng = StdRng::seed_from_u64(42);
    for _ in 0..100 {
        directed_switch_step(&mut state, false, &mut rng, None);
        for &(src, tgt) in &state.edges {
            assert_ne!(src, tgt, "self-loop found");
        }
    }
}

#[test]
fn no_duplicate_edges_after_switch() {
    let mut state = four_cycle_state();
    let mut rng = StdRng::seed_from_u64(42);
    for _ in 0..100 {
        directed_switch_step(&mut state, false, &mut rng, None);
        let mut pairs = state.edges.clone();
        pairs.sort_unstable();
        pairs.dedup();
        assert_eq!(pairs.len(), state.edge_count());
    }
}

#[test]
fn hold_when_too_few_edges() {
    let mut state = DegreeSupportState::new(3, vec![(0, 1)], false);
    let mut rng = StdRng::seed_from_u64(42);
    assert_eq!(directed_switch_step(&mut state, false, &mut rng, None), SwitchOutcome::Hold);
}

#[test]
fn every_switch_has_reverse() {
    let edges = vec![(0, 1), (1, 2), (2, 0)];
    let mut state = DegreeSupportState::new(3, edges, false);
    let mut rng = StdRng::seed_from_u64(42);
    for _ in 0..500 {
        directed_switch_step(&mut state, false, &mut rng, None);
        assert_eq!(state.edge_count(), 3);
        assert_eq!(state.out_degree_sequence(), vec![1, 1, 1]);
    }
}

#[test]
fn switch_respects_admissible_pairs() {
    let edges = vec![(0, 1), (1, 2), (2, 0), (0, 2)];
    let mut state = DegreeSupportState::new(3, edges, false);
    let admissible = vec![(0u64, 1u64), (1, 2), (2, 0), (0, 2), (1, 0), (2, 1)];
    let mut rng = StdRng::seed_from_u64(42);
    for _ in 0..200 {
        directed_switch_step(&mut state, false, &mut rng, Some(&admissible));
        for &(src, tgt) in &state.edges {
            assert!(admissible.contains(&(src, tgt)), "edge ({src},{tgt}) not admissible");
        }
    }
}

// ---- chain ----

#[test]
fn directed_cycle_chain() {
    let out = vec![1u32, 1, 1, 1];
    let inp = vec![1u32, 1, 1, 1];
    let config = chain_config(10, 5, 42, false);
    let (state, diag) = sample_fixed_degree_support(&out, &inp, false, &config, None).unwrap();
    assert_eq!(state.edge_count(), 4);
    assert_eq!(state.out_degree_sequence(), out);
    assert!(rate_of(&diag.mcmc) >= 0.0);
}

#[test]
fn star_chain() {
    let n = 6;
    let mut out = vec![0u32; n];
    out[0] = (n - 1) as u32;
    let mut inp = vec![0u32; n];
    for item in inp.iter_mut().skip(1) {
        *item = 1;
    }
    let config = chain_config(10, 5, 99, false);
    let (state, _diag) = sample_fixed_degree_support(&out, &inp, false, &config, None).unwrap();
    assert_eq!(state.edge_count(), n - 1);
    assert_eq!(state.out_degree_sequence(), out);
}

#[test]
fn sampler_complement_mode() {
    let n = 5;
    let max_allowed = n - 1;
    let out = vec![(max_allowed - 1) as u32; n];
    let inp = vec![(max_allowed - 1) as u32; n];
    let config = chain_config(5, 2, 7, false);
    let (state, diag) = sample_fixed_degree_support(&out, &inp, false, &config, None).unwrap();
    assert_eq!(state.edge_count(), n * (n - 1) - n);
    assert_eq!(diag.representation, RepresentationMode::Complement);
}

#[test]
fn sampler_deterministic_reproducibility() {
    let out = vec![2u32, 1, 1];
    let inp = vec![1u32, 2, 1];
    let config = chain_config(5, 2, 42, false);
    let (state_a, _) = sample_fixed_degree_support(&out, &inp, false, &config, None).unwrap();
    let (state_b, _) = sample_fixed_degree_support(&out, &inp, false, &config, None).unwrap();
    assert_eq!(state_a.edges, state_b.edges);
}

#[test]
fn self_loops_allowed_preserves_degrees() {
    let out = vec![1u32, 1];
    let inp = vec![1u32, 1];
    let config = chain_config(20, 10, 42, true);
    let (state, _diag) = sample_fixed_degree_support(&out, &inp, true, &config, None).unwrap();
    assert_eq!(state.edge_count(), 2);
    assert_eq!(state.out_degree_sequence(), out);
    assert_eq!(state.in_degree(0), 1);
    assert_eq!(state.in_degree(1), 1);
    let mut pairs = state.edges.clone();
    pairs.sort_unstable();
    pairs.dedup();
    assert_eq!(pairs.len(), 2);
}

#[test]
fn self_loops_chain_accepts_self_loop_switches() {
    let edges = vec![(0u64, 0u64), (1u64, 1u64)];
    let state = DegreeSupportState::new(2, edges, true);
    let config = chain_config(0, 1, 42, true);
    let mut chain = FixedDegreeChain::new(state, config);
    let mut rng = StdRng::seed_from_u64(42);
    let mut self_loop_encountered = false;
    for _ in 0..200 {
        chain.step(&mut rng, None);
        assert_eq!(chain.state.edge_count(), 2);
        assert_eq!(chain.state.out_degree_sequence(), vec![1u32, 1]);
        if chain.state.edges.iter().any(|(s, t)| s == t) {
            self_loop_encountered = true;
        }
    }
    assert!(self_loop_encountered, "self-loops were never created despite self_loops=true");
}

#[test]
fn self_loops_disabled_never_creates_self_loops() {
    let edges = vec![(0u64, 1u64), (1u64, 0u64)];
    let state = DegreeSupportState::new(2, edges, false);
    let config = chain_config(0, 1, 42, false);
    let mut chain = FixedDegreeChain::new(state, config);
    let mut rng = StdRng::seed_from_u64(42);
    for _ in 0..500 {
        chain.step(&mut rng, None);
        assert_eq!(chain.state.edge_count(), 2);
        assert_eq!(chain.state.out_degree_sequence(), vec![1u32, 1]);
        for &(s, t) in &chain.state.edges {
            assert_ne!(s, t, "self-loop appeared despite self_loops=false");
        }
    }
}

#[test]
fn self_loops_with_complement_mode() {
    let n = 3;
    let out = vec![2u32; n];
    let inp = vec![2u32; n];
    let config = chain_config(5, 2, 42, true);
    let (state, diag) = sample_fixed_degree_support(&out, &inp, true, &config, None).unwrap();
    assert_eq!(diag.representation, RepresentationMode::Complement);
    assert_eq!(state.edge_count(), 6); // 9 - 3 = 6
    let mut computed_out = vec![0u32; n];
    for &(s, _) in &state.edges {
        computed_out[s as usize] += 1;
    }
    assert_eq!(computed_out, out);
}

#[test]
fn chain_counts_proposals_per_sweep() {
    let state = four_cycle_state();
    let mut chain = FixedDegreeChain::new(state, chain_config(3, 2, 5, false));
    let mut rng = StdRng::seed_from_u64(5);
    chain.burn_in(&mut rng, None);
    // 3 burn-in sweeps of one proposal per edge.
    assert_eq!(chain.diagnostics.mcmc.proposals, 12);
    assert!(chain.diagnostics.mcmc.accepted <= 12);
    let edges = chain.sample_support(&mut rng, None).to_vec();
    assert_eq!(chain.diagnostics.mcmc.proposals, 20);
    assert_eq!(edges.len(), 4);
}

#[test]
fn empty_degree_sequence_is_rejected_by_support_sampler() {
    let config = chain_config(1, 1, 0, false);
    assert!(sample_fixed_degree_support(&[], &[], false, &config, None).is_err());
}

#[test]
fn default_chain_config_by_heterogeneity() {
    let light = FixedDegreeMcmcConfig::default_for_heterogeneity(&DegreeHeterogeneity::Light);
    let het = FixedDegreeMcmcConfig::default_for_heterogeneity(&DegreeHeterogeneity::Heterogeneous);
    let hub = FixedDegreeMcmcConfig::default_for_heterogeneity(&DegreeHeterogeneity::HubDominated);
    assert_eq!((light.burn_in_sweeps, light.sweeps_per_sample), (20, 5));
    assert_eq!((het.burn_in_sweeps, het.sweeps_per_sample), (50, 10));
    assert_eq!((hub.burn_in_sweeps, hub.sweeps_per_sample), (100, 20));
    assert!(light.proposals_per_sweep.is_none());
    assert!(!hub.self_loops);
    assert_eq!(hub.seed, 0);
    let d = FixedDegreeMcmcConfig::default();
    assert_eq!(d.burn_in_sweeps, 50);
    assert_eq!(d.sweeps_per_sample, 10);
}

// ---- complement ----

#[test]
fn complement_inversion_restores_degrees() {
    let out = vec![1u32, 1, 1];
    let inp = vec![1u32, 1, 1];
    let (cout, cin, mode, e) = maybe_complement(&out, &inp, false);
    // Complement has 6 - 3 = 3 edges: not fewer, so direct is kept.
    assert_eq!(mode, RepresentationMode::Direct);
    assert_eq!(e, 3);
    assert_eq!(cout, out);
    assert_eq!(cin, inp);

    let dense_out = vec![2u32, 2, 2];
    let (cout, cin, mode, e) = maybe_complement(&dense_out, &dense_out, false);
    assert_eq!(mode, RepresentationMode::Complement);
    assert_eq!(e, 0);
    assert_eq!(cout, vec![0, 0, 0]);
    assert_eq!(cin, vec![0, 0, 0]);

    // Inverting the empty complement support gives the complete graph.
    let mut state = DegreeSupportState::new(3, vec![], false);
    invert_complement(&mut state, false);
    assert_eq!(state.edge_count(), 6);
    assert_eq!(state.out_degree_sequence(), dense_out);
    for v in 0..3 {
        assert_eq!(state.in_degree(v), 2);
    }
}

// ---- feasibility ----

#[test]
fn valid_directed_cycle() {
    let out = vec![1u32, 1, 1, 1];
    let inp = vec![1u32, 1, 1, 1];
    let seq = DirectedDegreeSequence::new(out, inp, false).unwrap();
    assert_eq!(seq.edge_count, 4);
}

#[test]
fn valid_out_star() {
    let n = 5;
    let mut out = vec![0u32; n];
    out[0] = (n - 1) as u32;
    let mut inp = vec![0u32; n];
    for i in 1..n {
        inp[i] = 1;
    }
    let seq = DirectedDegreeSequence::new(out, inp, false).unwrap();
    assert_eq!(seq.edge_count, n - 1);
}

#[test]
fn sum_mismatch_rejected() {
    let out = vec![2u32, 0];
    let inp = vec![1u32, 0];
    assert!(DirectedDegreeSequence::new(out, inp, false).is_err());
}

#[test]
fn degree_exceeds_n_rejected() {
    let out = vec![10u32, 0];
    let inp = vec![5u32, 5];
    assert!(DirectedDegreeSequence::new(out, inp, false).is_err());
}

#[test]
fn empty_degree_zero_ok() {
    let out = vec![0u32, 0, 0];
    let inp = vec![0u32, 0, 0];
    let seq = DirectedDegreeSequence::new(out, inp, false).unwrap();
    assert_eq!(seq.edge_count, 0);
}

#[test]
fn feasibility_complete_directed() {
    let n = 4;
    let out = vec![(n - 1) as u32; n];
    let inp = vec![(n - 1) as u32; n];
    let seq = DirectedDegreeSequence::new(out, inp, false).unwrap();
    assert_eq!(seq.edge_count, n * (n - 1));
}

#[test]
fn len_mismatch_rejected() {
    let out = vec![1u32, 2];
    let inp = vec![1u32];
    assert!(DirectedDegreeSequence::new(out, inp, false).is_err());
}

#[test]
fn degree_sequence_records_maxima_and_node_count() {
    let seq = DirectedDegreeSequence::new(vec![2, 1, 0], vec![1, 1, 1], false).unwrap();
    assert_eq!(seq.node_count(), 3);
    assert_eq!(seq.max_out_degree, 2);
    assert_eq!(seq.max_in_degree, 1);
    assert!(DirectedDegreeSequence::new(vec![], vec![], true).is_err());
    // With self-loops a degree of N is allowed.
    assert!(DirectedDegreeSequence::new(vec![2, 2], vec![2, 2], true).is_ok());
    assert!(check_directed_graphicality(&[1, 1], &[1, 1], false).is_ok());
    assert!(check_directed_graphicality(&[2, 0], &[1, 1], false).is_err());
}

// ---- diagnostics ----

#[test]
fn light_classification() {
    let out = vec![1u32; 20];
    let inp = vec![1u32; 20];
    assert_eq!(classify_heterogeneity(&out, &inp), DegreeHeterogeneity::Light);
}

#[test]
fn hub_dominated() {
    let out = vec![100u32, 1, 1, 1, 1, 1, 1, 1, 1, 1];
    let inp = vec![10u32, 10, 10, 10, 10, 10, 10, 10, 10, 8]; // sum=108
    assert_eq!(classify_heterogeneity(&out, &inp), DegreeHeterogeneity::HubDominated);
}

#[test]
fn heterogeneous_classification_and_empty_degrees() {
    // max = 5 and a degree total of 30: rho = 25 / 30 lies in [0.1, 1).
    let out = vec![5u32, 5, 5, 5, 5, 5];
    let inp = vec![5u32, 5, 5, 5, 5, 5];
    assert_eq!(classify_heterogeneity(&out, &inp), DegreeHeterogeneity::Heterogeneous);
    assert_eq!(classify_heterogeneity(&[0, 0], &[0, 0]), DegreeHeterogeneity::Light);
}

#[test]
fn diagnostics_and_config_defaults() {
    let d = FixedDegreeDiagnostics::new();
    assert_eq!(d.representation, RepresentationMode::Direct);
    assert_eq!(d.heterogeneity, DegreeHeterogeneity::Light);
    assert_eq!(d.mcmc.proposals, 0);
    let c = FixedKTConfig::default();
    assert!(!c.self_loops);
    assert!(c.admissible_pairs.is_none());
    let c2 = FixedKTConfig::new(FixedDegreeMcmcConfig::default(), true);
    assert!(c2.self_loops);
}

#[test]
fn switched_step_is_undone_by_the_reverse_rewiring() {
    let mut rng = StdRng::seed_from_u64(11);
    let mut state = DegreeSupportState::new(5, vec![(0, 1), (1, 2), (2, 3), (3, 4), (4, 0)], false);
    let mut switched = 0;
    for _ in 0..50 {
        let before: HashSet<(u64, u64)> = state.edges.iter().copied().collect();
        if directed_switch_step(&mut state, false, &mut rng, None) == SwitchOutcome::Switched {
            let after: HashSet<(u64, u64)> = state.edges.iter().copied().collect();
            let removed: Vec<(u64, u64)> = before.difference(&after).copied().collect();
            let added: Vec<(u64, u64)> = after.difference(&before).copied().collect();
            assert_eq!(removed.len(), added.len());
            if removed.len() == 2 {
                switched += 1;
                let (a, b) = removed[0];
                let (c, d) = removed[1];
                // The new pairs are a -> d and c -> b; rewiring them back
                // (a -> d, c -> b become a -> b, c -> d) restores `before`.
                let mut expected = vec![(a, d), (c, b)];
                let mut got = added.clone();
                expected.sort_unstable();
                got.sort_unstable();
                assert_eq!(got, expected);
                let mut restored: HashSet<(u64, u64)> = after.clone();
                restored.remove(&(a, d));
                restored.remove(&(c, b));
                restored.insert((a, b));
                restored.insert((c, d));
                assert_eq!(restored, before);
            }
        }
    }
    assert!(switched > 0);
}

#[test]
fn two_disjoint_pairs_always_switch() {
    // Either draw order proposes 0 -> 3, 2 -> 1, which is always allowed.
    for seed in 0..10u64 {
        let mut state = DegreeSupportState::new(4, vec![(0, 1), (2, 3)], false);
        let mut rng = StdRng::seed_from_u64(seed);
        assert_eq!(directed_switch_step(&mut state, false, &mut rng, None), SwitchOutcome::Switched);
        let got: HashSet<(u64, u64)> = state.edges.iter().copied().collect();
        let want: HashSet<(u64, u64)> = [(0, 3), (2, 1)].into_iter().collect();
        assert_eq!(got, want);
    }
}

#[test]
fn switch_into_self_loop_holds() {
    // 0 -> 1 and 1 -> 0 would become the loops 0 -> 0 and 1 -> 1.
    for seed in 0..10u64 {
        let mut state = DegreeSupportState::new(2, vec![(0, 1), (1, 0)], false);
        let mut rng = StdRng::seed_from_u64(seed);
        assert_eq!(directed_switch_step(&mut state, false, &mut rng, None), SwitchOutcome::Hold);
        assert_eq!(state.edges, vec![(0, 1), (1, 0)]);
    }
}

#[test]
fn all_zero_degrees_are_graphical() {
    assert!(check_directed_graphicality(&[0, 0, 0], &[0, 0, 0], false).is_ok());
    assert!(check_directed_graphicality(&[], &[], false).is_ok());
}

#[test]
fn degree_sequences_built_by_the_greedy_pass() {
    let seq = DirectedDegreeSequence::new(vec![2, 1], vec![1, 2], true).expect("graphical");
    assert_eq!(seq.edge_count, 3);
    assert_eq!(seq.max_out_degree, 2);
    assert_eq!(seq.max_in_degree, 2);
    assert_eq!(seq.node_count(), 2);
    let full = DirectedDegreeSequence::new(vec![3, 3, 3, 3], vec![3, 3, 3, 3], false).expect("complete");
    assert_eq!(full.edge_count, 12);
    let cycle = DirectedDegreeSequence::new(vec![1, 1, 1, 1], vec![1, 1, 1, 1], false).expect("cycle");
    assert_eq!(cycle.edge_count, 4);
}

#[test]
fn apply_switch_rewires_the_drawn_pairs() {
    let mut state = DegreeSupportState::new(4, vec![(0, 1), (2, 3)], false);
    assert_eq!(apply_switch(&mut state, 0, 1, false, None), SwitchOutcome::Switched);
    // Both pairs are removed and `0 -> 3`, `2 -> 1` appended.
    assert_eq!(state.edges, vec![(0, 3), (2, 1)]);
    assert_eq!(state.out_degree(0), 1);
    assert_eq!(state.in_degree(1), 1);
}

#[test]
fn apply_switch_holds_a_forbidden_loop_and_inadmissible_pairs() {
    let mut state = DegreeSupportState::new(2, vec![(0, 1), (1, 0)], false);
    assert_eq!(apply_switch(&mut state, 0, 1, false, None), SwitchOutcome::Hold);
    assert_eq!(state.edges, vec![(0, 1), (1, 0)]);
    let mut state = DegreeSupportState::new(4, vec![(0, 1), (2, 3)], false);
    let admissible = vec![(0, 1), (2, 3), (0, 3)];
    assert_eq!(apply_switch(&mut state, 0, 1, false, Some(&admissible)), SwitchOutcome::Hold);
    assert_eq!(state.edges, vec![(0, 1), (2, 3)]);
}

#[test]
fn support_sampler_runs_burn_in_and_thinning_sweeps() {
    let config = FixedDegreeMcmcConfig {
        burn_in_sweeps: 2,
        sweeps_per_sample: 3,
        proposals_per_sweep: None,
        seed: 4,
        self_loops: false,
    };
    let (state, diag) = sample_fixed_degree_support(&[1, 1, 1], &[1, 1, 1], false, &config, None).unwrap();
    // (2 + 3) sweeps of one proposal per edge.
    assert_eq!(diag.mcmc.proposals, 15);
    assert!(diag.mcmc.accepted <= diag.mcmc.proposals);
    assert_eq!(state.edges.len(), 3);
    let zero = FixedDegreeMcmcConfig { burn_in_sweeps: 0, sweeps_per_sample: 0, ..config };
    let (_, diag) = sample_fixed_degree_support(&[1, 1, 1], &[1, 1, 1], false, &zero, None).unwrap();
    assert_eq!(diag.mcmc.proposals, 6);
}
