use menobis_core::fixed_et::{
    check_fixed_et_residual, default_config, linear_to_pair, sample_b_fixed_et,
    sample_b_fixed_et_explicit, sample_fixed_et_core, sample_me_fixed_et, sample_me_fixed_et_explicit,
    sample_w_fixed_et, sample_w_fixed_et_explicit, total_admissible_pairs, trivial_occupations, BFamily,
    FixedETError, MeFamily, WFamily,
};
use menobis_core::mcmc::McmcConfig;
use menobis_core::model::family::OccupationFamily;
use menobis_core::OccNum;
use rand::rngs::StdRng;
use rand::SeedableRng;
use std::collections::HashSet;

fn et_config(seed: u64) -> McmcConfig {
    McmcConfig { burn_in_sweeps: 5, sweeps_per_sample: 2, proposals_per_sweep: None, seed }
}

fn identity_pair(idx: usize) -> (u64, u64) {
    (idx as u64, idx as u64 + 1)
}

/// A valid split of `q` for the family, picked from the random word `w`.
fn et_split(family: OccupationFamily) -> impl Fn(OccNum, u64) -> (OccNum, OccNum) {
    move |q: OccNum, w: u64| {
        let (lo, hi) = match family {
            OccupationFamily::B { layers } => {
                let m = layers as u64;
                let lo = if q > m { q - m } else { 1 };
                (lo.max(1), m.min(q - 1))
            }
            _ => (1, q - 1),
        };
        if lo > hi {
            return (1, q - 1);
        }
        let k = lo + w % (hi - lo + 1);
        (k, q - k)
    }
}

// ---- pair indexing ----

#[test]
fn with_self_loops() {
    let n = 4;
    assert_eq!(linear_to_pair(0, n, true), (0, 0));
    assert_eq!(linear_to_pair(3, n, true), (0, 3));
    assert_eq!(linear_to_pair(4, n, true), (1, 0));
    assert_eq!(linear_to_pair(15, n, true), (3, 3));
}

#[test]
fn without_self_loops() {
    let n = 4;
    assert_eq!(linear_to_pair(0, n, false), (0, 1));
    assert_eq!(linear_to_pair(2, n, false), (0, 3));
    assert_eq!(linear_to_pair(3, n, false), (1, 0));
    assert_eq!(linear_to_pair(4, n, false), (1, 2));
    assert_eq!(linear_to_pair(11, n, false), (3, 2));
}

#[test]
fn roundtrip() {
    for &sl in &[true, false] {
        for n in [2, 3, 5] {
            let l = if sl { n * n } else { n * (n - 1) };
            let mut found = HashSet::new();
            for idx in 0..l {
                let (i, j) = linear_to_pair(idx, n, sl);
                assert!(i < n && j < n);
                if !sl {
                    assert_ne!(i, j);
                }
                assert!(found.insert((i, j)));
            }
            assert_eq!(found.len(), l);
        }
    }
}

#[test]
fn total_pairs() {
    assert_eq!(total_admissible_pairs(4, true), 16);
    assert_eq!(total_admissible_pairs(4, false), 12);
    assert_eq!(total_admissible_pairs(0, true), 0);
}

#[test]
fn total_pairs_with_self_loops() {
    assert_eq!(total_admissible_pairs(4, true), 16);
    assert_eq!(total_admissible_pairs(4, false), 12);
}

#[test]
fn linear_to_pair_roundtrip() {
    for &sl in &[true, false] {
        for n in [2, 3, 5] {
            let l = if sl { n * n } else { n * (n - 1) };
            let mut found = HashSet::new();
            for idx in 0..l {
                let (i, j) = linear_to_pair(idx, n, sl);
                assert!(i < n && j < n);
                if !sl {
                    assert_ne!(i, j);
                }
                assert!(found.insert((i, j)));
            }
            assert_eq!(found.len(), l);
        }
    }
}

#[test]
fn total_pairs_saturate_and_handle_small_graphs() {
    assert_eq!(total_admissible_pairs(1, false), 0);
    assert_eq!(total_admissible_pairs(0, false), 0);
    assert_eq!(total_admissible_pairs(1, true), 1);
    assert_eq!(total_admissible_pairs(usize::MAX, true), usize::MAX);
    assert_eq!(total_admissible_pairs(usize::MAX, false), usize::MAX);
}

// ---- core ----

#[test]
fn core_e_zero_t_zero() {
    let mut rng = StdRng::seed_from_u64(1);
    let split = et_split(OccupationFamily::ME);
    let net = sample_fixed_et_core(OccupationFamily::ME, 10, 0, 0, &et_config(1), &mut rng, identity_pair, &split)
        .unwrap();
    assert!(net.sources.is_empty());
}

#[test]
fn core_invalid_e_above_l() {
    let mut rng = StdRng::seed_from_u64(1);
    let split = et_split(OccupationFamily::ME);
    assert!(sample_fixed_et_core(OccupationFamily::ME, 10, 11, 12, &et_config(1), &mut rng, identity_pair, &split)
        .is_err());
}

#[test]
fn core_invalid_t_below_e() {
    let mut rng = StdRng::seed_from_u64(1);
    let split = et_split(OccupationFamily::ME);
    assert!(sample_fixed_et_core(OccupationFamily::ME, 10, 5, 4, &et_config(1), &mut rng, identity_pair, &split)
        .is_err());
}

#[test]
fn core_invalid_b_capacity() {
    let mut rng = StdRng::seed_from_u64(1);
    let family = OccupationFamily::B { layers: 2 };
    let split = et_split(family);
    assert!(sample_fixed_et_core(
        family,
        10,
        5,
        11, // > 2*5
        &et_config(1),
        &mut rng,
        identity_pair,
        &split
    )
    .is_err());
}

#[test]
fn core_general_case_exact_constraints() {
    let mut rng = StdRng::seed_from_u64(42);
    let split = et_split(OccupationFamily::ME);
    let net = sample_fixed_et_core(OccupationFamily::ME, 100, 8, 20, &et_config(42), &mut rng, identity_pair, &split)
        .unwrap();
    assert_eq!(net.sources.len(), 8);
    assert_eq!(net.occ_nums.iter().sum::<OccNum>(), 20);
    assert!(net.occ_nums.iter().all(|&t| t >= 1));
}

#[test]
fn fixed_et_core_reproducible() {
    let split = et_split(OccupationFamily::ME);
    let a = sample_fixed_et_core(
        OccupationFamily::ME,
        100,
        8,
        20,
        &et_config(7),
        &mut StdRng::seed_from_u64(7),
        identity_pair,
        &split,
    )
    .unwrap();
    let b = sample_fixed_et_core(
        OccupationFamily::ME,
        100,
        8,
        20,
        &et_config(7),
        &mut StdRng::seed_from_u64(7),
        identity_pair,
        &split,
    )
    .unwrap();
    assert_eq!(a.sources, b.sources);
    assert_eq!(a.targets, b.targets);
    assert_eq!(a.occ_nums, b.occ_nums);
}

#[test]
fn fixed_et_e_zero_t_zero() {
    let mut rng = StdRng::seed_from_u64(1);
    let split = et_split(OccupationFamily::ME);
    let net = sample_fixed_et_core(OccupationFamily::ME, 10, 0, 0, &et_config(1), &mut rng, identity_pair, &split)
        .unwrap();
    assert!(net.sources.is_empty());
}

#[test]
fn fixed_et_invalid_e_above_l() {
    let mut rng = StdRng::seed_from_u64(1);
    let split = et_split(OccupationFamily::ME);
    assert!(sample_fixed_et_core(OccupationFamily::ME, 10, 11, 12, &et_config(1), &mut rng, identity_pair, &split)
        .is_err());
}

#[test]
fn fixed_et_invalid_t_below_e() {
    let mut rng = StdRng::seed_from_u64(1);
    let split = et_split(OccupationFamily::ME);
    assert!(sample_fixed_et_core(OccupationFamily::ME, 10, 5, 4, &et_config(1), &mut rng, identity_pair, &split)
        .is_err());
}

#[test]
fn fixed_et_invalid_b_capacity() {
    let mut rng = StdRng::seed_from_u64(1);
    let family = OccupationFamily::B { layers: 2 };
    let split = et_split(family);
    assert!(sample_fixed_et_core(family, 10, 5, 11, &et_config(1), &mut rng, identity_pair, &split).is_err());
}

#[test]
fn fixed_et_general_case_exact_constraints() {
    let mut rng = StdRng::seed_from_u64(42);
    let split = et_split(OccupationFamily::ME);
    let net = sample_fixed_et_core(OccupationFamily::ME, 100, 8, 20, &et_config(42), &mut rng, identity_pair, &split)
        .unwrap();
    assert_eq!(net.sources.len(), 8);
    assert_eq!(net.occ_nums.iter().sum::<OccNum>(), 20);
    assert!(net.occ_nums.iter().all(|&t| t >= 1));
}

#[test]
fn fixed_et_reproducible() {
    let split = et_split(OccupationFamily::ME);
    let run = || {
        sample_fixed_et_core(
            OccupationFamily::ME,
            100,
            8,
            20,
            &et_config(7),
            &mut StdRng::seed_from_u64(7),
            identity_pair,
            &split,
        )
        .unwrap()
    };
    let a = run();
    let b = run();
    assert_eq!(a.sources, b.sources);
    assert_eq!(a.targets, b.targets);
    assert_eq!(a.occ_nums, b.occ_nums);
}

#[test]
fn inconsistent_zero_edges_or_events_rejected() {
    let mut rng = StdRng::seed_from_u64(2);
    let split = et_split(OccupationFamily::ME);
    assert!(sample_fixed_et_core(OccupationFamily::ME, 10, 0, 3, &et_config(2), &mut rng, identity_pair, &split)
        .is_err());
    assert!(sample_fixed_et_core(OccupationFamily::ME, 10, 3, 0, &et_config(2), &mut rng, identity_pair, &split)
        .is_err());
    assert!(check_fixed_et_residual(OccupationFamily::B { layers: 3 }, 10, 4, 12).is_ok());
    assert_eq!(
        check_fixed_et_residual(OccupationFamily::B { layers: 3 }, 10, 4, 13).is_err(),
        true
    );
}

#[test]
fn single_edge_and_unit_occupations() {
    let split = et_split(OccupationFamily::ME);
    let mut rng = StdRng::seed_from_u64(3);
    let net = sample_fixed_et_core(OccupationFamily::ME, 5, 1, 9, &et_config(3), &mut rng, identity_pair, &split)
        .unwrap();
    assert_eq!(net.occ_nums, vec![9]);
    assert!(net.sources[0] < 5);
    let net = sample_fixed_et_core(OccupationFamily::ME, 5, 5, 5, &et_config(3), &mut rng, identity_pair, &split)
        .unwrap();
    assert_eq!(net.occ_nums, vec![1, 1, 1, 1, 1]);
    let mut srcs = net.sources.clone();
    srcs.sort_unstable();
    assert_eq!(srcs, vec![0, 1, 2, 3, 4]);
    assert_eq!(trivial_occupations(3, 7), None);
    assert_eq!(trivial_occupations(0, 0), Some(vec![]));
}

// ---- family entry points ----

fn check_indexed(net: &menobis_core::output::SampledNetwork, n: u64, self_loops: bool, e: usize, t: OccNum) {
    assert_eq!(net.sources.len(), e);
    assert_eq!(net.occ_nums.iter().sum::<OccNum>(), t);
    let mut seen = HashSet::new();
    for (&s, &g) in net.sources.iter().zip(net.targets.iter()) {
        assert!(s < n && g < n);
        if !self_loops {
            assert_ne!(s, g);
        }
        assert!(seen.insert((s, g)));
    }
}

#[test]
fn me_b_w_index_mapped_samplers() {
    let me = sample_me_fixed_et(6, false, 10, 25, 11, &et_split(OccupationFamily::ME)).unwrap();
    check_indexed(&me, 6, false, 10, 25);
    let b = sample_b_fixed_et(5, true, 3, 8, 20, 12, &et_split(OccupationFamily::B { layers: 3 })).unwrap();
    check_indexed(&b, 5, true, 8, 20);
    assert!(b.occ_nums.iter().all(|&t| (1..=3).contains(&t)));
    let w = sample_w_fixed_et(4, false, 2, 12, 30, 13, &et_split(OccupationFamily::W { layers: 2 })).unwrap();
    check_indexed(&w, 4, false, 12, 30);
    // Every ordered off-diagonal pair of 4 nodes is used.
    assert!(sample_me_fixed_et(4, false, 13, 30, 1, &et_split(OccupationFamily::ME)).is_err());
    assert!(sample_b_fixed_et(4, false, 2, 5, 11, 1, &et_split(OccupationFamily::B { layers: 2 })).is_err());
}

#[test]
fn explicit_pair_samplers() {
    let src = vec![0u64, 0, 1, 2, 3];
    let tgt = vec![1u64, 2, 3, 0, 1];
    let allowed: HashSet<(u64, u64)> = src.iter().copied().zip(tgt.iter().copied()).collect();
    for net in [
        sample_me_fixed_et_explicit(&src, &tgt, 4, 9, 5, &et_split(OccupationFamily::ME)).unwrap(),
        sample_b_fixed_et_explicit(&src, &tgt, 2, 4, 8, 5, &et_split(OccupationFamily::B { layers: 2 }))
            .unwrap(),
        sample_w_fixed_et_explicit(&src, &tgt, 3, 4, 9, 5, &et_split(OccupationFamily::W { layers: 3 }))
            .unwrap(),
    ] {
        assert_eq!(net.sources.len(), 4);
        let mut seen = HashSet::new();
        for (&s, &g) in net.sources.iter().zip(net.targets.iter()) {
            assert!(allowed.contains(&(s, g)));
            assert!(seen.insert((s, g)));
        }
    }
    assert!(sample_me_fixed_et_explicit(&src, &tgt, 6, 9, 5, &et_split(OccupationFamily::ME)).is_err());
}

#[test]
fn default_config_values() {
    let c = default_config(17);
    assert_eq!(c.burn_in_sweeps, 20);
    assert_eq!(c.sweeps_per_sample, 5);
    assert_eq!(c.proposals_per_sweep, None);
    assert_eq!(c.seed, 17);
}

#[test]
fn occupancy_family_bookkeeping() {
    let b = BFamily { layers: 3 };
    assert_eq!(b.max_occnum(), Some(3));
    assert!(b.validate_residual(4, 12).is_ok());
    assert_eq!(b.validate_residual(4, 13), Err(FixedETError::InvalidResidual("B residual total 13 exceeds M·E = 3×4 = 12".to_owned())));
    // min(T, M E - T), at least one.
    assert_eq!(b.rejection_cost_per_attempt(5, 4), 5);
    assert_eq!(b.rejection_cost_per_attempt(10, 4), 2);
    assert_eq!(b.rejection_cost_per_attempt(12, 4), 1);
    let w = WFamily { layers: 2 };
    assert_eq!(w.max_occnum(), None);
    assert!(w.validate_residual(3, 100).is_ok());
    assert_eq!(w.rejection_cost_per_attempt(7, 3), 13);
    let me = MeFamily;
    assert_eq!(me.max_occnum(), None);
    assert!(me.validate_residual(3, 1).is_ok());
    assert_eq!(me.rejection_cost_per_attempt(7, 3), 10);
}
