use menobis_core::fixed_total::{
    initialize_balanced, sample_fixed_total, FixedTotalChain, FixedTotalState,
};
use menobis_core::mcmc::McmcConfig;
use menobis_core::model::family::OccupationFamily;
use menobis_core::OccNum;
use rand::rngs::StdRng;
use rand::SeedableRng;

fn rng(seed: u64) -> StdRng {
    StdRng::seed_from_u64(seed)
}

fn config(seed: u64) -> McmcConfig {
    McmcConfig { burn_in_sweeps: 10, sweeps_per_sample: 5, proposals_per_sweep: None, seed }
}

/// A valid split of `q` for the family, picked from the random word `w`:
/// uniform over the feasible first parts.
fn split_for(family: OccupationFamily) -> impl Fn(OccNum, u64) -> (OccNum, OccNum) {
    move |q: OccNum, w: u64| {
        let (lo, hi) = match family {
            OccupationFamily::B { layers } => {
                let m = layers as u64;
                let lo = if q > m { q - m } else { 1 };
                (lo.max(1), m.min(q - 1))
            }
            _ => (1, q - 1),
        };
        if lo > hi {
            return (1, q - 1);
        }
        let k = lo + w % (hi - lo + 1);
        (k, q - k)
    }
}

// ---- state ----

#[test]
fn total_computed() {
    let s = FixedTotalState::new(vec![1, 2, 3]);
    assert_eq!(s.total(), 6);
    assert_eq!(s.len(), 3);
    assert_eq!(s.get(1), 2);
}

#[test]
fn set_pair_keeps_total() {
    let mut s = FixedTotalState::new(vec![1, 3, 2]);
    s.set_pair(0, 1, 2, 2); // (1,3) -> (2,2): sum still 4
    assert_eq!(s.total(), 6);
    assert_eq!(s.occupations(), &[2, 2, 2]);
}

#[test]
fn empty_state_has_zero_total() {
    let s = FixedTotalState::new(vec![]);
    assert!(s.is_empty());
    assert_eq!(s.total(), 0);
    assert!(!FixedTotalState::new(vec![4]).is_empty());
}

// ---- chain ----

#[test]
fn total_and_positivity_preserved() {
    let mut r = rng(1);
    let split = split_for(OccupationFamily::ME);
    let mut chain =
        FixedTotalChain::new(FixedTotalState::new(vec![1, 3, 2, 4]), OccupationFamily::ME, config(1));
    for _ in 0..200 {
        chain.step(&mut r, &split);
        assert_eq!(chain.state.total(), 10);
        assert!(chain.state.occupations().iter().all(|&t| t >= 1));
    }
}

#[test]
fn b_cap_preserved() {
    let mut r = rng(2);
    let family = OccupationFamily::B { layers: 3 };
    let split = split_for(family);
    let mut chain = FixedTotalChain::new(FixedTotalState::new(vec![2, 2, 3, 3]), family, config(2));
    for _ in 0..200 {
        chain.step(&mut r, &split);
        assert_eq!(chain.state.total(), 10);
        assert!(chain.state.occupations().iter().all(|&t| (1..=3).contains(&t)));
    }
}

#[test]
fn reproducible_one_shot() {
    let split = split_for(OccupationFamily::ME);
    let a = sample_fixed_total(OccupationFamily::ME, 5, 15, &config(42), &split).unwrap();
    let b = sample_fixed_total(OccupationFamily::ME, 5, 15, &config(42), &split).unwrap();
    assert_eq!(a, b);
    assert_eq!(a.iter().sum::<OccNum>(), 15);
    assert!(a.iter().all(|&t| t >= 1));
}

#[test]
fn trivial_cases() {
    let split = split_for(OccupationFamily::ME);
    assert_eq!(sample_fixed_total(OccupationFamily::ME, 0, 0, &config(1), &split).unwrap(), vec![]);
    assert_eq!(sample_fixed_total(OccupationFamily::ME, 1, 7, &config(1), &split).unwrap(), vec![7]);
    assert!(sample_fixed_total(OccupationFamily::ME, 0, 3, &config(1), &split).is_err());
}

#[test]
fn one_cell_step_is_noop() {
    let mut r = rng(3);
    let split = split_for(OccupationFamily::ME);
    let mut chain =
        FixedTotalChain::new(FixedTotalState::new(vec![9]), OccupationFamily::ME, config(3));
    chain.step(&mut r, &split);
    assert_eq!(chain.state.occupations(), &[9]);
    assert_eq!(chain.counters.proposals, 1);
    assert_eq!(chain.counters.accepted, 0);
}

#[test]
fn sweeps_count_steps_and_keep_constraints() {
    let mut r = rng(4);
    let family = OccupationFamily::W { layers: 2 };
    let split = split_for(family);
    let mut chain = FixedTotalChain::new(FixedTotalState::new(vec![5, 1, 1, 3, 2]), family, config(4));
    assert_eq!(chain.sweep_len(), 5);
    chain.burn_in(&mut r, &split);
    assert_eq!(chain.counters.proposals, 50);
    assert_eq!(chain.counters.accepted, 50);
    let v = chain.sample(&mut r, &split);
    assert_eq!(chain.counters.proposals, 75);
    assert_eq!(v.len(), 5);
    assert_eq!(v.iter().sum::<OccNum>(), 12);
    assert!(v.iter().all(|&t| t >= 1));
}

#[test]
fn fixed_total_rejects_infeasible_and_respects_b_cap() {
    let b = OccupationFamily::B { layers: 2 };
    let split = split_for(b);
    assert!(sample_fixed_total(b, 3, 7, &config(5), &split).is_err());
    assert!(sample_fixed_total(OccupationFamily::ME, 4, 3, &config(5), &split).is_err());
    let v = sample_fixed_total(b, 3, 6, &config(5), &split).unwrap();
    assert_eq!(v, vec![2, 2, 2]);
    let v = sample_fixed_total(b, 4, 6, &config(6), &split).unwrap();
    assert_eq!(v.iter().sum::<OccNum>(), 6);
    assert!(v.iter().all(|&t| (1..=2).contains(&t)));
}

// ---- initializer ----

#[test]
fn balanced_total() {
    let v = initialize_balanced(OccupationFamily::ME, 4, 10, &mut rng(1)).unwrap();
    assert_eq!(v.len(), 4);
    assert_eq!(v.iter().sum::<OccNum>(), 10);
    assert!(v.iter().all(|&t| t >= 1));
}

#[test]
fn b_cap_respected() {
    // B(3), E=4, T=10 → R=6, q=1, rem=2 → values {2,2,3,3}
    let v = initialize_balanced(OccupationFamily::B { layers: 3 }, 4, 10, &mut rng(1)).unwrap();
    assert_eq!(v.iter().sum::<OccNum>(), 10);
    assert!(v.iter().all(|&t| (1..=3).contains(&t)));
}

#[test]
fn t_equals_e_all_ones() {
    let v = initialize_balanced(OccupationFamily::ME, 5, 5, &mut rng(1)).unwrap();
    assert_eq!(v, vec![1, 1, 1, 1, 1]);
}

#[test]
fn e_one() {
    let v = initialize_balanced(OccupationFamily::ME, 1, 7, &mut rng(1)).unwrap();
    assert_eq!(v, vec![7]);
}

#[test]
fn e_zero() {
    assert_eq!(
        initialize_balanced(OccupationFamily::ME, 0, 0, &mut rng(1)).unwrap(),
        Vec::<OccNum>::new()
    );
    assert!(initialize_balanced(OccupationFamily::ME, 0, 3, &mut rng(1)).is_err());
}

#[test]
fn initializer_invalid_t_below_e() {
    assert!(initialize_balanced(OccupationFamily::ME, 4, 3, &mut rng(1)).is_err());
}

#[test]
fn invalid_b_overflow() {
    assert!(initialize_balanced(OccupationFamily::B { layers: 2 }, 3, 7, &mut rng(1)).is_err());
}

#[test]
fn initializer_deterministic_same_seed() {
    let a = initialize_balanced(OccupationFamily::ME, 6, 20, &mut rng(42)).unwrap();
    let b = initialize_balanced(OccupationFamily::ME, 6, 20, &mut rng(42)).unwrap();
    assert_eq!(a, b);
}

#[test]
fn balanced_fill_values_are_exact() {
    // R = 20 - 6 = 14 = 6 * 2 + 2: four cells of 3 and two of 4.
    let mut v = initialize_balanced(OccupationFamily::W { layers: 5 }, 6, 20, &mut rng(9)).unwrap();
    v.sort_unstable();
    assert_eq!(v, vec![3, 3, 3, 3, 4, 4]);
    // A capacity that the saturated product would exceed is still accepted.
    let v = initialize_balanced(OccupationFamily::B { layers: u32::MAX }, 2, 10, &mut rng(9)).unwrap();
    assert_eq!(v.iter().sum::<OccNum>(), 10);
}

#[test]
fn step_changes_at_most_two_cells() {
    let mut r = rng(9);
    let split = split_for(OccupationFamily::ME);
    let state = FixedTotalState::new(vec![3, 1, 4, 1, 5]);
    let mut chain = FixedTotalChain::new(state, OccupationFamily::ME, config(3));
    for _ in 0..50 {
        let before = chain.state.occupations().to_vec();
        chain.step(&mut r, &split);
        let after = chain.state.occupations().to_vec();
        let changed = before.iter().zip(after.iter()).filter(|(a, b)| a != b).count();
        assert!(changed <= 2);
        assert_eq!(after.iter().sum::<u64>(), 14);
    }
}

#[test]
fn gibbs_move_writes_the_drawn_split() {
    let state = FixedTotalState::new(vec![3, 2, 5]);
    let mut chain = FixedTotalChain::new(state, OccupationFamily::ME, config(1));
    let split = split_for(OccupationFamily::ME);
    // q = 3 + 5 = 8; the first part is 1 + 3 mod 7 = 4.
    let r = chain.gibbs_move(0, 2, 3, &split);
    assert_eq!(r, (4, 4));
    assert_eq!(chain.state.occupations(), &[4, 2, 4]);
    assert_eq!(chain.state.total(), 10);
    assert_eq!(chain.counters.proposals, 0);
    let r = chain.gibbs_move(1, 0, 0, &split);
    assert_eq!(r, (1, 5));
    assert_eq!(chain.state.occupations(), &[5, 1, 4]);
}

#[test]
fn single_cell_sample_is_the_whole_total() {
    let split = split_for(OccupationFamily::ME);
    assert_eq!(sample_fixed_total(OccupationFamily::ME, 1, 7, &config(3), &split).unwrap(), vec![7]);
}
