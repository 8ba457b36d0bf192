use menobis_core::fixed_kt::{FixedKTConfig, FixedKTError};
use menobis_core::fixed_kt_core::{gibbs_config, sample_fixed_kt_core, sample_fixed_kt_support};
use menobis_core::model::family::OccupationFamily;
use menobis_core::support::FixedDegreeMcmcConfig;
use menobis_core::OccNum;
use rand::rngs::StdRng;
use rand::{Rng, SeedableRng};
use rand_distr::{Beta, Binomial, Distribution, Hypergeometric};
use std::collections::{HashMap, HashSet};

const MAX_REJECT_ATTEMPTS: usize = 64;

fn ln_gamma(x: f64) -> f64 {
    libm::lgamma(x)
}

/// Log base measure `ln d_F(k)` of the microcanonical family:
/// `-ln k!` (ME), `ln C(M, k)` (B, `-inf` above `M`), `ln C(M + k - 1, k)` (W).
fn log_base_measure(family: OccupationFamily, k: OccNum) -> f64 {
    let t = k as f64;
    match family {
        OccupationFamily::ME => -ln_gamma(t + 1.0),
        OccupationFamily::B { layers } => {
            if k > OccNum::from(layers) {
                return f64::NEG_INFINITY;
            }
            let m = f64::from(layers);
            ln_gamma(m + 1.0) - ln_gamma(t + 1.0) - ln_gamma(m - t + 1.0)
        }
        OccupationFamily::W { layers } => {
            let m = f64::from(layers);
            ln_gamma(m + t) - ln_gamma(t + 1.0) - ln_gamma(m)
        }
    }
}

/// Draw a split of `q` into two positive parts under the family law:
/// ME `Binomial(q, 1/2)`, B `Hypergeometric(2M, M, q)`, W
/// `BetaBinomial(q, M, M)`, each conditioned on `1 <= k <= q - 1`.
///
/// # Panics
///
/// Panics if `q < 2` or if no feasible split exists for the family.
fn sample_split(family: OccupationFamily, q: OccNum, rng: &mut impl Rng) -> (OccNum, OccNum) {
    assert!(q >= 2, "split requires q >= 2, got {q}");
    if q == 2 {
        return (1, 1);
    }
    match family {
        OccupationFamily::ME => sample_me_split(q, rng),
        OccupationFamily::B { layers } => sample_b_split(u64::from(layers), q, rng),
        OccupationFamily::W { layers } => sample_w_split(u64::from(layers), q, rng),
    }
}

fn sample_me_split(q: OccNum, rng: &mut impl Rng) -> (OccNum, OccNum) {
    let dist = match Binomial::new(q, 0.5) {
        Ok(d) => d,
        Err(_) => return sample_split_exact_fallback(OccupationFamily::ME, q, rng),
    };
    for _ in 0..MAX_REJECT_ATTEMPTS {
        let k = dist.sample(rng);
        if k >= 1 && k < q {
            return (k, q - k);
        }
    }
    sample_split_exact_fallback(OccupationFamily::ME, q, rng)
}

fn sample_b_split(m: u64, q: OccNum, rng: &mut impl Rng) -> (OccNum, OccNum) {
    let family = OccupationFamily::B { layers: m as u32 };
    let dist = match Hypergeometric::new(2 * m, m, q) {
        Ok(d) => d,
        Err(_) => return sample_split_exact_fallback(family, q, rng),
    };
    for _ in 0..MAX_REJECT_ATTEMPTS {
        let k = dist.sample(rng);
        if k >= 1 && k < q {
            return (k, q - k);
        }
    }
    sample_split_exact_fallback(family, q, rng)
}

fn sample_w_split(m: u64, q: OccNum, rng: &mut impl Rng) -> (OccNum, OccNum) {
    if m == 1 {
        let k = rng.random_range(1..q);
        return (k, q - k);
    }
    let family = OccupationFamily::W { layers: m as u32 };
    let beta = match Beta::new(m as f64, m as f64) {
        Ok(b) => b,
        Err(_) => return sample_split_exact_fallback(family, q, rng),
    };
    for _ in 0..MAX_REJECT_ATTEMPTS {
        let p = beta.sample(rng);
        if let Ok(dist) = Binomial::new(q, p.clamp(0.0, 1.0)) {
            let k = dist.sample(rng);
            if k >= 1 && k < q {
                return (k, q - k);
            }
        }
    }
    sample_split_exact_fallback(family, q, rng)
}

/// Exact fallback: draw `k` from the normalized weights
/// `d_F(k) d_F(q - k)` over `k in [1, q - 1]`.
fn sample_split_exact_fallback(family: OccupationFamily, q: OccNum, rng: &mut impl Rng) -> (OccNum, OccNum) {
    let mut log_w = Vec::with_capacity((q - 1) as usize);
    for k in 1..q {
        log_w.push(log_base_measure(family, k) + log_base_measure(family, q - k));
    }
    let max = log_w.iter().cloned().fold(f64::NEG_INFINITY, f64::max);
    let weights: Vec<f64> = log_w.iter().map(|&w| (w - max).exp()).collect();
    let total: f64 = weights.iter().sum();
    assert!(total.is_finite() && total > 0.0, "no feasible split for q={q} under {family:?}");
    let mut u = rng.random::<f64>() * total;
    for (idx, w) in weights.iter().enumerate() {
        u -= w;
        if u <= 0.0 {
            let k = idx as OccNum + 1;
            return (k, q - k);
        }
    }
    (q - 1, 1)
}

/// The exact family split law, each draw from a generator seeded by `w`.
fn kt_split(family: OccupationFamily) -> impl Fn(OccNum, u64) -> (OccNum, OccNum) {
    move |q: OccNum, w: u64| {
        let mut rng = StdRng::seed_from_u64(w);
        sample_split(family, q, &mut rng)
    }
}

fn kt_config(burn_in: usize, thin: usize, seed: u64, self_loops: bool) -> FixedKTConfig {
    FixedKTConfig {
        mcmc: FixedDegreeMcmcConfig {
            burn_in_sweeps: burn_in,
            sweeps_per_sample: thin,
            proposals_per_sweep: None,
            seed,
            self_loops,
        },
        self_loops,
        admissible_pairs: None,
    }
}

/// All simple directed supports realizing the degree pair.
fn enumerate_supports(out: &[u32], inp: &[u32], self_loops: bool) -> Vec<Vec<(u64, u64)>> {
    let n = out.len();
    let mut pairs = Vec::new();
    for i in 0..n {
        for j in 0..n {
            if self_loops || i != j {
                pairs.push((i as u64, j as u64));
            }
        }
    }
    let e: u32 = out.iter().sum();
    let mut found = Vec::new();
    let total = 1u64 << pairs.len();
    for mask in 0..total {
        if mask.count_ones() != e {
            continue;
        }
        let chosen: Vec<(u64, u64)> =
            pairs.iter().enumerate().filter(|(k, _)| mask >> k & 1 == 1).map(|(_, &p)| p).collect();
        let mut o = vec![0u32; n];
        let mut d = vec![0u32; n];
        for &(s, t) in &chosen {
            o[s as usize] += 1;
            d[t as usize] += 1;
        }
        if o == out && d == inp {
            found.push(chosen);
        }
    }
    found
}

#[test]
fn core_me_directed_cycle() {
    let out = vec![1u32, 1, 1, 1];
    let inp = vec![1u32, 1, 1, 1];
    let config = kt_config(10, 5, 42, false);
    let result =
        sample_fixed_kt_core(OccupationFamily::ME, &out, &inp, 8, &config, &kt_split(OccupationFamily::ME))
            .unwrap();
    assert_eq!(result.sources.len(), 4);
    assert_eq!(result.occ_nums.iter().sum::<OccNum>(), 8);
    let mut support_out = vec![0u32; 4];
    for &s in &result.sources {
        support_out[s as usize] += 1;
    }
    assert_eq!(support_out, out);
}

#[test]
fn core_me_out_star() {
    let n = 5;
    let mut out = vec![0u32; n];
    out[0] = (n - 1) as u32;
    let mut inp = vec![0u32; n];
    for item in inp.iter_mut().skip(1) {
        *item = 1;
    }
    let config = kt_config(10, 5, 42, false);
    let t = (n as OccNum - 1) * 3;
    let result =
        sample_fixed_kt_core(OccupationFamily::ME, &out, &inp, t, &config, &kt_split(OccupationFamily::ME))
            .unwrap();
    assert_eq!(result.sources.len(), n - 1);
    assert_eq!(result.occ_nums.iter().sum::<OccNum>(), t);
    let mut support_out = vec![0u32; n];
    for &s in &result.sources {
        support_out[s as usize] += 1;
    }
    assert_eq!(support_out, out);
}

#[test]
fn core_b_directed_cycle() {
    let out = vec![1u32, 1, 1, 1];
    let inp = vec![1u32, 1, 1, 1];
    let config = kt_config(10, 5, 42, false);
    let family = OccupationFamily::B { layers: 4 };
    let result = sample_fixed_kt_core(family, &out, &inp, 6, &config, &kt_split(family)).unwrap();
    assert_eq!(result.sources.len(), 4);
    assert_eq!(result.occ_nums.iter().sum::<OccNum>(), 6);
}

#[test]
fn core_w_directed_cycle() {
    let out = vec![1u32, 1, 1, 1];
    let inp = vec![1u32, 1, 1, 1];
    let config = kt_config(10, 5, 42, false);
    let family = OccupationFamily::W { layers: 2 };
    let result = sample_fixed_kt_core(family, &out, &inp, 10, &config, &kt_split(family)).unwrap();
    assert_eq!(result.sources.len(), 4);
    assert_eq!(result.occ_nums.iter().sum::<OccNum>(), 10);
}

#[test]
fn core_infeasible_t_below_e() {
    let out = vec![2u32, 2];
    let inp = vec![2u32, 2];
    let config = FixedKTConfig::default();
    let result =
        sample_fixed_kt_core(OccupationFamily::ME, &out, &inp, 3, &config, &kt_split(OccupationFamily::ME));
    assert!(result.is_err());
}

#[test]
fn core_reproducible() {
    let out = vec![1u32, 1, 1, 1];
    let inp = vec![1u32, 1, 1, 1];
    let config = kt_config(5, 2, 42, false);
    let split = kt_split(OccupationFamily::ME);
    let a = sample_fixed_kt_core(OccupationFamily::ME, &out, &inp, 8, &config, &split).unwrap();
    let b = sample_fixed_kt_core(OccupationFamily::ME, &out, &inp, 8, &config, &split).unwrap();
    assert_eq!(a.sources, b.sources);
    assert_eq!(a.targets, b.targets);
    assert_eq!(a.occ_nums, b.occ_nums);
}

#[test]
fn me_directed_self_loops() {
    let out = vec![1u32, 1];
    let inp = vec![1u32, 1];
    let config = kt_config(20, 10, 42, true);
    let result =
        sample_fixed_kt_core(OccupationFamily::ME, &out, &inp, 2, &config, &kt_split(OccupationFamily::ME))
            .unwrap();
    assert_eq!(result.sources.len(), 2);
    assert_eq!(result.occ_nums.iter().sum::<OccNum>(), 2);
    let mut support_out = vec![0u32; 2];
    for &s in &result.sources {
        support_out[s as usize] += 1;
    }
    assert_eq!(support_out, out);
}

#[test]
fn me_self_loops_with_occupation() {
    let out = vec![2u32, 1];
    let inp = vec![1u32, 2];
    let config = kt_config(20, 10, 42, true);
    let result =
        sample_fixed_kt_core(OccupationFamily::ME, &out, &inp, 5, &config, &kt_split(OccupationFamily::ME))
            .unwrap();
    assert_eq!(result.sources.len(), 3);
    assert_eq!(result.occ_nums.iter().sum::<OccNum>(), 5);
    let mut support_out = vec![0u32; 2];
    for &s in &result.sources {
        support_out[s as usize] += 1;
    }
    assert_eq!(support_out, out);
}

#[test]
fn exhaustive_support_uniformity_for_4_cycle() {
    let out = vec![1u32, 1, 1, 1];
    let inp = vec![1u32, 1, 1, 1];
    let supports = enumerate_supports(&out, &inp, false);
    // The 9 derangements of four nodes.
    assert!(!supports.is_empty(), "no supports found");
    assert_eq!(supports.len(), 9);

    let split = kt_split(OccupationFamily::ME);
    let mut counts: HashMap<Vec<(u64, u64)>, u64> = HashMap::new();
    let trials = 5000;
    for seed in 0..trials {
        let config = kt_config(20, 10, seed, false);
        let result = sample_fixed_kt_core(OccupationFamily::ME, &out, &inp, 4, &config, &split).unwrap();
        let mut edges: Vec<(u64, u64)> =
            result.sources.iter().zip(result.targets.iter()).map(|(&s, &t)| (s, t)).collect();
        edges.sort_unstable();
        *counts.entry(edges).or_default() += 1;
    }

    let expected = trials as f64 / supports.len() as f64;
    for (_edges, count) in counts.iter() {
        let ratio = *count as f64 / expected;
        assert!(
            ratio > 0.5 && ratio < 1.5,
            "support frequency {count} vs expected {expected:.1} (ratio {ratio:.2})"
        );
    }
}

#[test]
fn connectivity_of_switch_graph() {
    let out = vec![1u32, 1, 1];
    let inp = vec![1u32, 1, 1];
    let supports = enumerate_supports(&out, &inp, false);
    if supports.is_empty() || supports.len() > 20 {
        return;
    }
    let mut adj: HashMap<Vec<(u64, u64)>, Vec<Vec<(u64, u64)>>> = HashMap::new();
    for s in &supports {
        adj.entry(s.clone()).or_default();
    }
    for i in 0..supports.len() {
        for j in i + 1..supports.len() {
            let a = &supports[i];
            let b = &supports[j];
            let set_a: HashSet<_> = a.iter().copied().collect();
            let set_b: HashSet<_> = b.iter().copied().collect();
            let diff: Vec<_> = set_a.symmetric_difference(&set_b).copied().collect();
            if diff.len() == 4 {
                adj.entry(a.clone()).or_default().push(b.clone());
                adj.entry(b.clone()).or_default().push(a.clone());
            }
        }
    }
    let mut visited = HashSet::new();
    let mut stack = vec![supports[0].clone()];
    while let Some(s) = stack.pop() {
        if !visited.insert(s.clone()) {
            continue;
        }
        if let Some(neighbors) = adj.get(&s) {
            for nb in neighbors {
                if !visited.contains(nb) {
                    stack.push(nb.clone());
                }
            }
        }
    }
    let connected = visited.len();
    let total = supports.len();
    println!("2-edge switch connectivity: {connected}/{total} supports connected");
    assert!(connected >= 1);
}

#[test]
fn kt_errors_and_empty_network() {
    let split = kt_split(OccupationFamily::ME);
    let config = kt_config(2, 1, 3, false);
    // Zero edges with zero total gives the empty network.
    let net = sample_fixed_kt_core(OccupationFamily::ME, &[0, 0], &[0, 0], 0, &config, &split).unwrap();
    assert!(net.sources.is_empty() && net.occ_nums.is_empty());
    // Zero edges but a positive total.
    assert!(matches!(
        sample_fixed_kt_core(OccupationFamily::ME, &[0, 0], &[0, 0], 3, &config, &split),
        Err(FixedKTError::InvalidResidual(_))
    ));
    // Unequal degree totals.
    assert!(matches!(
        sample_fixed_kt_core(OccupationFamily::ME, &[1, 0], &[0, 0], 3, &config, &split),
        Err(FixedKTError::InvalidResidual(_))
    ));
    // B capacity: 4 edges with 2 layers hold at most 8 events.
    let b = OccupationFamily::B { layers: 2 };
    assert!(sample_fixed_kt_core(b, &[1, 1, 1, 1], &[1, 1, 1, 1], 9, &config, &kt_split(b)).is_err());
    let net = sample_fixed_kt_core(b, &[1, 1, 1, 1], &[1, 1, 1, 1], 8, &config, &kt_split(b)).unwrap();
    assert_eq!(net.occ_nums, vec![2, 2, 2, 2]);
}

#[test]
fn kt_support_stage_realizes_degrees_with_admissible_pairs() {
    let mut config = kt_config(5, 2, 9, false);
    config.admissible_pairs = Some(vec![(0, 1), (1, 2), (2, 0), (0, 2), (1, 0), (2, 1)]);
    let edges =
        sample_fixed_kt_support(OccupationFamily::ME, &[1, 1, 1], &[1, 1, 1], 3, &config).unwrap();
    assert_eq!(edges.len(), 3);
    let mut o = vec![0u32; 3];
    let mut d = vec![0u32; 3];
    for &(s, t) in &edges {
        assert_ne!(s, t);
        o[s as usize] += 1;
        d[t as usize] += 1;
    }
    assert_eq!(o, vec![1, 1, 1]);
    assert_eq!(d, vec![1, 1, 1]);
    let g = gibbs_config(&config);
    assert_eq!((g.burn_in_sweeps, g.sweeps_per_sample, g.seed), (5, 2, 9));
}

#[test]
fn all_zero_degrees_with_zero_total_give_empty_network() {
    let config = kt_config(2, 1, 1, false);
    let split = kt_split(OccupationFamily::ME);
    let r = sample_fixed_kt_core(OccupationFamily::ME, &[0, 0, 0], &[0, 0, 0], 0, &config, &split)
        .expect("empty network");
    assert!(r.sources.is_empty());
    assert!(r.occ_nums.is_empty());
}

#[test]
fn infeasible_total_is_invalid_residual() {
    let config = kt_config(2, 1, 1, false);
    let split = kt_split(OccupationFamily::ME);
    let r = sample_fixed_kt_core(OccupationFamily::ME, &[2, 2], &[2, 2], 3, &config, &split);
    assert!(matches!(r, Err(FixedKTError::InvalidResidual(_))));
    let r = sample_fixed_kt_support(OccupationFamily::B { layers: 2 }, &[1, 1], &[1, 1], 5, &config);
    assert!(matches!(r, Err(FixedKTError::InvalidResidual(_))));
}

#[test]
fn non_graphical_degrees_are_invalid_residual() {
    // Node 1 needs two targets other than itself, but node 0 takes none.
    let config = kt_config(2, 1, 1, false);
    let split = kt_split(OccupationFamily::ME);
    let r = sample_fixed_kt_core(OccupationFamily::ME, &[2, 2, 0], &[0, 2, 2], 4, &config, &split);
    assert!(matches!(r, Err(FixedKTError::InvalidResidual(_))));
    let r = sample_fixed_kt_support(OccupationFamily::ME, &[2, 2, 0], &[0, 2, 2], 4, &config);
    assert!(matches!(r, Err(FixedKTError::InvalidResidual(_))));
}
