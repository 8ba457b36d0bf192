use menobis_core::fixed_strength::FixedStrengthError;
use menobis_core::me_direct::{sample_strength_stub_matching, MAX_EXPLICIT_STUBS};

#[test]
fn preserves_exact_strengths() {
    let s_out = vec![10, 20, 30];
    let s_in = vec![15, 25, 20];
    let result = sample_strength_stub_matching(&s_out, &s_in, 42).unwrap();
    let total: u64 = result.occ_nums.iter().sum();
    assert_eq!(total, 60);
    let mut actual_out = vec![0u64; 3];
    let mut actual_in = vec![0u64; 3];
    for ((&src, &tgt), &w) in result.sources.iter().zip(result.targets.iter()).zip(result.occ_nums.iter()) {
        actual_out[src as usize] += w;
        actual_in[tgt as usize] += w;
    }
    assert_eq!(actual_out, s_out);
    assert_eq!(actual_in, s_in);
}

#[test]
fn me_direct_deterministic_reproducibility() {
    let s_out = vec![5, 7, 3];
    let s_in = vec![4, 6, 5];
    let a = sample_strength_stub_matching(&s_out, &s_in, 42).unwrap();
    let b = sample_strength_stub_matching(&s_out, &s_in, 42).unwrap();
    assert_eq!(a.sources, b.sources);
    assert_eq!(a.targets, b.targets);
    assert_eq!(a.occ_nums, b.occ_nums);
}

#[test]
fn rejects_unbalanced_strengths() {
    let s_out = vec![10, 10];
    let s_in = vec![5, 5];
    assert!(sample_strength_stub_matching(&s_out, &s_in, 0).is_err());
}

#[test]
fn zero_strengths() {
    let s_out = vec![0u64; 5];
    let s_in = vec![0u64; 5];
    let result = sample_strength_stub_matching(&s_out, &s_in, 0).unwrap();
    assert!(result.sources.is_empty());
    assert!(result.targets.is_empty());
    assert!(result.occ_nums.is_empty());
}

#[test]
fn too_large_returns_error() {
    let limit = MAX_EXPLICIT_STUBS + 1;
    let s_out = vec![limit, 0];
    let s_in = vec![limit, 0];
    let result = sample_strength_stub_matching(&s_out, &s_in, 0);
    assert!(result.is_err());
    assert!(matches!(result, Err(FixedStrengthError::TooLargeForDirect(_))));
}

#[test]
fn small_case_succeeds() {
    let s_out = vec![5u64, 5];
    let s_in = vec![5u64, 5];
    let result = sample_strength_stub_matching(&s_out, &s_in, 42);
    assert!(result.is_ok());
}

#[test]
fn stub_matching_pairs_are_sorted_and_distinct() {
    let s_out = vec![3u64, 0, 4, 2];
    let s_in = vec![1u64, 5, 2, 1];
    let net = sample_strength_stub_matching(&s_out, &s_in, 7).unwrap();
    let pairs: Vec<(u64, u64)> = net.sources.iter().copied().zip(net.targets.iter().copied()).collect();
    for w in pairs.windows(2) {
        assert!(w[0] < w[1]);
    }
    assert!(net.occ_nums.iter().all(|&w| w >= 1));
    assert!(!net.sources.contains(&1));
    // The error carries the total for the largest admissible total plus one.
    match sample_strength_stub_matching(&[MAX_EXPLICIT_STUBS + 1], &[MAX_EXPLICIT_STUBS + 1], 1) {
        Err(FixedStrengthError::TooLargeForDirect(t)) => assert_eq!(t, MAX_EXPLICIT_STUBS + 1),
        _ => panic!("expected TooLargeForDirect"),
    }
    assert!(matches!(
        sample_strength_stub_matching(&[1, 2], &[2, 2], 1),
        Err(FixedStrengthError::InvalidResidual(_))
    ));
}

#[test]
fn stub_matching_mixes_targets_across_seeds() {
    // Unshuffled stubs would always pair node 0 with itself and node 1 with
    // itself; the shuffle must produce a cross pair for some seed.
    let s_out = vec![5u64, 5];
    let s_in = vec![5u64, 5];
    let mut crossed = false;
    for seed in 0..20 {
        let net = sample_strength_stub_matching(&s_out, &s_in, seed).unwrap();
        if net.sources.iter().zip(net.targets.iter()).any(|(s, t)| s != t) {
            crossed = true;
        }
    }
    assert!(crossed);
}
