use menobis_core::fixed_pairs::{compute_fixed_contributions, residualize, FixedPairs};
use menobis_core::validation::{
    validate_b_occupation_capacity, validate_balanced_degrees, validate_balanced_strengths,
    validate_events_at_least_edges, validate_layers, validate_strength_degree_bounds,
};

#[test]
fn balanced_strengths_pass_and_fail() {
    assert!(validate_balanced_strengths(&[10, 20], &[15, 15]).is_ok());
    assert!(validate_balanced_strengths(&[10, 20], &[15, 14]).is_err());
    assert!(validate_balanced_strengths(&[1], &[1, 2]).is_err());
}

#[test]
fn strength_degree_bounds() {
    assert!(validate_strength_degree_bounds(&[5, 5], &[5, 5], &[2, 3], &[3, 2]).is_ok());
    assert!(validate_strength_degree_bounds(&[5, 5], &[5, 5], &[6, 1], &[3, 2]).is_err());
}

#[test]
fn events_and_edges() {
    assert!(validate_events_at_least_edges(10, 5).is_ok());
    assert!(validate_events_at_least_edges(5, 10).is_err());
}

#[test]
fn b_capacity_and_layers() {
    assert!(validate_b_occupation_capacity(3, &[0, 3]).is_ok());
    assert!(validate_b_occupation_capacity(3, &[0, 4]).is_err());
    assert!(validate_layers(1).is_ok());
    assert!(validate_layers(0).is_err());
}

#[test]
fn balanced_degrees_pass_and_fail() {
    assert!(validate_balanced_degrees(&[1, 2, 3], &[3, 3, 0]).is_ok());
    assert!(validate_balanced_degrees(&[1, 2, 3], &[3, 3, 1]).is_err());
    assert!(validate_balanced_degrees(&[1, 2], &[3]).is_err());
    assert!(validate_balanced_degrees(&[], &[]).is_ok());
}

#[test]
fn strength_degree_bounds_length_and_equality_edges() {
    // Strength equal to degree is allowed (every edge carries one event).
    assert!(validate_strength_degree_bounds(&[2], &[2], &[2], &[2]).is_ok());
    // Only the common prefix of strength and degree is compared.
    assert!(validate_strength_degree_bounds(&[2, 2], &[2], &[2], &[2, 9]).is_ok());
    assert!(validate_strength_degree_bounds(&[2, 1], &[2], &[2, 2], &[2, 9]).is_err());
    // In-degree above in-strength is rejected.
    assert!(validate_strength_degree_bounds(&[5, 5], &[1, 5], &[2, 2], &[2, 2]).is_err());
}

#[test]
fn events_equal_edges_is_accepted() {
    assert!(validate_events_at_least_edges(7, 7).is_ok());
    assert!(validate_events_at_least_edges(0, 0).is_ok());
}

#[test]
fn fixed_contributions_accumulate_all_observables() {
    let fixed = FixedPairs::new(4, true, &[0, 1, 2], &[1, 2, 3], &[3, 0, 5]).expect("valid");
    let contrib = compute_fixed_contributions(4, &fixed);
    assert_eq!(contrib.total_events, 8); // 3 + 0 + 5
    assert_eq!(contrib.total_edges, 2); // only positive occupations
    assert_eq!(contrib.strength_out, vec![3, 0, 5, 0]);
    assert_eq!(contrib.strength_in, vec![0, 3, 0, 5]);
    assert_eq!(contrib.degree_out, vec![1, 0, 1, 0]);
    assert_eq!(contrib.degree_in, vec![0, 1, 0, 1]);
}

#[test]
fn fixed_zero_pair_is_an_ordinary_fixed_pair() {
    let fixed = FixedPairs::new(3, true, &[1], &[2], &[0]).expect("valid");
    assert!(fixed.mask().is_masked(1, 2));
    let contrib = compute_fixed_contributions(3, &fixed);
    assert_eq!(contrib.total_edges, 0);
    assert_eq!(contrib.total_events, 0);
}

#[test]
fn residualize_subtracts_fixed_contributions() {
    let fixed = FixedPairs::new(3, true, &[0, 1], &[1, 2], &[2, 4]).expect("valid");
    let contrib = compute_fixed_contributions(3, &fixed);
    let res = residualize(
        3,
        &contrib,
        Some(100),
        Some(10),
        Some(&[10, 20, 30]),
        Some(&[10, 20, 30]),
        Some(&[3, 4, 5]),
        Some(&[3, 4, 5]),
    )
    .expect("feasible");
    // strength residual: [10-2, 20-4, 30] = [8, 16, 30]
    assert_eq!(res.strength_out.as_deref(), Some(&[8, 16, 30][..]));
    // degree residual: fixed degrees 1+1 -> [2, 3, 5]
    assert_eq!(res.degree_out.as_deref(), Some(&[2, 3, 5][..]));
    assert_eq!(res.total_events, Some(100 - 6));
    assert_eq!(res.total_edges, Some(10 - 2));
}

#[test]
fn residualize_rejects_over_satisfaction() {
    let fixed = FixedPairs::new(3, true, &[0], &[1], &[50]).expect("valid");
    let contrib = compute_fixed_contributions(3, &fixed);
    assert!(residualize(
        3,
        &contrib,
        None,
        None,
        Some(&[10, 20, 30]),
        Some(&[10, 20, 30]),
        None,
        None,
    )
    .is_err());
}

#[test]
fn fixed_pairs_reject_duplicates_and_out_of_range() {
    assert!(FixedPairs::new(3, true, &[0, 0], &[1, 1], &[1, 2]).is_err());
    assert!(FixedPairs::new(3, true, &[0, 5], &[1, 1], &[1, 2]).is_err());
    assert!(FixedPairs::new(3, false, &[1], &[1], &[2]).is_err()); // self-loop conflict
    assert!(FixedPairs::new(3, true, &[0], &[1], &[1]).is_ok());
}

#[test]
fn fixed_pairs_reject_length_mismatch() {
    assert!(FixedPairs::new(3, true, &[0, 1], &[1], &[1, 2]).is_err());
    assert!(FixedPairs::new(3, true, &[0], &[1], &[1, 2]).is_err());
}

#[test]
fn fixed_pairs_empty_masks_only_policy() {
    let fixed = FixedPairs::empty(3, false);
    assert!(fixed.sources.is_empty());
    assert!(fixed.mask().is_masked(1, 1));
    assert!(!fixed.mask().is_masked(0, 1));
    assert_eq!(fixed.mask().n_free(), 6);
}

#[test]
fn residualize_unconstrained_fields_stay_none() {
    let fixed = FixedPairs::new(2, true, &[0], &[1], &[3]).expect("valid");
    let contrib = compute_fixed_contributions(2, &fixed);
    let res = residualize(2, &contrib, None, None, None, None, None, None).expect("feasible");
    assert_eq!(res.total_events, None);
    assert_eq!(res.total_edges, None);
    assert!(res.strength_out.is_none());
    assert!(res.degree_in.is_none());
}

#[test]
fn residualize_rejects_wrong_length_and_excess_totals() {
    let fixed = FixedPairs::new(2, true, &[0], &[1], &[3]).expect("valid");
    let contrib = compute_fixed_contributions(2, &fixed);
    // A constraint sequence of the wrong length.
    assert!(residualize(2, &contrib, None, None, Some(&[5]), None, None, None).is_err());
    // Fixed pairs carry more events / edges than the totals allow.
    assert!(residualize(2, &contrib, Some(2), None, None, None, None, None).is_err());
    assert!(residualize(2, &contrib, None, Some(0), None, None, None, None).is_err());
    // Exact totals leave zero residuals.
    let res = residualize(2, &contrib, Some(3), Some(1), None, None, None, None).expect("feasible");
    assert_eq!(res.total_events, Some(0));
    assert_eq!(res.total_edges, Some(0));
}

#[test]
fn fixed_pairs_mask_free_counts() {
    let f = FixedPairs::new(3, true, &[1], &[2], &[0]).unwrap();
    assert!(f.mask().is_masked(1, 2));
    assert!(!f.mask().is_masked(2, 1));
    assert_eq!(f.mask().n_free(), 8);
    let e = FixedPairs::empty(3, false);
    assert_eq!(e.mask().n_free(), 6);
    let e = FixedPairs::empty(3, true);
    assert_eq!(e.mask().n_free(), 9);
}

#[test]
fn validation_messages_carry_the_numbers() {
    assert_eq!(
        validate_balanced_strengths(&[10, 20], &[15, 14]),
        Err("unbalanced strengths: total out 30 != total in 29".to_owned())
    );
    assert_eq!(
        validate_balanced_degrees(&[1, 1], &[0, 0]),
        Err("unbalanced degrees: total out 2 != total in 0".to_owned())
    );
    assert_eq!(
        validate_strength_degree_bounds(&[5, 5], &[5, 5], &[6, 1], &[3, 2]),
        Err("out strength 5 < out degree 6 at node 0".to_owned())
    );
    assert_eq!(
        validate_strength_degree_bounds(&[5, 5], &[5, 1], &[1, 1], &[3, 2]),
        Err("in strength 1 < in degree 2 at node 1".to_owned())
    );
    assert_eq!(
        validate_events_at_least_edges(5, u64::MAX),
        Err("total events 5 < total edges 18446744073709551615".to_owned())
    );
    assert_eq!(
        validate_b_occupation_capacity(3, &[0, 40]),
        Err("fixed occupation 40 exceeds binomial layer capacity 3".to_owned())
    );
}
