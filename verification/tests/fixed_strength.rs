use menobis_core::distribution::OccupationFamily;
use menobis_core::fixed_strength::{
    build_cycle4, can_use_me_direct, validate_cycle4, FixedStrengthError, PairDomain, StrengthBackend,
};
use menobis_core::OccNum;
use std::collections::HashSet;

fn sparse_of(node_count: usize, pairs: &[(u64, u64)]) -> PairDomain {
    let mut allowed: Vec<HashSet<u64>> = vec![HashSet::new(); node_count];
    for &(s, t) in pairs {
        allowed[s as usize].insert(t);
    }
    PairDomain::Sparse { node_count, allowed }
}

#[test]
fn complete_admits_all_ordered_pairs() {
    let d = PairDomain::Complete { node_count: 3, self_loops: true };
    assert!(d.is_admissible(0, 0));
    assert!(d.is_admissible(0, 1));
    assert!(d.is_admissible(2, 1));
    assert!(!d.is_admissible(3, 0)); // out of range
}

#[test]
fn no_self_loops() {
    let d = PairDomain::Complete { node_count: 3, self_loops: false };
    assert!(!d.is_admissible(0, 0));
    assert!(d.is_admissible(0, 1));
    assert!(d.is_admissible(1, 0));
}

#[test]
fn sparse_domain() {
    let d = sparse_of(2, &[(0, 1), (1, 0)]);
    assert!(d.is_admissible(0, 1));
    assert!(d.is_admissible(1, 0));
    assert!(!d.is_admissible(0, 0));
    assert!(!d.is_admissible(1, 1));
}

#[test]
fn b_capacity_is_layers() {
    let d = PairDomain::Complete { node_count: 5, self_loops: true };
    assert_eq!(d.capacity(OccupationFamily::Binomial(3)), 3);
    assert_eq!(d.capacity(OccupationFamily::Binomial(10)), 10);
}

#[test]
fn me_w_capacity_unbounded() {
    let d = PairDomain::Complete { node_count: 5, self_loops: true };
    assert_eq!(d.capacity(OccupationFamily::Poisson), OccNum::MAX);
    assert_eq!(d.capacity(OccupationFamily::Geometric), OccNum::MAX);
    assert_eq!(d.capacity(OccupationFamily::NegativeBinomial(3)), OccNum::MAX);
}

#[test]
fn flow_capacity_min_of_marginals() {
    let d = PairDomain::Complete { node_count: 5, self_loops: true };
    assert_eq!(d.flow_capacity(OccupationFamily::Poisson, 5, 3), 3);
    assert_eq!(d.flow_capacity(OccupationFamily::Poisson, 2, 10), 2);
    assert_eq!(d.flow_capacity(OccupationFamily::Binomial(4), 5, 3), 3);
    assert_eq!(d.flow_capacity(OccupationFamily::Binomial(4), 2, 10), 2);
    assert_eq!(d.flow_capacity(OccupationFamily::Binomial(2), 5, 3), 2);
}

#[test]
fn iter_admissible_complete_count() {
    let d = PairDomain::Complete { node_count: 4, self_loops: true };
    let count = d.iter_admissible().len();
    assert_eq!(count, 16); // N^2 = 16
}

#[test]
fn iter_admissible_loopless_count() {
    let d = PairDomain::Complete { node_count: 4, self_loops: false };
    let count = d.iter_admissible().len();
    assert_eq!(count, 12); // N^2 - N = 12
}

#[test]
fn iter_admissible_order_and_sparse_listing() {
    let d = PairDomain::Complete { node_count: 3, self_loops: false };
    assert_eq!(d.iter_admissible(), vec![(0, 1), (0, 2), (1, 0), (1, 2), (2, 0), (2, 1)]);
    let s = PairDomain::sparse_from_pairs(4, &[(2, 3), (0, 1), (2, 0), (0, 1)]);
    let mut listed = s.iter_admissible();
    listed.sort_unstable();
    assert_eq!(listed, vec![(0, 1), (2, 0), (2, 3)]);
    assert_eq!(s.node_count(), 4);
    assert!(!s.self_loops_allowed());
    assert!(sparse_of(3, &[(0, 1), (2, 2)]).self_loops_allowed());
    assert!(PairDomain::Complete { node_count: 2, self_loops: true }.self_loops_allowed());
}

#[test]
fn cycle4_deltas_balance_rows_and_columns() {
    let p = build_cycle4(0, 1, 2, 3, 1);
    assert_eq!(p.deltas, [(0, 2, 1), (1, 3, 1), (0, 3, -1), (1, 2, -1)]);
    let mut row = [0i64; 4];
    let mut col = [0i64; 4];
    for &(s, t, d) in &p.deltas {
        row[s as usize] += d;
        col[t as usize] += d;
    }
    assert_eq!(row, [0, 0, 0, 0]);
    assert_eq!(col, [0, 0, 0, 0]);
}

#[test]
fn cycle4_validation_checks_negativity_domain_and_capacity() {
    let d = PairDomain::Complete { node_count: 4, self_loops: false };
    let p = build_cycle4(0, 1, 2, 3, 1);
    // Cells (0,2), (1,3) gain one event; (0,3), (1,2) lose one.
    assert!(validate_cycle4(&p, &[0, 0, 1, 1], &d, OccNum::MAX));
    assert!(!validate_cycle4(&p, &[0, 0, 0, 1], &d, OccNum::MAX)); // (0,3) would go negative
    assert!(!validate_cycle4(&p, &[2, 0, 1, 1], &d, 2)); // (0,2) would exceed the cap
    // A move onto the diagonal is inadmissible without self-loops.
    let q = build_cycle4(0, 1, 0, 2, -1);
    assert!(!validate_cycle4(&q, &[1, 1, 0, 0], &d, OccNum::MAX));
    // Coinciding cells cancel: a = c makes every net delta zero (a no-op).
    let r = build_cycle4(1, 1, 0, 2, 1);
    assert!(!validate_cycle4(&r, &[3, 3, 3, 3], &d, OccNum::MAX));
}

#[test]
fn strength_errors_and_backends() {
    let e = FixedStrengthError::TooLargeForDirect(11);
    assert_eq!(e, FixedStrengthError::TooLargeForDirect(11));
    assert_ne!(StrengthBackend::MeDirect, StrengthBackend::CycleMcmc);
}

#[test]
fn me_direct_backend_eligibility() {
    let complete = PairDomain::Complete { node_count: 3, self_loops: true };
    let sparse = sparse_of(2, &[(0, 1)]);
    assert!(can_use_me_direct(OccupationFamily::Poisson, true, &complete, false, 100, false));
    assert!(!can_use_me_direct(OccupationFamily::Geometric, true, &complete, false, 100, false));
    assert!(!can_use_me_direct(OccupationFamily::Poisson, false, &complete, false, 100, false));
    assert!(!can_use_me_direct(OccupationFamily::Poisson, true, &complete, true, 100, false));
    assert!(!can_use_me_direct(OccupationFamily::Poisson, true, &sparse, false, 100, false));
    assert!(!can_use_me_direct(OccupationFamily::Poisson, true, &complete, false, 10_000_001, false));
    assert!(!can_use_me_direct(OccupationFamily::Poisson, true, &complete, false, 100, true));
}
