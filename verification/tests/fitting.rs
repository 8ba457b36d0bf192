use menobis_core::fitting::{infer_n, pair_count, w_strength_degree_metrics, EdgesEventsFitError};

#[test]
fn pair_counts_by_policy() {
    assert_eq!(pair_count(4, true), 16);
    assert_eq!(pair_count(4, false), 12);
    assert_eq!(pair_count(0, false), 0);
    assert_eq!(pair_count(1, false), 0);
}

#[test]
fn w_strength_degree_problem_size() {
    let m = w_strength_degree_metrics(3, false);
    assert_eq!(m.variables, 12);
    assert_eq!(m.auxiliary_variables, 6);
    assert_eq!(m.exponential_cones, 0);
    assert_eq!(m.power_cones, 0);
    assert_eq!(m.linear_constraints, 2);
    assert_eq!(m.sparse_nonzeros, 72);
}

#[test]
fn node_count_inference() {
    assert_eq!(infer_n(3, &[], &[]), 3);
    assert_eq!(infer_n(3, &[0, 5], &[1]), 6);
    assert_eq!(infer_n(3, &[0], &[7, 2]), 8);
    assert_eq!(infer_n(10, &[2], &[3]), 10);
}

#[test]
fn edges_events_error_variants_are_distinct() {
    let all = [
        EdgesEventsFitError::ZeroEdges,
        EdgesEventsFitError::EventsBelowEdges,
        EdgesEventsFitError::EdgesAbovePairs,
        EdgesEventsFitError::MeanOutOfSupport,
    ];
    for (i, a) in all.iter().enumerate() {
        for (j, b) in all.iter().enumerate() {
            assert_eq!(i == j, a == b);
        }
    }
}
