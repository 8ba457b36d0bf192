use menobis_core::uniform_edges::{sample_uniform_support, shuffle_slice};
use rand::rngs::StdRng;
use rand::SeedableRng;
use std::collections::HashSet;

#[test]
fn uniform_support_is_distinct_and_in_range() {
    let mut rng = StdRng::seed_from_u64(8);
    for (l, e) in [(10usize, 0usize), (10, 1), (10, 10), (100, 37)] {
        let ix = sample_uniform_support(l, e, &mut rng);
        assert_eq!(ix.len(), e);
        let set: HashSet<usize> = ix.iter().copied().collect();
        assert_eq!(set.len(), e);
        assert!(ix.iter().all(|&i| i < l));
    }
}

#[test]
fn uniform_support_covers_every_index_over_many_draws() {
    let mut rng = StdRng::seed_from_u64(1);
    let mut seen = HashSet::new();
    for _ in 0..200 {
        for i in sample_uniform_support(6, 2, &mut rng) {
            seen.insert(i);
        }
    }
    assert_eq!(seen.len(), 6);
}

#[test]
fn shuffle_is_a_permutation() {
    let mut rng = StdRng::seed_from_u64(2);
    let initial = vec![5u64, 1, 4, 1, 9, 2, 6];
    let mut v = initial.clone();
    shuffle_slice(&mut v, &mut rng);
    let mut a = v.clone();
    let mut b = initial.clone();
    a.sort_unstable();
    b.sort_unstable();
    assert_eq!(a, b);
    let mut empty: Vec<u64> = vec![];
    shuffle_slice(&mut empty, &mut rng);
    assert!(empty.is_empty());
}
