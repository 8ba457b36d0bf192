use menobis_core::fixed_et::{BFamily, MeFamily, WFamily};
use menobis_core::fixed_et_rejection::{
    try_b_subset_rejection, try_multinomial_rejection, try_w_weak_composition_rejection,
};
use menobis_core::OccNum;
use rand::rngs::StdRng;
use rand::SeedableRng;

#[test]
fn b_rejection_works() {
    let mut rng = StdRng::seed_from_u64(7);
    let r = try_b_subset_rejection(3, 15, 5, 100, &mut rng).expect("accept");
    assert_eq!(r.len(), 5);
    assert_eq!(r.iter().copied().sum::<OccNum>(), 15);
    assert!(r.iter().all(|&c| c > 0 && c <= 3));
}

#[test]
fn b_complement_mode() {
    // T close to M*E → complement mode
    let mut rng = StdRng::seed_from_u64(7);
    let r = try_b_subset_rejection(5, 23, 5, 100, &mut rng).expect("accept");
    assert_eq!(r.len(), 5);
    assert_eq!(r.iter().copied().sum::<OccNum>(), 23);
    assert!(r.iter().all(|&c| c > 0 && c <= 5));
}

#[test]
fn me_rejection_works() {
    let mut rng = StdRng::seed_from_u64(7);
    let r = try_multinomial_rejection(100, 20, 100, &mut rng).expect("accept");
    assert_eq!(r.len(), 20);
    assert_eq!(r.iter().copied().sum::<OccNum>(), 100);
    assert!(r.iter().all(|&c| c > 0));
}

#[test]
fn w_rejection_works() {
    let mut rng = StdRng::seed_from_u64(7);
    let r = try_w_weak_composition_rejection(2, 10, 3, 100, &mut rng).expect("accept");
    assert_eq!(r.len(), 3);
    assert_eq!(r.iter().copied().sum::<OccNum>(), 10);
    assert!(r.iter().all(|&c| c > 0));
}

#[test]
fn star_mode() {
    // T small, K = M*E large → star mode
    let mut rng = StdRng::seed_from_u64(7);
    // E=2, M=5, T=6: K=10 boxes, K-1=9 > T=6 → star mode. T/E=3, feasible.
    let r = try_w_weak_composition_rejection(5, 6, 2, 200, &mut rng).expect("accept");
    assert_eq!(r.len(), 2);
    assert_eq!(r.iter().copied().sum::<OccNum>(), 6);
    assert!(r.iter().all(|&c| c > 0));
}

#[test]
fn b_full_table_is_all_layers() {
    let mut rng = StdRng::seed_from_u64(1);
    let r = try_b_subset_rejection(4, 12, 3, 1, &mut rng).expect("full table accepted");
    assert_eq!(r, vec![4, 4, 4]);
}

#[test]
fn b_no_rows_accepts_empty() {
    let mut rng = StdRng::seed_from_u64(1);
    let r = try_b_subset_rejection(4, 0, 0, 1, &mut rng).expect("empty accepted");
    assert!(r.is_empty());
}

#[test]
fn rejection_refuses_total_below_rows() {
    let mut rng = StdRng::seed_from_u64(3);
    assert!(try_multinomial_rejection(2, 5, 50, &mut rng).is_err());
    assert!(try_b_subset_rejection(3, 2, 5, 50, &mut rng).is_err());
    assert!(try_w_weak_composition_rejection(3, 2, 5, 50, &mut rng).is_err());
}

#[test]
fn rejection_without_attempts_fails() {
    let mut rng = StdRng::seed_from_u64(3);
    assert!(try_multinomial_rejection(10, 2, 0, &mut rng).is_err());
    assert!(try_b_subset_rejection(3, 6, 2, 0, &mut rng).is_err());
    assert!(try_w_weak_composition_rejection(3, 6, 2, 0, &mut rng).is_err());
}

#[test]
fn w_separator_mode_many_seeds() {
    // E=3, M=2: K=6 boxes, 5 bars <= T=12 → separator mode.
    for seed in 0..20u64 {
        let mut rng = StdRng::seed_from_u64(seed);
        if let Ok(r) = try_w_weak_composition_rejection(2, 12, 3, 50, &mut rng) {
            assert_eq!(r.len(), 3);
            assert_eq!(r.iter().copied().sum::<OccNum>(), 12);
            assert!(r.iter().all(|&c| c > 0));
        }
    }
}

#[test]
fn w_single_box_takes_everything() {
    // E=1, M=1: one box, no bars; every draw is accepted with the whole total.
    let mut rng = StdRng::seed_from_u64(9);
    let r = try_w_weak_composition_rejection(1, 7, 1, 1, &mut rng).expect("accept");
    assert_eq!(r, vec![7]);
}

#[test]
fn family_rejection_backends() {
    let mut rng = StdRng::seed_from_u64(11);
    let me = MeFamily.try_rejection(30, 6, 100, &mut rng).expect("me accept");
    assert_eq!(me.iter().copied().sum::<OccNum>(), 30);
    let b = BFamily { layers: 4 }.try_rejection(12, 4, 100, &mut rng).expect("b accept");
    assert_eq!(b.iter().copied().sum::<OccNum>(), 12);
    assert!(b.iter().all(|&c| (1..=4).contains(&c)));
    let w = WFamily { layers: 3 }.try_rejection(12, 4, 100, &mut rng).expect("w accept");
    assert_eq!(w.iter().copied().sum::<OccNum>(), 12);
    assert!(w.iter().all(|&c| c > 0));
}

#[test]
fn b_tally_mode_many_seeds() {
    // E=3, M=4: 12 cells, T=6 <= 12/2 → the chosen cells are counted directly.
    let mut accepted = 0;
    for seed in 0..20u64 {
        let mut rng = StdRng::seed_from_u64(seed);
        if let Ok(r) = try_b_subset_rejection(4, 6, 3, 50, &mut rng) {
            accepted += 1;
            assert_eq!(r.len(), 3);
            assert_eq!(r.iter().copied().sum::<OccNum>(), 6);
            assert!(r.iter().all(|&c| (1..=4).contains(&c)));
        }
    }
    assert!(accepted > 0);
}

#[test]
fn multinomial_single_box_and_empty() {
    let mut rng = StdRng::seed_from_u64(5);
    assert_eq!(try_multinomial_rejection(5, 1, 1, &mut rng), Ok(vec![5]));
    assert_eq!(try_multinomial_rejection(0, 0, 1, &mut rng), Ok(vec![]));
    assert_eq!(MeFamily.try_rejection(3, 1, 1, &mut rng), Ok(vec![3]));
    assert_eq!(WFamily { layers: 4 }.try_rejection(9, 1, 1, &mut rng), Ok(vec![9]));
}
