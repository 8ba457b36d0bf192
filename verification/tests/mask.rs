use menobis_core::mask::PairMask;

#[test]
fn empty_mask_with_self_loops() {
    let m = PairMask::from_self_loops(4, true);
    assert_eq!(m.n_free(), 16);
    assert!(!m.is_masked(0, 0));
    assert!(!m.is_masked(1, 2));
}

#[test]
fn mask_without_self_loops() {
    let m = PairMask::from_self_loops(4, false);
    assert_eq!(m.n_free(), 12); // 16 - 4
    assert!(m.is_masked(0, 0));
    assert!(m.is_masked(3, 3));
    assert!(!m.is_masked(0, 1));
}

#[test]
fn mask_with_known_pairs() {
    let src = vec![0u64, 1, 2];
    let tgt = vec![1u64, 2, 0];
    let m = PairMask::new(4, false, &src, &tgt);
    assert_eq!(m.n_free(), 12 - 3); // 9
    assert!(m.is_masked(0, 1));
    assert!(m.is_masked(1, 2));
    assert!(m.is_masked(2, 0));
    assert!(!m.is_masked(0, 2));
}

#[test]
fn to_dense_matches_manual() {
    let src = vec![0u64, 2];
    let tgt = vec![1u64, 3];
    let m = PairMask::new(3, false, &src, &tgt);
    let dense = m.to_dense();
    // Diagonal masked
    assert!(dense[0]); // (0,0)
    assert!(dense[4]); // (1,1)
    assert!(dense[8]); // (2,2)
    // Known pairs
    assert!(dense[1]); // (0,1)
    // (2,3) is out of bounds for n=3, so not added
    assert!(!dense[6]); // (2,0) free
}

#[test]
fn memory_savings_documented() {
    // Dense: N*N bytes; sparse: about (N + K) small entries.
    for &n in &[100usize, 1000, 5000, 10000] {
        let dense_bytes = n * n; // Vec<bool> = 1 byte per entry
        let k = 50; // typical known pairs
        let sparse_approx = k * 64 + n * 48; // generous upper bound
        let ratio = dense_bytes as f64 / sparse_approx as f64;
        assert!(ratio > 1.0, "Sparse should always use less memory than dense at N={n}");

        let src: Vec<u64> = (0..k as u64).collect();
        let tgt: Vec<u64> = (1..=k as u64).collect();
        let mask = PairMask::new(n, false, &src, &tgt);
        assert_eq!(mask.n_free(), n * n - n - k); // N² - diagonal - known
    }
}

#[test]
fn from_dense_roundtrip() {
    let n = 6;
    let src = vec![0u64, 1, 3, 4];
    let tgt = vec![2u64, 4, 0, 1];
    let initial = PairMask::new(n, false, &src, &tgt);
    let dense = initial.to_dense();
    let reconstructed = PairMask::from_dense(n, &dense);

    assert_eq!(initial.n_free(), reconstructed.n_free());
    for i in 0..n {
        for j in 0..n {
            assert_eq!(
                initial.is_masked(i, j),
                reconstructed.is_masked(i, j),
                "mismatch at ({i},{j})"
            );
        }
    }
}

#[test]
fn dense_roundtrip_with_self_loops_and_off_diagonal_pairs() {
    let n = 4;
    let initial = PairMask::new(n, true, &[0, 2, 3], &[1, 3, 0]);
    let dense = initial.to_dense();
    let reconstructed = PairMask::from_dense(n, &dense);
    assert!(reconstructed.self_loops());
    assert_eq!(initial.n_free(), reconstructed.n_free());
    for i in 0..n {
        for j in 0..n {
            assert_eq!(initial.is_masked(i, j), reconstructed.is_masked(i, j));
        }
    }
}

#[test]
fn explicit_diagonal_pair_survives_dense_roundtrip() {
    // With self-loops allowed, an explicit (0, 0) is kept as an explicit
    // pair: only a fully marked diagonal reads as a loopless policy.
    let initial = PairMask::new(3, true, &[0], &[0]);
    assert!(initial.is_masked(0, 0));
    assert!(!initial.is_masked(1, 1));
    let reconstructed = PairMask::from_dense(3, &initial.to_dense());
    assert!(reconstructed.self_loops());
    assert!(reconstructed.is_masked(0, 0));
    assert!(!reconstructed.is_masked(1, 1));
    assert_eq!(reconstructed.n_free(), initial.n_free());
}

#[test]
fn from_dense_masks_exactly_marked_pairs() {
    let dense = vec![true, false, false, false];
    let r = PairMask::from_dense(2, &dense);
    assert!(r.is_masked(0, 0));
    assert!(!r.is_masked(0, 1));
    assert!(!r.is_masked(1, 0));
    assert!(!r.is_masked(1, 1));
    assert_eq!(r.n_free(), 3);
    let full = vec![true, false, false, true];
    let r = PairMask::from_dense(2, &full);
    assert!(!r.self_loops());
    assert!(r.is_masked(1, 1));
    assert_eq!(r.n_free(), 2);
}

#[test]
fn add_reports_new_pairs_only() {
    let mut m = PairMask::from_self_loops(3, false);
    assert_eq!(m.n_free(), 6);
    assert!(m.add(0, 1));
    assert!(m.is_masked(0, 1));
    assert_eq!(m.n_free(), 5);
    // Already masked: explicit duplicate and policy diagonal.
    assert!(!m.add(0, 1));
    assert!(!m.add(2, 2));
    assert_eq!(m.n_free(), 5);
    assert_eq!(m.masked_cols_in_row(0), &[0, 1][..]);
    assert_eq!(m.masked_rows_in_col(1), &[1, 0][..]);
}

#[test]
fn known_pairs_out_of_range_and_duplicates_are_ignored() {
    let m = PairMask::new(3, false, &[0, 0, 7, 1], &[1, 1, 0, 1]);
    // (0,1) once; (7,0) out of range; (1,1) already on the masked diagonal.
    assert_eq!(m.n_free(), 6 - 1);
    assert_eq!(m.n(), 3);
    assert!(!m.self_loops());
}

#[test]
fn index_lists_have_no_repeats_and_append() {
    let mut m = PairMask::new(4, false, &[0, 0, 2], &[1, 1, 1]);
    for k in 0..4 {
        let rows = m.masked_rows_in_col(k).to_vec();
        let mut dedup = rows.clone();
        dedup.sort();
        dedup.dedup();
        assert_eq!(dedup.len(), rows.len());
    }
    let before = m.masked_rows_in_col(3).to_vec();
    assert!(m.add(1, 3));
    let mut expected = before.clone();
    expected.push(1);
    assert_eq!(m.masked_rows_in_col(3), &expected[..]);
    assert_eq!(*m.masked_cols_in_row(1).last().unwrap(), 3);
}
