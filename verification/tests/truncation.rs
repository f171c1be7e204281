use ariadnetor::contract_spec::LinalgError;
use ariadnetor::truncation::{kept_per_sector, truncation_rank};

#[test]
fn truncation_rank_keeps_everything_without_bounds() {
    assert_eq!(truncation_rank(5, None, None).unwrap(), 5);
    assert_eq!(truncation_rank(5, Some(100), None).unwrap(), 5);
}

#[test]
fn truncation_rank_cuts_to_chi_max() {
    assert_eq!(truncation_rank(5, Some(3), None).unwrap(), 3);
}

#[test]
fn truncation_rank_stricter_bound_wins() {
    assert_eq!(truncation_rank(5, Some(3), Some(4)).unwrap(), 3);
    assert_eq!(truncation_rank(5, Some(4), Some(2)).unwrap(), 2);
}

#[test]
fn truncation_rank_keeps_at_least_one_under_error_target() {
    assert_eq!(truncation_rank(5, None, Some(0)).unwrap(), 1);
}

#[test]
fn truncation_rank_rejects_zero_chi_max() {
    match truncation_rank(5, Some(0), None) {
        Err(LinalgError::InvalidArgument(m)) => {
            assert_eq!(m, "chi_max must be at least 1");
            assert!(m.contains("chi_max"));
        }
        other => panic!("unexpected {:?}", other),
    }
    // Nothing to keep: no limit is checked.
    assert_eq!(truncation_rank(0, Some(0), None).unwrap(), 0);
}

#[test]
fn kept_per_sector_counts_the_best_values() {
    // Ranking by sector: 1, 0, 1, 1, 0; keep the best three.
    let counts = kept_per_sector(&[1, 0, 1, 1, 0], 3, 2);
    assert_eq!(counts, vec![1, 2]);
    assert_eq!(counts.iter().sum::<usize>(), 3);
    assert_eq!(kept_per_sector(&[1, 0, 1], 0, 3), vec![0, 0, 0]);
}

#[test]
fn trunc_svd_chi_max_zero_rejected() {
    // Five singular values, a bond limit of zero.
    let err = truncation_rank(5, Some(0), None).err().expect("expected error");
    match err {
        LinalgError::InvalidArgument(m) => assert!(m.contains("chi_max")),
    }
}
