use ariadnetor::block_ops::cumulative_offsets;
use ariadnetor::fused_tuples::{canonical_tuples, enumerate_block_tuples, fused_extents, lex_less, tuple_extent};

#[test]
fn tuples_in_lexicographic_order() {
    assert_eq!(
        enumerate_block_tuples(&[2, 3]),
        vec![vec![0, 0], vec![0, 1], vec![0, 2], vec![1, 0], vec![1, 1], vec![1, 2]]
    );
    assert_eq!(enumerate_block_tuples(&[1, 1, 2]), vec![vec![0, 0, 0], vec![0, 0, 1]]);
}

#[test]
fn no_legs_and_empty_legs() {
    assert_eq!(enumerate_block_tuples(&[]), vec![Vec::<usize>::new()]);
    assert!(enumerate_block_tuples(&[2, 0]).is_empty());
}

#[test]
fn tuple_extents_multiply() {
    let dims = vec![vec![2, 3], vec![4, 5, 6]];
    assert_eq!(tuple_extent(&dims, &[1, 2]), 18);
    assert_eq!(tuple_extent(&dims, &[0, 0]), 8);
    assert_eq!(tuple_extent(&dims, &[]), 1);
}

#[test]
fn fused_offsets_and_total() {
    assert_eq!(fused_extents(&[2, 3, 4]), (vec![0, 2, 5], 9));
    assert_eq!(fused_extents(&[]), (vec![], 0));
}

#[test]
fn canonical_tuples_sort_and_dedup() {
    // Blocks met as (1,1), (0,0), (1,1): the fused sector lays out (0,0)
    // first, then (1,1), one row each.
    let met = vec![vec![1usize, 1], vec![0, 0], vec![1, 1]];
    let canon = canonical_tuples(&met);
    assert_eq!(canon, vec![vec![0, 0], vec![1, 1]]);
    assert_eq!(cumulative_offsets(&[1, 1]), vec![0, 1]);
    // Another encounter order gives the same layout.
    let other = vec![vec![0usize, 0], vec![1, 1]];
    assert_eq!(canonical_tuples(&other), canon);
    assert!(canonical_tuples(&[]).is_empty());
    // A proper prefix comes first; then the first differing index decides.
    assert_eq!(
        canonical_tuples(&[vec![2, 0], vec![1], vec![1, 5], vec![]]),
        vec![vec![], vec![1], vec![1, 5], vec![2, 0]]
    );
}

#[test]
fn lex_less_is_vec_order() {
    let cases: Vec<(Vec<usize>, Vec<usize>)> = vec![
        (vec![], vec![]),
        (vec![], vec![0]),
        (vec![1, 2], vec![1, 3]),
        (vec![1, 2], vec![1]),
        (vec![2], vec![1, 9]),
        (vec![3, 4], vec![3, 4]),
    ];
    for (a, b) in cases {
        assert_eq!(lex_less(&a, &b), a < b, "{:?} < {:?}", a, b);
    }
}
