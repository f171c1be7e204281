use ariadnetor::contract_spec::LinalgError;
use ariadnetor::block_contract::{
    block_gemm_extent, contracted_key, free_axes, full_contraction_rhs_perm, lhs_gemm_operand, output_rank,
    pair_blocks, rhs_gemm_operand, trace_free_axes, block_on_trace_diagonal, validate_trace_pairs, BlockPair,
};

fn pair(lhs: usize, rhs: usize, out: &[usize]) -> BlockPair {
    BlockPair { lhs, rhs, out_coord: out.to_vec() }
}

#[test]
fn pairs_follow_left_blocks_then_right_blocks() {
    let lhs = vec![vec![0, 0], vec![0, 1], vec![1, 1]];
    let rhs = vec![vec![0, 0], vec![1, 0], vec![1, 1]];
    let pairs = pair_blocks(&lhs, &rhs, &[1], &[0], &[0], &[1]);
    assert_eq!(
        pairs,
        vec![
            pair(0, 0, &[0, 0]),
            pair(1, 1, &[0, 0]),
            pair(1, 2, &[0, 1]),
            pair(2, 1, &[1, 0]),
            pair(2, 2, &[1, 1]),
        ]
    );
}

#[test]
fn full_contraction_pairs_land_in_the_scalar_block() {
    let lhs = vec![vec![0, 1], vec![1, 0]];
    let rhs = vec![vec![1, 0], vec![0, 1], vec![0, 0]];
    // Left axes (0, 1) against right axes (1, 0): keys must match transposed.
    let pairs = pair_blocks(&lhs, &rhs, &[0, 1], &[1, 0], &[], &[]);
    assert_eq!(pairs, vec![pair(0, 0, &[]), pair(1, 1, &[])]);
}

#[test]
fn no_partner_no_pair() {
    let lhs = vec![vec![2]];
    let rhs = vec![vec![0], vec![1]];
    assert!(pair_blocks(&lhs, &rhs, &[0], &[0], &[], &[]).is_empty());
}

#[test]
fn keys_and_free_axes() {
    assert_eq!(contracted_key(&[4, 5, 6], &[2, 0]), vec![6, 4]);
    assert_eq!(free_axes(&[1, 3], 4), vec![0, 2]);
    assert_eq!(free_axes(&[], 2), vec![0, 1]);
    assert_eq!(output_rank(3, 4, 2), 3);
}

#[test]
fn full_contraction_perm() {
    assert_eq!(full_contraction_rhs_perm(&[1, 0], &[0, 1], 2), vec![1, 0]);
    assert_eq!(full_contraction_rhs_perm(&[0, 1, 2], &[2, 0, 1], 3), vec![2, 0, 1]);
}

#[test]
fn gemm_operand_layouts() {
    let id = lhs_gemm_operand(&[1], &[0], 2);
    assert!(id.is_identity && !id.trans_flag && !id.needs_transpose);
    let flag = lhs_gemm_operand(&[0], &[1], 2);
    assert!(!flag.is_identity && flag.trans_flag && !flag.needs_transpose);
    let phys = lhs_gemm_operand(&[1, 0], &[2], 3);
    assert!(!phys.is_identity && !phys.trans_flag && phys.needs_transpose);
    let rid = rhs_gemm_operand(&[0], &[1], 2);
    assert!(rid.is_identity);
    let rflag = rhs_gemm_operand(&[1], &[0], 2);
    assert!(rflag.trans_flag && !rflag.needs_transpose);
}

#[test]
fn block_extents() {
    assert_eq!(block_gemm_extent(&[2, 3, 4], &[0, 2]), 8);
    assert_eq!(block_gemm_extent(&[2, 0], &[1]), 1);
    assert_eq!(block_gemm_extent(&[2, 3], &[]), 1);
}

#[test]
fn trace_keeps_unpaired_legs_in_order() {
    // Rank 4 traced over (1, 2): legs 0 and 3 survive, in order.
    assert_eq!(trace_free_axes(&[(1, 2)], 4), vec![0, 3]);
    // Full trace of a matrix keeps nothing; no pairs keep everything.
    assert!(trace_free_axes(&[(0, 1)], 2).is_empty());
    assert_eq!(trace_free_axes(&[], 3), vec![0, 1, 2]);
    assert_eq!(trace_free_axes(&[(3, 0), (1, 4)], 6), vec![2, 5]);
}

#[test]
fn trace_diagonal_blocks() {
    // Blocks (0,0,0,0) and (0,1,1,0) carry diagonal support for (1, 2).
    assert!(block_on_trace_diagonal(&[0, 0, 0, 0], &[(1, 2)]));
    assert!(block_on_trace_diagonal(&[0, 1, 1, 0], &[(1, 2)]));
    assert!(!block_on_trace_diagonal(&[0, 0, 1, 0], &[(1, 2)]));
    assert!(block_on_trace_diagonal(&[2, 5], &[]));
    assert!(!block_on_trace_diagonal(&[0, 1, 1, 2], &[(1, 2), (0, 3)]));
}

fn trace_error(pairs: &[(usize, usize)], rank: usize) -> String {
    match validate_trace_pairs(pairs, rank) {
        Err(LinalgError::InvalidArgument(m)) => m,
        Ok(_) => panic!("expected an error for {:?}", pairs),
    }
}

#[test]
fn rejects_out_of_range_index() {
    assert!(trace_error(&[(0, 2)], 2).contains("out of range"));
}

#[test]
fn rejects_self_pair() {
    assert!(trace_error(&[(0, 0)], 2).contains("Self-pair"));
}

#[test]
fn rejects_reused_index() {
    // Axis 1 appears in two pairs.
    assert!(trace_error(&[(1, 2), (1, 0)], 4).contains("multiple pairs"));
}

#[test]
fn trace_pairs_mark_the_traced_legs() {
    assert_eq!(validate_trace_pairs(&[(1, 2)], 4).unwrap(), vec![false, true, true, false]);
    assert_eq!(validate_trace_pairs(&[], 2).unwrap(), vec![false, false]);
    assert_eq!(trace_error(&[(0, 1), (2, 1)], 3), "Leg 1 appears in multiple pairs");
}

#[test]
fn every_matching_pair_meets_once() {
    let lhs = vec![vec![0, 0], vec![0, 1], vec![1, 1], vec![2, 0]];
    let rhs = vec![vec![0, 0], vec![1, 0], vec![1, 1], vec![0, 2]];
    let pairs = pair_blocks(&lhs, &rhs, &[1], &[0], &[0], &[1]);
    for (i, l) in lhs.iter().enumerate() {
        for (j, r) in rhs.iter().enumerate() {
            let hits = pairs.iter().filter(|p| p.lhs == i && p.rhs == j).count();
            assert_eq!(hits, if l[1] == r[0] { 1 } else { 0 }, "blocks {i} and {j}");
        }
    }
    for p in &pairs {
        assert_eq!(p.out_coord, vec![lhs[p.lhs][0], rhs[p.rhs][1]]);
    }
}

#[test]
fn trace_keeps_rank_minus_two_per_pair() {
    for (pairs, rank) in [(vec![(1usize, 2usize)], 4usize), (vec![(0, 3), (4, 1)], 6), (vec![], 3), (vec![(0, 1)], 2)] {
        assert!(validate_trace_pairs(&pairs, rank).is_ok());
        assert_eq!(trace_free_axes(&pairs, rank).len() + 2 * pairs.len(), rank);
    }
}
