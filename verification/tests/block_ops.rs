use ariadnetor::backend::MemoryOrder;
use ariadnetor::block_copy::{copy_fused_block, place_block, take_block};
use ariadnetor::block_ops::{
    check_fuse_range, cumulative_offsets, fuse_extents, fused_coord, truncate_cols, truncate_rows,
    validate_nrow,
};
use ariadnetor::contract_spec::LinalgError;
use ariadnetor::strided::{compute_strides, transpose_block_data};

#[test]
fn cumulative_offsets_multi_tuple_multi_dim() {
    assert_eq!(cumulative_offsets(&[2, 3, 4]), vec![0, 2, 5]);
}

#[test]
fn cumulative_offsets_empty_input() {
    assert_eq!(cumulative_offsets(&[]), Vec::<usize>::new());
}

#[test]
fn cumulative_offsets_single_tuple() {
    assert_eq!(cumulative_offsets(&[7]), vec![0]);
}

#[test]
fn truncate_cols_row_major() {
    // 3×4 RM matrix
    let data: Vec<f64> = vec![
        1.0,  2.0,  3.0,  4.0,   // row 0
        5.0,  6.0,  7.0,  8.0,   // row 1
        9.0, 10.0, 11.0, 12.0,   // row 2
    ];
    let result = truncate_cols(&data, 3, 4, 2, MemoryOrder::RowMajor);
    // Keep first 2 cols: [[1,2],[5,6],[9,10]]
    assert_eq!(result, vec![1.0, 2.0, 5.0, 6.0, 9.0, 10.0]);
}

#[test]
fn truncate_rows_row_major() {
    // 4×3 RM matrix
    let data: Vec<f64> = vec![
        1.0,  2.0,  3.0,   // row 0
        4.0,  5.0,  6.0,   // row 1
        7.0,  8.0,  9.0,   // row 2
        10.0, 11.0, 12.0,  // row 3
    ];
    let result = truncate_rows(&data, 4, 3, 2, MemoryOrder::RowMajor);
    // Keep first 2 rows: [[1,2,3],[4,5,6]]
    assert_eq!(result, vec![1.0, 2.0, 3.0, 4.0, 5.0, 6.0]);
}

#[test]
fn truncate_cols_column_major() {
    // 3×4 CM matrix: column c holds 3c+1 .. 3c+3.
    let data: Vec<i32> = (1..=12).collect();
    assert_eq!(truncate_cols(&data, 3, 4, 2, MemoryOrder::ColumnMajor), vec![1, 2, 3, 4, 5, 6]);
}

#[test]
fn truncate_rows_column_major() {
    // 4×3 CM matrix: column c holds 4c+1 .. 4c+4; keep the first 2 rows.
    let data: Vec<i32> = (1..=12).collect();
    assert_eq!(truncate_rows(&data, 4, 3, 2, MemoryOrder::ColumnMajor), vec![1, 2, 5, 6, 9, 10]);
}

#[test]
fn validate_nrow_bounds() {
    assert!(validate_nrow(3, 1).is_ok());
    assert!(validate_nrow(3, 2).is_ok());
    match validate_nrow(3, 0) {
        Err(LinalgError::InvalidArgument(m)) => {
            assert_eq!(m, "nrow must satisfy 1 <= nrow < rank, got nrow=0 for rank=3")
        }
        _ => panic!("expected an error"),
    }
    match validate_nrow(2, 2) {
        Err(LinalgError::InvalidArgument(m)) => {
            assert_eq!(m, "nrow must satisfy 1 <= nrow < rank, got nrow=2 for rank=2")
        }
        _ => panic!("expected an error"),
    }
}

#[test]
fn copy_fused_block_row_major() {
    // src: leading 2 × fused 1 × trailing 2; dst: leading 2 × fused_total 3 × trailing 2.
    let src = [1, 2, 3, 4];
    let mut dst = [0; 12];
    copy_fused_block(&src, &mut dst, 2, 1, 3, 2, 1, MemoryOrder::RowMajor);
    assert_eq!(dst, [0, 0, 1, 2, 0, 0, 0, 0, 3, 4, 0, 0]);
}

#[test]
fn copy_fused_block_column_major() {
    // src: leading 2 × fused 1 × trailing 2; dst: leading 2 × fused_total 3 × trailing 2.
    let src = [1, 2, 3, 4];
    let mut dst = [0; 12];
    copy_fused_block(&src, &mut dst, 2, 1, 3, 2, 2, MemoryOrder::ColumnMajor);
    assert_eq!(dst, [0, 0, 0, 0, 1, 2, 0, 0, 0, 0, 3, 4]);
}

#[test]
fn strides_in_both_orders() {
    assert_eq!(compute_strides(&[2, 3, 4], MemoryOrder::RowMajor), vec![12, 4, 1]);
    assert_eq!(compute_strides(&[2, 3, 4], MemoryOrder::ColumnMajor), vec![1, 2, 6]);
    assert_eq!(compute_strides(&[], MemoryOrder::RowMajor), Vec::<usize>::new());
    assert_eq!(compute_strides(&[5], MemoryOrder::ColumnMajor), vec![1]);
}

#[test]
fn transpose_matrix_row_major() {
    let data = [1, 2, 3, 4, 5, 6];
    assert_eq!(transpose_block_data(&data, &[2, 3], &[1, 0], MemoryOrder::RowMajor), vec![1, 4, 2, 5, 3, 6]);
}

#[test]
fn transpose_matrix_column_major() {
    let data = [1, 2, 3, 4, 5, 6];
    assert_eq!(
        transpose_block_data(&data, &[2, 3], &[1, 0], MemoryOrder::ColumnMajor),
        vec![1, 3, 5, 2, 4, 6]
    );
}

#[test]
fn transpose_rank3_cycle() {
    let data: Vec<u32> = (0..8).collect();
    assert_eq!(
        transpose_block_data(&data, &[2, 2, 2], &[2, 0, 1], MemoryOrder::RowMajor),
        vec![0, 2, 4, 6, 1, 3, 5, 7]
    );
    // Identity permutation and rank one leave the data as it is.
    assert_eq!(transpose_block_data(&data, &[2, 2, 2], &[0, 1, 2], MemoryOrder::ColumnMajor), data);
    assert_eq!(transpose_block_data(&[7, 8, 9], &[3], &[0], MemoryOrder::RowMajor), vec![7, 8, 9]);
}

#[test]
fn fuse_range_checks() {
    assert!(check_fuse_range(4, 1, 2).is_ok());
    assert!(check_fuse_range(4, 2, 2).is_ok());
    match check_fuse_range(4, 0, 1) {
        Err(LinalgError::InvalidArgument(m)) => assert_eq!(m, "fuse_legs count must be >= 2, got 1"),
        _ => panic!("expected an error"),
    }
    match check_fuse_range(4, 3, 2) {
        Err(LinalgError::InvalidArgument(m)) => assert_eq!(m, "fuse_legs range [3..5] out of range for rank 4"),
        _ => panic!("expected an error"),
    }
}

#[test]
fn fused_coordinates_and_extents() {
    assert_eq!(fused_coord(&[4, 5, 6, 7], 1, 2, 9), vec![4, 9, 7]);
    assert_eq!(fused_coord(&[4, 5], 0, 2, 3), vec![3]);
    assert_eq!(fuse_extents(&[2, 3, 4, 5], 1, 2), (2, 12, 5));
    assert_eq!(fuse_extents(&[3, 4], 0, 2), (1, 12, 1));
    assert_eq!(fuse_extents(&[2, 0, 4], 1, 2), (2, 1, 1));
}

#[test]
fn place_block_row_major() {
    // 3 x 4 matrix, 2 x 2 block at row 1, column 2.
    let mut matrix = vec![0i32; 12];
    place_block(&mut matrix, &[1, 2, 3, 4], 3, 4, 1, 2, 2, 2, MemoryOrder::RowMajor);
    assert_eq!(matrix, vec![0, 0, 0, 0, 0, 0, 1, 2, 0, 0, 3, 4]);
}

#[test]
fn place_block_column_major() {
    // 3 x 4 matrix, 2 x 2 block at row 1, column 2, column-major.
    let mut matrix = vec![0i32; 12];
    place_block(&mut matrix, &[1, 3, 2, 4], 3, 4, 1, 2, 2, 2, MemoryOrder::ColumnMajor);
    assert_eq!(matrix, vec![0, 0, 0, 0, 0, 0, 0, 1, 3, 0, 2, 4]);
}

#[test]
fn take_rows_both_orders() {
    // 3 x 2 matrix [[1, 2], [3, 4], [5, 6]]; rows 1..3.
    let mut block = vec![0i32; 4];
    take_block(&[1, 2, 3, 4, 5, 6], &mut block, 3, 2, 1, 0, 2, 2, MemoryOrder::RowMajor);
    assert_eq!(block, vec![3, 4, 5, 6]);
    let mut block = vec![0i32; 4];
    take_block(&[1, 3, 5, 2, 4, 6], &mut block, 3, 2, 1, 0, 2, 2, MemoryOrder::ColumnMajor);
    assert_eq!(block, vec![3, 5, 4, 6]);
}

#[test]
fn take_cols_both_orders() {
    // 2 x 3 matrix [[1, 2, 3], [4, 5, 6]]; columns 1..3.
    let mut block = vec![0i32; 4];
    take_block(&[1, 2, 3, 4, 5, 6], &mut block, 2, 3, 0, 1, 2, 2, MemoryOrder::RowMajor);
    assert_eq!(block, vec![2, 3, 5, 6]);
    let mut block = vec![0i32; 4];
    take_block(&[1, 4, 2, 5, 3, 6], &mut block, 2, 3, 0, 1, 2, 2, MemoryOrder::ColumnMajor);
    assert_eq!(block, vec![2, 5, 3, 6]);
}

#[test]
fn take_block_interior_and_round_trip() {
    // 3 x 3 matrix 1..=9 row-major; the 2 x 2 block at (1, 1), with spare room.
    let matrix: Vec<i32> = (1..=9).collect();
    let mut block = vec![0i32; 5];
    take_block(&matrix, &mut block, 3, 3, 1, 1, 2, 2, MemoryOrder::RowMajor);
    assert_eq!(block, vec![5, 6, 8, 9, 0]);
    // Writing it back leaves the matrix unchanged; writing elsewhere moves it.
    let mut copy = matrix.clone();
    place_block(&mut copy, &block, 3, 3, 1, 1, 2, 2, MemoryOrder::RowMajor);
    assert_eq!(copy, matrix);
    place_block(&mut copy, &block, 3, 3, 0, 0, 2, 2, MemoryOrder::RowMajor);
    assert_eq!(copy, vec![5, 6, 3, 8, 9, 6, 7, 8, 9]);
}

#[test]
fn axis_positions_rank3_middle_axis() {
    // Shape (2, 3, 4) column-major, axis 1: stride 2, entry i at (i / 2) % 3.
    let pos = ariadnetor::strided::axis_positions(&[2, 3, 4], 1, MemoryOrder::ColumnMajor);
    assert_eq!(pos.len(), 24);
    for (i, &p) in pos.iter().enumerate() {
        assert_eq!(p, (i / 2) % 3);
    }
    // Row-major, axis 1: stride 4, entry i at (i / 4) % 3.
    let pos = ariadnetor::strided::axis_positions(&[2, 3, 4], 1, MemoryOrder::RowMajor);
    for (i, &p) in pos.iter().enumerate() {
        assert_eq!(p, (i / 4) % 3);
    }
    // Scaling the 1..=24 block along axis 1 by [2, 3, 5], as the
    // column-major kernel does.
    let w = [2.0f64, 3.0, 5.0];
    let pos = ariadnetor::strided::axis_positions(&[2, 3, 4], 1, MemoryOrder::ColumnMajor);
    let scaled: Vec<f64> = pos.iter().enumerate().map(|(i, &p)| (i + 1) as f64 * w[p]).collect();
    assert_eq!(&scaled[..6], &[2.0, 4.0, 9.0, 12.0, 25.0, 30.0]);
}

#[test]
fn axis_positions_edge_shapes() {
    assert_eq!(ariadnetor::strided::axis_positions(&[3], 0, MemoryOrder::RowMajor), vec![0, 1, 2]);
    assert!(ariadnetor::strided::axis_positions(&[2, 0, 3], 0, MemoryOrder::RowMajor).is_empty());
    // Last axis of a row-major matrix: the column of each entry.
    assert_eq!(
        ariadnetor::strided::axis_positions(&[2, 3], 1, MemoryOrder::RowMajor),
        vec![0, 1, 2, 0, 1, 2]
    );
}

#[test]
fn scale_axis_out_of_range() {
    assert!(ariadnetor::block_ops::check_scale_axis(1, 2).is_ok());
    match ariadnetor::block_ops::check_scale_axis(5, 2) {
        Err(LinalgError::InvalidArgument(m)) => {
            assert_eq!(m, "axis 5 out of range for rank 2");
            assert!(m.contains("out of range"));
        }
        other => panic!("unexpected {:?}", other),
    }
}

#[test]
fn fuse_count_less_than_2() {
    // Rank-2 tensor, fusing one leg from 0.
    match check_fuse_range(2, 0, 1) {
        Err(LinalgError::InvalidArgument(m)) => assert!(m.contains("count")),
        other => panic!("unexpected {:?}", other),
    }
}

#[test]
fn fuse_out_of_range() {
    // Rank-2 tensor, fusing two legs from 1.
    match check_fuse_range(2, 1, 2) {
        Err(LinalgError::InvalidArgument(m)) => assert!(m.contains("out of range")),
        other => panic!("unexpected {:?}", other),
    }
}

fn expect_nrow_rejected(rank: usize, nrow: usize) {
    match validate_nrow(rank, nrow) {
        Err(LinalgError::InvalidArgument(m)) => assert!(m.contains("nrow")),
        other => panic!("unexpected {:?}", other),
    }
}

#[test]
fn nrow_zero_rejected() {
    expect_nrow_rejected(2, 0);
}

#[test]
fn nrow_ge_rank_rejected() {
    expect_nrow_rejected(2, 2);
}

#[test]
fn solve_nrow_out_of_range_rejected() {
    expect_nrow_rejected(2, 0);
    expect_nrow_rejected(2, 2);
}

#[test]
fn inverse_nrow_out_of_range_rejected() {
    expect_nrow_rejected(2, 0);
    expect_nrow_rejected(2, 2);
}

#[test]
fn tests_nrow_out_of_range_rejected() {
    expect_nrow_rejected(2, 0);
    expect_nrow_rejected(2, 2);
}

#[test]
fn stacked_blocks_tile_the_axis() {
    let dims = [2usize, 0, 3, 1];
    let offsets = cumulative_offsets(&dims);
    assert_eq!(offsets, vec![0, 2, 2, 5]);
    for p in 0..6 {
        let covering: Vec<usize> = (0..dims.len()).filter(|&i| offsets[i] <= p && p < offsets[i] + dims[i]).collect();
        assert_eq!(covering.len(), 1, "position {p}");
    }
}

#[test]
fn weight_length_must_match_the_block() {
    assert!(ariadnetor::block_ops::check_weight_length(3, 3, 1, "U1Sector(2)").is_ok());
    match ariadnetor::block_ops::check_weight_length(2, 3, 1, "U1Sector(2)") {
        Err(LinalgError::InvalidArgument(m)) => assert_eq!(
            m,
            "weight length 2 doesn't match block dimension 3 at axis 1 for sector U1Sector(2)"
        ),
        Ok(()) => panic!("a short weight list was accepted"),
    }
}
