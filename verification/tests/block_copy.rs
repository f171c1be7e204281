use ariadnetor::backend::MemoryOrder;
use ariadnetor::block_copy::{copy_fused_block, place_block, take_block};
use ariadnetor::block_ops::cumulative_offsets;

/// RM path: two blocks with fused=1 are merged into fused_total=2.
#[test]
fn copy_fused_block_row_major_basic() {
    let src_a: Vec<f64> = vec![1.0, 2.0, 3.0, 4.0, 5.0, 6.0];
    let src_b: Vec<f64> = vec![7.0, 8.0, 9.0, 10.0, 11.0, 12.0];
    let mut dst = vec![0.0f64; 12];
    copy_fused_block(&src_a, &mut dst, 2, 1, 2, 3, 0, MemoryOrder::RowMajor);
    copy_fused_block(&src_b, &mut dst, 2, 1, 2, 3, 1, MemoryOrder::RowMajor);
    assert_eq!(dst, vec![1.0, 2.0, 3.0, 7.0, 8.0, 9.0, 4.0, 5.0, 6.0, 10.0, 11.0, 12.0]);
}

/// RM path with fused > 1.
#[test]
fn copy_fused_block_row_major_fused_gt_1() {
    let src: Vec<f64> = (1..=12).map(|x| x as f64).collect();
    let mut dst = vec![0.0f64; 18];
    copy_fused_block(&src, &mut dst, 2, 2, 3, 3, 1, MemoryOrder::RowMajor);
    let mut expected = vec![0.0; 18];
    expected[3..9].copy_from_slice(&[1.0, 2.0, 3.0, 4.0, 5.0, 6.0]);
    expected[12..18].copy_from_slice(&[7.0, 8.0, 9.0, 10.0, 11.0, 12.0]);
    assert_eq!(dst, expected);
}

/// Assembling the sector U1(1) matrix of the rank-4 sample: left and right
/// tuples of dimensions 2 and 3, blocks A (2×2), B (2×3), C (3×2), D (3×3).
#[test]
fn assemble_sector_matrix_row_major() {
    let dims = [2usize, 3];
    let offsets = cumulative_offsets(&dims);
    assert_eq!(offsets, vec![0, 2]);
    let (m, n) = (5, 5);
    let blocks: [(usize, usize, Vec<f64>); 4] = [
        (0, 0, vec![1.0, 2.0, 3.0, 4.0]),
        (0, 1, vec![5.0, 6.0, 7.0, 8.0, 9.0, 10.0]),
        (1, 0, vec![11.0, 12.0, 13.0, 14.0, 15.0, 16.0]),
        (1, 1, vec![17.0, 18.0, 19.0, 20.0, 21.0, 22.0, 23.0, 24.0, 25.0]),
    ];
    let mut rm = vec![0.0f64; m * n];
    for (li, ri, data) in &blocks {
        place_block(&mut rm, data, m, n, offsets[*li], offsets[*ri], dims[*li], dims[*ri], MemoryOrder::RowMajor);
    }
    let expected = vec![
         1.0,  2.0,  5.0,  6.0,  7.0,
         3.0,  4.0,  8.0,  9.0, 10.0,
        11.0, 12.0, 17.0, 18.0, 19.0,
        13.0, 14.0, 20.0, 21.0, 22.0,
        15.0, 16.0, 23.0, 24.0, 25.0,
    ];
    assert_eq!(rm, expected);
}

/// The left factor's blocks from a 5×2 row-major matrix `1..=10`.
#[test]
fn build_left_tensor_row_major() {
    let left_mat: Vec<f64> = (1..=10).map(|x| x as f64).collect();
    let (m, k) = (5, 2);
    let mut block = vec![0.0f64; 4];
    take_block(&left_mat, &mut block, m, k, 0, 0, 2, k, MemoryOrder::RowMajor);
    assert_eq!(block, vec![1.0, 2.0, 3.0, 4.0]);
    let mut block = vec![0.0f64; 6];
    take_block(&left_mat, &mut block, m, k, 2, 0, 3, k, MemoryOrder::RowMajor);
    assert_eq!(block, vec![5.0, 6.0, 7.0, 8.0, 9.0, 10.0]);
}

/// The right factor's blocks from a 2×5 row-major matrix `1..=10`.
#[test]
fn build_right_tensor_row_major() {
    let right_mat: Vec<f64> = (1..=10).map(|x| x as f64).collect();
    let (k, n) = (2, 5);
    let mut block = vec![0.0f64; 4];
    take_block(&right_mat, &mut block, k, n, 0, 0, k, 2, MemoryOrder::RowMajor);
    assert_eq!(block, vec![1.0, 2.0, 6.0, 7.0]);
    let mut block = vec![0.0f64; 6];
    take_block(&right_mat, &mut block, k, n, 0, 2, k, 3, MemoryOrder::RowMajor);
    assert_eq!(block, vec![3.0, 4.0, 5.0, 8.0, 9.0, 10.0]);
}

/// Scattering a sector matrix into blocks and gathering them back gives
/// the matrix, in both orders.
#[test]
fn scatter_then_assemble_round_trip() {
    let dims = [2usize, 3];
    let offsets = cumulative_offsets(&dims);
    let matrix: Vec<i32> = (0..25).collect();
    for order in [MemoryOrder::RowMajor, MemoryOrder::ColumnMajor] {
        let mut rebuilt = vec![0i32; 25];
        for li in 0..2 {
            for ri in 0..2 {
                let mut block = vec![0i32; dims[li] * dims[ri]];
                take_block(&matrix, &mut block, 5, 5, offsets[li], offsets[ri], dims[li], dims[ri], order);
                place_block(&mut rebuilt, &block, 5, 5, offsets[li], offsets[ri], dims[li], dims[ri], order);
            }
        }
        assert_eq!(rebuilt, matrix);
    }
}
