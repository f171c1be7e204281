use ariadnetor::backend::MemoryOrder;
use ariadnetor::contract_spec::LinalgError;
use ariadnetor::perm::validate_perm;
use ariadnetor::strided::{reorder_block, transpose_block_data};
use num_complex::Complex;

/// The permuted shape: new axis `i` is old axis `perm[i]`.
fn permuted_shape(shape: &[usize], perm: &[usize]) -> Vec<usize> {
    perm.iter().map(|&p| shape[p]).collect()
}

/// The blocks of the rank-3 sample: shapes 2×2×2, 2×1×3, 3×2×3 and 3×1×2,
/// filled with consecutive values.
fn rank3_blocks() -> Vec<(Vec<usize>, Vec<f64>)> {
    let shapes = [vec![2, 2, 2], vec![2, 1, 3], vec![3, 2, 3], vec![3, 1, 2]];
    let mut val = 1.0;
    shapes
        .iter()
        .map(|s| {
            let n: usize = s.iter().product();
            let data: Vec<f64> = (0..n).map(|i| val + i as f64).collect();
            val += n as f64;
            (s.clone(), data)
        })
        .collect()
}

#[test]
fn identity_permutation_is_clone() {
    for order in [MemoryOrder::RowMajor, MemoryOrder::ColumnMajor] {
        for (shape, data) in rank3_blocks() {
            assert_eq!(transpose_block_data(&data, &shape, &[0, 1, 2], order), data);
        }
    }
}

#[test]
fn transpose_rank2() {
    for order in [MemoryOrder::RowMajor, MemoryOrder::ColumnMajor] {
        for (shape, data) in [
            (vec![2usize, 2], vec![1.0f64, 2.0, 3.0, 4.0]),
            (vec![3, 3], vec![5.0, 6.0, 7.0, 8.0, 9.0, 10.0, 11.0, 12.0, 13.0]),
        ] {
            let once = transpose_block_data(&data, &shape, &[1, 0], order);
            let twice = transpose_block_data(&once, &permuted_shape(&shape, &[1, 0]), &[1, 0], order);
            assert_eq!(twice, data, "double transpose should be identity");
        }
    }
    // [[1,2],[3,4]] transposed is [[1,3],[2,4]].
    assert_eq!(transpose_block_data(&[1, 2, 3, 4], &[2, 2], &[1, 0], MemoryOrder::RowMajor), vec![1, 3, 2, 4]);
}

#[test]
fn cyclic_permutation_rank3() {
    let perm = [1, 2, 0];
    for order in [MemoryOrder::RowMajor, MemoryOrder::ColumnMajor] {
        for (shape, data) in rank3_blocks() {
            let s1 = permuted_shape(&shape, &perm);
            let s2 = permuted_shape(&s1, &perm);
            let p1 = transpose_block_data(&data, &shape, &perm, order);
            let p2 = transpose_block_data(&p1, &s1, &perm, order);
            let p3 = transpose_block_data(&p2, &s2, &perm, order);
            assert_eq!(permuted_shape(&s2, &perm), shape);
            assert_eq!(p3, data);
        }
    }
}

#[test]
fn permute_z2_rank2() {
    let data: Vec<f64> = (1..=4).map(|i| i as f64).collect();
    let transposed = transpose_block_data(&data, &[2, 2], &[1, 0], MemoryOrder::ColumnMajor);
    let double = transpose_block_data(&transposed, &[2, 2], &[1, 0], MemoryOrder::ColumnMajor);
    assert_eq!(double, data);
}

#[test]
fn transpose_composes() {
    // Permuting by p then by q is permuting by p read in the order q.
    let shape = [2usize, 3, 4];
    let data: Vec<i32> = (0..24).collect();
    let p = [2usize, 0, 1];
    let q = [1usize, 2, 0];
    let pq: Vec<usize> = q.iter().map(|&i| p[i]).collect();
    for order in [MemoryOrder::RowMajor, MemoryOrder::ColumnMajor] {
        let once = transpose_block_data(&data, &shape, &p, order);
        let twice = transpose_block_data(&once, &permuted_shape(&shape, &p), &q, order);
        assert_eq!(twice, transpose_block_data(&data, &shape, &pq, order));
    }
}

#[test]
fn test_transpose_f64_2d() {
    // 2x3 matrix → 3x2.
    let input = [1.0f64, 2.0, 3.0, 4.0, 5.0, 6.0];
    let output = transpose_block_data(&input, &[2, 3], &[1, 0], MemoryOrder::RowMajor);
    assert_eq!(output, vec![1.0, 4.0, 2.0, 5.0, 3.0, 6.0]);
}

#[test]
fn test_transpose_f64_3d() {
    // Shape [2,3,4], perm [1,0,2] → shape [3,2,4].
    let input: Vec<f64> = (0..24).map(|i| i as f64).collect();
    let output = transpose_block_data(&input, &[2, 3, 4], &[1, 0, 2], MemoryOrder::RowMajor);
    assert_eq!(output[10], 6.0);
    assert_eq!(output[7], 15.0);
}

#[test]
fn test_transpose_f32_2d() {
    let input = [1.0f32, 2.0, 3.0, 4.0, 5.0, 6.0];
    let output = transpose_block_data(&input, &[2, 3], &[1, 0], MemoryOrder::RowMajor);
    assert_eq!(output, vec![1.0, 4.0, 2.0, 5.0, 3.0, 6.0]);
}

#[test]
fn test_transpose_complex_f64_2d() {
    let input = [
        Complex::new(1.0, 2.0),
        Complex::new(3.0, 4.0),
        Complex::new(5.0, 6.0),
        Complex::new(7.0, 8.0),
        Complex::new(9.0, 10.0),
        Complex::new(11.0, 12.0),
    ];
    let output = transpose_block_data(&input, &[2, 3], &[1, 0], MemoryOrder::RowMajor);
    assert_eq!(output[0], Complex::new(1.0, 2.0));
    assert_eq!(output[1], Complex::new(7.0, 8.0));
    assert_eq!(output[2], Complex::new(3.0, 4.0));
    assert_eq!(output[3], Complex::new(9.0, 10.0));
}

fn perm_error(perm: &[usize], rank: usize) -> String {
    match validate_perm(perm, rank) {
        Err(LinalgError::InvalidArgument(m)) => m,
        Ok(()) => panic!("expected an error for {:?}", perm),
    }
}

#[test]
fn perm_wrong_length() {
    assert!(perm_error(&[0, 1], 3).contains("perm length"));
}

#[test]
fn perm_out_of_range() {
    assert!(perm_error(&[0, 1, 5], 3).contains("out of range"));
}

#[test]
fn perm_duplicate() {
    assert!(perm_error(&[0, 1, 1], 3).contains("duplicate"));
}

#[test]
fn perm_accepts_permutations() {
    assert!(validate_perm(&[2, 0, 1], 3).is_ok());
    assert!(validate_perm(&[], 0).is_ok());
    assert_eq!(perm_error(&[0, 1], 3), "perm length 2 does not match rank 3");
    assert_eq!(perm_error(&[1, 1, 7], 3), "duplicate perm index 1");
    assert_eq!(perm_error(&[7, 1, 1], 3), "perm index 7 out of range for rank 3");
}

#[test]
fn reorder_block_between_orders() {
    // [[1,2,3],[4,5,6]] row-major is [1,4,2,5,3,6] column-major.
    let rm = [1, 2, 3, 4, 5, 6];
    let cm = reorder_block(&rm, &[2, 3], MemoryOrder::RowMajor, MemoryOrder::ColumnMajor);
    assert_eq!(cm, vec![1, 4, 2, 5, 3, 6]);
    assert_eq!(reorder_block(&cm, &[2, 3], MemoryOrder::ColumnMajor, MemoryOrder::RowMajor), rm.to_vec());
    assert_eq!(reorder_block(&rm, &[2, 3], MemoryOrder::RowMajor, MemoryOrder::RowMajor), rm.to_vec());
    // Rank 3: entry (i, j, k) keeps its value.
    let shape = [2usize, 3, 4];
    let data: Vec<usize> = (0..24).collect();
    let cm = reorder_block(&data, &shape, MemoryOrder::RowMajor, MemoryOrder::ColumnMajor);
    for i in 0..2 {
        for j in 0..3 {
            for k in 0..4 {
                assert_eq!(cm[i + 2 * j + 6 * k], data[12 * i + 4 * j + k]);
            }
        }
    }
    assert!(reorder_block::<i32>(&[], &[0, 3], MemoryOrder::RowMajor, MemoryOrder::ColumnMajor).is_empty());
}
