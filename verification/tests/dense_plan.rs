use ariadnetor::contract_spec::LinalgError;
use ariadnetor::dense_plan::{compute_output_shape, dim_of, extents_fit, gemm_key, plan_dense_contraction};
use ariadnetor::einsum::{ContractionPlan, EinsumExpr};

#[test]
fn dim_of_finds_the_labelled_extent() {
    assert_eq!(dim_of(b'j', b"ijk", &[2, 3, 4]), 3);
    assert_eq!(dim_of(b'i', b"ijk", &[2, 3, 4]), 2);
}

#[test]
fn output_shape_is_free_left_then_free_right() {
    let expr = EinsumExpr::parse("abc,bcd->da").unwrap();
    let plan = ContractionPlan::from_expr(&expr);
    assert_eq!(compute_output_shape(&plan, &expr, &[2, 3, 4], &[3, 4, 5]), vec![2, 5]);
}

#[test]
fn matmul_plan() {
    let p = plan_dense_contraction("ij,jk->ik", &[2, 3], &[3, 4]).unwrap();
    assert_eq!(p.lhs_perm, None);
    assert_eq!(p.rhs_perm, None);
    assert_eq!((p.m, p.n, p.k), (2, 4, 3));
    assert_eq!(p.output_shape, vec![2, 4]);
    assert_eq!(p.output_perm, None);
}

#[test]
fn transposed_operands_and_output() {
    let p = plan_dense_contraction("ji,kj->ki", &[3, 2], &[4, 3]).unwrap();
    assert_eq!(p.lhs_perm, Some(vec![1, 0]));
    assert_eq!(p.rhs_perm, Some(vec![1, 0]));
    assert_eq!((p.m, p.n, p.k), (2, 4, 3));
    assert_eq!(p.output_shape, vec![2, 4]);
    assert_eq!(p.output_perm, Some(vec![1, 0]));
}

#[test]
fn full_contraction_plan() {
    let p = plan_dense_contraction("ij,ij->", &[2, 3], &[2, 3]).unwrap();
    assert_eq!((p.m, p.n, p.k), (1, 1, 6));
    assert!(p.output_shape.is_empty());
    assert_eq!(p.output_perm, None);
}

#[test]
fn zero_extent_counts_as_one() {
    let p = plan_dense_contraction("ij,jk->ik", &[0, 3], &[3, 4]).unwrap();
    assert_eq!((p.m, p.n, p.k), (1, 4, 3));
    assert_eq!(p.output_shape, vec![0, 4]);
}

#[test]
fn rank_mismatch_errors() {
    match plan_dense_contraction("ij,jk->ik", &[2, 3, 4], &[3, 4]) {
        Err(LinalgError::InvalidArgument(m)) => assert_eq!(m, "LHS tensor rank 3 doesn't match notation 2"),
        _ => panic!("expected an error"),
    }
    match plan_dense_contraction("ij,jk->ik", &[2, 3], &[3]) {
        Err(LinalgError::InvalidArgument(m)) => assert_eq!(m, "RHS tensor rank 1 doesn't match notation 2"),
        _ => panic!("expected an error"),
    }
}

#[test]
fn notation_errors() {
    match plan_dense_contraction("i1,jk->ik", &[2, 3], &[3, 4]) {
        Err(LinalgError::InvalidArgument(m)) => assert!(m.starts_with("Failed to parse einsum: ")),
        _ => panic!("expected an error"),
    }
    assert!(matches!(
        plan_dense_contraction("bij,bjk->bik", &[2, 2, 3], &[2, 3, 4]),
        Err(LinalgError::InvalidArgument(_))
    ));
}

#[test]
fn gemm_key_values() {
    assert_eq!(gemm_key("ij,jk->ik", &[2, 3], &[3, 4]).unwrap(), (2, 4, 3));
    // A batch label or a rank that does not match gives the zero key.
    assert_eq!(gemm_key("bij,bjk->bik", &[2, 2, 3], &[2, 3, 4]).unwrap(), (0, 0, 0));
    assert_eq!(gemm_key("ij,jk->ik", &[2, 3, 1], &[3, 4]).unwrap(), (0, 0, 0));
    assert!(gemm_key("i+j,jk->ik", &[2, 3], &[3, 4]).is_err());
}

#[test]
fn extents_fit_detects_overflow() {
    assert!(extents_fit("ij,jk->ik", &[2, 3], &[3, 4]));
    let big = usize::MAX / 2;
    assert!(!extents_fit("ijk,kl->ijl", &[big, 3, 1], &[1, 2]));
    assert!(extents_fit("ij->", &[big, big], &[]));
}
