use ariadnetor::einsum::{ContractionPlan, EinsumExpr};

#[test]
fn test_parse_einsum() {
    let expr = EinsumExpr::parse("ijk,jkl->il").unwrap();
    assert_eq!(expr.lhs_indices().to_vec(), vec![b'i', b'j', b'k']);
    assert_eq!(expr.rhs_indices().to_vec(), vec![b'j', b'k', b'l']);
    assert_eq!(expr.out_indices, vec![b'i', b'l']);
}

#[test]
fn test_contraction_plan() {
    let expr = EinsumExpr::parse("ijk,jkl->il").unwrap();
    let plan = ContractionPlan::from_expr(&expr);
    assert_eq!(plan.contracted, vec![b'j', b'k']);
    assert_eq!(plan.free_lhs, vec![b'i']);
    assert_eq!(plan.free_rhs, vec![b'l']);
}

#[test]
fn test_contraction_preserves_lhs_order() {
    let expr = EinsumExpr::parse("ikj,jkl->il").unwrap();
    let plan = ContractionPlan::from_expr(&expr);
    assert_eq!(plan.contracted, vec![b'k', b'j']); // LHS order: k before j
}
