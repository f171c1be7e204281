use ariadnetor::block_contract::plan_trace;
use ariadnetor::contract_spec::LinalgError;
use ariadnetor::legs::{validate_contraction_legs, LegDirection, LegShape};

fn leg(direction: LegDirection, blocks: &[(u64, usize)]) -> LegShape {
    LegShape { direction, blocks: blocks.to_vec() }
}

fn message<T: std::fmt::Debug>(r: Result<T, LinalgError>) -> String {
    match r {
        Err(LinalgError::InvalidArgument(m)) => m,
        Ok(v) => panic!("expected an error, got {:?}", v),
    }
}

fn names() -> Vec<String> {
    vec!["U1Sector(0)".to_string(), "U1Sector(1)".to_string()]
}

#[test]
fn plan_trace_keeps_the_free_legs() {
    let legs = [
        leg(LegDirection::Out, &[(0, 2), (1, 1)]),
        leg(LegDirection::Out, &[(0, 3)]),
        leg(LegDirection::In, &[(0, 2), (1, 1)]),
        leg(LegDirection::In, &[(1, 4)]),
    ];
    assert_eq!(plan_trace(&legs, &[(0, 2)]).unwrap(), vec![1, 3]);
}

#[test]
fn plan_trace_without_pairs_keeps_every_leg() {
    let legs = [leg(LegDirection::Out, &[(0, 2)]), leg(LegDirection::In, &[(0, 2)])];
    assert_eq!(plan_trace(&legs, &[]).unwrap(), vec![0, 1]);
}

#[test]
fn plan_trace_checks_the_pairs_first() {
    let legs = [leg(LegDirection::Out, &[(0, 2)]), leg(LegDirection::Out, &[(0, 3)])];
    assert_eq!(message(plan_trace(&legs, &[(0, 2)])), "Trace pair (0, 2) out of range for rank 2");
    assert_eq!(message(plan_trace(&legs, &[(1, 1)])), "Self-pair (1, 1) cannot be traced");
}

#[test]
fn plan_trace_rejects_different_blocks() {
    let legs = [leg(LegDirection::Out, &[(0, 2)]), leg(LegDirection::In, &[(0, 3)])];
    assert_eq!(
        message(plan_trace(&legs, &[(0, 1)])),
        "Traced pair (0, 1) must have identical QN block structure"
    );
}

#[test]
fn plan_trace_rejects_same_direction() {
    let legs = [leg(LegDirection::In, &[(0, 2)]), leg(LegDirection::In, &[(0, 2)])];
    assert_eq!(
        message(plan_trace(&legs, &[(1, 0)])),
        "Traced pair (1, 0) must have opposite leg directions"
    );
}

#[test]
fn contraction_legs_accept_dual_legs() {
    let a = [leg(LegDirection::Out, &[(0, 2), (1, 3)]), leg(LegDirection::In, &[(0, 1)])];
    let b = [leg(LegDirection::In, &[(0, 2), (1, 3)])];
    assert!(validate_contraction_legs(&a, &b, &[0], &[0], &names()).is_ok());
}

#[test]
fn contraction_legs_report_axis_errors() {
    let a = [leg(LegDirection::Out, &[(0, 2)])];
    let b = [leg(LegDirection::In, &[(0, 2)])];
    assert_eq!(
        message(validate_contraction_legs(&a, &b, &[0], &[0, 0], &names())),
        "axes_lhs length 1 != axes_rhs length 2"
    );
}

#[test]
fn contraction_legs_report_same_direction() {
    let a = [leg(LegDirection::Out, &[(0, 2)]), leg(LegDirection::In, &[(0, 2)])];
    let b = [leg(LegDirection::Out, &[(0, 2)])];
    assert_eq!(
        message(validate_contraction_legs(&a, &b, &[0], &[0], &names())),
        "Contracted pair 0: axes (0, 0) have same direction Out"
    );
}

#[test]
fn contraction_legs_report_block_count() {
    let a = [leg(LegDirection::Out, &[(0, 2), (1, 1)])];
    let b = [leg(LegDirection::In, &[(0, 2)])];
    assert_eq!(
        message(validate_contraction_legs(&a, &b, &[0], &[0], &names())),
        "Contracted pair 0: sector count mismatch 2 vs 1"
    );
}

#[test]
fn contraction_legs_print_sectors_by_name() {
    let a = [leg(LegDirection::Out, &[(0, 2)]), leg(LegDirection::In, &[(0, 2), (0, 1)])];
    let b = [leg(LegDirection::Out, &[(0, 2), (1, 1)])];
    assert_eq!(
        message(validate_contraction_legs(&a, &b, &[1], &[0], &names())),
        "Contracted pair 0: sector mismatch at block 1: U1Sector(0) vs U1Sector(1)"
    );
}

#[test]
fn contraction_legs_report_dims() {
    let a = [leg(LegDirection::In, &[(1, 2)]), leg(LegDirection::Out, &[(0, 5)])];
    let b = [leg(LegDirection::In, &[(0, 4)]), leg(LegDirection::Out, &[(1, 2)])];
    assert_eq!(
        message(validate_contraction_legs(&a, &b, &[0, 1], &[1, 0], &names())),
        "Contracted pair 1: dim mismatch at block 0: 5 vs 4"
    );
}
