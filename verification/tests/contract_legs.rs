use ariadnetor::contract_spec::validate_contraction_axes_pair;
use ariadnetor::legs::{check_contracted_legs, LegDirection, LegMismatch, LegShape};

fn leg(direction: LegDirection, blocks: &[(u64, usize)]) -> LegShape {
    LegShape { direction, blocks: blocks.to_vec() }
}

fn out2() -> LegShape {
    leg(LegDirection::Out, &[(0, 2)])
}

fn in2() -> LegShape {
    leg(LegDirection::In, &[(0, 2)])
}

fn length_mismatch() {
    // Rank-2 operands, one left axis against two right ones.
    assert!(validate_contraction_axes_pair(&[0], 2, &[0, 1], 2).is_err());
}

fn out_of_range() {
    assert!(validate_contraction_axes_pair(&[5], 2, &[0], 2).is_err());
}

fn duplicate_axis() {
    assert!(validate_contraction_axes_pair(&[0, 0], 4, &[2, 3], 4).is_err());
}

fn same_direction() {
    let a = [out2(), in2()];
    let c = [out2(), in2()];
    assert!(validate_contraction_axes_pair(&[0], 2, &[0], 2).is_ok());
    // Axis 0 (Out) against axis 0 (Out).
    assert_eq!(
        check_contracted_legs(&a, &c, &[0], &[0]),
        Some(LegMismatch::SameDirection { pair: 0, lhs_axis: 0, rhs_axis: 0, direction: LegDirection::Out })
    );
}

fn sector_mismatch() {
    let a = [out2(), in2()];
    let c = [leg(LegDirection::Out, &[(1, 2)]), leg(LegDirection::In, &[(1, 2)])];
    assert_eq!(
        check_contracted_legs(&a, &c, &[1], &[0]),
        Some(LegMismatch::Sector { pair: 0, block: 0, lhs_sector: 0, rhs_sector: 1 })
    );
}

fn dim_mismatch() {
    let a = [out2(), in2()];
    let c = [leg(LegDirection::Out, &[(0, 3)]), leg(LegDirection::In, &[(0, 3)])];
    assert_eq!(
        check_contracted_legs(&a, &c, &[1], &[0]),
        Some(LegMismatch::Dim { pair: 0, block: 0, lhs: 2, rhs: 3 })
    );
}

#[test]
fn tests_error_on_length_mismatch() {
    length_mismatch();
}

#[test]
fn tests_error_on_out_of_range() {
    out_of_range();
}

#[test]
fn tests_error_on_duplicate_axis() {
    duplicate_axis();
}

#[test]
fn tests_error_on_same_direction() {
    same_direction();
}

#[test]
fn tests_error_on_sector_mismatch() {
    sector_mismatch();
}

#[test]
fn tests_error_on_dim_mismatch() {
    dim_mismatch();
}

#[test]
fn mod_error_on_length_mismatch() {
    length_mismatch();
}

#[test]
fn mod_error_on_out_of_range() {
    out_of_range();
}

#[test]
fn mod_error_on_duplicate_axis() {
    duplicate_axis();
}

#[test]
fn mod_error_on_same_direction() {
    same_direction();
}

#[test]
fn mod_error_on_sector_mismatch() {
    sector_mismatch();
}

#[test]
fn mod_error_on_dim_mismatch() {
    dim_mismatch();
}
