use ariadnetor::contract_spec::LinalgError;
use ariadnetor::legs::{check_contracted_legs, check_trace_pair_legs, dual_leg, same_leg, LegDirection, LegMismatch, LegShape};
use ariadnetor::square_ops::{check_row_legs_match, validate_leg_mirrored, validate_square_universe};

fn leg(direction: LegDirection, blocks: &[(u64, usize)]) -> LegShape {
    LegShape { direction, blocks: blocks.to_vec() }
}

fn message<T: std::fmt::Debug>(r: Result<T, LinalgError>) -> String {
    match r {
        Err(LinalgError::InvalidArgument(m)) => m,
        other => panic!("unexpected {:?}", other),
    }
}

#[test]
fn dual_and_same_legs() {
    let out = leg(LegDirection::Out, &[(0, 2), (1, 1)]);
    let inn = leg(LegDirection::In, &[(0, 2), (1, 1)]);
    let other = leg(LegDirection::In, &[(0, 2), (1, 3)]);
    assert!(dual_leg(&out, &inn));
    assert!(!dual_leg(&out, &out));
    assert!(!dual_leg(&out, &other));
    assert!(same_leg(&inn, &inn.clone()));
    assert!(!same_leg(&inn, &out));
}

#[test]
fn leg_mirrored_operator() {
    let out = leg(LegDirection::Out, &[(0, 2), (1, 1)]);
    let inn = leg(LegDirection::In, &[(0, 2), (1, 1)]);
    assert!(validate_leg_mirrored(&[out.clone(), inn.clone()], 1, "solve").is_ok());
    assert_eq!(
        message(validate_leg_mirrored(&[out.clone(), inn.clone(), inn.clone()], 1, "solve")),
        "solve requires a leg-mirrored square operator: rank 3 must equal 2*nrow=2"
    );
    let legs = [out.clone(), out.clone(), inn.clone(), out.clone()];
    let m = message(validate_leg_mirrored(&legs, 2, "inverse"));
    assert_eq!(m, "inverse requires a leg-mirrored square operator: column leg 3 is not the dual of row leg 1");
    assert!(m.contains("leg-mirrored"));
}

#[test]
fn row_legs_must_match() {
    let a = [leg(LegDirection::Out, &[(0, 2)]), leg(LegDirection::In, &[(0, 2)])];
    let b = [leg(LegDirection::Out, &[(0, 2)]), leg(LegDirection::In, &[(0, 1)])];
    assert!(check_row_legs_match(&a, &b, 1).is_ok());
    let c = [leg(LegDirection::In, &[(0, 2)]), leg(LegDirection::In, &[(0, 1)])];
    assert_eq!(
        message(check_row_legs_match(&a, &c, 1)),
        "solve requires B's row legs to match A's row legs (shared free legs): leg 0 differs"
    );
}

#[test]
fn square_universe_checks() {
    // Row leg of dimension 2 + 1, column leg mirroring it.
    let legs = [leg(LegDirection::Out, &[(0, 2), (1, 1)]), leg(LegDirection::In, &[(0, 2), (1, 1)])];
    let names = ["U1Sector(0)".to_string(), "U1Sector(1)".to_string()];
    assert!(validate_square_universe(&[(2, 2), (1, 1)], &names, &legs, 1, "expm").is_ok());
    assert_eq!(
        message(validate_square_universe(&[(2, 2), (1, 3)], &names, &legs, 1, "eigh")),
        "eigh requires a square operator: fused sector U1Sector(1) has a 1x3 block"
    );
    let m = message(validate_square_universe(&[(2, 2)], &names[..1], &legs, 1, "expm"));
    assert_eq!(
        m,
        "expm requires a square operator: matched fused sectors cover 2/3 row and 2/3 column dimensions, so a sector has no matching partner"
    );
    assert!(m.contains("square operator"));
}

#[test]
fn contracted_legs_compatibility() {
    let out = leg(LegDirection::Out, &[(0, 2), (1, 1)]);
    let inn = leg(LegDirection::In, &[(0, 2), (1, 1)]);
    let lhs = [out.clone(), inn.clone()];
    let rhs = [inn.clone(), out.clone()];
    // Axis 0 of lhs against axis 0 of rhs: Out against In, same blocks.
    assert_eq!(check_contracted_legs(&lhs, &rhs, &[0], &[0]), None);
    assert_eq!(check_contracted_legs(&lhs, &rhs, &[0, 1], &[0, 1]), None);
    assert_eq!(
        check_contracted_legs(&lhs, &rhs, &[0], &[1]),
        Some(LegMismatch::SameDirection { pair: 0, lhs_axis: 0, rhs_axis: 1, direction: LegDirection::Out })
    );
    let short = [leg(LegDirection::In, &[(0, 2)])];
    assert_eq!(
        check_contracted_legs(&lhs, &short, &[0], &[0]),
        Some(LegMismatch::BlockCount { pair: 0, lhs: 2, rhs: 1 })
    );
    let other_sector = [leg(LegDirection::In, &[(0, 2), (2, 1)])];
    assert_eq!(
        check_contracted_legs(&lhs, &other_sector, &[0], &[0]),
        Some(LegMismatch::Sector { pair: 0, block: 1, lhs_sector: 1, rhs_sector: 2 })
    );
    let other_dim = [out.clone(), leg(LegDirection::Out, &[(0, 3), (1, 1)])];
    assert_eq!(
        check_contracted_legs(&lhs, &other_dim, &[0, 1], &[0, 1]),
        Some(LegMismatch::SameDirection { pair: 0, lhs_axis: 0, rhs_axis: 0, direction: LegDirection::Out })
    );
    let rhs2 = [inn.clone(), leg(LegDirection::Out, &[(0, 3), (1, 1)])];
    assert_eq!(
        check_contracted_legs(&lhs, &rhs2, &[0, 1], &[0, 1]),
        Some(LegMismatch::Dim { pair: 1, block: 0, lhs: 2, rhs: 3 })
    );
}

fn u1_out_in(row: &[(u64, usize)], col: &[(u64, usize)]) -> [LegShape; 2] {
    [leg(LegDirection::Out, row), leg(LegDirection::In, col)]
}

#[test]
fn solve_non_mirrored_a_rejected() {
    // Both legs `Out`: the column leg is not the dual of the row leg.
    let a = [leg(LegDirection::Out, &[(0, 2), (1, 3)]), leg(LegDirection::Out, &[(0, 2), (1, 3)])];
    assert!(message(validate_leg_mirrored(&a, 1, "solve")).contains("mirrored"));
}

#[test]
fn inverse_non_mirrored_rejected() {
    let a = [leg(LegDirection::Out, &[(0, 2), (1, 3)]), leg(LegDirection::Out, &[(0, 2), (1, 3)])];
    assert!(message(validate_leg_mirrored(&a, 1, "inverse")).contains("mirrored"));
}

#[test]
fn solve_b_row_legs_mismatch_rejected() {
    let a = u1_out_in(&[(0, 2), (1, 3)], &[(0, 2), (1, 3)]);
    assert!(validate_leg_mirrored(&a, 1, "solve").is_ok());
    // B's row leg has different block dims than A's row leg.
    let b = u1_out_in(&[(0, 2), (1, 2)], &[(0, 1), (1, 1)]);
    assert!(message(check_row_legs_match(&a, &b, 1)).contains("row legs"));
}

#[test]
fn tests_missing_partner_sector_rejected() {
    // Row leg {0: 2, 1: 3}, column leg {0: 2}: only sector 0 finds a
    // partner, a 2×2 group; sector 1's three rows are left uncovered.
    let legs = u1_out_in(&[(0, 2), (1, 3)], &[(0, 2)]);
    let m = message(validate_square_universe(&[(2, 2)], &["U1Sector(0)".to_string()], &legs, 1, "expm"));
    assert!(m.contains("square"));
    assert!(m.contains("2/5 row"));
}

#[test]
fn tests_dimension_mismatch_rejected() {
    // Row leg {0: 2}, column leg {0: 3}: the one group is 2×3.
    let legs = u1_out_in(&[(0, 2)], &[(0, 3)]);
    let m = message(validate_square_universe(&[(2, 3)], &["U1Sector(0)".to_string()], &legs, 1, "expm"));
    assert!(m.contains("square"));
}

#[test]
fn rejects_mismatched_block_structure() {
    // leg0 {0:2, 1:2} vs leg1 {0:2, 1:3}: equal sectors, unequal dims.
    let legs = u1_out_in(&[(0, 2), (1, 2)], &[(0, 2), (1, 3)]);
    let m = message(check_trace_pair_legs(&legs, &[(0, 1)]));
    assert!(m.contains("block structure"));
}

#[test]
fn rejects_equal_directions() {
    let legs = [leg(LegDirection::Out, &[(0, 2), (1, 2)]), leg(LegDirection::Out, &[(0, 2), (1, 2)])];
    let m = message(check_trace_pair_legs(&legs, &[(0, 1)]));
    assert!(m.contains("opposite leg directions"));
    let ok = u1_out_in(&[(0, 2), (1, 2)], &[(0, 2), (1, 2)]);
    assert!(check_trace_pair_legs(&ok, &[(0, 1)]).is_ok());
}
