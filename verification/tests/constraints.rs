use circuits::air::{PolicyAir, ALL_CLAUSES, COL_AMOUNT, COL_B, COL_C, COL_G, COL_NONCE, COL_T, RANGE_BITS};
use circuits::composed::ComposedAir;
use circuits::expr::{Expr, Step};
use circuits::full::FullAir;
use circuits::gen::perm_row;
use circuits::merkle::MerkleAir;
use circuits::revocation::NonMembershipAir;
use circuits::spend::{SpendAir, COL_M, COL_SELF, COL_UNITS};
use circuits::spend_trace::{broken_spend, spend_trace, spend_two_trace, SpendBreak, PAYLOAD};
use circuits::table::Trace;
use circuits::trace::{
    broken_nonmembership, broken_trace, merkle_trace, nonmembership_trace, policy_trace,
    policy_trace_amount, RevokeBreak, POLICY_WIDTH,
};
use circuits::vacuous::VacuousAir;
use circuits::whole::WholeAir;
use circuits::witness::{
    broken_composed, broken_composed_air, composed_air_trace, composed_trace, corrupt, full_public_values,
    vacuous_trace, whole_public_values, whole_public_values_amount, whole_trace, Break,
    ComposedBreak,
};

const P: u128 = 0xFFFF_FFFF_0000_0001;

fn ev(e: &Expr, row: &[u64], pv: &[u64]) -> u128 {
    match e {
        Expr::Col(i) => row[*i] as u128 % P,
        Expr::Pub(i) => pv[*i] as u128 % P,
        Expr::Const(c) => *c as u128 % P,
        Expr::Add(a, b) => (ev(a, row, pv) + ev(b, row, pv)) % P,
        Expr::Sub(a, b) => (ev(a, row, pv) + P - ev(b, row, pv)) % P,
        Expr::Mul(a, b) => (ev(a, row, pv) * ev(b, row, pv)) % P,
        Expr::Double(a) => (2 * ev(a, row, pv)) % P,
    }
}

fn holds<const R: usize>(s: &Step, row: &[u64], pv: &[u64]) -> bool {
    match s {
        Step::Hash(start) => {
            let mut input = [0u64; 8];
            input.copy_from_slice(&row[*start..*start + 8]);
            let blk = perm_row::<R>(input);
            row.len() >= *start + blk.len() && row[*start..*start + blk.len()] == blk[..]
        }
        Step::Zero(e) => ev(e, row, pv) == 0,
        Step::Eq(a, b) => ev(a, row, pv) == ev(b, row, pv),
        Step::Bool(e) => {
            let v = ev(e, row, pv);
            v == 0 || v == 1
        }
        Step::One(e) => ev(e, row, pv) == 1,
    }
}

fn all_rows_hold<const R: usize>(steps: &[Step], t: &Trace, pv: &[u64]) -> bool {
    t.values
        .chunks(t.width)
        .all(|row| steps.iter().all(|s| holds::<R>(s, row, pv)))
}

fn row_fails<const R: usize>(steps: &[Step], row: &[u64], pv: &[u64]) -> bool {
    steps.iter().any(|s| !holds::<R>(s, row, pv))
}

#[test]
fn policy_trace_satisfies_policy_air() {
    let steps = PolicyAir::new(&ALL_CLAUSES).constrain(0);
    let t = policy_trace(4);
    assert_eq!(t.width, POLICY_WIDTH);
    assert_eq!(t.values.len(), 4 * POLICY_WIDTH);
    assert!(all_rows_hold::<1>(&steps, &t, &[]));
    let t = policy_trace_amount(2, 200);
    assert!(all_rows_hold::<1>(&steps, &t, &[]));
}

#[test]
fn broken_policy_trace_fails_in_the_middle_row() {
    let steps = PolicyAir::new(&ALL_CLAUSES).constrain(0);
    let t = broken_trace(4);
    let rows: Vec<&[u64]> = t.values.chunks(t.width).collect();
    assert!(row_fails::<1>(&steps, rows[2], &[]));
    assert!(!row_fails::<1>(&steps, rows[0], &[]));
}

#[test]
fn composed_trace_satisfies_the_opening_circuit() {
    let air = FullAir::<1>::new();
    let steps = air.constrain();
    let t = composed_trace::<1>(2);
    assert_eq!(t.width, air.width());
    assert!(all_rows_hold::<1>(&steps, &t, &full_public_values::<1>()));
}

#[test]
fn every_composed_control_fails() {
    let steps = FullAir::<1>::new().constrain();
    let pv = full_public_values::<1>();
    for how in [Break::Binding, Break::Chaining, Break::Permutation] {
        let t = broken_composed::<1>(2, how);
        assert!(t.values.chunks(t.width).all(|row| row_fails::<1>(&steps, row, &pv)));
    }
    let mut wrong = pv.clone();
    wrong[0] = (wrong[0] + 1) % (P as u64);
    assert!(!all_rows_hold::<1>(&steps, &composed_trace::<1>(1), &wrong));
}

#[test]
fn merkle_and_nonmembership_traces_satisfy_their_circuits() {
    let m = merkle_trace::<1, 3>(2);
    assert!(all_rows_hold::<1>(&MerkleAir::<1, 3>::new().constrain(0), &m, &[]));
    let n = nonmembership_trace::<1, 3>(2);
    assert!(all_rows_hold::<1>(&NonMembershipAir::<1, 3>::new().constrain(0), &n, &[]));
}

#[test]
fn every_revocation_control_fails() {
    let steps = NonMembershipAir::<0, 2>::new().constrain(0);
    for how in [
        RevokeBreak::GapDecomposition,
        RevokeBreak::RunStartsInsideRange,
        RevokeBreak::RunReachesNextRange,
        RevokeBreak::RunInverted,
    ] {
        let t = broken_nonmembership::<0, 2>(2, how);
        assert!(t.values.chunks(t.width).all(|row| row_fails::<0>(&steps, row, &[])));
    }
}

#[test]
fn whole_trace_satisfies_the_whole_circuit() {
    let air = WholeAir::<1, 3, 3>::new();
    let t = whole_trace::<1, 3, 3>(2);
    assert_eq!(t.width, air.width());
    let pv = whole_public_values::<1, 3, 3>();
    assert_eq!(pv.len(), 9);
    assert!(all_rows_hold::<1>(&air.constrain(0), &t, &pv));
}

#[test]
fn vacuous_trace_passes_only_without_the_policy_binding() {
    let t = vacuous_trace::<1, 2, 2>(2);
    let pv = whole_public_values::<1, 2, 2>();
    let row = &t.values[..t.width];
    assert_eq!(row[COL_C], 1000);
    assert!(all_rows_hold::<1>(&VacuousAir::<1, 2, 2>::new().constrain(), &t, &pv));
    assert!(row_fails::<1>(&WholeAir::<1, 2, 2>::new().constrain(0), row, &pv));
}

#[test]
fn commitment_does_not_move_with_the_amount() {
    let a = whole_public_values_amount::<0, 2, 2>(10);
    let b = whole_public_values_amount::<0, 2, 2>(150);
    assert_eq!(a[1..], b[1..]);
    assert_ne!(a[0], b[0]);
}

#[test]
fn spend_trace_has_the_declared_width() {
    let t = spend_trace::<1, 16, 8>(2);
    assert_eq!(t.width, SpendAir::<1, 16, 8>::new().width());
    assert_eq!(t.width, 172 + 187 * 8);
    assert_eq!(t.values[2], PAYLOAD);
    let two = spend_two_trace::<0, 16, 4>(2);
    assert_eq!(two.width, SpendAir::<0, 16, 4>::new().width() + 4 * 94);
}

#[test]
fn every_spend_control_fails() {
    let steps = SpendAir::<0, 16, 4>::new().constrain(0);
    let pv = [PAYLOAD];
    for how in [
        SpendBreak::Share,
        SpendBreak::Key,
        SpendBreak::Nullifier,
        SpendBreak::Deactivate,
        SpendBreak::RunStart,
        SpendBreak::Modulus,
        SpendBreak::Units,
        SpendBreak::RangeBase,
        SpendBreak::CoarseSpan,
        SpendBreak::RunPastBudget,
        SpendBreak::RunPastSelf,
        SpendBreak::SelfPastHolding,
    ] {
        let t = broken_spend::<0, 16, 4>(1, how);
        assert!(row_fails::<0>(&steps, &t.values, &pv));
    }
}

#[test]
fn every_composed_air_control_fails() {
    let air = ComposedAir::<0, 2, 2, 16, 4>::new();
    let steps = air.constrain();
    let pv = circuits::witness::whole_public_values::<0, 2, 2>();
    for how in [
        ComposedBreak::CapAboveBudget,
        ComposedBreak::RunStartMismatch,
        ComposedBreak::AmountRaised,
        ComposedBreak::AmountLowered,
        ComposedBreak::UnitSizeWrong,
    ] {
        if let Some(t) = broken_composed_air::<0, 2, 2, 16, 4>(1, how) {
            assert_eq!(t.width, air.width());
            assert!(row_fails::<0>(&steps, &t.values, &pv));
        }
    }
    let t = composed_air_trace::<0, 2, 2, 16, 4>(1).expect("the payload digest is non-zero");
    assert_eq!(t.width, air.width());
}

#[test]
fn merkle_sibling_and_direction_controls_fail() {
    let steps = MerkleAir::<1, 3>::new().constrain(0);
    for col in [4usize, 8] {
        let t = corrupt(merkle_trace::<1, 3>(2), col);
        assert!(t.values.chunks(t.width).all(|row| row_fails::<1>(&steps, row, &[])));
    }
    let honest = merkle_trace::<1, 3>(1);
    let t = corrupt(merkle_trace::<1, 3>(1), 4);
    assert_eq!(honest.values[4], 1000);
    assert_eq!(t.values[4], 1001);
    assert!(t.values.iter().zip(&honest.values).enumerate().all(|(i, (a, b))| i == 4 || a == b));
}

#[test]
fn altered_payment_fields_fail_the_whole_circuit() {
    let air = WholeAir::<1, 2, 2>::new();
    let steps = air.constrain(0);
    let vacuous = VacuousAir::<1, 2, 2>::new().constrain();
    let pv = whole_public_values::<1, 2, 2>();
    for col in [COL_AMOUNT, COL_T, COL_NONCE] {
        let t = corrupt(whole_trace::<1, 2, 2>(2), col);
        assert!(t.values.chunks(t.width).all(|row| row_fails::<1>(&steps, row, &pv)));
        assert!(t.values.chunks(t.width).all(|row| row_fails::<1>(&vacuous, row, &pv)));
    }
}


#[test]
fn composed_ties_hold_on_the_honest_row() {
    let air = ComposedAir::<0, 2, 2, 16, 4>::new();
    let steps = air.constrain();
    let pv = whole_public_values::<0, 2, 2>();
    let t = composed_air_trace::<0, 2, 2, 16, 4>(1).expect("the payload digest is non-zero");
    let row = &t.values[..t.width];
    let ties = 4 + 3 * (RANGE_BITS + 1);
    for s in &steps[steps.len() - ties..] {
        assert!(holds::<0>(s, row, &pv));
    }
    let w = air.whole_width();
    let u = row[air.unit_col()] as u128;
    assert_eq!(u * row[w + COL_M] as u128 % P, row[COL_B] as u128);
    assert_eq!(row[w + COL_SELF], 1536);
    assert_eq!(u * row[w + COL_SELF] as u128 % P, row[COL_G] as u128);
    let units = row[w + COL_UNITS] as u128;
    let amount = row[COL_AMOUNT] as u128;
    assert!(units > 0);
    assert!((units - 1) * u < amount && amount <= units * u);
    assert!(row[COL_C] <= row[COL_B]);
}

#[test]
fn honest_spend_traces_satisfy_their_circuits() {
    let pv = [PAYLOAD];
    let t = spend_trace::<0, 16, 4>(2);
    assert!(all_rows_hold::<0>(&SpendAir::<0, 16, 4>::new().constrain(0), &t, &pv));
    let t = spend_trace::<1, 16, 8>(1);
    assert!(all_rows_hold::<1>(&SpendAir::<1, 16, 8>::new().constrain(0), &t, &pv));
    let two = spend_two_trace::<0, 16, 4>(1);
    assert!(all_rows_hold::<0>(&circuits::spend2::SpendTwoAir::<0, 16, 4>::new().constrain(), &two, &pv));
    let air = ComposedAir::<0, 2, 2, 16, 4>::new();
    let t = composed_air_trace::<0, 2, 2, 16, 4>(1).expect("the payload digest is non-zero");
    assert!(all_rows_hold::<0>(&air.constrain(), &t, &whole_public_values::<0, 2, 2>()));
}

#[test]
fn policy_trace_full_reduces_values_past_the_modulus() {
    let steps = PolicyAir::new(&ALL_CLAUSES).constrain(0);
    let p = P as u64;
    let t = circuits::trace::policy_trace_full(1, p + 1, p + 100);
    assert_eq!(t.values[COL_AMOUNT], 1);
    assert_eq!(t.values[COL_C], 100);
    assert!(all_rows_hold::<1>(&steps, &t, &[]));
}
