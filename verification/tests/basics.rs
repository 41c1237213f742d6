use circuits::air::{policy_src, Clause, PolicyAir, ALL_CLAUSES, COL_B, COL_R, EVERY_CLAUSE, VALUE_COLS};
use circuits::field::{fadd, fmul, from_u64, fsub, inverse, P};
use circuits::hash::{block_width, output_offset};
use circuits::prover::min_admissible_height;
use circuits::spend::SpendAir;
use circuits::spend_trace::{interval, layout, SpendBreak};
use circuits::trace::POLICY_WIDTH;
use circuits::composed::ComposedAir;
use circuits::vacuous::VacuousAir;
use circuits::whole::{WholeAir, ABSORBED};

#[test]
fn field_reduction_and_arithmetic() {
    assert_eq!(from_u64(P), 0);
    assert_eq!(from_u64(P + 5), 5);
    assert_eq!(fadd(P - 1, 1), 0);
    assert_eq!(fsub(0, 1), P - 1);
    assert_eq!(fmul(P - 1, P - 1), 1);
    assert_eq!(fmul(1 << 32, 1 << 32), (1u64 << 32) - 1);
}

#[test]
fn inverse_is_multiplicative_inverse() {
    for a in [1u64, 2, 7, 31337, P - 1] {
        let r = inverse(a);
        assert!(r < P);
        assert_eq!(fmul(a, r), 1);
    }
    assert_eq!(inverse(2), (P + 1) / 2);
}

#[test]
fn clause_names_and_range_checks() {
    let names: Vec<&str> = EVERY_CLAUSE.iter().map(|c| c.name()).collect();
    assert_eq!(
        names,
        vec![
            "C1 per-payment cap",
            "C2 cumulative budget",
            "C3 merchant allowlist",
            "C4 category allowlist",
            "C5 validity window",
            "C6 velocity",
        ]
    );
    let checks: Vec<usize> = EVERY_CLAUSE.iter().map(|c| c.range_checks()).collect();
    assert_eq!(checks, vec![1, 1, 0, 0, 2, 1]);
    assert_eq!(Clause::C5Temporal.range_checks(), 2);
}

#[test]
fn policy_air_dimensions() {
    let a = PolicyAir::new(&ALL_CLAUSES);
    assert_eq!(a.total_range_checks(), 3);
    assert_eq!(a.width(), POLICY_WIDTH);
    assert_eq!(a.width(), VALUE_COLS + 3 * 40);
    let every = PolicyAir::new(&EVERY_CLAUSE);
    assert_eq!(every.total_range_checks(), 5);
}

#[test]
fn policy_sources_are_distinct_policy_columns() {
    let cols: Vec<usize> = (0..16).map(policy_src).collect();
    assert_eq!(cols[0], COL_B);
    assert_eq!(cols[15], COL_R);
    for i in 0..16 {
        for j in 0..16 {
            if i != j {
                assert_ne!(cols[i], cols[j]);
            }
        }
        assert!(cols[i] >= COL_B && cols[i] <= COL_R);
    }
}

#[test]
fn smallest_admissible_height_is_eight() {
    assert_eq!(min_admissible_height(), 8);
}

#[test]
fn permutation_block_widths() {
    assert_eq!(block_width::<0>(), 94);
    assert_eq!(block_width::<1>(), 180);
    assert_eq!(output_offset::<1>(), 172);
}

#[test]
fn spend_width_grows_by_one_slot_at_a_time() {
    assert_eq!(SpendAir::<1, 16, 64>::new().width(), 172 + 187 * 64);
    assert_eq!(SpendAir::<1, 16, 30>::new().width(), 172 + 187 * 30);
    assert_eq!(SpendAir::<0, 16, 1>::new().width(), 172 + 7 + 94);
    assert_eq!(SpendAir::<1, 16, 64>::permutations(), 64);
}

#[test]
fn spend_layout_regions() {
    let l = layout(16, 64, 180);
    assert_eq!(l.pos, 11);
    assert_eq!(l.rng, 11 + 65);
    assert_eq!(l.node, 11 + 65 + 160);
    assert_eq!(l.vals, 11 + 65 + 160 + 6 * 64);
    assert_eq!(l.width, 172 + 187 * 64);
}

#[test]
fn interval_places_the_run_a_quarter_in() {
    assert_eq!(interval(16, 64, None, 0, 0, 1536), (1536, 0, 385, 64));
    assert_eq!(interval(16, 8, Some(3), 1, 7, 1536), (1536, 7, 386, 3));
    assert_eq!(interval(2, 8, None, 0, 0, 2), (2, 0, 1, 0));
    assert_eq!(interval(16, 5000, None, 0, 0, 1536), (1536, 0, 385, 1150));
}

#[test]
fn spend_break_is_comparable() {
    assert_eq!(SpendBreak::Share, SpendBreak::Share);
    assert_ne!(SpendBreak::Share, SpendBreak::Key);
}

#[test]
fn spend_width_law_without_registers() {
    for c in [1usize, 4, 30] {
        let w = match c {
            1 => SpendAir::<0, 16, 1>::new().width(),
            4 => SpendAir::<0, 20, 4>::new().width(),
            _ => SpendAir::<0, 8, 30>::new().width(),
        };
        assert_eq!(w, 172 + 101 * c);
    }
}

#[test]
fn removing_the_policy_binding_costs_sixteen_constraints_and_no_columns() {
    let whole = WholeAir::<1, 2, 2>::new();
    let vacuous = VacuousAir::<1, 2, 2>::new();
    assert_eq!(whole.width(), vacuous.width());
    assert_eq!(whole.constrain(0).len(), vacuous.constrain().len() + ABSORBED);
    assert_eq!(ABSORBED, 16);
}

#[test]
fn composition_adds_only_the_binding_columns() {
    let composed = ComposedAir::<0, 2, 2, 16, 4>::new().width();
    let halves = WholeAir::<0, 2, 2>::new().width() + SpendAir::<0, 16, 4>::new().width();
    assert_eq!(composed, halves + 121);
}
