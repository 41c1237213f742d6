use circuits::field::{fadd, fmul, fsub};
use circuits::gen::{perm_output, perm_row};
use circuits::hash::{block_width, DOMAIN_KEY, DOMAIN_PAD};
use circuits::spend::{SpendAir, COL_BASE, COL_INDEX, COL_ROOT_KEY, COL_SECRET, NODE_ACTIVE, NODE_KEY, NODE_NULL, NODE_SHARE, PER_NODE};
use circuits::spend_trace::{layout, spend_trace, PAYLOAD};

#[test]
fn every_slot_derives_its_key_and_publishes_its_shares() {
    let cover = 4usize;
    let t = spend_trace::<1, 16, 4>(1);
    let row = &t.values;
    let l = layout(16, cover, block_width::<1>());
    assert_eq!(row[COL_INDEX], PAYLOAD);
    for k in 0..cover {
        let n = l.node + k * PER_NODE;
        let active = row[n + NODE_ACTIVE] == 1;
        let mut input = [0u64; 8];
        input[0] = row[COL_ROOT_KEY];
        input[1] = row[COL_ROOT_KEY + 1];
        if active {
            input[2] = fadd(row[COL_BASE], row[l.pos + k]);
            input[3] = DOMAIN_KEY;
        } else {
            input[2] = row[COL_INDEX];
            input[3] = DOMAIN_PAD;
            input[4] = k as u64 + 1;
        }
        let out = perm_output::<1>(&perm_row::<1>(input));
        assert_eq!(row[n + NODE_KEY], out[0]);
        assert_eq!(row[n + NODE_KEY + 1], out[1]);
        assert_eq!(row[n + NODE_SHARE], fadd(row[COL_SECRET], fmul(out[0], PAYLOAD)));
        assert_eq!(row[n + NODE_SHARE + 1], fadd(row[COL_SECRET + 1], fmul(out[1], PAYLOAD)));
        assert_eq!(row[n + NODE_NULL], out[2]);
        assert_eq!(row[l.pos + k + 1], row[l.pos + k] + row[n + NODE_ACTIVE]);
    }
}

#[test]
fn two_shares_under_one_key_reveal_the_secret() {
    let (secret, key) = (987654321u64, 5555555555u64);
    let (m1, m2) = (31337u64, 31338u64);
    let s1 = fadd(secret, fmul(key, m1));
    let s2 = fadd(secret, fmul(key, m2));
    let lhs = fmul(fsub(m2, m1), secret);
    let rhs = fsub(fmul(s1, m2), fmul(s2, m1));
    assert_eq!(lhs, rhs);
    // Here m2 - m1 is one, so the secret itself falls out.
    assert_eq!(rhs, secret);
}

#[test]
fn the_charged_units_are_the_active_slots_and_the_gaps_are_small() {
    let air = SpendAir::<1, 16, 4>::new();
    let t = spend_trace::<1, 16, 4>(1);
    let row = &t.values[..t.width];
    let nb = air.node_base();
    let active: u64 = (0..4).map(|k| row[nb + k * 6]).sum();
    assert_eq!(row[circuits::spend::COL_UNITS], active);
    let m = row[circuits::spend::COL_M];
    let s = row[circuits::spend::COL_SELF];
    let r = row[circuits::spend::COL_R];
    let u = row[circuits::spend::COL_UNITS];
    assert_eq!(m, s);
    assert!(r < 1u64 << 40 && s - r - u < 1u64 << 40 && (1u64 << 16) - m < 1u64 << 40);
}

#[test]
fn moving_the_nullifier_out_removes_one_step_per_slot() {
    let air = SpendAir::<1, 16, 4>::new();
    let inside = air.constrain_with(0, false);
    let outside = air.constrain_with(0, true);
    assert_eq!(inside.len(), outside.len() + 4);
}
