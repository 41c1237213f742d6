use circuits::air::{
    policy_src, COL_AMOUNT, COL_C, COL_CID, COL_CROOT, COL_MID, COL_MROOT, COL_T, COL_TEXP, COL_TSTART,
    PAYLOAD_SRC, POLICY_ELEMS,
};
use circuits::gen::{perm_output, perm_row, sponge};
use circuits::hash::{DOMAIN_OPENING, DOMAIN_PAYLOAD};
use circuits::merkle::MerkleAir;
use circuits::whole::WholeAir;
use circuits::witness::{whole_public_values, whole_trace};

/// The digest a path's columns compute from the leaf they start with.
fn path_root(row: &[u64], off: usize, depth: usize, lw: usize) -> Vec<u64> {
    let mut cur: Vec<u64> = row[off..off + 4].to_vec();
    for l in 0..depth {
        let base = off + l * lw;
        let sib = &row[base + 4..base + 8];
        let mut input = [0u64; 8];
        if row[base + 8] == 1 {
            input[..4].copy_from_slice(sib);
            input[4..].copy_from_slice(&cur);
        } else {
            input[..4].copy_from_slice(&cur);
            input[4..].copy_from_slice(sib);
        }
        cur = perm_output::<1>(&perm_row::<1>(input))[..4].to_vec();
    }
    cur
}

#[test]
fn the_commitment_is_the_sponge_over_the_policy_columns() {
    let t = whole_trace::<1, 2, 2>(1);
    let row = &t.values;
    let pv = whole_public_values::<1, 2, 2>();
    let policy: Vec<u64> = (0..POLICY_ELEMS).map(|e| row[policy_src(e)]).collect();
    let blocks = sponge::<1>(&policy, 4, DOMAIN_OPENING);
    assert_eq!(blocks.len(), 4);
    assert_eq!(&pv[5..9], &perm_output::<1>(blocks.last().unwrap())[..4]);
    let fields: Vec<u64> = PAYLOAD_SRC.iter().map(|&c| row[c]).collect();
    let pblocks = sponge::<1>(&fields, 4, DOMAIN_PAYLOAD);
    assert_eq!(pv[0], perm_output::<1>(pblocks.last().unwrap())[0]);
}

#[test]
fn the_policy_columns_keep_the_clauses() {
    let t = whole_trace::<1, 2, 2>(1);
    let row = &t.values;
    assert!(row[COL_AMOUNT] <= row[COL_C]);
    assert!(row[COL_TSTART] <= row[COL_T] && row[COL_T] <= row[COL_TEXP]);
}

#[test]
fn allowlist_paths_end_in_the_committed_roots() {
    let air = WholeAir::<1, 2, 2>::new();
    let (_, _, h, mc, _, _) = air.offsets();
    let lw = MerkleAir::<1, 2>::new().level_width();
    let t = whole_trace::<1, 2, 2>(1);
    let row = &t.values;
    assert_eq!(&row[h..h + 4], &[row[COL_MID], 0, 0, 0]);
    assert_eq!(&row[mc..mc + 4], &[row[COL_CID], 0, 0, 0]);
    assert_eq!(path_root(row, h, 2, lw), row[COL_MROOT..COL_MROOT + 4].to_vec());
    assert_eq!(path_root(row, mc, 2, lw), row[COL_CROOT..COL_CROOT + 4].to_vec());
}

#[test]
fn the_revocation_path_ends_in_the_public_root_and_the_run_is_unrevoked() {
    let air = WholeAir::<1, 2, 2>::new();
    let (_, _, _, _, ct, rv) = air.offsets();
    let path = MerkleAir::<1, 2>::new();
    let t = whole_trace::<1, 2, 2>(1);
    let row = &t.values;
    let pv = whole_public_values::<1, 2, 2>();
    assert_eq!(path_root(row, ct, 2, path.level_width()), pv[1..5].to_vec());
    let pw = path.width();
    let (start, end, next, pad) = (row[ct], row[ct + 1], row[ct + 2], row[ct + 3]);
    let (lo, hi) = (row[ct + pw], row[ct + pw + 1]);
    assert_eq!(pad, 0);
    assert!(start <= lo && end < lo && lo <= hi && hi < next);
    assert_eq!((lo, hi), (row[rv + 5], row[rv + 6]));
}
