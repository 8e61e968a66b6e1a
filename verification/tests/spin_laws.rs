use starforge_math::{
    match_pattern, run_spin, run_spin_keccak, run_spin_keccak_within, run_spin_within, spin_draws_end,
    spin_draws_end_keccak, SpinOutcome, CELLS, PATTERNS, PRIZES, ROWS, STAR,
};

fn seeds() -> Vec<[u8; 32]> {
    let mut v = Vec::new();
    for k in 0..64u8 {
        let mut s = [0u8; 32];
        for i in 0..32 {
            s[i] = k.wrapping_mul(31).wrapping_add((i as u8).wrapping_mul(17));
        }
        v.push(s);
    }
    v
}

fn counts(grid: &[u8; CELLS]) -> [u8; 8] {
    let mut c = [0u8; 8];
    for &s in grid.iter() {
        c[s as usize] += 1;
    }
    c
}

fn check_shape(o: &SpinOutcome) {
    assert!(!o.grids.is_empty() && o.grids.len() <= 2);
    assert_eq!(o.step_wins_bps.len(), o.grids.len());
    assert_eq!(o.step_pats.len(), o.grids.len());
    assert_eq!(o.grid_win_bps, o.step_wins_bps.iter().sum::<u64>());
    for g in o.grids.iter() {
        assert!(g.iter().all(|&s| s <= STAR));
    }
    for &p in o.step_pats.iter() {
        assert!(p <= 4);
    }
    let stars = o.grids[0].iter().filter(|&&s| s == STAR).count() as u8;
    assert_eq!(o.stars, stars);
    assert_eq!(o.prizes.is_some(), stars >= 4);
    if let Some(p) = o.prizes {
        let mut a = p.to_vec();
        let mut b = PRIZES.to_vec();
        a.sort();
        b.sort();
        assert_eq!(a, b);
    }
    if o.grids.len() == 2 {
        // a second step only follows a grid with a scatter pay,
        // and its columns hold the survivors at the bottom, in order
        let c = counts(&o.grids[0]);
        let pays: Vec<bool> = (0..8).map(|m| m < 7 && c[m] >= 8).collect();
        assert!(pays.iter().any(|&p| p));
        for col in 0..6 {
            let before = &o.grids[0][col * ROWS..col * ROWS + ROWS];
            let after = &o.grids[1][col * ROWS..col * ROWS + ROWS];
            let surv: Vec<u8> = before.iter().copied().filter(|&s| !pays[s as usize]).collect();
            assert_eq!(&after[ROWS - surv.len()..], &surv[..]);
        }
    } else if o.step_wins_bps[0] > 0 {
        // a single step either paid nothing by scatter, or the cap was reached
        let c = counts(&o.grids[0]);
        assert!((0..7).all(|m| c[m] < 8));
    }
}

#[test]
fn spin_shape_holds_on_many_seeds() {
    for seed in seeds() {
        for artifacts in [0u8, 7] {
            check_shape(&run_spin(seed, artifacts));
            check_shape(&run_spin_keccak(seed, artifacts));
        }
    }
}

#[test]
fn artifacts_do_not_change_the_grids() {
    for seed in seeds() {
        let a = run_spin(seed, 0);
        let b = run_spin(seed, 7);
        assert_eq!(a.grids, b.grids);
        assert_eq!(a.stars, b.stars);
        assert_eq!(a.prizes, b.prizes);
        assert!(b.grid_win_bps >= a.grid_win_bps);
    }
}

#[test]
fn both_cursors_start_with_the_seed() {
    // the first grid comes from the seed's own bytes when no pair is rejected
    let seed = [3u8; 32];
    let a = run_spin(seed, 0);
    let b = run_spin_keccak(seed, 0);
    assert_eq!(a.grids[0][..16], b.grids[0][..16]);
}

#[test]
fn zero_seed_first_grid() {
    // 16 pairs of zero bytes give copper, then the hashed block follows
    let o = run_spin([0u8; 32], 0);
    assert!(o.grids[0][..16].iter().all(|&s| s == 0));
    check_shape(&o);
}

#[test]
fn best_formed_pattern_is_reported() {
    let mut found = 0;
    for k in 0..20_000u32 {
        let mut seed = [0u8; 32];
        seed[..4].copy_from_slice(&k.to_le_bytes());
        seed[31] = 0x5a;
        let o = run_spin(seed, 0);
        for (step, grid) in o.grids.iter().enumerate() {
            let best = (0..4).filter(|&i| match_pattern(grid, &PATTERNS[i].1)).max();
            let expected = best.map(|i| i as u8 + 1).unwrap_or(0);
            assert_eq!(o.step_pats[step], expected);
            if expected != 0 {
                found += 1;
            }
        }
        if found >= 3 {
            break;
        }
    }
    assert!(found >= 1);
}

#[test]
fn draws_end_within_a_byte_budget() {
    for k in 0..16u8 {
        let seed = [k.wrapping_mul(37).wrapping_add(1); 32];
        // the least budget that suffices
        let mut least = 0u64;
        while !spin_draws_end(seed, 7, least) {
            least += 1;
            assert!(least < 100_000);
        }
        assert!(least >= 60);
        assert!(spin_draws_end(seed, 7, least + 1));
        assert!(spin_draws_end(seed, 7, u64::MAX));
        assert!(!spin_draws_end(seed, 7, least - 1));
        assert!(run_spin_within(seed, 7, least - 1).is_none());
        let o = run_spin_within(seed, 7, least).unwrap();
        let p = run_spin(seed, 7);
        assert_eq!(o.grids, p.grids);
        assert_eq!(o.grid_win_bps, p.grid_win_bps);
        assert_eq!(o.prizes, p.prizes);
        assert!(spin_draws_end_keccak(seed, 0, u64::MAX));
        let q = run_spin_keccak_within(seed, 0, u64::MAX).unwrap();
        assert_eq!(q.grids, run_spin_keccak(seed, 0).grids);
    }
}

#[test]
fn artifact_bits_only_raise_wins() {
    for seed in seeds() {
        let base = run_spin(seed, 0);
        for a in 0..8u8 {
            let o = run_spin(seed, a);
            assert_eq!(o.step_pats, base.step_pats);
            for (w0, w) in base.step_wins_bps.iter().zip(o.step_wins_bps.iter()) {
                assert!(w >= w0);
            }
            // only the brasa and yunque bits change a step
            assert_eq!(run_spin(seed, a | 0x04).step_wins_bps, run_spin(seed, a & 0x03).step_wins_bps);
        }
    }
}
