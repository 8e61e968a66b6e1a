use starforge_math::{
    match_pattern, pay_for, payout_for, run_spin, valid_picks, Cursor, CELLS, PATTERNS, STAR,
};

#[test]
fn paytable_tiers() {
    assert_eq!(pay_for(0, 8), 1650);
    assert_eq!(pay_for(0, 10), 4125);
    assert_eq!(pay_for(0, 12), 16500);
    assert_eq!(pay_for(6, 12), 412500);
    assert_eq!(pay_for(3, 7), 0);
}

#[test]
fn pattern_cruz_matches() {
    // cruz cells (col-major): 11,12,13,7,17 -> all copper
    let mut grid = [STAR; CELLS];
    for &c in &[11u8, 12, 13, 7, 17] {
        grid[c as usize] = 0;
    }
    assert!(match_pattern(&grid, &PATTERNS[0].1));
    assert!(!match_pattern(&grid, &PATTERNS[1].1));
}

#[test]
fn pattern_rejects_stars() {
    let grid = [STAR; CELLS];
    for &(_, cells) in PATTERNS.iter() {
        assert!(!match_pattern(&grid, &cells));
    }
}

#[test]
fn payout_cap() {
    assert_eq!(payout_for(1_000, 10_000), 1_000); // 1x
    assert_eq!(payout_for(1_000, 100_000_000), 1_000_000); // capped at 1000x
}

#[test]
fn picks_validation() {
    assert!(valid_picks(&[0, 1, 2, 3, 4]));
    assert!(!valid_picks(&[0, 1, 2, 3, 3])); // duplicate
    assert!(!valid_picks(&[0, 1, 2, 3, 12])); // out of range
}

#[test]
fn spin_is_deterministic() {
    let seed = [7u8; 32];
    let a = run_spin(seed, 0);
    let b = run_spin(seed, 0);
    assert_eq!(a.grid_win_bps, b.grid_win_bps);
    assert_eq!(a.grids, b.grids);
    assert_eq!(a.prizes, b.prizes);
}

#[test]
fn draw_symbol_stays_in_range() {
    let mut cur = Cursor::new([42u8; 32]);
    for _ in 0..10_000 {
        assert!(cur.draw_symbol() <= STAR);
    }
}
