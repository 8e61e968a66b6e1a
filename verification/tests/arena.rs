use starforge_math::{
    close_split, initialize_house, payout_for, picks_bps, reveal_spin, reveal_spin_within, run_spin,
    settle_gamble, start_session,
    submit_picks, ArenaError, Session, STAGE_DONE, STAGE_GAMBLE, STAGE_PICKS, STAGE_SPIN,
};

const PLAYER: [u8; 32] = [1u8; 32];
const KEY: [u8; 32] = [2u8; 32];

fn seed_of(k: u32) -> [u8; 32] {
    let mut s = [0u8; 32];
    for i in 0..32 {
        s[i] = (k.wrapping_mul(2654435761).rotate_left(i as u32) & 0xff) as u8 ^ (i as u8);
    }
    s
}

fn find_seed(supernova: bool) -> [u8; 32] {
    for k in 0..100_000u32 {
        let s = seed_of(k);
        if run_spin(s, 0).prizes.is_some() == supernova {
            return s;
        }
    }
    panic!("no seed found");
}

fn open(wager: u64) -> Session {
    start_session(PLAYER, 7, wager, 0, 100, 254).unwrap()
}

#[test]
fn house_fee_limit() {
    let h = initialize_house([9u8; 32], 1000, 3).unwrap();
    assert_eq!(h.fee_bps, 1000);
    assert_eq!(h.bump, 3);
    assert_eq!(initialize_house([9u8; 32], 1001, 3), Err(ArenaError::BadFee));
}

#[test]
fn session_opening() {
    assert_eq!(start_session(PLAYER, 1, 0, 0, 5, 0).err(), Some(ArenaError::BadWager));
    assert_eq!(start_session(PLAYER, 1, 10, 8, 5, 0).err(), Some(ArenaError::BadArtifacts));
    assert_eq!(start_session(PLAYER, 1, 0, 8, 5, 0).err(), Some(ArenaError::BadWager));
    let s = start_session(PLAYER, 1, 10, 7, 5, 9).unwrap();
    assert_eq!(s.stage, STAGE_SPIN);
    assert_eq!(s.request_slot, 15);
    assert_eq!(s.wager, 10);
    assert_eq!(s.artifacts, 7);
    assert_eq!(s.bump, 9);
    assert_eq!(s.total_bps, 0);
    assert_eq!(s.grids, [0u8; 60]);
}

#[test]
fn reveal_needs_committed_slot_and_hash() {
    let mut s = open(1_000);
    let before = s;
    assert_eq!(reveal_spin(&mut s, KEY, 110, Some([0u8; 32]), 1_000_000).err(), Some(ArenaError::RandomnessNotReady));
    assert_eq!(reveal_spin(&mut s, KEY, 111, None, 1_000_000).err(), Some(ArenaError::SlotHashExpired));
    assert_eq!(s.stage, before.stage);
    assert_eq!(s.grids, before.grids);
}

#[test]
fn reveal_without_supernova_settles() {
    let seed = find_seed(false);
    let out = run_spin(seed, 0);
    let mut s = open(1_000);
    let r = reveal_spin(&mut s, KEY, 111, Some(seed), 10_000_000).unwrap();
    assert_eq!(s.stage, STAGE_DONE);
    assert_eq!(s.seed, seed);
    assert_eq!(s.total_bps, out.grid_win_bps);
    assert_eq!(s.step_count as usize, out.grids.len());
    assert_eq!(&s.grids[..30], &out.grids[0][..]);
    assert!(!r.revealed.supernova);
    assert_eq!(r.revealed.grid_win_bps, out.grid_win_bps);
    let ev = r.settled.unwrap();
    assert_eq!(ev.payout, payout_for(1_000, out.grid_win_bps));
    assert_eq!(ev.session, KEY);
    assert_eq!(ev.player, PLAYER);
    // a settled session accepts no further instruction
    assert_eq!(reveal_spin(&mut s, KEY, 200, Some(seed), 10_000_000).err(), Some(ArenaError::WrongStage));
    assert_eq!(submit_picks(&mut s, KEY, [0, 1, 2, 3, 4], false, 200, 10_000_000).err(), Some(ArenaError::WrongStage));
    assert_eq!(settle_gamble(&mut s, KEY, 200, Some(seed), 10_000_000).err(), Some(ArenaError::WrongStage));
}

#[test]
fn reveal_fails_when_vault_is_short() {
    let mut seed = None;
    for k in 0..100_000u32 {
        let s = seed_of(k);
        let o = run_spin(s, 0);
        if o.prizes.is_none() && o.grid_win_bps > 0 {
            seed = Some(s);
            break;
        }
    }
    let seed = seed.unwrap();
    let mut s = open(1_000);
    let before = s;
    assert_eq!(reveal_spin(&mut s, KEY, 111, Some(seed), 0).err(), Some(ArenaError::InsufficientVault));
    assert_eq!(s.stage, before.stage);
    assert_eq!(s.seed, before.seed);
}

#[test]
fn supernova_picks_and_gamble() {
    let seed = find_seed(true);
    let out = run_spin(seed, 0);
    let prizes = out.prizes.unwrap();
    let mut s = open(1_000);
    let r = reveal_spin(&mut s, KEY, 111, Some(seed), 10_000_000).unwrap();
    assert!(r.revealed.supernova);
    assert!(r.settled.is_none());
    assert_eq!(s.stage, STAGE_PICKS);
    assert_eq!(s.prizes, prizes);
    assert!(s.stars >= 4);
    assert_eq!(submit_picks(&mut s, KEY, [0, 1, 2, 3, 3], false, 120, 10_000_000).err(), Some(ArenaError::BadPicks));
    assert_eq!(settle_gamble(&mut s, KEY, 200, Some(seed), 10_000_000).err(), Some(ArenaError::WrongStage));

    let picks = [4, 0, 11, 7, 2];
    let pb = picks_bps(&prizes, &picks, 0);

    // no gamble: settled with grid win plus picks
    let mut plain = s;
    let ev = submit_picks(&mut plain, KEY, picks, false, 120, 10_000_000).unwrap().unwrap();
    assert_eq!(plain.stage, STAGE_DONE);
    assert_eq!(plain.picks_bps, pb);
    assert_eq!(plain.total_bps, out.grid_win_bps + pb);
    assert_eq!(ev.payout, payout_for(1_000, out.grid_win_bps + pb));

    // gamble: a fresh commitment, then the coin
    let mut g = s;
    assert_eq!(submit_picks(&mut g, KEY, picks, true, 120, 10_000_000).unwrap(), None);
    assert_eq!(g.stage, STAGE_GAMBLE);
    assert_eq!(g.request_slot, 130);
    assert_eq!(settle_gamble(&mut g, KEY, 130, Some([0u8; 32]), 10_000_000).err(), Some(ArenaError::RandomnessNotReady));
    assert_eq!(settle_gamble(&mut g, KEY, 131, None, 10_000_000).err(), Some(ArenaError::SlotHashExpired));

    let mut won = g;
    let ev = settle_gamble(&mut won, KEY, 131, Some([2u8; 32]), 10_000_000).unwrap();
    assert!(won.gamble_win);
    assert_eq!(won.stage, STAGE_DONE);
    assert_eq!(won.total_bps, out.grid_win_bps + 2 * pb);
    assert_eq!(ev.payout, payout_for(1_000, out.grid_win_bps + 2 * pb));
    assert_eq!(ev.seed, seed);

    let mut lost = g;
    let ev = settle_gamble(&mut lost, KEY, 131, Some([3u8; 32]), 10_000_000).unwrap();
    assert!(!lost.gamble_win);
    assert_eq!(lost.total_bps, out.grid_win_bps);
    assert_eq!(ev.payout, payout_for(1_000, out.grid_win_bps));

    // the vault must cover the payout
    let mut short = g;
    assert_eq!(settle_gamble(&mut short, KEY, 131, Some([2u8; 32]), 0).err(), Some(ArenaError::InsufficientVault));
    assert_eq!(short.stage, STAGE_GAMBLE);
}

#[test]
fn revealed_event_carries_grids_and_patterns() {
    for supernova in [false, true] {
        let seed = find_seed(supernova);
        let out = run_spin(seed, 0);
        let mut s = open(1_000);
        let r = reveal_spin(&mut s, KEY, 111, Some(seed), 10_000_000).unwrap();
        assert_eq!(r.revealed.grids, s.grids);
        assert_eq!(r.revealed.step_pats, s.step_pats);
        for (i, g) in out.grids.iter().enumerate() {
            assert_eq!(&r.revealed.grids[30 * i..30 * i + 30], &g[..]);
            assert_eq!(r.revealed.step_pats[i], out.step_pats[i]);
        }
        assert_eq!(r.revealed.seed, seed);
        assert_eq!(r.revealed.player, PLAYER);
        assert_eq!(r.revealed.session, KEY);
    }
}

#[test]
fn reveal_within_a_byte_budget() {
    let seed = find_seed(false);
    let mut s = open(1_000);
    let before = s;
    // a spin reads at least 60 bytes: with fewer the reveal gives up and changes nothing
    assert!(reveal_spin_within(&mut s, KEY, 111, Some(seed), 10_000_000, 59).is_none());
    assert_eq!(s.stage, before.stage);
    assert_eq!(s.seed, before.seed);
    // the randomness checks still come first
    assert_eq!(
        reveal_spin_within(&mut s, KEY, 110, Some(seed), 10_000_000, 59).unwrap().err(),
        Some(ArenaError::RandomnessNotReady)
    );
    let mut t = open(1_000);
    let a = reveal_spin_within(&mut s, KEY, 111, Some(seed), 10_000_000, u64::MAX).unwrap().unwrap();
    let b = reveal_spin(&mut t, KEY, 111, Some(seed), 10_000_000).unwrap();
    assert_eq!(a, b);
    assert_eq!(s.grids, t.grids);
    assert_eq!(s.total_bps, t.total_bps);
}

#[test]
fn closing_split_of_the_vault() {
    assert_eq!(close_split(5_000, 1_500), (1_500, 3_500));
    assert_eq!(close_split(1_000, 1_500), (1_000, 0));
    assert_eq!(close_split(1_500, 1_500), (1_500, 0));
    assert_eq!(close_split(0, 0), (0, 0));
}
