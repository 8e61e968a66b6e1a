use vstd::prelude::*;

use crate::rules::{
    coin_flip, payout_for, picks_bps, spec_capped_payout, spec_picks_bps, spec_valid_picks,
    valid_picks, CELLS, STAGE_DONE, STAGE_GAMBLE, STAGE_PICKS, STAGE_SPIN,
};
use crate::spin::{
    lemma_spin_shape, run_spin, seed_stream, spec_run_spin, spin_draws_end, spin_end, SpinView,
};
use crate::cursor::HashKind;

verus! {

/// Slots to wait before the committed randomness becomes available.
pub const REVEAL_DELAY_SLOTS: u64 = 10;
/// Maximum number of cascade steps whose grids a session stores.
pub const MAX_STEPS: usize = 2;
/// Bytes of a session's stored grids: `MAX_STEPS` grids of `CELLS` cells.
pub const STORED_GRID_CELLS: usize = 60;

/// The house: its authority and fee configuration.
#[derive(Clone, Copy, Debug, PartialEq, Eq)]
pub struct House {
    pub authority: [u8; 32],
    pub fee_bps: u16,
    pub bump: u8,
}

/// One play session: the wager, the committed randomness and everything the reveal produced.
#[derive(Clone, Copy, Debug)]
pub struct Session {
    pub player: [u8; 32],
    pub session_id: u64,
    pub wager: u64,
    pub artifacts: u8,
    pub stage: u8,
    pub request_slot: u64,
    pub seed: [u8; 32],
    pub grid_win_bps: u64,
    pub picks_bps: u64,
    pub total_bps: u64,
    pub stars: u8,
    pub prizes: [u16; 12],
    pub picks: [u8; 5],
    pub gamble_win: bool,
    /// Pre-refill grids, `MAX_STEPS` times 30 cells (column-major).
    pub grids: [u8; STORED_GRID_CELLS],
    pub step_pats: [u8; MAX_STEPS],
    /// Win (bps of wager) of each cascade step, for the animated reveal.
    pub step_wins_bps: [u64; MAX_STEPS],
    pub step_count: u8,
    pub bump: u8,
}

/// Event of a revealed spin: the seed, the stored cascade grids and step
/// patterns, whether the supernova triggered, and the grid win.
#[derive(Clone, Copy, Debug, PartialEq, Eq)]
pub struct SpinRevealed {
    pub session: [u8; 32],
    pub player: [u8; 32],
    pub seed: [u8; 32],
    /// The session's stored grids after the reveal, `MAX_STEPS` times 30 cells.
    pub grids: [u8; STORED_GRID_CELLS],
    /// The session's stored step patterns after the reveal.
    pub step_pats: [u8; MAX_STEPS],
    pub supernova: bool,
    pub grid_win_bps: u64,
}

/// Event of a settled session: what was paid out of the session vault.
#[derive(Clone, Copy, Debug, PartialEq, Eq)]
pub struct SessionSettled {
    pub session: [u8; 32],
    pub player: [u8; 32],
    pub wager: u64,
    pub total_bps: u64,
    pub payout: u64,
    pub seed: [u8; 32],
}

/// Errors of the arena instructions.
#[derive(Clone, Copy, Debug, PartialEq, Eq, Structural)]
pub enum ArenaError {
    BadWager,
    BadArtifacts,
    BadPicks,
    WrongStage,
    RandomnessNotReady,
    SlotHashExpired,
    BadFee,
    InsufficientVault,
    UnauthorizedPlayer,
}

/// Create the house configuration; the fee is at most 10%.
pub fn initialize_house(authority: [u8; 32], fee_bps: u16, bump: u8) -> (r: Result<House, ArenaError>)
    ensures
        r == if fee_bps <= 1000 {
            Ok(House { authority, fee_bps, bump })
        } else {
            Err::<House, ArenaError>(ArenaError::BadFee)
        },
{
    if fee_bps > 1_000 {
        return Err(ArenaError::BadFee);
    }
    Ok(House { authority, fee_bps, bump })
}

/// A session as `start_session` opens it: the given fields set, the spin
/// stage, randomness committed `REVEAL_DELAY_SLOTS` after `slot`, and every
/// other field zero (as in a freshly created account).
pub open spec fn is_opened(
    s: Session,
    player: [u8; 32],
    session_id: u64,
    wager: u64,
    artifacts: u8,
    slot: u64,
    bump: u8,
) -> bool {
    &&& s.player == player
    &&& s.session_id == session_id
    &&& s.wager == wager
    &&& s.artifacts == artifacts
    &&& s.stage == STAGE_SPIN
    &&& s.request_slot == slot + REVEAL_DELAY_SLOTS
    &&& s.bump == bump
    &&& s.seed@ == Seq::new(32, |i: int| 0u8)
    &&& s.grid_win_bps == 0
    &&& s.picks_bps == 0
    &&& s.total_bps == 0
    &&& s.stars == 0
    &&& s.prizes@ == Seq::new(12, |i: int| 0u16)
    &&& s.picks@ == Seq::new(5, |i: int| 0u8)
    &&& !s.gamble_win
    &&& s.grids@ == Seq::new(60, |i: int| 0u8)
    &&& s.step_pats@ == Seq::new(2, |i: int| 0u8)
    &&& s.step_wins_bps@ == Seq::new(2, |i: int| 0u64)
    &&& s.step_count == 0
}

/// Open a session: the wager must be positive and the artifact bitmask at
/// most 0x07. The caller moves the wager into the session vault.
pub fn start_session(player: [u8; 32], session_id: u64, wager: u64, artifacts: u8, slot: u64, bump: u8) -> (r: Result<Session, ArenaError>)
    requires
        wager > 0 && artifacts <= 0x07 ==> slot + REVEAL_DELAY_SLOTS <= u64::MAX,
    ensures
        wager == 0 ==> r == Err::<Session, ArenaError>(ArenaError::BadWager),
        wager > 0 && artifacts > 0x07 ==> r == Err::<Session, ArenaError>(ArenaError::BadArtifacts),
        wager > 0 && artifacts <= 0x07 ==> r is Ok && is_opened(r.unwrap(), player, session_id, wager, artifacts, slot, bump),
{
    if wager == 0 {
        return Err(ArenaError::BadWager);
    }
    if artifacts > 0x07 {
        return Err(ArenaError::BadArtifacts);
    }
    let s = Session {
        player,
        session_id,
        wager,
        artifacts,
        stage: STAGE_SPIN,
        request_slot: slot + REVEAL_DELAY_SLOTS,
        seed: [0u8; 32],
        grid_win_bps: 0,
        picks_bps: 0,
        total_bps: 0,
        stars: 0,
        prizes: [0u16; 12],
        picks: [0u8; 5],
        gamble_win: false,
        grids: [0u8; 60],
        step_pats: [0u8; 2],
        step_wins_bps: [0u64; 2],
        step_count: 0,
        bump,
    };
    assert(s.seed@ =~= Seq::new(32, |i: int| 0u8));
    assert(s.prizes@ =~= Seq::new(12, |i: int| 0u16));
    assert(s.picks@ =~= Seq::new(5, |i: int| 0u8));
    assert(s.grids@ =~= Seq::new(60, |i: int| 0u8));
    assert(s.step_pats@ =~= Seq::new(2, |i: int| 0u8));
    assert(s.step_wins_bps@ =~= Seq::new(2, |i: int| 0u64));
    Ok(s)
}

/// The payout of a settlement: `payout_for(wager, total_bps)`.
pub open spec fn spec_payout(wager: u64, total_bps: u64) -> u64 {
    (spec_capped_payout(wager, total_bps) % 0x1_0000_0000_0000_0000) as u64
}

/// Settlement: the payout comes from the session vault, which must cover it.
pub open spec fn spec_settle(
    session_key: [u8; 32],
    player: [u8; 32],
    wager: u64,
    total_bps: u64,
    seed: [u8; 32],
    vault_lamports: u64,
) -> Result<SessionSettled, ArenaError> {
    let payout = spec_payout(wager, total_bps);
    if vault_lamports < payout {
        Err(ArenaError::InsufficientVault)
    } else {
        Ok(SessionSettled { session: session_key, player, wager, total_bps, payout, seed })
    }
}

/// Settle a session: the single payout path. The caller moves `payout`
/// lamports from the session vault to the player.
pub fn settle_session(
    session_key: [u8; 32],
    player: [u8; 32],
    wager: u64,
    total_bps: u64,
    seed: [u8; 32],
    vault_lamports: u64,
) -> (r: Result<SessionSettled, ArenaError>)
    ensures
        r == spec_settle(session_key, player, wager, total_bps, seed, vault_lamports),
{
    let payout = payout_for(wager, total_bps);
    if vault_lamports < payout {
        return Err(ArenaError::InsufficientVault);
    }
    Ok(SessionSettled { session: session_key, player, wager, total_bps, payout, seed })
}

/// The first reason why the committed randomness of `s` cannot be read in
/// stage `stage` at `slot`, if any: the wrong stage, the commitment slot not
/// passed yet, or the slot hash no longer available.
pub open spec fn randomness_error(s: Session, stage: u8, slot: u64, slot_hash: Option<[u8; 32]>) -> Option<ArenaError> {
    if s.stage != stage {
        Some(ArenaError::WrongStage)
    } else if slot <= s.request_slot {
        Some(ArenaError::RandomnessNotReady)
    } else if slot_hash is None {
        Some(ArenaError::SlotHashExpired)
    } else {
        None
    }
}

/// The stored grid cells after a reveal: grid `i` in cells `30 i .. 30 i + 30`,
/// the cells of steps that did not happen left as they were.
pub open spec fn stored_grids(old: Seq<u8>, grids: Seq<Seq<u8>>) -> Seq<u8> {
    Seq::new(60, |k: int| if k / 30 < grids.len() { grids[k / 30][k % 30] } else { old[k] })
}

/// The stored per-step values after a reveal, those of steps that did not happen left as they were.
pub open spec fn stored_steps<T>(old: Seq<T>, steps: Seq<T>) -> Seq<T> {
    Seq::new(2, |i: int| if i < steps.len() { steps[i] } else { old[i] })
}

/// `new` is `old` after revealing the spin `out` of `seed`: the reveal is
/// stored, and the session goes to the picks stage on a supernova, or is
/// done with the grid win as its total otherwise.
pub open spec fn is_revealed(old: Session, new: Session, seed: [u8; 32], out: SpinView) -> bool {
    &&& new.player == old.player
    &&& new.session_id == old.session_id
    &&& new.wager == old.wager
    &&& new.artifacts == old.artifacts
    &&& new.request_slot == old.request_slot
    &&& new.picks_bps == old.picks_bps
    &&& new.picks == old.picks
    &&& new.gamble_win == old.gamble_win
    &&& new.bump == old.bump
    &&& new.seed == seed
    &&& new.grid_win_bps == out.grid_win_bps
    &&& new.stars == out.stars
    &&& new.step_count == out.grids.len()
    &&& new.grids@ == stored_grids(old.grids@, out.grids)
    &&& new.step_pats@ == stored_steps(old.step_pats@, out.step_pats)
    &&& new.step_wins_bps@.map_values(|w: u64| w as int) == stored_steps(
        old.step_wins_bps@.map_values(|w: u64| w as int),
        out.step_wins_bps,
    )
    &&& match out.prizes {
        Some(pz) => new.prizes@ == pz && new.stage == STAGE_PICKS && new.total_bps == old.total_bps,
        None => new.prizes == old.prizes && new.stage == STAGE_DONE && new.total_bps == out.grid_win_bps,
    }
}

/// `new` and `old` agree on everything that a reveal does not store.
pub open spec fn same_but_reveal(old: Session, new: Session) -> bool {
    &&& new.player == old.player
    &&& new.session_id == old.session_id
    &&& new.wager == old.wager
    &&& new.artifacts == old.artifacts
    &&& new.stage == old.stage
    &&& new.request_slot == old.request_slot
    &&& new.seed == old.seed
    &&& new.picks_bps == old.picks_bps
    &&& new.total_bps == old.total_bps
    &&& new.prizes == old.prizes
    &&& new.picks == old.picks
    &&& new.gamble_win == old.gamble_win
    &&& new.bump == old.bump
}

/// What a successful reveal reports: the spin event, and the settlement when
/// the session is done without a supernova.
#[derive(Clone, Copy, Debug, PartialEq, Eq)]
pub struct Reveal {
    pub revealed: SpinRevealed,
    pub settled: Option<SessionSettled>,
}

/// What a reveal of `old` into `new` reports as `r`. On an error, `new` is
/// `old`. The error is the first failing randomness check, or, for a spin
/// without supernova, the settlement's error. Otherwise the spin of the slot
/// hash is stored (`is_revealed`), and the event carries the stored grids and
/// step patterns, plus the settlement when there is no supernova.
pub open spec fn reveal_outcome(
    old: Session,
    new: Session,
    session_key: [u8; 32],
    slot: u64,
    slot_hash: Option<[u8; 32]>,
    vault_lamports: u64,
    r: Result<Reveal, ArenaError>,
) -> bool {
    &&& r is Err ==> new == old
    &&& match randomness_error(old, STAGE_SPIN, slot, slot_hash) {
        Some(e) => r == Err::<Reveal, ArenaError>(e),
        None => {
            let seed = slot_hash.unwrap();
            let out = spec_run_spin(seed@, old.artifacts).unwrap();
            let revealed = SpinRevealed {
                session: session_key,
                player: old.player,
                seed,
                grids: new.grids,
                step_pats: new.step_pats,
                supernova: out.prizes is Some,
                grid_win_bps: out.grid_win_bps as u64,
            };
            if out.prizes is Some {
                r == Ok::<Reveal, ArenaError>(Reveal { revealed, settled: None }) && is_revealed(old, new, seed, out)
            } else {
                match spec_settle(session_key, old.player, old.wager, out.grid_win_bps as u64, seed, vault_lamports) {
                    Err(e) => r == Err::<Reveal, ArenaError>(e),
                    Ok(ev) => r == Ok::<Reveal, ArenaError>(Reveal { revealed, settled: Some(ev) })
                        && is_revealed(old, new, seed, out),
                }
            }
        },
    }
}

/// Reveal the spin of a session once its committed slot has passed: the
/// slot hash is the seed, the spin is run and stored; with 4 stars or more
/// the session waits for the picks, otherwise it is settled. On an error
/// the session is left as it was.
pub fn reveal_spin(
    session: &mut Session,
    session_key: [u8; 32],
    slot: u64,
    slot_hash: Option<[u8; 32]>,
    vault_lamports: u64,
) -> (r: Result<Reveal, ArenaError>)
    requires
        randomness_error(*old(session), STAGE_SPIN, slot, slot_hash) is None ==> spec_run_spin(
            slot_hash.unwrap()@,
            old(session).artifacts,
        ) is Some,
    ensures
        reveal_outcome(*old(session), *final(session), session_key, slot, slot_hash, vault_lamports, r),
{
    if session.stage != STAGE_SPIN {
        return Err(ArenaError::WrongStage);
    }
    if slot <= session.request_slot {
        return Err(ArenaError::RandomnessNotReady);
    }
    let seed = match slot_hash {
        Some(h) => h,
        None => {
            return Err(ArenaError::SlotHashExpired);
        },
    };
    let outcome = run_spin(seed, session.artifacts);
    proof {
        lemma_spin_shape(seed_stream(HashKind::Sha256, seed@), 0, session.artifacts);
    }
    let ghost out = outcome@;
    let mut s = *session;
    s.grid_win_bps = outcome.grid_win_bps;
    s.stars = outcome.stars;
    s.step_count = outcome.grids.len() as u8;
    let n = outcome.grids.len();
    let mut i: usize = 0;
    while i < n
        invariant
            n == outcome.grids@.len(),
            n <= 2,
            i <= n,
            out == outcome@,
            same_but_reveal(*session, s),
            s.step_pats == session.step_pats,
            s.step_wins_bps == session.step_wins_bps,
            s.grid_win_bps == outcome.grid_win_bps,
            s.stars == outcome.stars,
            s.step_count == n as u8,
            forall|k: int| 0 <= k < 60 ==> #[trigger] s.grids@[k] == if k / 30 < i {
                out.grids[k / 30][k % 30]
            } else {
                session.grids@[k]
            },
        decreases n - i,
    {
        let g = outcome.grids[i];
        let mut k: usize = 0;
        while k < CELLS
            invariant
                n == outcome.grids@.len(),
                n <= 2,
                i < n,
                k <= CELLS,
                out == outcome@,
                g@ == out.grids[i as int],
                same_but_reveal(*session, s),
                s.step_pats == session.step_pats,
                s.step_wins_bps == session.step_wins_bps,
                s.grid_win_bps == outcome.grid_win_bps,
                s.stars == outcome.stars,
                s.step_count == n as u8,
                forall|c: int| 0 <= c < 60 ==> #[trigger] s.grids@[c] == if c / 30 < i || (c / 30 == i && c % 30 < k) {
                    out.grids[c / 30][c % 30]
                } else {
                    session.grids@[c]
                },
            decreases CELLS - k,
        {
            s.grids[i * CELLS + k] = g[k];
            k += 1;
        }
        i += 1;
    }
    assert(s.grids@ =~= stored_grids(session.grids@, out.grids));
    let mut i: usize = 0;
    while i < n
        invariant
            n == outcome.grids@.len(),
            n == outcome.step_pats@.len(),
            n == outcome.step_wins_bps@.len(),
            n <= 2,
            i <= n,
            same_but_reveal(*session, s),
            s.grids@ == stored_grids(session.grids@, outcome@.grids),
            s.grid_win_bps == outcome.grid_win_bps,
            s.stars == outcome.stars,
            s.step_count == n as u8,
            forall|k: int| 0 <= k < 2 ==> #[trigger] s.step_pats@[k] == if k < i {
                outcome.step_pats@[k]
            } else {
                session.step_pats@[k]
            },
            forall|k: int| 0 <= k < 2 ==> #[trigger] s.step_wins_bps@[k] == if k < i {
                outcome.step_wins_bps@[k]
            } else {
                session.step_wins_bps@[k]
            },
        decreases n - i,
    {
        s.step_pats[i] = outcome.step_pats[i];
        s.step_wins_bps[i] = outcome.step_wins_bps[i];
        i += 1;
    }
    assert(s.step_pats@ =~= stored_steps(session.step_pats@, out.step_pats));
    assert(s.step_wins_bps@.map_values(|w: u64| w as int) =~= stored_steps(
        session.step_wins_bps@.map_values(|w: u64| w as int),
        out.step_wins_bps,
    ));
    s.seed = seed;
    let revealed = SpinRevealed {
        session: session_key,
        player: s.player,
        seed,
        grids: s.grids,
        step_pats: s.step_pats,
        supernova: outcome.prizes.is_some(),
        grid_win_bps: outcome.grid_win_bps,
    };
    match outcome.prizes {
        Some(p) => {
            s.prizes = p;
            s.stage = STAGE_PICKS;
            *session = s;
            Ok(Reveal { revealed, settled: None })
        },
        None => {
            s.total_bps = outcome.grid_win_bps;
            s.stage = STAGE_DONE;
            match settle_session(session_key, s.player, s.wager, s.total_bps, s.seed, vault_lamports) {
                Err(e) => Err(e),
                Ok(ev) => {
                    *session = s;
                    Ok(Reveal { revealed, settled: Some(ev) })
                },
            }
        },
    }
}

/// How a settled session's vault is emptied when its account closes: the
/// rent reserve, as far as the vault holds it, goes back to the player, and
/// the rest goes to the house.
pub fn close_split(vault_lamports: u64, rent_lamports: u64) -> (split: (u64, u64))
    ensures
        split.0 == if vault_lamports < rent_lamports {
            vault_lamports
        } else {
            rent_lamports
        },
        split.0 + split.1 == vault_lamports,
{
    let to_player = if vault_lamports < rent_lamports {
        vault_lamports
    } else {
        rent_lamports
    };
    (to_player, vault_lamports - to_player)
}

/// Reveal the spin of a session as `reveal_spin` does, but only when the
/// spin's draws end within the first `max_bytes` bytes of its stream. When
/// the randomness can be read and they do not, the result is `None` and the
/// session is left as it was.
pub fn reveal_spin_within(
    session: &mut Session,
    session_key: [u8; 32],
    slot: u64,
    slot_hash: Option<[u8; 32]>,
    vault_lamports: u64,
    max_bytes: u64,
) -> (r: Option<Result<Reveal, ArenaError>>)
    ensures
        r is None <==> (randomness_error(*old(session), STAGE_SPIN, slot, slot_hash) is None && !(spec_run_spin(
            slot_hash.unwrap()@,
            old(session).artifacts,
        ) is Some && spin_end(seed_stream(HashKind::Sha256, slot_hash.unwrap()@), 0, old(session).artifacts)
            <= max_bytes)),
        r is None ==> *final(session) == *old(session),
        r matches Some(x) ==> reveal_outcome(*old(session), *final(session), session_key, slot, slot_hash, vault_lamports, x),
{
    if session.stage == STAGE_SPIN && slot > session.request_slot {
        if let Some(h) = slot_hash {
            if !spin_draws_end(h, session.artifacts, max_bytes) {
                return None;
            }
        }
    }
    Some(reveal_spin(session, session_key, slot, slot_hash, vault_lamports))
}

/// Submit the five supernova picks and the gamble choice. Without the
/// gamble the session is settled with the grid win plus the picks; with it
/// the session commits to a fresh future slot for the coin. On an error the
/// session is left as it was.
pub fn submit_picks(
    session: &mut Session,
    session_key: [u8; 32],
    picks: [u8; 5],
    gamble: bool,
    slot: u64,
    vault_lamports: u64,
) -> (r: Result<Option<SessionSettled>, ArenaError>)
    requires
        old(session).stage == STAGE_PICKS && spec_valid_picks(picks@) ==> if gamble {
            slot + REVEAL_DELAY_SLOTS <= u64::MAX
        } else {
            old(session).grid_win_bps + spec_picks_bps(old(session).prizes@, picks@, old(session).artifacts) <= u64::MAX
        },
    ensures
        r is Err ==> *final(session) == *old(session),
        old(session).stage != STAGE_PICKS ==> r == Err::<Option<SessionSettled>, ArenaError>(ArenaError::WrongStage),
        old(session).stage == STAGE_PICKS && !spec_valid_picks(picks@) ==> r == Err::<Option<SessionSettled>, ArenaError>(ArenaError::BadPicks),
        old(session).stage == STAGE_PICKS && spec_valid_picks(picks@) ==> {
            let pb = spec_picks_bps(old(session).prizes@, picks@, old(session).artifacts) as u64;
            if gamble {
                &&& r == Ok::<Option<SessionSettled>, ArenaError>(None)
                &&& *final(session) == Session {
                    picks,
                    picks_bps: pb,
                    stage: STAGE_GAMBLE,
                    request_slot: (slot + REVEAL_DELAY_SLOTS) as u64,
                    ..*old(session)
                }
            } else {
                let total = (old(session).grid_win_bps + pb) as u64;
                match spec_settle(session_key, old(session).player, old(session).wager, total, old(session).seed, vault_lamports) {
                    Err(e) => r == Err::<Option<SessionSettled>, ArenaError>(e),
                    Ok(ev) => r == Ok::<Option<SessionSettled>, ArenaError>(Some(ev)) && *final(session) == Session {
                        picks,
                        picks_bps: pb,
                        total_bps: total,
                        stage: STAGE_DONE,
                        ..*old(session)
                    },
                }
            }
        },
{
    if session.stage != STAGE_PICKS {
        return Err(ArenaError::WrongStage);
    }
    if !valid_picks(&picks) {
        return Err(ArenaError::BadPicks);
    }
    let mut s = *session;
    s.picks = picks;
    s.picks_bps = picks_bps(&s.prizes, &picks, s.artifacts);
    if gamble {
        s.stage = STAGE_GAMBLE;
        s.request_slot = slot + REVEAL_DELAY_SLOTS;
        *session = s;
        Ok(None)
    } else {
        s.total_bps = s.grid_win_bps + s.picks_bps;
        s.stage = STAGE_DONE;
        match settle_session(session_key, s.player, s.wager, s.total_bps, s.seed, vault_lamports) {
            Err(e) => Err(e),
            Ok(ev) => {
                *session = s;
                Ok(Some(ev))
            },
        }
    }
}

/// The total of a session whose double-or-nothing coin came down `won`:
/// the grid win plus twice the picks on a win, the grid win alone otherwise.
pub open spec fn gamble_total(s: Session, won: bool) -> int {
    s.grid_win_bps + if won {
        s.picks_bps * 2
    } else {
        0
    }
}

/// Settle the double-or-nothing gamble once its committed slot has passed:
/// a fair coin from the slot hash decides it, then the session is settled
/// (the settlement carries the spin seed). On an error the session is left as it was.
pub fn settle_gamble(
    session: &mut Session,
    session_key: [u8; 32],
    slot: u64,
    slot_hash: Option<[u8; 32]>,
    vault_lamports: u64,
) -> (r: Result<SessionSettled, ArenaError>)
    requires
        randomness_error(*old(session), STAGE_GAMBLE, slot, slot_hash) is None ==> gamble_total(
            *old(session),
            slot_hash.unwrap()@[0] % 2 == 0,
        ) <= u64::MAX,
    ensures
        r is Err ==> *final(session) == *old(session),
        match randomness_error(*old(session), STAGE_GAMBLE, slot, slot_hash) {
            Some(e) => r == Err::<SessionSettled, ArenaError>(e),
            None => {
                let won = slot_hash.unwrap()@[0] % 2 == 0;
                let total = gamble_total(*old(session), won) as u64;
                match spec_settle(session_key, old(session).player, old(session).wager, total, old(session).seed, vault_lamports) {
                    Err(e) => r == Err::<SessionSettled, ArenaError>(e),
                    Ok(ev) => r == Ok::<SessionSettled, ArenaError>(ev) && *final(session) == Session {
                        gamble_win: won,
                        total_bps: total,
                        stage: STAGE_DONE,
                        ..*old(session)
                    },
                }
            },
        },
{
    if session.stage != STAGE_GAMBLE {
        return Err(ArenaError::WrongStage);
    }
    if slot <= session.request_slot {
        return Err(ArenaError::RandomnessNotReady);
    }
    let seed = match slot_hash {
        Some(h) => h,
        None => {
            return Err(ArenaError::SlotHashExpired);
        },
    };
    let mut s = *session;
    s.gamble_win = coin_flip(seed);
    s.total_bps = s.grid_win_bps + if s.gamble_win {
        s.picks_bps * 2
    } else {
        0
    };
    s.stage = STAGE_DONE;
    match settle_session(session_key, s.player, s.wager, s.total_bps, s.seed, vault_lamports) {
        Err(e) => Err(e),
        Ok(ev) => {
            *session = s;
            Ok(ev)
        },
    }
}

} // verus!
