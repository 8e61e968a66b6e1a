//! Starforge: the mathematics and the session rules of a provably fair
//! cosmic-forge slot.
//!
//! - `rules`: constants, the paytable, patterns, picks and the payout cap.
//! - `hashing`: the SHA-256 and Keccak-256 digests that chain the randomness.
//! - `cursor`: the hash-chained byte stream and its rejection-sampled draws.
//! - `spin`: step evaluation, collapse and refill, cascades, supernova shuffle.
//! - `arena`: the session state machine (open, reveal, picks, gamble, settle).
//! - `hex`: decoding a hex seed.

mod arena;
mod cursor;
mod hashing;
mod hex;
mod rules;
mod spin;

pub use arena::{
    close_split, gamble_total, initialize_house, is_opened, is_revealed, randomness_error, reveal_outcome,
    reveal_spin, reveal_spin_within,
    same_but_reveal, settle_gamble, settle_session, spec_payout, spec_settle, start_session,
    stored_grids, stored_steps, submit_picks, ArenaError, House, Reveal, Session, SessionSettled,
    SpinRevealed, MAX_STEPS, REVEAL_DELAY_SLOTS, STORED_GRID_CELLS,
};
pub use cursor::{
    chain_hash, first_hit, lemma_draw_symbols_monotone, lemma_draw_symbols_prefix,
    lemma_draw_symbols_shape, lemma_first_hit, lemma_stream_blocks,
    lemma_range_sampling, lemma_symbol_sampling, range_limit, symbol_of_weight, weight_start,
    ByteStream, Cursor, HashKind,
};
pub use hashing::{keccak256_digest, sha256_digest};
pub use hex::{char_codes, hex_digit, hex_pair, hex_to_seed, seed_hex_valid, valid_seed_hex};
pub use rules::{
    coin_flip, heads_below, lemma_coin_fair, lemma_coin_heads_count, lemma_pattern_all_equal, lemma_pay_tiers,
    lemma_payout_within_cap, lemma_valid_picks_distinct, match_pattern, pay_for, payout_for, picks_bps,
    spec_capped_payout, spec_match_pattern, spec_pay_for, spec_pick_sum, spec_picks_bps,
    spec_valid_picks, valid_picks, ART_BRASA, ART_TEMPLE, ART_YUNQUE, CASCADE_CAP, CELLS, COLS,
    MAX_PAYOUT_X, PATTERNS, PAY_10, PAY_12, PAY_8, PRIZES, ROWS, RTP_BPS, SN_PICKS, SN_TRIGGER,
    STAGE_DONE, STAGE_GAMBLE, STAGE_PICKS, STAGE_SPIN, STAR, SYMBOL_REJECT, TOTAL_WEIGHT, WEIGHTS,
};
pub use spin::{
    best_pattern, cascade, collapse_refill, count_symbol, eval_step, grid_column, keeps,
    lemma_artifacts_raise_win, lemma_best_pattern, lemma_cascade_monotone, lemma_cascade_record,
    lemma_count_symbol_bound, lemma_pattern_cells, lemma_refill_monotone, lemma_refill_symbols,
    lemma_reported_pattern, lemma_scatter_pays_iff_eight, lemma_shuffle_round, lemma_spin_cascades_on_scatter,
    lemma_shuffle_monotone, lemma_shuffle_permutes, lemma_spin_deterministic, lemma_spin_end_bounds,
    lemma_spin_shape, lemma_swap_multiset, mineral_pay, refill_columns, run_spin, run_spin_keccak,
    run_spin_keccak_within, run_spin_within, scatter_sum, seed_stream, shuffle, spec_run_spin,
    spec_run_spin_keccak, spin, spin_draws_end, spin_draws_end_keccak, spin_end, sum_wins,
    survivors, symbols_valid, tier3_sum, CascadeState, SpinOutcome, SpinView, StepView,
};
