# starforge_math

The game mathematics and session rules of Starforge Arena, a provably fair
6x5 scatter-pay slot, as a Verus library.

- `src/rules.rs` — constants, paytable, constellation patterns, pick
  validation and sum, the capped payout, the coin.
- `src/hashing.rs` — SHA-256 (sha2) and Keccak-256 (tiny-keccak) behind two
  trusted wrappers, each tied to a named digest.
- `src/cursor.rs` — the hash-chained byte stream, rejection-sampled symbol
  and range draws, and the uniformity facts of the sampling.
- `src/spin.rs` — step evaluation, collapse and refill, the cascade, the
  supernova shuffle and the full spin, with its shape and permutation laws.
- `src/arena.rs` — the session state machine that the on-chain program runs:
  open, reveal, picks, gamble, settle.
- `src/hex.rs` — hex seed decoding.
- `app/main.rs` — the Anchor program glue (accounts, slot hashes, lamports,
  events) and the parity harness that prints a Keccak spin as JSON.

A spin's contract is exact: the outcome equals `spin` over the byte stream of
the seed, provided every rejection-sampled draw ends (a draw whose every
attempt is rejected would run forever).
