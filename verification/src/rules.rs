use vstd::prelude::*;

verus! {

/// Number of grid columns.
pub const COLS: usize = 6;
/// Number of grid rows.
pub const ROWS: usize = 5;
/// Number of grid cells; a cell's index is `col * ROWS + row` (column-major).
pub const CELLS: usize = 30;

/// The scatter symbol; symbols 0..=6 are the minerals.
pub const STAR: u8 = 7;

/// Base weight of each symbol per cell.
pub const WEIGHTS: [u16; 8] = [30, 26, 22, 16, 12, 8, 5, 3];
/// Sum of `WEIGHTS`.
pub const TOTAL_WEIGHT: u16 = 122;
/// Largest multiple of `TOTAL_WEIGHT` not above 65536: 16-bit draws at or above it are rejected.
pub const SYMBOL_REJECT: u16 = 65514;

/// Scatter pays (bps of wager) for 8-9 equal minerals, indexed by mineral.
pub const PAY_8: [u32; 7] = [1650, 2475, 4125, 6600, 8250, 16500, 41250];
/// Scatter pays for 10-11 equal minerals.
pub const PAY_10: [u32; 7] = [4125, 6600, 8250, 12375, 20625, 41250, 99000];
/// Scatter pays for 12 or more equal minerals.
pub const PAY_12: [u32; 7] = [16500, 24750, 33000, 49500, 82500, 165000, 412500];

/// Constellation patterns: (pay in bps, five cells).
pub const PATTERNS: [(u32, [u8; 5]); 4] = [
    (20000, [11, 12, 13, 7, 17]),
    (40000, [6, 18, 12, 8, 16]),
    (80000, [10, 14, 2, 22, 12]),
    (150000, [6, 7, 8, 13, 18]),
];

/// Supernova prizes (bps of wager), shuffled by the cursor when triggered.
pub const PRIZES: [u16; 12] = [
    10000, 10000, 10000, 20000, 20000, 20000, 30000, 30000, 40000, 50000, 60000, 60000,
];
/// Number of stars in the first grid that triggers the supernova.
pub const SN_TRIGGER: u8 = 4;
/// Number of supernova picks a player makes.
pub const SN_PICKS: usize = 5;

/// Payout cap, as a multiple of the wager.
pub const MAX_PAYOUT_X: u64 = 1000;
/// Declared return to player, in bps.
pub const RTP_BPS: u64 = 9760;

/// Artifact bit: constellation pattern pays x1.25.
pub const ART_BRASA: u8 = 0x01;
/// Artifact bit: +5% on scatter pays of 12 or more.
pub const ART_YUNQUE: u8 = 0x02;
/// Artifact bit: supernova pick prizes +10%.
pub const ART_TEMPLE: u8 = 0x04;

/// Maximum number of evaluated cascade steps per spin.
pub const CASCADE_CAP: u8 = 2;

/// Session stage: waiting for the spin.
pub const STAGE_SPIN: u8 = 0;
/// Session stage: waiting for the supernova picks.
pub const STAGE_PICKS: u8 = 1;
/// Session stage: waiting for the double-or-nothing coin.
pub const STAGE_GAMBLE: u8 = 2;
/// Session stage: settled.
pub const STAGE_DONE: u8 = 3;

/// Scatter pay table lookup: the tier chosen by the count, then the mineral's entry.
pub open spec fn spec_pay_for(mineral: u8, count: u8) -> u32 {
    if count >= 12 {
        PAY_12@[mineral as int]
    } else if count >= 10 {
        PAY_10@[mineral as int]
    } else if count >= 8 {
        PAY_8@[mineral as int]
    } else {
        0
    }
}

/// Scatter pay of `count` equal minerals of kind `mineral`.
pub fn pay_for(mineral: u8, count: u8) -> (pay: u32)
    requires
        count >= 8 ==> mineral < 7,
    ensures
        pay == spec_pay_for(mineral, count),
{
    let table = if count >= 12 {
        &PAY_12
    } else if count >= 10 {
        &PAY_10
    } else if count >= 8 {
        &PAY_8
    } else {
        return 0;
    };
    table[mineral as usize]
}

/// The scatter paytable has three tiers by count: 8 or 9 equal minerals pay
/// the `PAY_8` entry, 10 or 11 the `PAY_10` entry, 12 or more the `PAY_12`
/// entry, and fewer than 8 pay nothing. Both counts of a tier pay the same,
/// each tier pays strictly more than the one below, and a larger count never
/// pays less.
pub proof fn lemma_pay_tiers(m: u8, n: u8, n2: u8)
    requires
        m < 7,
    ensures
        n < 8 ==> spec_pay_for(m, n) == 0,
        8 <= n <= 9 ==> spec_pay_for(m, n) == PAY_8@[m as int],
        10 <= n <= 11 ==> spec_pay_for(m, n) == PAY_10@[m as int],
        12 <= n ==> spec_pay_for(m, n) == PAY_12@[m as int],
        spec_pay_for(m, 8) == spec_pay_for(m, 9),
        spec_pay_for(m, 10) == spec_pay_for(m, 11),
        0 < spec_pay_for(m, 9) < spec_pay_for(m, 10),
        spec_pay_for(m, 11) < spec_pay_for(m, 12),
        n <= n2 ==> spec_pay_for(m, n) <= spec_pay_for(m, n2),
{
    assert(PAY_8@ =~= seq![1650u32, 2475, 4125, 6600, 8250, 16500, 41250]);
    assert(PAY_10@ =~= seq![4125u32, 6600, 8250, 12375, 20625, 41250, 99000]);
    assert(PAY_12@ =~= seq![16500u32, 24750, 33000, 49500, 82500, 165000, 412500]);
}

/// A pattern matches when its first cell holds a mineral (not a star)
/// and the four other cells hold that same mineral.
pub open spec fn spec_match_pattern(grid: Seq<u8>, cells: Seq<u8>) -> bool {
    &&& grid[cells[0] as int] <= 6
    &&& forall|i: int| 1 <= i < 5 ==> grid[#[trigger] cells[i] as int] == grid[cells[0] as int]
}

/// Whether the constellation `cells` is formed on `grid`.
pub fn match_pattern(grid: &[u8; CELLS], cells: &[u8; 5]) -> (matched: bool)
    requires
        forall|i: int| 0 <= i < 5 ==> cells[i] < CELLS,
    ensures
        matched == spec_match_pattern(grid@, cells@),
{
    let first = grid[cells[0] as usize];
    if first > 6 {
        return false;
    }
    let mut i: usize = 1;
    while i < 5
        invariant
            1 <= i <= 5,
            first == grid@[cells@[0] as int],
            first <= 6,
            forall|k: int| 0 <= k < 5 ==> cells@[k] < CELLS,
            forall|k: int| 1 <= k < i ==> grid@[#[trigger] cells@[k] as int] == first,
        decreases 5 - i,
    {
        if grid[cells[i] as usize] != first {
            return false;
        }
        i += 1;
    }
    true
}

/// A pattern is formed exactly when its first cell holds a mineral and all
/// five of its cells hold the same symbol: any cell that differs from
/// another breaks it. Which cell is listed where does not matter: swapping
/// two of the pattern's cells never changes whether it is formed.
pub proof fn lemma_pattern_all_equal(grid: Seq<u8>, cells: Seq<u8>)
    requires
        cells.len() == 5,
    ensures
        spec_match_pattern(grid, cells) <==> (grid[cells[0] as int] <= 6 && forall|a: int, b: int|
            0 <= a < 5 && 0 <= b < 5 ==> #[trigger] grid[cells[a] as int] == #[trigger] grid[cells[b] as int]),
        forall|a: int, b: int|
            0 <= a < 5 && 0 <= b < 5 ==> #[trigger] spec_match_pattern(grid, cells.update(a, cells[b]).update(b, cells[a]))
                == spec_match_pattern(grid, cells),
{
    assert forall|a: int, b: int| 0 <= a < 5 && 0 <= b < 5 implies #[trigger] spec_match_pattern(
        grid,
        cells.update(a, cells[b]).update(b, cells[a]),
    ) == spec_match_pattern(grid, cells) by {
        let c2 = cells.update(a, cells[b]).update(b, cells[a]);
        // each listed cell of one order is a listed cell of the other
        assert forall|x: int| 0 <= x < 5 implies exists|y: int| 0 <= y < 5 && #[trigger] c2[x] == cells[y] by {
            if x == b {
                assert(c2[x] == cells[a]);
            } else if x == a {
                assert(c2[x] == cells[b]);
            } else {
                assert(c2[x] == cells[x]);
            }
        }
        assert forall|y: int| 0 <= y < 5 implies exists|x: int| 0 <= x < 5 && c2[x] == #[trigger] cells[y] by {
            if y == a {
                assert(c2[b] == cells[a]);
            } else if y == b {
                assert(c2[a] == cells[b]);
            } else {
                assert(c2[y] == cells[y]);
            }
        }
        if spec_match_pattern(grid, cells) {
            assert forall|i: int| 1 <= i < 5 implies grid[#[trigger] c2[i] as int] == grid[c2[0] as int] by {
                let yi = choose|y: int| 0 <= y < 5 && c2[i] == cells[y];
                let y0 = choose|y: int| 0 <= y < 5 && c2[0] == cells[y];
                assert(grid[cells[yi] as int] == grid[cells[0] as int] || yi == 0);
                assert(grid[cells[y0] as int] == grid[cells[0] as int] || y0 == 0);
            }
            let y0 = choose|y: int| 0 <= y < 5 && c2[0] == cells[y];
            assert(grid[cells[y0] as int] == grid[cells[0] as int] || y0 == 0);
        }
        if spec_match_pattern(grid, c2) {
            assert forall|i: int| 1 <= i < 5 implies grid[#[trigger] cells[i] as int] == grid[cells[0] as int] by {
                let xi = choose|x: int| 0 <= x < 5 && c2[x] == cells[i];
                let x0 = choose|x: int| 0 <= x < 5 && c2[x] == cells[0];
                assert(grid[c2[xi] as int] == grid[c2[0] as int] || xi == 0);
                assert(grid[c2[x0] as int] == grid[c2[0] as int] || x0 == 0);
            }
            let x0 = choose|x: int| 0 <= x < 5 && c2[x] == cells[0];
            assert(grid[c2[x0] as int] == grid[c2[0] as int] || x0 == 0);
        }
    }
    if spec_match_pattern(grid, cells) {
        assert forall|a: int, b: int| 0 <= a < 5 && 0 <= b < 5 implies #[trigger] grid[cells[a] as int]
            == #[trigger] grid[cells[b] as int] by {
            if a > 0 {
                assert(grid[cells[a] as int] == grid[cells[0] as int]);
            }
            if b > 0 {
                assert(grid[cells[b] as int] == grid[cells[0] as int]);
            }
        }
    }
    if grid[cells[0] as int] <= 6 && forall|a: int, b: int|
        0 <= a < 5 && 0 <= b < 5 ==> #[trigger] grid[cells[a] as int] == #[trigger] grid[cells[b] as int] {
        assert forall|i: int| 1 <= i < 5 implies grid[#[trigger] cells[i] as int] == grid[cells[0] as int] by {
            assert(grid[cells[i] as int] == grid[cells[0] as int]);
        }
    }
}

/// Sum of the prizes at the first `k` picks.
pub open spec fn spec_pick_sum(prizes: Seq<u16>, picks: Seq<u8>, k: int) -> int
    decreases k,
{
    if k <= 0 {
        0
    } else {
        spec_pick_sum(prizes, picks, k - 1) + prizes[picks[k - 1] as int]
    }
}

/// Picked supernova prizes: their sum, with +10% (rounded down) under the temple artifact.
pub open spec fn spec_picks_bps(prizes: Seq<u16>, picks: Seq<u8>, artifacts: u8) -> int {
    let sum = spec_pick_sum(prizes, picks, 5);
    if artifacts & ART_TEMPLE != 0 {
        sum * 11 / 10
    } else {
        sum
    }
}

/// Sum of picked supernova prizes, +10% if the temple artifact is held.
pub fn picks_bps(prizes: &[u16; 12], picks: &[u8; SN_PICKS], artifacts: u8) -> (bps: u64)
    requires
        forall|i: int| 0 <= i < 5 ==> picks[i] < 12,
    ensures
        bps == spec_picks_bps(prizes@, picks@, artifacts),
{
    let mut sum: u64 = 0;
    let mut i: usize = 0;
    while i < SN_PICKS
        invariant
            i <= 5,
            forall|k: int| 0 <= k < 5 ==> picks[k] < 12,
            sum == spec_pick_sum(prizes@, picks@, i as int),
            sum <= i * 65535,
        decreases 5 - i,
    {
        sum = sum + prizes[picks[i] as usize] as u64;
        i += 1;
    }
    if artifacts & ART_TEMPLE != 0 {
        sum = sum * 11 / 10;
    }
    sum
}

/// Valid picks: every index is below 12 and no two picks are equal.
pub open spec fn spec_valid_picks(picks: Seq<u8>) -> bool {
    &&& forall|i: int| 0 <= i < 5 ==> #[trigger] picks[i] < 12
    &&& forall|i: int, j: int| 0 <= i < j < 5 ==> picks[i] != picks[j]
}

/// Validate picks: 5 distinct indices in [0, 12).
pub fn valid_picks(picks: &[u8; SN_PICKS]) -> (valid: bool)
    ensures
        valid == spec_valid_picks(picks@),
{
    let mut seen = [false; 12];
    let mut i: usize = 0;
    while i < SN_PICKS
        invariant
            i <= 5,
            forall|k: int| 0 <= k < i ==> #[trigger] picks@[k] < 12,
            forall|k: int, l: int| 0 <= k < l < i ==> picks@[k] != picks@[l],
            forall|v: int|
                0 <= v < 12 ==> (#[trigger] seen@[v] <==> exists|k: int| 0 <= k < i && picks@[k] == v),
        decreases 5 - i,
    {
        let p = picks[i];
        if p as usize >= 12 {
            return false;
        }
        if seen[p as usize] {
            assert(exists|k: int| 0 <= k < i && picks@[k] == p);
            return false;
        }
        seen[p as usize] = true;
        i += 1;
    }
    true
}

/// Picks are valid exactly when each of the five is below 12 and no value
/// is picked twice, wherever the two picks stand (not only side by side).
/// The order of the picks does not matter: swapping two picks never changes
/// whether they are valid.
pub proof fn lemma_valid_picks_distinct(picks: Seq<u8>)
    requires
        picks.len() == 5,
    ensures
        spec_valid_picks(picks) <==> ((forall|i: int| 0 <= i < 5 ==> #[trigger] picks[i] < 12) && forall|a: int, b: int|
            0 <= a < 5 && 0 <= b < 5 && a != b ==> #[trigger] picks[a] != #[trigger] picks[b]),
        forall|a: int, b: int|
            0 <= a < 5 && 0 <= b < 5 ==> #[trigger] spec_valid_picks(picks.update(a, picks[b]).update(b, picks[a]))
                == spec_valid_picks(picks),
{
    assert forall|a: int, b: int| 0 <= a < 5 && 0 <= b < 5 implies #[trigger] spec_valid_picks(
        picks.update(a, picks[b]).update(b, picks[a]),
    ) == spec_valid_picks(picks) by {
        let q = picks.update(a, picks[b]).update(b, picks[a]);
        // the index map that swaps a and b sends each pick of one to the same pick of the other
        let f = |x: int| if x == a { b } else if x == b { a } else { x };
        assert forall|x: int| 0 <= x < 5 implies #[trigger] q[x] == picks[f(x)] && 0 <= f(x) < 5 by {}
        assert forall|x: int| 0 <= x < 5 implies #[trigger] picks[x] == q[f(x)] by {
            assert(f(f(x)) == x);
        }
        if spec_valid_picks(picks) {
            assert forall|i: int| 0 <= i < 5 implies #[trigger] q[i] < 12 by {
                assert(q[i] == picks[f(i)]);
            }
            assert forall|i: int, j: int| 0 <= i < j < 5 implies q[i] != q[j] by {
                assert(q[i] == picks[f(i)] && q[j] == picks[f(j)]);
                if f(i) < f(j) {
                } else {
                    assert(f(j) < f(i));
                }
            }
        }
        if spec_valid_picks(q) {
            assert forall|i: int| 0 <= i < 5 implies #[trigger] picks[i] < 12 by {
                assert(picks[i] == q[f(i)]);
            }
            assert forall|i: int, j: int| 0 <= i < j < 5 implies picks[i] != picks[j] by {
                assert(picks[i] == q[f(i)] && picks[j] == q[f(j)]);
                assert(f(f(i)) == i && f(f(j)) == j);
                if f(i) < f(j) {
                } else {
                    assert(f(j) < f(i));
                }
            }
        }
    }
    if spec_valid_picks(picks) {
        assert forall|a: int, b: int| 0 <= a < 5 && 0 <= b < 5 && a != b implies #[trigger] picks[a]
            != #[trigger] picks[b] by {
            if a < b {
            } else {
                assert(b < a);
            }
        }
    }
}

/// The capped payout before it is narrowed to 64 bits: the wager times the
/// win in bps, divided by 10000 (rounded down), at most the wager times `MAX_PAYOUT_X`.
pub open spec fn spec_capped_payout(wager: u64, win_bps: u64) -> int {
    let p = wager * win_bps / 10000;
    let cap = wager * MAX_PAYOUT_X;
    if p < cap {
        p
    } else {
        cap
    }
}

/// The single payout function: every settlement path routes through here.
/// The capped amount is narrowed to 64 bits as the `as u64` cast does, so it
/// is exact whenever `wager * MAX_PAYOUT_X` fits in a `u64`.
pub fn payout_for(wager: u64, win_bps: u64) -> (payout: u64)
    ensures
        payout as int == spec_capped_payout(wager, win_bps) % 0x1_0000_0000_0000_0000,
{
    assert(wager * win_bps <= u64::MAX * u64::MAX) by (nonlinear_arith);
    assert(wager * 1000 <= u64::MAX * 1000) by (nonlinear_arith);
    let p: u128 = (wager as u128 * win_bps as u128) / 10_000;
    let cap: u128 = wager as u128 * MAX_PAYOUT_X as u128;
    let m: u128 = if p < cap {
        p
    } else {
        cap
    };
    assert(m as u64 == m % 0x1_0000_0000_0000_0000) by (bit_vector);
    m as u64
}

/// The payout never exceeds `MAX_PAYOUT_X` times the wager nor the wager
/// times the win: whenever `wager * MAX_PAYOUT_X` fits in a `u64`, the payout
/// is the capped amount itself, at most both bounds.
pub proof fn lemma_payout_within_cap(wager: u64, win_bps: u64)
    requires
        wager * MAX_PAYOUT_X <= u64::MAX,
    ensures
        spec_capped_payout(wager, win_bps) % 0x1_0000_0000_0000_0000 == spec_capped_payout(wager, win_bps),
        0 <= spec_capped_payout(wager, win_bps) <= wager * MAX_PAYOUT_X,
        spec_capped_payout(wager, win_bps) <= wager * win_bps / 10000,
{
    assert(wager * win_bps >= 0) by (nonlinear_arith);
    assert(wager * win_bps / 10000 >= 0);
}

/// The coin is fair: flipping the low bit of the first seed byte pairs every
/// heads byte with exactly one tails byte.
pub proof fn lemma_coin_fair(b: u8)
    ensures
        (b % 2 == 0) != ((b ^ 1u8) % 2 == 0),
        (b ^ 1u8) ^ 1u8 == b,
{
    assert((b % 2 == 0) != ((b ^ 1u8) % 2 == 0)) by (bit_vector);
    assert((b ^ 1u8) ^ 1u8 == b) by (bit_vector);
}

/// Number of first-byte values below `n` that give heads.
pub open spec fn heads_below(n: nat) -> nat
    decreases n,
{
    if n == 0 {
        0
    } else {
        heads_below((n - 1) as nat) + if (n - 1) % 2 == 0 {
            1nat
        } else {
            0nat
        }
    }
}

proof fn lemma_heads_below_even(k: nat)
    ensures
        heads_below(2 * k) == k,
    decreases k,
{
    if k > 0 {
        lemma_heads_below_even((k - 1) as nat);
        let a = (2 * k - 2) as nat;
        assert(heads_below(a) == k - 1);
        assert(heads_below((a + 1) as nat) == heads_below(a) + 1);
        assert(heads_below((a + 2) as nat) == heads_below((a + 1) as nat));
        assert(a + 2 == 2 * k);
    }
}

/// Exactly half of the 256 values of the first seed byte give heads.
pub proof fn lemma_coin_heads_count()
    ensures
        heads_below(256) == 128,
{
    lemma_heads_below_even(128);
}

/// Fair coin from a seed byte (256 is divisible by 2, so no rejection is needed).
pub fn coin_flip(seed: [u8; 32]) -> (heads: bool)
    ensures
        heads == (seed@[0] % 2 == 0),
{
    seed[0] % 2 == 0
}

} // verus!
