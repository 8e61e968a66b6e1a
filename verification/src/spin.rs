use vstd::prelude::*;

use crate::cursor::{
    first_hit, lemma_first_hit, lemma_range_sampling, lemma_draw_symbols_monotone, lemma_draw_symbols_prefix, lemma_draw_symbols_shape, ByteStream, Cursor,
    HashKind,
};
use crate::rules::{
    lemma_pattern_all_equal, lemma_pay_tiers, match_pattern, pay_for, spec_match_pattern, spec_pay_for, ART_BRASA, ART_YUNQUE, CASCADE_CAP,
    CELLS, COLS, PATTERNS, PRIZES, ROWS, SN_TRIGGER, STAR,
};

verus! {

/// Number of cells of `grid` that hold `sym`.
pub open spec fn count_symbol(grid: Seq<u8>, sym: u8) -> nat
    decreases grid.len(),
{
    if grid.len() == 0 {
        0
    } else {
        count_symbol(grid.drop_last(), sym) + if grid.last() == sym {
            1nat
        } else {
            0nat
        }
    }
}

/// A count never exceeds the number of cells counted.
pub proof fn lemma_count_symbol_bound(grid: Seq<u8>, sym: u8)
    ensures
        count_symbol(grid, sym) <= grid.len(),
    decreases grid.len(),
{
    if grid.len() > 0 {
        lemma_count_symbol_bound(grid.drop_last(), sym);
    }
}

/// Scatter pay of mineral `m` on `grid`.
pub open spec fn mineral_pay(grid: Seq<u8>, m: u8) -> int {
    spec_pay_for(m, count_symbol(grid, m) as u8) as int
}

/// Sum of the scatter pays of minerals `0..k`.
pub open spec fn scatter_sum(grid: Seq<u8>, k: nat) -> int
    decreases k,
{
    if k == 0 {
        0
    } else {
        scatter_sum(grid, (k - 1) as nat) + mineral_pay(grid, (k - 1) as u8)
    }
}

/// Sum of the scatter pays of minerals `0..k` that appear 12 times or more.
pub open spec fn tier3_sum(grid: Seq<u8>, k: nat) -> int
    decreases k,
{
    if k == 0 {
        0
    } else {
        tier3_sum(grid, (k - 1) as nat) + if count_symbol(grid, (k - 1) as u8) >= 12 {
            mineral_pay(grid, (k - 1) as u8)
        } else {
            0
        }
    }
}

/// The best of the first `i` constellation patterns formed on `grid`:
/// its id (index + 1, or 0 for none) and its pay. A later pattern replaces
/// the current best only when it pays strictly more.
pub open spec fn best_pattern(grid: Seq<u8>, i: nat) -> (u8, int)
    decreases i,
{
    if i == 0 {
        (0, 0)
    } else {
        let prev = best_pattern(grid, (i - 1) as nat);
        let pat = PATTERNS@[i - 1];
        if spec_match_pattern(grid, pat.1@) && pat.0 > prev.1 {
            (i as u8, pat.0 as int)
        } else {
            prev
        }
    }
}

/// The best pattern wins: its pay is the largest pay of the patterns formed
/// on `grid` (0 when none is), and its id names a formed pattern with that pay.
pub proof fn lemma_best_pattern(grid: Seq<u8>, i: nat)
    requires
        i <= 4,
    ensures
        forall|k: int| 0 <= k < i && spec_match_pattern(grid, PATTERNS@[k].1@) ==> PATTERNS@[k].0 <= best_pattern(grid, i).1,
        best_pattern(grid, i).0 == 0 <==> forall|k: int| 0 <= k < i ==> !spec_match_pattern(grid, PATTERNS@[k].1@),
        best_pattern(grid, i).0 == 0 ==> best_pattern(grid, i).1 == 0,
        best_pattern(grid, i).0 > 0 ==> {
            let k = best_pattern(grid, i).0 - 1;
            &&& k < i
            &&& spec_match_pattern(grid, PATTERNS@[k].1@)
            &&& best_pattern(grid, i).1 == PATTERNS@[k].0
        },
    decreases i,
{
    assert(PATTERNS@[0].0 == 20000 && PATTERNS@[1].0 == 40000 && PATTERNS@[2].0 == 80000 && PATTERNS@[3].0 == 150000);
    if i > 0 {
        lemma_best_pattern(grid, (i - 1) as nat);
    }
}

/// What one cascade step evaluation yields.
pub struct StepView {
    /// Scatter pays (with the yunque bonus) plus the best pattern pay (with the brasa bonus).
    pub win_bps: int,
    /// The id of the best pattern, 0 when none is formed.
    pub pat_id: u8,
    /// For each symbol 0..9, whether it scatter-pays (only minerals can).
    pub pay_sym: Seq<bool>,
    /// Whether any scatter pay happened.
    pub any_pay: bool,
}

/// Evaluation of one cascade step on `grid` with the artifact bits `artifacts`.
pub open spec fn eval_step(grid: Seq<u8>, artifacts: u8) -> StepView {
    let scatter = scatter_sum(grid, 7);
    let scatter_total = if artifacts & ART_YUNQUE != 0 {
        scatter + tier3_sum(grid, 7) / 20
    } else {
        scatter
    };
    let pat = best_pattern(grid, 4);
    let pat_total = if artifacts & ART_BRASA != 0 {
        pat.1 * 5 / 4
    } else {
        pat.1
    };
    StepView {
        win_bps: scatter_total + pat_total,
        pat_id: pat.0,
        pay_sym: Seq::new(9, |m: int| m < 7 && mineral_pay(grid, m as u8) > 0),
        any_pay: scatter_total > 0,
    }
}

proof fn lemma_scatter_sums(grid: Seq<u8>, k: nat)
    requires
        k <= 7,
    ensures
        0 <= tier3_sum(grid, k) <= scatter_sum(grid, k),
    decreases k,
{
    if k > 0 {
        lemma_scatter_sums(grid, (k - 1) as nat);
    }
}

proof fn lemma_mineral_pays_iff_eight(grid: Seq<u8>, m: u8)
    requires
        grid.len() == CELLS,
        m < 7,
    ensures
        mineral_pay(grid, m) >= 0,
        mineral_pay(grid, m) > 0 <==> count_symbol(grid, m) >= 8,
{
    lemma_count_symbol_bound(grid, m);
    let c = count_symbol(grid, m) as u8;
    assert(c == count_symbol(grid, m));
    lemma_pay_tiers(m, c, 8);
    lemma_pay_tiers(m, 8, c);
}

proof fn lemma_scatter_positive(grid: Seq<u8>, k: nat)
    requires
        grid.len() == CELLS,
        k <= 7,
    ensures
        scatter_sum(grid, k) >= 0,
        scatter_sum(grid, k) > 0 <==> exists|m: u8| m < k && #[trigger] count_symbol(grid, m) >= 8,
    decreases k,
{
    if k > 0 {
        lemma_scatter_positive(grid, (k - 1) as nat);
        let m = (k - 1) as u8;
        lemma_mineral_pays_iff_eight(grid, m);
        if exists|x: u8| x < k && #[trigger] count_symbol(grid, x) >= 8 {
            let x = choose|x: u8| x < k && #[trigger] count_symbol(grid, x) >= 8;
            if x < k - 1 {
                assert(exists|y: u8| y < k - 1 && #[trigger] count_symbol(grid, y) >= 8);
            }
        }
    }
}

/// A step scatter-pays exactly when some mineral appears 8 times or more on
/// its grid, and the symbols that pay are exactly those minerals; a
/// constellation pattern alone is no scatter pay, so it never makes the
/// cascade go on.
pub proof fn lemma_scatter_pays_iff_eight(grid: Seq<u8>, artifacts: u8)
    requires
        grid.len() == CELLS,
    ensures
        eval_step(grid, artifacts).any_pay <==> exists|m: u8| m < 7 && #[trigger] count_symbol(grid, m) >= 8,
        forall|m: int|
            0 <= m < 9 ==> (#[trigger] eval_step(grid, artifacts).pay_sym[m] <==> m < 7 && count_symbol(grid, m as u8) >= 8),
{
    lemma_scatter_positive(grid, 7);
    lemma_scatter_sums(grid, 7);
    assert forall|m: int| 0 <= m < 9 implies (#[trigger] eval_step(grid, artifacts).pay_sym[m] <==> m < 7
        && count_symbol(grid, m as u8) >= 8) by {
        if m < 7 {
            lemma_mineral_pays_iff_eight(grid, m as u8);
        }
    }
}

/// A reported pattern is formed: when a step reports pattern `id > 0`, the
/// five cells of `PATTERNS[id - 1]` all hold one mineral; when it reports
/// none, every pattern has a star in its first cell or two cells that differ.
pub proof fn lemma_reported_pattern(grid: Seq<u8>, artifacts: u8)
    ensures
        ({
            let id = eval_step(grid, artifacts).pat_id;
            let cells = PATTERNS@[id - 1].1@;
            id > 0 ==> {
                &&& id <= 4
                &&& grid[cells[0] as int] <= 6
                &&& forall|c: int| 0 <= c < 5 ==> #[trigger] grid[cells[c] as int] == grid[cells[0] as int]
            }
        }),
        eval_step(grid, artifacts).pat_id == 0 ==> forall|k: int|
            0 <= k < 4 ==> grid[PATTERNS@[k].1@[0] as int] > 6 || exists|a: int, b: int|
                0 <= a < 5 && 0 <= b < 5 && #[trigger] grid[PATTERNS@[k].1@[a] as int] != #[trigger] grid[
                    PATTERNS@[k].1@[b] as int
                ],
{
    lemma_best_pattern(grid, 4);
    let id = eval_step(grid, artifacts).pat_id;
    if id > 0 {
        let cells = PATTERNS@[id - 1].1@;
        lemma_pattern_all_equal(grid, cells);
        assert forall|c: int| 0 <= c < 5 implies #[trigger] grid[cells[c] as int] == grid[cells[0] as int] by {
            assert(grid[cells[c] as int] == grid[cells[0] as int]);
        }
    } else {
        assert forall|k: int| 0 <= k < 4 implies grid[PATTERNS@[k].1@[0] as int] > 6 || exists|a: int, b: int|
            0 <= a < 5 && 0 <= b < 5 && #[trigger] grid[PATTERNS@[k].1@[a] as int] != #[trigger] grid[
                PATTERNS@[k].1@[b] as int
            ] by {
            lemma_pattern_all_equal(grid, PATTERNS@[k].1@);
            assert(!spec_match_pattern(grid, PATTERNS@[k].1@));
        }
    }
}

/// Artifacts only raise a step's win: with every artifact bit of `a1` also
/// set in `a2`, the evaluations agree on the pattern, the paying symbols and
/// whether anything paid, and the win under `a2` is at least that under `a1`.
/// Only the brasa and yunque bits matter to a step.
pub proof fn lemma_artifacts_raise_win(grid: Seq<u8>, a1: u8, a2: u8)
    requires
        a1 & a2 == a1,
    ensures
        eval_step(grid, a1).win_bps <= eval_step(grid, a2).win_bps,
        eval_step(grid, a1).pat_id == eval_step(grid, a2).pat_id,
        eval_step(grid, a1).pay_sym == eval_step(grid, a2).pay_sym,
        eval_step(grid, a1).any_pay == eval_step(grid, a2).any_pay,
        eval_step(grid, a2) == eval_step(grid, a2 & 0x03),
{
    lemma_scatter_sums(grid, 7);
    assert((a1 & ART_YUNQUE != 0) ==> (a2 & ART_YUNQUE != 0)) by (bit_vector)
        requires
            a1 & a2 == a1,
    ;
    assert((a1 & ART_BRASA != 0) ==> (a2 & ART_BRASA != 0)) by (bit_vector)
        requires
            a1 & a2 == a1,
    ;
    assert(((a2 & 0x03) & ART_YUNQUE != 0) == (a2 & ART_YUNQUE != 0)) by (bit_vector);
    assert(((a2 & 0x03) & ART_BRASA != 0) == (a2 & ART_BRASA != 0)) by (bit_vector);
    lemma_best_pattern(grid, 4);
    let pat = best_pattern(grid, 4).1;
    assert(pat >= 0);
    assert(pat * 5 / 4 >= pat);
}

/// Every cell holds a symbol (a mineral or the star).
pub open spec fn symbols_valid(grid: Seq<u8>) -> bool {
    forall|i: int| 0 <= i < grid.len() ==> #[trigger] grid[i] <= STAR
}

proof fn lemma_count_push(grid: Seq<u8>, i: int, sym: u8)
    requires
        0 <= i < grid.len(),
    ensures
        count_symbol(grid.take(i + 1), sym) == count_symbol(grid.take(i), sym) + if grid[i] == sym {
            1nat
        } else {
            0nat
        },
{
    assert(grid.take(i + 1).drop_last() =~= grid.take(i));
}

/// Every cell pattern of `PATTERNS` lies on the grid.
pub proof fn lemma_pattern_cells()
    ensures
        forall|i: int, k: int| 0 <= i < 4 && 0 <= k < 5 ==> #[trigger] PATTERNS@[i].1@[k] < CELLS,
{
    assert(PATTERNS@[0].1@ =~= seq![11u8, 12, 13, 7, 17]);
    assert(PATTERNS@[1].1@ =~= seq![6u8, 18, 12, 8, 16]);
    assert(PATTERNS@[2].1@ =~= seq![10u8, 14, 2, 22, 12]);
    assert(PATTERNS@[3].1@ =~= seq![6u8, 7, 8, 13, 18]);
}

struct StepEval {
    win_bps: u64,
    pat_id: u8,
    pay_sym: [bool; 9],
    any_pay: bool,
}

fn evaluate_step(grid: &[u8; CELLS], artifacts: u8) -> (ev: StepEval)
    requires
        symbols_valid(grid@),
    ensures
        ev.win_bps == eval_step(grid@, artifacts).win_bps,
        ev.pat_id == eval_step(grid@, artifacts).pat_id,
        ev.pay_sym@ == eval_step(grid@, artifacts).pay_sym,
        ev.any_pay == eval_step(grid@, artifacts).any_pay,
        ev.win_bps <= 40_000_000_000,
{
    let mut counts = [0u8; 8];
    let mut i: usize = 0;
    while i < CELLS
        invariant
            i <= CELLS,
            symbols_valid(grid@),
            forall|m: int| 0 <= m < 8 ==> #[trigger] counts@[m] == count_symbol(grid@.take(i as int), m as u8),
        decreases CELLS - i,
    {
        let s = grid[i];
        proof {
            assert(grid@[i as int] <= STAR);
            assert forall|m: int| 0 <= m < 8 implies #[trigger] count_symbol(grid@.take(i + 1), m as u8) == count_symbol(grid@.take(i as int), m as u8) + if grid@[i as int] == m as u8 { 1nat } else { 0nat } by {
                lemma_count_push(grid@, i as int, m as u8);
            }
            lemma_count_symbol_bound(grid@.take(i as int), s);
        }
        counts[s as usize] = counts[s as usize] + 1;
        i += 1;
    }
    assert(grid@.take(CELLS as int) =~= grid@);
    let mut scatter_bps: u64 = 0;
    let mut tier3_bps: u64 = 0;
    let mut pay_sym = [false; 9];
    let mut m: u8 = 0;
    while m < 7
        invariant
            m <= 7,
            forall|k: int| 0 <= k < 8 ==> #[trigger] counts@[k] == count_symbol(grid@, k as u8),
            scatter_bps == scatter_sum(grid@, m as nat),
            tier3_bps == tier3_sum(grid@, m as nat),
            scatter_bps <= m * 0xffff_ffff,
            tier3_bps <= m * 0xffff_ffff,
            forall|k: int| 0 <= k < 9 ==> #[trigger] pay_sym@[k] == (k < m && mineral_pay(grid@, k as u8) > 0),
        decreases 7 - m,
    {
        let p = pay_for(m, counts[m as usize]);
        if p > 0 {
            scatter_bps = scatter_bps + p as u64;
            if counts[m as usize] >= 12 {
                tier3_bps = tier3_bps + p as u64;
            }
            pay_sym[m as usize] = true;
        }
        m += 1;
    }
    if artifacts & ART_YUNQUE != 0 {
        scatter_bps = scatter_bps + tier3_bps / 20;
    }
    let mut pat_id: u8 = 0;
    let mut pat_bps: u64 = 0;
    let mut i: usize = 0;
    proof {
        lemma_pattern_cells();
    }
    while i < 4
        invariant
            i <= 4,
            (pat_id, pat_bps as int) == best_pattern(grid@, i as nat),
            pat_bps <= 0xffff_ffff,
            forall|i: int, k: int| 0 <= i < 4 && 0 <= k < 5 ==> #[trigger] PATTERNS@[i].1@[k] < CELLS,
        decreases 4 - i,
    {
        let (pay, cells) = PATTERNS[i];
        if match_pattern(grid, &cells) && pay as u64 > pat_bps {
            pat_id = (i + 1) as u8;
            pat_bps = pay as u64;
        }
        i += 1;
    }
    if artifacts & ART_BRASA != 0 {
        pat_bps = pat_bps * 5 / 4;
    }
    StepEval { win_bps: scatter_bps + pat_bps, pat_id, pay_sym, any_pay: scatter_bps > 0 }
}

/// Whether a symbol survives a collapse: it does not scatter-pay.
pub open spec fn keeps(pay_sym: Seq<bool>) -> spec_fn(u8) -> bool {
    |s: u8| !pay_sym[s as int]
}

/// Column `c` of `grid`, top row first.
pub open spec fn grid_column(grid: Seq<u8>, c: int) -> Seq<u8> {
    grid.subrange(c * 5, c * 5 + 5)
}

/// The symbols of column `c` that survive, in their top-to-bottom order.
pub open spec fn survivors(grid: Seq<u8>, pay_sym: Seq<bool>, c: int) -> Seq<u8> {
    grid_column(grid, c).filter(keeps(pay_sym))
}

/// Collapse and refill of the first `c` columns: in each column the paying
/// symbols vanish, the survivors fall to the bottom in their order, and the
/// emptied top cells are filled, top first, with fresh symbol draws (column
/// by column). Yields the new columns and the stream position after the draws.
pub open spec fn refill_columns(s: ByteStream, grid: Seq<u8>, pay_sym: Seq<bool>, start: nat, c: nat) -> Option<(Seq<u8>, nat)>
    decreases c,
{
    if c == 0 {
        Some((Seq::empty(), start))
    } else {
        match refill_columns(s, grid, pay_sym, start, (c - 1) as nat) {
            None => None,
            Some((g, p)) => {
                let keep = survivors(grid, pay_sym, c - 1);
                match s.draw_symbols(p, (5 - keep.len()) as nat) {
                    None => None,
                    Some((d, q)) => Some((g + d + keep, q)),
                }
            },
        }
    }
}

/// The grid after a collapse and refill of all columns, and the stream position after it.
pub open spec fn collapse_refill(s: ByteStream, grid: Seq<u8>, pay_sym: Seq<bool>, start: nat) -> Option<(Seq<u8>, nat)> {
    refill_columns(s, grid, pay_sym, start, COLS as nat)
}

proof fn lemma_refill_prefix(s: ByteStream, grid: Seq<u8>, pay_sym: Seq<bool>, start: nat, c: nat, n: nat)
    requires
        c <= n,
        refill_columns(s, grid, pay_sym, start, n) is Some,
    ensures
        refill_columns(s, grid, pay_sym, start, c) is Some,
    decreases n - c,
{
    if c < n {
        lemma_refill_prefix(s, grid, pay_sym, start, (c + 1) as nat, n);
    }
}

proof fn lemma_filter_symbols(v: Seq<u8>, pred: spec_fn(u8) -> bool)
    requires
        symbols_valid(v),
    ensures
        symbols_valid(v.filter(pred)),
        v.filter(pred).len() <= v.len(),
    decreases v.len(),
{
    reveal(Seq::filter);
    if v.len() > 0 {
        lemma_filter_symbols(v.drop_last(), pred);
    }
}

/// A collapse and refill of `c` columns of a grid of symbols yields `5 c`
/// cells, each a symbol.
pub proof fn lemma_refill_symbols(s: ByteStream, grid: Seq<u8>, pay_sym: Seq<bool>, start: nat, c: nat)
    requires
        grid.len() == CELLS,
        symbols_valid(grid),
        c <= COLS,
        refill_columns(s, grid, pay_sym, start, c) is Some,
    ensures
        refill_columns(s, grid, pay_sym, start, c).unwrap().0.len() == 5 * c,
        symbols_valid(refill_columns(s, grid, pay_sym, start, c).unwrap().0),
    decreases c,
{
    if c > 0 {
        lemma_refill_symbols(s, grid, pay_sym, start, (c - 1) as nat);
        let (g, p) = refill_columns(s, grid, pay_sym, start, (c - 1) as nat).unwrap();
        let col = grid_column(grid, c - 1);
        assert forall|i: int| 0 <= i < col.len() implies #[trigger] col[i] <= STAR by {
            assert(col[i] == grid[5 * (c - 1) + i]);
        }
        lemma_filter_symbols(col, keeps(pay_sym));
        let keep = survivors(grid, pay_sym, c - 1);
        lemma_draw_symbols_shape(s, p, (5 - keep.len()) as nat);
        let d = s.draw_symbols(p, (5 - keep.len()) as nat).unwrap().0;
        let r = g + d + keep;
        assert forall|i: int| 0 <= i < r.len() implies #[trigger] r[i] <= STAR by {
            if i < g.len() {
                assert(r[i] == g[i]);
            } else if i < g.len() + d.len() {
                assert(r[i] == d[i - g.len()]);
            } else {
                assert(r[i] == keep[i - g.len() - d.len()]);
            }
        }
    }
}

fn collapse_and_refill(grid: &mut [u8; CELLS], pay_sym: &[bool; 9], cur: &mut Cursor)
    requires
        old(cur).wf(),
        symbols_valid(old(grid)@),
        collapse_refill(old(cur).stream(), old(grid)@, pay_sym@, old(cur).pos()) is Some,
    ensures
        final(cur).wf(),
        final(cur).stream() == old(cur).stream(),
        (final(grid)@, final(cur).pos()) == collapse_refill(old(cur).stream(), old(grid)@, pay_sym@, old(cur).pos()).unwrap(),
        symbols_valid(final(grid)@),
{
    let ghost s = cur.stream();
    let ghost g0 = grid@;
    let ghost p0 = cur.pos();
    let mut c: usize = 0;
    while c < COLS
        invariant
            s == old(cur).stream(),
            g0 == old(grid)@,
            p0 == old(cur).pos(),
            c <= COLS,
            g0.len() == CELLS,
            cur.wf(),
            cur.stream() == s,
            symbols_valid(g0),
            symbols_valid(grid@),
            refill_columns(s, g0, pay_sym@, p0, COLS as nat) is Some,
            refill_columns(s, g0, pay_sym@, p0, c as nat) == Some((grid@.take(5 * c), cur.pos())),
            forall|i: int| 5 * c <= i < CELLS ==> grid@[i] == g0[i],
        decreases COLS - c,
    {
        let ghost gp = grid@.take(5 * c);
        let ghost pp = cur.pos();
        proof {
            lemma_refill_prefix(s, g0, pay_sym@, p0, (c + 1) as nat, COLS as nat);
        }
        let ghost keep = survivors(g0, pay_sym@, c as int);
        let mut surv = [0u8; ROWS];
        let mut n: usize = 0;
        let mut r: usize = 0;
        while r < ROWS
            invariant
                c < COLS,
                g0.len() == CELLS,
                n <= r <= ROWS,
                symbols_valid(grid@),
                forall|i: int| 5 * c <= i < CELLS ==> grid@[i] == g0[i],
                surv@.take(n as int) == grid_column(g0, c as int).take(r as int).filter(keeps(pay_sym@)),
                forall|k: int| 0 <= k < n ==> #[trigger] surv@[k] <= STAR,
            decreases ROWS - r,
        {
            let sym = grid[c * ROWS + r];
            proof {
                reveal(Seq::filter);
                let prefix = grid_column(g0, c as int).take(r + 1);
                assert(prefix.drop_last() =~= grid_column(g0, c as int).take(r as int));
                assert(prefix.last() == sym);
                assert(keeps(pay_sym@)(sym) == !pay_sym@[sym as int]);
                assert(prefix.filter(keeps(pay_sym@)) == if keeps(pay_sym@)(sym) {
                    grid_column(g0, c as int).take(r as int).filter(keeps(pay_sym@)).push(sym)
                } else {
                    grid_column(g0, c as int).take(r as int).filter(keeps(pay_sym@))
                });
            }
            if !pay_sym[sym as usize] {
                surv[n] = sym;
                n += 1;
                proof {
                    assert(surv@.take(n as int) =~= surv@.take(n - 1).push(sym));
                }
            }
            r += 1;
        }
        proof {
            assert(grid_column(g0, c as int).take(5) =~= grid_column(g0, c as int));
            assert(surv@.take(n as int) == keep);
        }
        let top = ROWS - n;
        let ghost drawn = s.draw_symbols(pp, top as nat);
        proof {
            lemma_draw_symbols_shape(s, pp, top as nat);
        }
        let mut r: usize = 0;
        while r < ROWS
            invariant
                c < COLS,
                g0.len() == CELLS,
                n <= ROWS,
                top == ROWS - n,
                r <= ROWS,
                cur.wf(),
                cur.stream() == s,
                surv@.take(n as int) == keep,
                forall|k: int| 0 <= k < n ==> #[trigger] surv@[k] <= STAR,
                drawn == s.draw_symbols(pp, top as nat),
                drawn is Some,
                drawn.unwrap().0.len() == top,
                forall|i: int| 0 <= i < top ==> #[trigger] drawn.unwrap().0[i] <= STAR,
                forall|i: int| 5 * c <= i < 5 * c + r ==> #[trigger] grid@[i] <= STAR,
                grid@.take(5 * c) == gp,
                forall|i: int| 5 * c + 5 <= i < CELLS ==> grid@[i] == g0[i],
                forall|i: int| 0 <= i < 5 * c ==> #[trigger] grid@[i] <= STAR,
                r <= top ==> s.draw_symbols(pp, r as nat) == Some((grid@.subrange(5 * c, 5 * c + r), cur.pos())),
                r > top ==> cur.pos() == drawn.unwrap().1 && grid@.subrange(5 * c, 5 * c + top) == drawn.unwrap().0,
                forall|i: int| 5 * c + top <= i < 5 * c + r ==> #[trigger] grid@[i] == surv@[i - 5 * c - top],
            decreases ROWS - r,
        {
            if r < top {
                proof {
                    lemma_draw_symbols_prefix(s, pp, (r + 1) as nat, top as nat);
                }
                let sym = cur.draw_symbol();
                grid[c * ROWS + r] = sym;
                proof {
                    assert(grid@.subrange(5 * c, 5 * c + r + 1) =~= s.draw_symbols(pp, r as nat).unwrap().0.push(sym));
                }
            } else {
                grid[c * ROWS + r] = surv[r - top];
            }
            proof {
                assert(grid@.take(5 * c) =~= gp);
            }
            r += 1;
        }
        proof {
            assert(grid@.take(5 * c + 5) =~= gp + drawn.unwrap().0 + keep);
            assert forall|i: int| 0 <= i < grid@.len() implies #[trigger] grid@[i] <= STAR by {
                if i >= 5 * c + 5 {
                    assert(grid@[i] == g0[i]);
                }
            }
        }
        c += 1;
    }
    proof {
        assert(grid@.take(CELLS as int) =~= grid@);
    }
}

/// Where `n` columns refill, so do the first `c`, ending no later and not
/// before the start.
pub proof fn lemma_refill_monotone(s: ByteStream, grid: Seq<u8>, pay_sym: Seq<bool>, start: nat, c: nat, n: nat)
    requires
        c <= n,
        refill_columns(s, grid, pay_sym, start, n) is Some,
    ensures
        refill_columns(s, grid, pay_sym, start, c) is Some,
        start <= refill_columns(s, grid, pay_sym, start, c).unwrap().1 <= refill_columns(s, grid, pay_sym, start, n).unwrap().1,
    decreases n - c,
{
    if c < n {
        lemma_refill_monotone(s, grid, pay_sym, start, (c + 1) as nat, n);
        lemma_refill_step(s, grid, pay_sym, start, c);
    } else {
        lemma_refill_after_start(s, grid, pay_sym, start, c);
    }
}

proof fn lemma_refill_step(s: ByteStream, grid: Seq<u8>, pay_sym: Seq<bool>, start: nat, c: nat)
    requires
        refill_columns(s, grid, pay_sym, start, c + 1) is Some,
    ensures
        refill_columns(s, grid, pay_sym, start, c) is Some,
        start <= refill_columns(s, grid, pay_sym, start, c).unwrap().1 <= refill_columns(s, grid, pay_sym, start, c + 1).unwrap().1,
{
    let (g, p) = refill_columns(s, grid, pay_sym, start, c).unwrap();
    let keep = survivors(grid, pay_sym, c as int);
    lemma_draw_symbols_shape(s, p, (5 - keep.len()) as nat);
    lemma_refill_after_start(s, grid, pay_sym, start, c);
}

proof fn lemma_refill_after_start(s: ByteStream, grid: Seq<u8>, pay_sym: Seq<bool>, start: nat, c: nat)
    requires
        refill_columns(s, grid, pay_sym, start, c) is Some,
    ensures
        start <= refill_columns(s, grid, pay_sym, start, c).unwrap().1,
    decreases c,
{
    if c > 0 {
        lemma_refill_after_start(s, grid, pay_sym, start, (c - 1) as nat);
        let (g, p) = refill_columns(s, grid, pay_sym, start, (c - 1) as nat).unwrap();
        let keep = survivors(grid, pay_sym, c - 1);
        lemma_draw_symbols_shape(s, p, (5 - keep.len()) as nat);
    }
}

#[verifier::rlimit(40)]
fn try_collapse_and_refill(grid: &mut [u8; CELLS], pay_sym: &[bool; 9], cur: &mut Cursor, budget: &mut u64) -> (ok: bool)
    requires
        old(cur).wf(),
        symbols_valid(old(grid)@),
    ensures
        final(cur).wf(),
        final(cur).stream() == old(cur).stream(),
        ok == (collapse_refill(old(cur).stream(), old(grid)@, pay_sym@, old(cur).pos()) is Some
            && collapse_refill(old(cur).stream(), old(grid)@, pay_sym@, old(cur).pos()).unwrap().1 <= old(cur).pos() + *old(budget)),
        ok ==> (final(grid)@, final(cur).pos()) == collapse_refill(old(cur).stream(), old(grid)@, pay_sym@, old(cur).pos()).unwrap()
            && *final(budget) == *old(budget) - (final(cur).pos() - old(cur).pos())
            && symbols_valid(final(grid)@),
{
    let ghost s = cur.stream();
    let ghost g0 = grid@;
    let ghost p0 = cur.pos();
    let ghost b0 = *budget;
    let mut c: usize = 0;
    while c < COLS
        invariant
            s == old(cur).stream(),
            g0 == old(grid)@,
            p0 == old(cur).pos(),
            b0 == *old(budget),
            c <= COLS,
            g0.len() == CELLS,
            cur.wf(),
            cur.stream() == s,
            symbols_valid(g0),
            symbols_valid(grid@),
            *budget == b0 - (cur.pos() - p0),
            cur.pos() >= p0,
            refill_columns(s, g0, pay_sym@, p0, c as nat) == Some((grid@.take(5 * c), cur.pos())),
            forall|i: int| 5 * c <= i < CELLS ==> grid@[i] == g0[i],
        decreases COLS - c,
    {
        let ghost gp = grid@.take(5 * c);
        let ghost pp = cur.pos();
        let ghost keep = survivors(g0, pay_sym@, c as int);
        let mut surv = [0u8; ROWS];
        let mut n: usize = 0;
        let mut r: usize = 0;
        while r < ROWS
            invariant
                c < COLS,
                g0.len() == CELLS,
                n <= r <= ROWS,
                symbols_valid(grid@),
                forall|i: int| 5 * c <= i < CELLS ==> grid@[i] == g0[i],
                surv@.take(n as int) == grid_column(g0, c as int).take(r as int).filter(keeps(pay_sym@)),
                forall|k: int| 0 <= k < n ==> #[trigger] surv@[k] <= STAR,
            decreases ROWS - r,
        {
            let sym = grid[c * ROWS + r];
            proof {
                reveal(Seq::filter);
                let prefix = grid_column(g0, c as int).take(r + 1);
                assert(prefix.drop_last() =~= grid_column(g0, c as int).take(r as int));
                assert(prefix.last() == sym);
                assert(keeps(pay_sym@)(sym) == !pay_sym@[sym as int]);
                assert(prefix.filter(keeps(pay_sym@)) == if keeps(pay_sym@)(sym) {
                    grid_column(g0, c as int).take(r as int).filter(keeps(pay_sym@)).push(sym)
                } else {
                    grid_column(g0, c as int).take(r as int).filter(keeps(pay_sym@))
                });
            }
            if !pay_sym[sym as usize] {
                surv[n] = sym;
                n += 1;
                proof {
                    assert(surv@.take(n as int) =~= surv@.take(n - 1).push(sym));
                }
            }
            r += 1;
        }
        proof {
            assert(grid_column(g0, c as int).take(5) =~= grid_column(g0, c as int));
            assert(surv@.take(n as int) == keep);
        }
        let top = ROWS - n;
        let mut r: usize = 0;
        while r < ROWS
            invariant
                s == old(cur).stream(),
                g0 == old(grid)@,
                p0 == old(cur).pos(),
                b0 == *old(budget),
                c < COLS,
                g0.len() == CELLS,
                n <= ROWS,
                top == ROWS - n,
                r <= ROWS,
                cur.wf(),
                cur.stream() == s,
                *budget == b0 - (cur.pos() - p0),
                cur.pos() >= pp,
                pp >= p0,
                refill_columns(s, g0, pay_sym@, p0, c as nat) == Some((gp, pp)),
                keep == survivors(g0, pay_sym@, c as int),
                surv@.take(n as int) == keep,
                forall|k: int| 0 <= k < n ==> #[trigger] surv@[k] <= STAR,
                forall|i: int| 5 * c <= i < 5 * c + r ==> #[trigger] grid@[i] <= STAR,
                grid@.take(5 * c) == gp,
                forall|i: int| 5 * c + 5 <= i < CELLS ==> grid@[i] == g0[i],
                forall|i: int| 0 <= i < 5 * c ==> #[trigger] grid@[i] <= STAR,
                r <= top ==> s.draw_symbols(pp, r as nat) == Some((grid@.subrange(5 * c, 5 * c + r), cur.pos())),
                r > top ==> s.draw_symbols(pp, top as nat) == Some((grid@.subrange(5 * c, 5 * c + top), cur.pos())),
                forall|i: int| 5 * c + top <= i < 5 * c + r ==> #[trigger] grid@[i] == surv@[i - 5 * c - top],
            decreases ROWS - r,
        {
            if r < top {
                let ghost pos = cur.pos();
                let ghost bud = *budget;
                match cur.try_draw_symbol(budget) {
                    Some(sym) => {
                        grid[c * ROWS + r] = sym;
                        proof {
                            assert(grid@.subrange(5 * c, 5 * c + r + 1) =~= s.draw_symbols(pp, r as nat).unwrap().0.push(sym));
                        }
                    },
                    None => {
                        proof {
                            if refill_columns(s, g0, pay_sym@, p0, COLS as nat) is Some
                                && refill_columns(s, g0, pay_sym@, p0, COLS as nat).unwrap().1 <= p0 + b0 {
                                lemma_refill_monotone(s, g0, pay_sym@, p0, (c + 1) as nat, COLS as nat);
                                assert(s.draw_symbols(pp, top as nat) is Some);
                                lemma_draw_symbols_monotone(s, pp, (r + 1) as nat, top as nat);
                                assert(s.symbol_draw(pos) is Some);
                                assert(s.symbol_draw(pos).unwrap().1 == s.draw_symbols(pp, (r + 1) as nat).unwrap().1);
                                assert(false);
                            }
                        }
                        return false;
                    },
                }
            } else {
                grid[c * ROWS + r] = surv[r - top];
            }
            proof {
                assert(grid@.take(5 * c) =~= gp);
            }
            r += 1;
        }
        proof {
            let drawn = s.draw_symbols(pp, top as nat).unwrap();
            assert(grid@.take(5 * c + 5) =~= gp + drawn.0 + keep);
            assert forall|i: int| 0 <= i < grid@.len() implies #[trigger] grid@[i] <= STAR by {
                if i >= 5 * c + 5 {
                    assert(grid@[i] == g0[i]);
                }
            }
        }
        c += 1;
    }
    proof {
        assert(grid@.take(CELLS as int) =~= grid@);
    }
    true
}

/// Progress of the cascade loop: the current grid and stream position,
/// what the evaluated steps recorded, and whether the cascade has stopped.
pub struct CascadeState {
    pub grid: Seq<u8>,
    pub pos: nat,
    pub grids: Seq<Seq<u8>>,
    pub wins: Seq<int>,
    pub pats: Seq<u8>,
    pub total: int,
    pub stopped: bool,
}

/// The cascade after `steps` rounds from `grid0` at stream position `start`.
/// A round evaluates the grid and records it with its win and pattern; if
/// nothing scatter-paid the cascade stops, otherwise the paying symbols
/// collapse and the grid is refilled from the stream.
pub open spec fn cascade(s: ByteStream, artifacts: u8, grid0: Seq<u8>, start: nat, steps: nat) -> Option<CascadeState>
    decreases steps,
{
    if steps == 0 {
        Some(
            CascadeState {
                grid: grid0,
                pos: start,
                grids: Seq::empty(),
                wins: Seq::empty(),
                pats: Seq::empty(),
                total: 0,
                stopped: false,
            },
        )
    } else {
        match cascade(s, artifacts, grid0, start, (steps - 1) as nat) {
            None => None,
            Some(st) => if st.stopped {
                Some(st)
            } else {
                let ev = eval_step(st.grid, artifacts);
                if !ev.any_pay {
                    Some(
                        CascadeState {
                            grid: st.grid,
                            pos: st.pos,
                            grids: st.grids.push(st.grid),
                            wins: st.wins.push(ev.win_bps),
                            pats: st.pats.push(ev.pat_id),
                            total: st.total + ev.win_bps,
                            stopped: true,
                        },
                    )
                } else {
                    match collapse_refill(s, st.grid, ev.pay_sym, st.pos) {
                        None => None,
                        Some((g, p)) => Some(
                            CascadeState {
                                grid: g,
                                pos: p,
                                grids: st.grids.push(st.grid),
                                wins: st.wins.push(ev.win_bps),
                                pats: st.pats.push(ev.pat_id),
                                total: st.total + ev.win_bps,
                                stopped: false,
                            },
                        ),
                    }
                }
            },
        }
    }
}

proof fn lemma_cascade_prefix(s: ByteStream, artifacts: u8, grid0: Seq<u8>, start: nat, i: nat, n: nat)
    requires
        i <= n,
        cascade(s, artifacts, grid0, start, n) is Some,
    ensures
        cascade(s, artifacts, grid0, start, i) is Some,
    decreases n - i,
{
    if i < n {
        lemma_cascade_prefix(s, artifacts, grid0, start, (i + 1) as nat, n);
    }
}

proof fn lemma_cascade_stopped(s: ByteStream, artifacts: u8, grid0: Seq<u8>, start: nat, i: nat, n: nat)
    requires
        i <= n,
        cascade(s, artifacts, grid0, start, i) is Some,
        cascade(s, artifacts, grid0, start, i).unwrap().stopped,
    ensures
        cascade(s, artifacts, grid0, start, n) == cascade(s, artifacts, grid0, start, i),
    decreases n - i,
{
    if i < n {
        lemma_cascade_stopped(s, artifacts, grid0, start, i, (n - 1) as nat);
    }
}

/// Sum of a sequence of wins.
pub open spec fn sum_wins(wins: Seq<int>) -> int
    decreases wins.len(),
{
    if wins.len() == 0 {
        0
    } else {
        sum_wins(wins.drop_last()) + wins.last()
    }
}

/// What `n` cascade rounds record: one grid, win and pattern per evaluated
/// step (at most `n`, and at least one when `n > 0`), the first grid being
/// the starting grid, each win and pattern being that grid's evaluation,
/// the total being the sum of the wins, and a step after a grid whose
/// evaluation paid nothing never happening.
pub proof fn lemma_cascade_record(s: ByteStream, artifacts: u8, grid0: Seq<u8>, start: nat, n: nat)
    requires
        cascade(s, artifacts, grid0, start, n) is Some,
    ensures
        ({
            let st = cascade(s, artifacts, grid0, start, n).unwrap();
            &&& st.grids.len() == st.wins.len() == st.pats.len()
            &&& st.grids.len() <= n
            &&& n > 0 ==> st.grids.len() >= 1 && st.grids[0] == grid0
            &&& st.total == sum_wins(st.wins)
            &&& forall|i: int| 0 <= i < st.grids.len() ==> #[trigger] st.wins[i] == eval_step(st.grids[i], artifacts).win_bps
                && st.pats[i] == eval_step(st.grids[i], artifacts).pat_id
            &&& forall|i: int| 0 <= i < st.grids.len() - 1 ==> #[trigger] eval_step(st.grids[i], artifacts).any_pay
            &&& st.stopped ==> !eval_step(st.grids.last(), artifacts).any_pay
            &&& !st.stopped ==> st.grids.len() == n
            &&& !st.stopped && n > 0 ==> eval_step(st.grids.last(), artifacts).any_pay
            &&& grid0.len() == CELLS && symbols_valid(grid0) ==> {
                &&& st.grid.len() == CELLS
                &&& symbols_valid(st.grid)
                &&& forall|i: int| 0 <= i < st.grids.len() ==> #[trigger] st.grids[i].len() == CELLS && symbols_valid(st.grids[i])
            }
        }),
    decreases n,
{
    if n > 0 {
        lemma_cascade_record(s, artifacts, grid0, start, (n - 1) as nat);
        let prev0 = cascade(s, artifacts, grid0, start, (n - 1) as nat).unwrap();
        if grid0.len() == CELLS && symbols_valid(grid0) && !prev0.stopped && eval_step(prev0.grid, artifacts).any_pay {
            lemma_refill_symbols(s, prev0.grid, eval_step(prev0.grid, artifacts).pay_sym, prev0.pos, COLS as nat);
        }
        let prev = cascade(s, artifacts, grid0, start, (n - 1) as nat).unwrap();
        let st = cascade(s, artifacts, grid0, start, n).unwrap();
        if !prev.stopped {
            let ev = eval_step(prev.grid, artifacts);
            assert(st.grids == prev.grids.push(prev.grid));
            assert(st.wins == prev.wins.push(ev.win_bps));
            assert(st.pats == prev.pats.push(ev.pat_id));
            assert(st.wins.drop_last() =~= prev.wins);
            assert(st.grids.last() == prev.grid);
            assert(forall|i: int| 0 <= i < prev.grids.len() ==> st.grids[i] == prev.grids[i]);
            assert(forall|i: int| 0 <= i < prev.grids.len() ==> st.wins[i] == prev.wins[i]);
            assert(forall|i: int| 0 <= i < prev.grids.len() ==> st.pats[i] == prev.pats[i]);
            if n == 1 {
                assert(prev.grid == grid0);
            }
        }
    }
}

/// Fisher-Yates shuffle of `prizes` after `t` rounds from stream position
/// `start`: round `t` (counting from 1) draws `j` in [0, 13 - t) and swaps
/// the entries at `12 - t` and `j`.
pub open spec fn shuffle(s: ByteStream, prizes: Seq<u16>, start: nat, t: nat) -> Option<(Seq<u16>, nat)>
    decreases t,
{
    if t == 0 {
        Some((prizes, start))
    } else {
        match shuffle(s, prizes, start, (t - 1) as nat) {
            None => None,
            Some((pz, p)) => {
                let i = 12 - t;
                match s.range_draw(p, (i + 1) as u8) {
                    None => None,
                    Some((j, q)) => Some((pz.update(i, pz[j as int]).update(j as int, pz[i]), q)),
                }
            },
        }
    }
}

/// Each shuffle round `t` works on entry `i = 12 - t` (11 down to 1) and
/// swaps it with an entry `j` at or below it, reading at least one byte; the
/// range of `j` includes `i` itself. A round whose next byte is some
/// `k <= i` swaps entries `i` and `k` and reads only that byte, so with
/// `k == i` the prizes stay as they were.
pub proof fn lemma_shuffle_round(s: ByteStream, prizes: Seq<u16>, start: nat, t: nat)
    requires
        prizes.len() == 12,
        1 <= t <= 11,
        shuffle(s, prizes, start, (t - 1) as nat) is Some,
    ensures
        ({
            let (pz, p) = shuffle(s, prizes, start, (t - 1) as nat).unwrap();
            let i = 12 - t;
            let k = s.byte(p) as int;
            &&& shuffle(s, prizes, start, t) is Some ==> exists|j: int|
                0 <= j <= i && #[trigger] pz.update(i, pz[j]).update(j, pz[i]) == shuffle(s, prizes, start, t).unwrap().0
                    && shuffle(s, prizes, start, t).unwrap().1 > p
            &&& k <= i ==> shuffle(s, prizes, start, t) == Some((pz.update(i, pz[k]).update(k, pz[i]), p + 1))
            &&& k == i ==> shuffle(s, prizes, start, t) == Some((pz, p + 1))
        }),
{
    lemma_shuffle_permutes(s, prizes, start, (t - 1) as nat);
    let (pz, p) = shuffle(s, prizes, start, (t - 1) as nat).unwrap();
    let i = 12 - t;
    let n = (i + 1) as u8;
    let k = s.byte(p) as int;
    if s.range_draw(p, n) is Some {
        let j = s.range_draw(p, n).unwrap().0 as int;
        assert(j < i + 1);
        assert(pz.update(i, pz[j]).update(j, pz[i]) == shuffle(s, prizes, start, t).unwrap().0);
    }
    if k <= i {
        lemma_range_sampling(n);
        assert(s.range_accepted(p, n, 0));
        assert(s.range_hit(p, n)(0));
        lemma_first_hit(s.range_hit(p, n), 0);
        assert(first_hit(s.range_hit(p, n)) == 0);
        assert(k % (n as int) == k) by (nonlinear_arith)
            requires
                0 <= k < n as int,
        ;
        assert(s.range_draw(p, n) == Some((k as u8, p + 1)));
        if k == i {
            assert(pz.update(i, pz[k]).update(k, pz[i]) =~= pz);
        }
    }
}

proof fn lemma_shuffle_prefix(s: ByteStream, prizes: Seq<u16>, start: nat, t: nat, n: nat)
    requires
        t <= n,
        shuffle(s, prizes, start, n) is Some,
    ensures
        shuffle(s, prizes, start, t) is Some,
    decreases n - t,
{
    if t < n {
        lemma_shuffle_prefix(s, prizes, start, (t + 1) as nat, n);
    }
}

/// Where `n` cascade rounds complete, so do the first `i`, ending no later.
pub proof fn lemma_cascade_monotone(s: ByteStream, artifacts: u8, grid0: Seq<u8>, start: nat, i: nat, n: nat)
    requires
        i <= n,
        cascade(s, artifacts, grid0, start, n) is Some,
    ensures
        cascade(s, artifacts, grid0, start, i) is Some,
        start <= cascade(s, artifacts, grid0, start, i).unwrap().pos <= cascade(s, artifacts, grid0, start, n).unwrap().pos,
    decreases n - i,
{
    if i < n {
        lemma_cascade_monotone(s, artifacts, grid0, start, (i + 1) as nat, n);
        lemma_cascade_step(s, artifacts, grid0, start, i);
    }
    lemma_cascade_after_start(s, artifacts, grid0, start, i);
}

proof fn lemma_cascade_step(s: ByteStream, artifacts: u8, grid0: Seq<u8>, start: nat, i: nat)
    requires
        cascade(s, artifacts, grid0, start, i + 1) is Some,
    ensures
        cascade(s, artifacts, grid0, start, i) is Some,
        cascade(s, artifacts, grid0, start, i).unwrap().pos <= cascade(s, artifacts, grid0, start, i + 1).unwrap().pos,
{
    let st = cascade(s, artifacts, grid0, start, i).unwrap();
    if !st.stopped && eval_step(st.grid, artifacts).any_pay {
        lemma_refill_after_start(s, st.grid, eval_step(st.grid, artifacts).pay_sym, st.pos, COLS as nat);
    }
}

proof fn lemma_cascade_after_start(s: ByteStream, artifacts: u8, grid0: Seq<u8>, start: nat, i: nat)
    requires
        cascade(s, artifacts, grid0, start, i) is Some,
    ensures
        start <= cascade(s, artifacts, grid0, start, i).unwrap().pos,
    decreases i,
{
    if i > 0 {
        lemma_cascade_step(s, artifacts, grid0, start, (i - 1) as nat);
        lemma_cascade_after_start(s, artifacts, grid0, start, (i - 1) as nat);
    }
}

/// Where `n` shuffle rounds complete, so do the first `t`, ending no later.
pub proof fn lemma_shuffle_monotone(s: ByteStream, prizes: Seq<u16>, start: nat, t: nat, n: nat)
    requires
        t <= n,
        shuffle(s, prizes, start, n) is Some,
    ensures
        shuffle(s, prizes, start, t) is Some,
        start <= shuffle(s, prizes, start, t).unwrap().1 <= shuffle(s, prizes, start, n).unwrap().1,
    decreases n - t,
{
    if t < n {
        lemma_shuffle_monotone(s, prizes, start, (t + 1) as nat, n);
    }
    lemma_shuffle_after_start(s, prizes, start, t);
}

proof fn lemma_shuffle_after_start(s: ByteStream, prizes: Seq<u16>, start: nat, t: nat)
    requires
        shuffle(s, prizes, start, t) is Some,
    ensures
        start <= shuffle(s, prizes, start, t).unwrap().1,
    decreases t,
{
    if t > 0 {
        lemma_shuffle_after_start(s, prizes, start, (t - 1) as nat);
    }
}

proof fn lemma_update_multiset(v: Seq<u16>, i: int, x: u16)
    requires
        0 <= i < v.len(),
    ensures
        v.update(i, x).to_multiset() =~= v.to_multiset().remove(v[i]).insert(x),
{
    broadcast use vstd::seq_lib::group_to_multiset_ensures;
    broadcast use vstd::multiset::group_multiset_axioms;

    let w = v.update(i, x);
    assert(w.remove(i) =~= v.remove(i));
    assert(w.contains(x)) by {
        assert(w[i] == x);
    }
    let m = w.to_multiset();
    assert(m.count(x) > 0);
    assert(m =~= m.remove(x).insert(x));
}

/// Swapping two entries keeps the same multiset of values.
pub proof fn lemma_swap_multiset(v: Seq<u16>, i: int, j: int)
    requires
        0 <= i < v.len(),
        0 <= j < v.len(),
    ensures
        v.update(i, v[j]).update(j, v[i]).to_multiset() =~= v.to_multiset(),
        v.update(i, v[j]).update(j, v[i]).len() == v.len(),
{
    broadcast use vstd::seq_lib::group_to_multiset_ensures;
    broadcast use vstd::multiset::group_multiset_axioms;

    let a = v[i];
    let b = v[j];
    let v1 = v.update(i, b);
    lemma_update_multiset(v, i, b);
    assert(v1[j] == b);
    lemma_update_multiset(v1, j, a);
    let m = v.to_multiset();
    assert(v.contains(a)) by {
        assert(v[i] == a);
    }
    assert(m.count(a) > 0);
    assert(m.remove(a).insert(b).remove(b) =~= m.remove(a));
    assert(m.remove(a).insert(a) =~= m);
}

/// The shuffle only permutes: the prizes keep their length and their multiset of values.
pub proof fn lemma_shuffle_permutes(s: ByteStream, prizes: Seq<u16>, start: nat, t: nat)
    requires
        prizes.len() == 12,
        t <= 11,
        shuffle(s, prizes, start, t) is Some,
    ensures
        shuffle(s, prizes, start, t).unwrap().0.len() == 12,
        shuffle(s, prizes, start, t).unwrap().0.to_multiset() =~= prizes.to_multiset(),
    decreases t,
{
    if t > 0 {
        lemma_shuffle_permutes(s, prizes, start, (t - 1) as nat);
        let (pz, p) = shuffle(s, prizes, start, (t - 1) as nat).unwrap();
        let i = 12 - t;
        let j = s.range_draw(p, (i + 1) as u8).unwrap().0;
        assert(j < i + 1);
        lemma_swap_multiset(pz, i, j as int);
    }
}

/// What a spin yields, as mathematical values.
pub struct SpinView {
    pub grids: Seq<Seq<u8>>,
    pub step_wins_bps: Seq<int>,
    pub step_pats: Seq<u8>,
    pub grid_win_bps: int,
    pub stars: int,
    pub prizes: Option<Seq<u16>>,
}

/// A full spin read from stream position `start`: 30 symbol draws fill the
/// grid column by column, the cascade runs for at most `CASCADE_CAP` rounds,
/// and when the first grid holds `SN_TRIGGER` stars or more the supernova
/// prizes are shuffled with the bytes that follow. `None` when some draw
/// never ends (every attempt rejected).
pub open spec fn spin(s: ByteStream, start: nat, artifacts: u8) -> Option<SpinView> {
    match s.draw_symbols(start, CELLS as nat) {
        None => None,
        Some((g0, p0)) => match cascade(s, artifacts, g0, p0, CASCADE_CAP as nat) {
            None => None,
            Some(st) => {
                let stars = count_symbol(g0, STAR) as int;
                if stars >= SN_TRIGGER {
                    match shuffle(s, PRIZES@, st.pos, 11) {
                        None => None,
                        Some((pz, q)) => Some(
                            SpinView {
                                grids: st.grids,
                                step_wins_bps: st.wins,
                                step_pats: st.pats,
                                grid_win_bps: st.total,
                                stars,
                                prizes: Some(pz),
                            },
                        ),
                    }
                } else {
                    Some(
                        SpinView {
                            grids: st.grids,
                            step_wins_bps: st.wins,
                            step_pats: st.pats,
                            grid_win_bps: st.total,
                            stars,
                            prizes: None,
                        },
                    )
                }
            },
        },
    }
}

/// The shape of every spin: one or two evaluated steps, with a win and a
/// pattern each that are that grid's evaluation; every grid holds 30
/// symbols (minerals or stars); the first grid is the one drawn, a second step only follows a grid that scatter-paid; the grid win
/// is the sum of the step wins; the stars are those of the first grid, and
/// the supernova prizes are present exactly when there are `SN_TRIGGER` stars
/// or more, and then they are a permutation of `PRIZES`.
pub proof fn lemma_spin_shape(s: ByteStream, start: nat, artifacts: u8)
    requires
        spin(s, start, artifacts) is Some,
    ensures
        ({
            let out = spin(s, start, artifacts).unwrap();
            &&& 1 <= out.grids.len() <= CASCADE_CAP
            &&& out.step_wins_bps.len() == out.grids.len()
            &&& out.step_pats.len() == out.grids.len()
            &&& out.grids[0] == s.draw_symbols(start, CELLS as nat).unwrap().0
            &&& forall|i: int| 0 <= i < out.grids.len() ==> #[trigger] out.grids[i].len() == CELLS && symbols_valid(out.grids[i])
            &&& forall|i: int| 0 <= i < out.grids.len() ==> #[trigger] out.step_wins_bps[i] == eval_step(out.grids[i], artifacts).win_bps
                && out.step_pats[i] == eval_step(out.grids[i], artifacts).pat_id
            &&& out.grids.len() == 2 ==> eval_step(out.grids[0], artifacts).any_pay
            &&& out.grid_win_bps == sum_wins(out.step_wins_bps)
            &&& out.stars == count_symbol(out.grids[0], STAR)
            &&& (out.prizes is Some <==> out.stars >= SN_TRIGGER)
            &&& out.prizes matches Some(pz) ==> pz.len() == 12 && pz.to_multiset() =~= PRIZES@.to_multiset()
        }),
{
    let (g0, p0) = s.draw_symbols(start, CELLS as nat).unwrap();
    lemma_draw_symbols_shape(s, start, CELLS as nat);
    lemma_cascade_record(s, artifacts, g0, p0, CASCADE_CAP as nat);
    let st = cascade(s, artifacts, g0, p0, CASCADE_CAP as nat).unwrap();
    if count_symbol(g0, STAR) >= SN_TRIGGER {
        lemma_shuffle_permutes(s, PRIZES@, st.pos, 11);
    }
}

/// A spin cascades only on a scatter pay: it has a second step exactly when
/// some mineral appears 8 times or more on its first grid; otherwise the
/// spin is that one step, and its win is the whole grid win, so a pattern
/// on the first grid is paid once.
pub proof fn lemma_spin_cascades_on_scatter(s: ByteStream, start: nat, artifacts: u8)
    requires
        spin(s, start, artifacts) is Some,
    ensures
        ({
            let out = spin(s, start, artifacts).unwrap();
            &&& out.grids.len() == 2 <==> exists|m: u8| m < 7 && #[trigger] count_symbol(out.grids[0], m) >= 8
            &&& out.grids.len() == 1 ==> out.grid_win_bps == out.step_wins_bps[0]
        }),
{
    lemma_spin_shape(s, start, artifacts);
    let (g0, p0) = s.draw_symbols(start, CELLS as nat).unwrap();
    lemma_cascade_record(s, artifacts, g0, p0, CASCADE_CAP as nat);
    let out = spin(s, start, artifacts).unwrap();
    lemma_scatter_pays_iff_eight(out.grids[0], artifacts);
    if out.grids.len() == 1 {
        let w = out.step_wins_bps;
        assert(w.drop_last().len() == 0);
        assert(sum_wins(w.drop_last()) == 0);
    }
}

/// The stream position after the last draw of a spin (meaningful when the spin completes).
pub open spec fn spin_end(s: ByteStream, start: nat, artifacts: u8) -> nat {
    let (g0, p0) = s.draw_symbols(start, CELLS as nat).unwrap();
    let st = cascade(s, artifacts, g0, p0, CASCADE_CAP as nat).unwrap();
    if count_symbol(g0, STAR) as int >= SN_TRIGGER {
        shuffle(s, PRIZES@, st.pos, 11).unwrap().1
    } else {
        st.pos
    }
}

/// A completed spin reads its 30 grid draws, then its cascade, then its shuffle, in stream order.
pub proof fn lemma_spin_end_bounds(s: ByteStream, start: nat, artifacts: u8)
    requires
        spin(s, start, artifacts) is Some,
    ensures
        ({
            let (g0, p0) = s.draw_symbols(start, CELLS as nat).unwrap();
            let st = cascade(s, artifacts, g0, p0, CASCADE_CAP as nat).unwrap();
            &&& start <= p0 <= st.pos <= spin_end(s, start, artifacts)
            &&& count_symbol(g0, STAR) as int >= SN_TRIGGER ==> shuffle(s, PRIZES@, st.pos, 11) is Some
        }),
{
    let (g0, p0) = s.draw_symbols(start, CELLS as nat).unwrap();
    lemma_draw_symbols_shape(s, start, CELLS as nat);
    lemma_cascade_monotone(s, artifacts, g0, p0, CASCADE_CAP as nat, CASCADE_CAP as nat);
    let st = cascade(s, artifacts, g0, p0, CASCADE_CAP as nat).unwrap();
    if count_symbol(g0, STAR) as int >= SN_TRIGGER {
        lemma_shuffle_monotone(s, PRIZES@, st.pos, 11, 11);
    }
}

/// The stream of a seed under a chaining hash.
pub open spec fn seed_stream(kind: HashKind, seed: Seq<u8>) -> ByteStream {
    ByteStream { kind, origin: seed }
}

/// The spin of `seed` with the on-chain SHA-256 cursor.
pub open spec fn spec_run_spin(seed: Seq<u8>, artifacts: u8) -> Option<SpinView> {
    spin(seed_stream(HashKind::Sha256, seed), 0, artifacts)
}

/// The spin of `seed` with the Keccak-256 cursor.
pub open spec fn spec_run_spin_keccak(seed: Seq<u8>, artifacts: u8) -> Option<SpinView> {
    spin(seed_stream(HashKind::Keccak256, seed), 0, artifacts)
}

/// Outcome of one spin.
#[derive(Debug, Clone)]
pub struct SpinOutcome {
    /// The grid of each evaluated cascade step, before its refill.
    pub grids: Vec<[u8; CELLS]>,
    pub step_wins_bps: Vec<u64>,
    pub step_pats: Vec<u8>,
    pub grid_win_bps: u64,
    pub stars: u8,
    /// `Some` (the shuffled prizes) iff the supernova triggered.
    pub prizes: Option<[u16; 12]>,
}

impl View for SpinOutcome {
    type V = SpinView;

    open spec fn view(&self) -> SpinView {
        SpinView {
            grids: self.grids@.map_values(|g: [u8; CELLS]| g@),
            step_wins_bps: self.step_wins_bps@.map_values(|w: u64| w as int),
            step_pats: self.step_pats@,
            grid_win_bps: self.grid_win_bps as int,
            stars: self.stars as int,
            prizes: match self.prizes {
                Some(p) => Some(p@),
                None => None,
            },
        }
    }
}

/// A spin is determined by its seed and artifacts: any two outcomes of the
/// same spin are equal.
pub proof fn lemma_spin_deterministic(a: SpinOutcome, b: SpinOutcome, seed: Seq<u8>, artifacts: u8)
    requires
        spec_run_spin(seed, artifacts) is Some,
        a@ == spec_run_spin(seed, artifacts).unwrap(),
        b@ == spec_run_spin(seed, artifacts).unwrap(),
    ensures
        a@ == b@,
{
}

/// Where a completed spin reads no further than `start + max_bytes`, every
/// refill of its cascade ends within that bound too.
proof fn lemma_cascade_refill_needed(s: ByteStream, start: nat, artifacts: u8, g0: Seq<u8>, p0: nat, step: nat, max_bytes: nat)
    requires
        s.draw_symbols(start, CELLS as nat) == Some((g0, p0)),
        step < CASCADE_CAP,
        cascade(s, artifacts, g0, p0, step) is Some,
        !cascade(s, artifacts, g0, p0, step).unwrap().stopped,
        eval_step(cascade(s, artifacts, g0, p0, step).unwrap().grid, artifacts).any_pay,
        spin(s, start, artifacts) is Some,
        spin_end(s, start, artifacts) <= start + max_bytes,
    ensures
        ({
            let st = cascade(s, artifacts, g0, p0, step).unwrap();
            let r = collapse_refill(s, st.grid, eval_step(st.grid, artifacts).pay_sym, st.pos);
            r is Some && r.unwrap().1 <= start + max_bytes
        }),
{
    lemma_spin_end_bounds(s, start, artifacts);
    lemma_cascade_monotone(s, artifacts, g0, p0, step + 1, CASCADE_CAP as nat);
}

fn replay_spin(cursor: Cursor, artifacts: u8, max_bytes: u64) -> (ok: bool)
    requires
        cursor.wf(),
    ensures
        ok == (spin(cursor.stream(), cursor.pos(), artifacts) is Some && spin_end(cursor.stream(), cursor.pos(), artifacts)
            <= cursor.pos() + max_bytes),
{
    let mut cur = cursor;
    let ghost s = cur.stream();
    let ghost start = cur.pos();
    let mut budget = max_bytes;
    let mut grid = [0u8; CELLS];
    let mut i: usize = 0;
    while i < CELLS
        invariant
            i <= CELLS,
            s == cursor.stream(),
            start == cursor.pos(),
            cur.wf(),
            cur.stream() == s,
            cur.pos() >= start,
            budget == max_bytes - (cur.pos() - start),
            s.draw_symbols(start, i as nat) == Some((grid@.take(i as int), cur.pos())),
        decreases CELLS - i,
    {
        let ghost pos = cur.pos();
        match cur.try_draw_symbol(&mut budget) {
            Some(sym) => {
                proof {
                    assert(grid@.take(i as int).push(sym) =~= grid@.update(i as int, sym).take(i + 1));
                }
                grid[i] = sym;
            },
            None => {
                proof {
                    if spin(s, start, artifacts) is Some && spin_end(s, start, artifacts) <= start + max_bytes {
                        lemma_spin_end_bounds(s, start, artifacts);
                        lemma_draw_symbols_monotone(s, start, (i + 1) as nat, CELLS as nat);
                        assert(s.symbol_draw(pos) is Some);
                        assert(false);
                    }
                }
                return false;
            },
        }
        i += 1;
    }
    proof {
        assert(grid@.take(CELLS as int) =~= grid@);
        lemma_draw_symbols_shape(s, start, CELLS as nat);
    }
    let ghost g0 = grid@;
    let ghost p0 = cur.pos();
    let mut stars: u8 = 0;
    let mut i: usize = 0;
    while i < CELLS
        invariant
            i <= CELLS,
            grid@ == g0,
            stars == count_symbol(g0.take(i as int), STAR),
            stars <= i,
        decreases CELLS - i,
    {
        proof {
            lemma_count_push(g0, i as int, STAR);
        }
        if grid[i] == STAR {
            stars = stars + 1;
        }
        i += 1;
    }
    proof {
        assert(g0.take(CELLS as int) =~= g0);
    }
    let mut step: u8 = 0;
    while step < CASCADE_CAP
        invariant_except_break
            step <= CASCADE_CAP,
            cascade(s, artifacts, g0, p0, step as nat) is Some,
            cascade(s, artifacts, g0, p0, step as nat).unwrap().grid == grid@,
            cascade(s, artifacts, g0, p0, step as nat).unwrap().pos == cur.pos(),
            !cascade(s, artifacts, g0, p0, step as nat).unwrap().stopped,
        invariant
            s == cursor.stream(),
            start == cursor.pos(),
            cur.wf(),
            cur.stream() == s,
            symbols_valid(grid@),
            cur.pos() >= start,
            budget == max_bytes - (cur.pos() - start),
            s.draw_symbols(start, CELLS as nat) == Some((g0, p0)),
            stars == count_symbol(g0, STAR),
        ensures
            cascade(s, artifacts, g0, p0, CASCADE_CAP as nat) is Some,
            cascade(s, artifacts, g0, p0, CASCADE_CAP as nat).unwrap().pos == cur.pos(),
        decreases CASCADE_CAP - step,
    {
        let ev = evaluate_step(&grid, artifacts);
        if !ev.any_pay {
            proof {
                lemma_cascade_stopped(s, artifacts, g0, p0, (step + 1) as nat, CASCADE_CAP as nat);
            }
            break;
        }
        let ghost st = cascade(s, artifacts, g0, p0, step as nat).unwrap();
        let ghost b = budget;
        let ok = try_collapse_and_refill(&mut grid, &ev.pay_sym, &mut cur, &mut budget);
        if !ok {
            proof {
                if spin(s, start, artifacts) is Some && spin_end(s, start, artifacts) <= start + max_bytes {
                    lemma_cascade_refill_needed(s, start, artifacts, g0, p0, step as nat, max_bytes as nat);
                }
            }
            return false;
        }
        proof {
            lemma_refill_after_start(s, st.grid, ev.pay_sym@, st.pos, COLS as nat);
            assert(cascade(s, artifacts, g0, p0, (step + 1) as nat).unwrap().grid == grid@);
        }
        step += 1;
    }
    if stars >= SN_TRIGGER {
        let ghost pc = cur.pos();
        let mut i: u8 = 11;
        while i >= 1
            invariant
                i <= 11,
                s == cursor.stream(),
                start == cursor.pos(),
                cur.wf(),
                cur.stream() == s,
                cur.pos() >= start,
                budget == max_bytes - (cur.pos() - start),
                s.draw_symbols(start, CELLS as nat) == Some((g0, p0)),
                stars == count_symbol(g0, STAR),
                stars >= SN_TRIGGER,
                cascade(s, artifacts, g0, p0, CASCADE_CAP as nat) is Some,
                cascade(s, artifacts, g0, p0, CASCADE_CAP as nat).unwrap().pos == pc,
                shuffle(s, PRIZES@, pc, (11 - i) as nat) is Some,
                shuffle(s, PRIZES@, pc, (11 - i) as nat).unwrap().1 == cur.pos(),
            decreases i,
        {
            let ghost pos = cur.pos();
            match cur.try_draw_range(i + 1, &mut budget) {
                Some(_) => {},
                None => {
                    proof {
                        if spin(s, start, artifacts) is Some && spin_end(s, start, artifacts) <= start + max_bytes {
                            lemma_spin_end_bounds(s, start, artifacts);
                            lemma_shuffle_monotone(s, PRIZES@, pc, (12 - i) as nat, 11);
                            assert(s.range_draw(pos, (i + 1) as u8) is Some);
                            assert(false);
                        }
                    }
                    return false;
                },
            }
            i -= 1;
        }
    }
    true
}

/// Whether every draw of the SHA-256 spin of `seed` ends within the first
/// `max_bytes` bytes of its stream; then the spin completes.
pub fn spin_draws_end(seed: [u8; 32], artifacts: u8, max_bytes: u64) -> (ok: bool)
    ensures
        ok == (spec_run_spin(seed@, artifacts) is Some && spin_end(seed_stream(HashKind::Sha256, seed@), 0, artifacts)
            <= max_bytes),
{
    replay_spin(Cursor::new(seed), artifacts, max_bytes)
}

/// Whether every draw of the Keccak-256 spin of `seed` ends within the first
/// `max_bytes` bytes of its stream; then the spin completes.
pub fn spin_draws_end_keccak(seed: [u8; 32], artifacts: u8, max_bytes: u64) -> (ok: bool)
    ensures
        ok == (spec_run_spin_keccak(seed@, artifacts) is Some && spin_end(seed_stream(HashKind::Keccak256, seed@), 0, artifacts)
            <= max_bytes),
{
    replay_spin(Cursor::new_keccak(seed), artifacts, max_bytes)
}

/// The SHA-256 spin of `seed`, when its draws end within `max_bytes` bytes; `None` otherwise.
pub fn run_spin_within(seed: [u8; 32], artifacts: u8, max_bytes: u64) -> (out: Option<SpinOutcome>)
    ensures
        out is Some <==> (spec_run_spin(seed@, artifacts) is Some && spin_end(seed_stream(HashKind::Sha256, seed@), 0, artifacts)
            <= max_bytes),
        out matches Some(o) ==> o@ == spec_run_spin(seed@, artifacts).unwrap(),
{
    if spin_draws_end(seed, artifacts, max_bytes) {
        Some(run_spin(seed, artifacts))
    } else {
        None
    }
}

/// The Keccak-256 spin of `seed`, when its draws end within `max_bytes` bytes; `None` otherwise.
pub fn run_spin_keccak_within(seed: [u8; 32], artifacts: u8, max_bytes: u64) -> (out: Option<SpinOutcome>)
    ensures
        out is Some <==> (spec_run_spin_keccak(seed@, artifacts) is Some && spin_end(
            seed_stream(HashKind::Keccak256, seed@),
            0,
            artifacts,
        ) <= max_bytes),
        out matches Some(o) ==> o@ == spec_run_spin_keccak(seed@, artifacts).unwrap(),
{
    if spin_draws_end_keccak(seed, artifacts, max_bytes) {
        Some(run_spin_keccak(seed, artifacts))
    } else {
        None
    }
}

/// Full spin: draws, cascades (cap 2), patterns, supernova check and prize
/// shuffle, with the on-chain SHA-256 cursor.
pub fn run_spin(seed: [u8; 32], artifacts: u8) -> (out: SpinOutcome)
    requires
        spec_run_spin(seed@, artifacts) is Some,
    ensures
        out@ == spec_run_spin(seed@, artifacts).unwrap(),
{
    run_spin_cursor(Cursor::new(seed), artifacts)
}

/// Full spin with the Keccak-256 cursor, for parity with the EVM contract and the Python simulator.
pub fn run_spin_keccak(seed: [u8; 32], artifacts: u8) -> (out: SpinOutcome)
    requires
        spec_run_spin_keccak(seed@, artifacts) is Some,
    ensures
        out@ == spec_run_spin_keccak(seed@, artifacts).unwrap(),
{
    run_spin_cursor(Cursor::new_keccak(seed), artifacts)
}

fn run_spin_cursor(cur: Cursor, artifacts: u8) -> (out: SpinOutcome)
    requires
        cur.wf(),
        spin(cur.stream(), cur.pos(), artifacts) is Some,
    ensures
        out@ == spin(cur.stream(), cur.pos(), artifacts).unwrap(),
{
    let mut cur = cur;
    let ghost s = cur.stream();
    let ghost start = cur.pos();
    let mut grid = [0u8; CELLS];
    let mut i: usize = 0;
    while i < CELLS
        invariant
            i <= CELLS,
            cur.wf(),
            cur.stream() == s,
            s.draw_symbols(start, CELLS as nat) is Some,
            s.draw_symbols(start, i as nat) == Some((grid@.take(i as int), cur.pos())),
        decreases CELLS - i,
    {
        proof {
            lemma_draw_symbols_prefix(s, start, (i + 1) as nat, CELLS as nat);
        }
        let sym = cur.draw_symbol();
        proof {
            assert(grid@.take(i as int).push(sym) =~= grid@.update(i as int, sym).take(i + 1));
        }
        grid[i] = sym;
        i += 1;
    }
    proof {
        assert(grid@.take(CELLS as int) =~= grid@);
        lemma_draw_symbols_shape(s, start, CELLS as nat);
    }
    let ghost g0 = grid@;
    let ghost p0 = cur.pos();
    let mut stars: u8 = 0;
    let mut i: usize = 0;
    while i < CELLS
        invariant
            i <= CELLS,
            grid@ == g0,
            stars == count_symbol(g0.take(i as int), STAR),
            stars <= i,
        decreases CELLS - i,
    {
        proof {
            lemma_count_push(g0, i as int, STAR);
        }
        if grid[i] == STAR {
            stars = stars + 1;
        }
        i += 1;
    }
    proof {
        assert(g0.take(CELLS as int) =~= g0);
    }
    let mut out = SpinOutcome {
        grids: Vec::new(),
        step_wins_bps: Vec::new(),
        step_pats: Vec::new(),
        grid_win_bps: 0,
        stars,
        prizes: None,
    };
    assert(out.grids@.map_values(|g: [u8; CELLS]| g@) =~= Seq::<Seq<u8>>::empty());
    assert(out.step_wins_bps@.map_values(|w: u64| w as int) =~= Seq::<int>::empty());
    let mut step: u8 = 0;
    while step < CASCADE_CAP
        invariant_except_break
            step <= CASCADE_CAP,
            out.grid_win_bps <= step * 40_000_000_000,
            cascade(s, artifacts, g0, p0, step as nat) == Some(
                CascadeState {
                    grid: grid@,
                    pos: cur.pos(),
                    grids: out.grids@.map_values(|g: [u8; CELLS]| g@),
                    wins: out.step_wins_bps@.map_values(|w: u64| w as int),
                    pats: out.step_pats@,
                    total: out.grid_win_bps as int,
                    stopped: false,
                },
            ),
        invariant
            cur.wf(),
            cur.stream() == s,
            symbols_valid(grid@),
            cascade(s, artifacts, g0, p0, CASCADE_CAP as nat) is Some,
            out.stars == stars,
            out.prizes is None,
        ensures
            cascade(s, artifacts, g0, p0, CASCADE_CAP as nat) == Some(
                CascadeState {
                    grid: grid@,
                    pos: cur.pos(),
                    grids: out.grids@.map_values(|g: [u8; CELLS]| g@),
                    wins: out.step_wins_bps@.map_values(|w: u64| w as int),
                    pats: out.step_pats@,
                    total: out.grid_win_bps as int,
                    stopped: cascade(s, artifacts, g0, p0, CASCADE_CAP as nat).unwrap().stopped,
                },
            ),
        decreases CASCADE_CAP - step,
    {
        proof {
            lemma_cascade_prefix(s, artifacts, g0, p0, (step + 1) as nat, CASCADE_CAP as nat);
        }
        let ev = evaluate_step(&grid, artifacts);
        let ghost old_grids = out.grids@;
        let ghost old_wins = out.step_wins_bps@;
        out.grids.push(grid);
        out.step_wins_bps.push(ev.win_bps);
        out.step_pats.push(ev.pat_id);
        out.grid_win_bps = out.grid_win_bps + ev.win_bps;
        proof {
            assert(out.grids@.map_values(|g: [u8; CELLS]| g@) =~= old_grids.map_values(|g: [u8; CELLS]| g@).push(grid@));
            assert(out.step_wins_bps@.map_values(|w: u64| w as int) =~= old_wins.map_values(|w: u64| w as int).push(ev.win_bps as int));
        }
        if !ev.any_pay {
            proof {
                lemma_cascade_stopped(s, artifacts, g0, p0, (step + 1) as nat, CASCADE_CAP as nat);
            }
            break;
        }
        collapse_and_refill(&mut grid, &ev.pay_sym, &mut cur);
        step += 1;
    }
    if stars >= SN_TRIGGER {
        let ghost pc = cur.pos();
        let mut prizes = PRIZES;
        let mut i: u8 = 11;
        while i >= 1
            invariant
                i <= 11,
                cur.wf(),
                cur.stream() == s,
                shuffle(s, PRIZES@, pc, 11) is Some,
                shuffle(s, PRIZES@, pc, (11 - i) as nat) == Some((prizes@, cur.pos())),
            decreases i,
        {
            proof {
                lemma_shuffle_prefix(s, PRIZES@, pc, (12 - i) as nat, 11);
            }
            let j = cur.draw_range(i + 1);
            let a = prizes[i as usize];
            let b = prizes[j as usize];
            prizes[i as usize] = b;
            prizes[j as usize] = a;
            i -= 1;
        }
        out.prizes = Some(prizes);
    }
    out
}

} // verus!
