use vstd::prelude::*;
use vstd::arithmetic::div_mod::lemma_fundamental_div_mod_converse;

use crate::hashing::{keccak256_digest, keccak256_hash, sha256_digest, sha256_hash};
use crate::rules::{STAR, SYMBOL_REJECT, TOTAL_WEIGHT, WEIGHTS};

verus! {

/// The hash that chains the cursor's 32-byte blocks.
#[derive(Clone, Copy, Debug, PartialEq, Eq, Structural)]
pub enum HashKind {
    /// SHA-256, the on-chain hash.
    Sha256,
    /// Keccak-256, the hash of the EVM contract and the Python simulator.
    Keccak256,
}

/// The hash of one block under `kind`.
pub open spec fn chain_hash(kind: HashKind, block: Seq<u8>) -> Seq<u8> {
    match kind {
        HashKind::Sha256 => sha256_digest(block),
        HashKind::Keccak256 => keccak256_digest(block),
    }
}

/// Index of the first `k` at which `hit` holds (meaningful when one exists).
pub open spec fn first_hit(hit: spec_fn(nat) -> bool) -> nat {
    choose|k: nat| #[trigger] hit(k) && forall|j: nat| j < k ==> !#[trigger] hit(j)
}

/// Where some `k0` satisfies `hit`, `first_hit` is the least such index.
pub proof fn lemma_first_hit(hit: spec_fn(nat) -> bool, k0: nat)
    requires
        hit(k0),
    ensures
        hit(first_hit(hit)),
        first_hit(hit) <= k0,
        forall|j: nat| j < first_hit(hit) ==> !#[trigger] hit(j),
{
    lemma_least_hit_exists(hit, k0);
    let f = first_hit(hit);
    if k0 < f {
        assert(!hit(k0));
    }
}

proof fn lemma_least_hit_exists(hit: spec_fn(nat) -> bool, k0: nat)
    requires
        hit(k0),
    ensures
        exists|k: nat| #[trigger] hit(k) && forall|j: nat| j < k ==> !#[trigger] hit(j),
    decreases k0,
{
    if exists|j: nat| j < k0 && #[trigger] hit(j) {
        let j = choose|j: nat| j < k0 && #[trigger] hit(j);
        lemma_least_hit_exists(hit, j);
    } else {
        assert(hit(k0) && forall|j: nat| j < k0 ==> !#[trigger] hit(j));
    }
}

/// The symbol that a weight in [0, TOTAL_WEIGHT) selects: symbol `s` owns
/// `WEIGHTS[s]` consecutive weights, in symbol order.
pub open spec fn symbol_of_weight(w: int) -> u8 {
    if w < 30 {
        0
    } else if w < 56 {
        1
    } else if w < 78 {
        2
    } else if w < 94 {
        3
    } else if w < 106 {
        4
    } else if w < 114 {
        5
    } else if w < 119 {
        6
    } else {
        STAR
    }
}

/// The first weight that selects symbol `s`: the sum of the weights before it.
pub open spec fn weight_start(s: int) -> int
    decreases s,
{
    if s <= 0 {
        0
    } else {
        weight_start(s - 1) + WEIGHTS@[s - 1]
    }
}

/// Symbol draws are uniform over the weights: the accepted 16-bit values
/// are an exact multiple of `TOTAL_WEIGHT` (so each weight is reached by the
/// same number of them), the rejected ones are fewer than `TOTAL_WEIGHT`,
/// the weights add up to `TOTAL_WEIGHT`, and symbol `s` is selected by
/// exactly `WEIGHTS[s]` consecutive weights.
pub proof fn lemma_symbol_sampling()
    ensures
        SYMBOL_REJECT as int % TOTAL_WEIGHT as int == 0,
        65536 - SYMBOL_REJECT < TOTAL_WEIGHT,
        weight_start(8) == TOTAL_WEIGHT,
        forall|s: int, w: int|
            #![trigger symbol_of_weight(w), weight_start(s)]
            0 <= s < 8 && 0 <= w < TOTAL_WEIGHT ==> (symbol_of_weight(w) == s <==> weight_start(s) <= w
                < weight_start(s) + WEIGHTS@[s]),
{
    assert(WEIGHTS@ =~= seq![30u16, 26, 22, 16, 12, 8, 5, 3]);
    assert(WEIGHTS@[0] == 30 && WEIGHTS@[1] == 26 && WEIGHTS@[2] == 22 && WEIGHTS@[3] == 16);
    assert(WEIGHTS@[4] == 12 && WEIGHTS@[5] == 8 && WEIGHTS@[6] == 5 && WEIGHTS@[7] == 3);
    assert(weight_start(0) == 0);
    assert(weight_start(1) == 30);
    assert(weight_start(2) == 56);
    assert(weight_start(3) == 78);
    assert(weight_start(4) == 94);
    assert(weight_start(5) == 106);
    assert(weight_start(6) == 114);
    assert(weight_start(7) == 119);
    assert(weight_start(8) == 122);
}

/// Range draws are uniform: the accepting bound is a multiple of `n`, at
/// most 256, and fewer than `n` byte values are rejected.
pub proof fn lemma_range_sampling(n: u8)
    requires
        n > 0,
    ensures
        range_limit(n) % (n as int) == 0,
        256 - n < range_limit(n) <= 256,
{
    let q = 256int / (n as int);
    let r = 256int % (n as int);
    assert(256 == q * (n as int) + r) by (nonlinear_arith)
        requires
            q == 256int / (n as int),
            r == 256int % (n as int),
            n > 0,
    ;
    assert((q * (n as int)) % (n as int) == 0) by (nonlinear_arith)
        requires
            n > 0,
    ;
}

/// Accepting bound of a byte draw in [0, n): the largest multiple of `n` not above 256.
pub open spec fn range_limit(n: u8) -> int {
    (256int / (n as int)) * (n as int)
}

/// The endless byte stream of a cursor: block 0 is the seed itself, and
/// each further block is the hash of the one before it.
pub struct ByteStream {
    pub kind: HashKind,
    pub origin: Seq<u8>,
}

impl ByteStream {
    /// The `k`-th 32-byte block of the stream.
    pub open spec fn block(self, k: nat) -> Seq<u8>
        decreases k,
    {
        if k == 0 {
            self.origin
        } else {
            chain_hash(self.kind, self.block((k - 1) as nat))
        }
    }

    /// The byte at position `pos` of the stream.
    pub open spec fn byte(self, pos: nat) -> u8 {
        self.block(pos / 32)[(pos % 32) as int]
    }

    /// The big-endian 16-bit value of the two bytes at `pos`.
    pub open spec fn pair(self, pos: nat) -> int {
        self.byte(pos) * 256 + self.byte(pos + 1)
    }

    /// Whether the `k`-th 16-bit attempt of a symbol draw starting at `start` is accepted.
    pub open spec fn symbol_accepted(self, start: nat, k: nat) -> bool {
        self.pair(start + 2 * k) < SYMBOL_REJECT
    }

    pub open spec fn symbol_hit(self, start: nat) -> spec_fn(nat) -> bool {
        |k: nat| self.symbol_accepted(start, k)
    }

    /// A symbol draw from `start`: the first accepted 16-bit value, reduced
    /// modulo `TOTAL_WEIGHT` and mapped to its symbol, with the position
    /// after it; `None` when every attempt is rejected.
    pub open spec fn symbol_draw(self, start: nat) -> Option<(u8, nat)> {
        if exists|k: nat| self.symbol_accepted(start, k) {
            let k = first_hit(self.symbol_hit(start));
            Some((symbol_of_weight(self.pair(start + 2 * k) % (TOTAL_WEIGHT as int)), start + 2 * k + 2))
        } else {
            None
        }
    }

    /// Whether the `k`-th byte of a draw in [0, n) starting at `start` is accepted.
    pub open spec fn range_accepted(self, start: nat, n: u8, k: nat) -> bool {
        self.byte(start + k) < range_limit(n)
    }

    pub open spec fn range_hit(self, start: nat, n: u8) -> spec_fn(nat) -> bool {
        |k: nat| self.range_accepted(start, n, k)
    }

    /// A draw in [0, n) from `start`: the first accepted byte modulo `n`,
    /// with the position after it; `None` when every byte is rejected.
    pub open spec fn range_draw(self, start: nat, n: u8) -> Option<(u8, nat)> {
        if exists|k: nat| self.range_accepted(start, n, k) {
            let k = first_hit(self.range_hit(start, n));
            Some(((self.byte(start + k) as int % (n as int)) as u8, start + k + 1))
        } else {
            None
        }
    }

    /// `n` symbol draws in a row from `start`, with the position after the last.
    pub open spec fn draw_symbols(self, start: nat, n: nat) -> Option<(Seq<u8>, nat)>
        decreases n,
    {
        if n == 0 {
            Some((Seq::empty(), start))
        } else {
            match self.draw_symbols(start, (n - 1) as nat) {
                None => None,
                Some((syms, p)) => match self.symbol_draw(p) {
                    None => None,
                    Some((x, q)) => Some((syms.push(x), q)),
                },
            }
        }
    }
}

/// The stream is the seed, then the hash of the seed, then the hash of that,
/// and so on: block 0 is the seed, block `j + 1` is the hash of block `j`,
/// and the 32 bytes of the stream from position `32 j` are block `j`.
pub proof fn lemma_stream_blocks(s: ByteStream, j: nat)
    ensures
        s.block(0) == s.origin,
        s.block(j + 1) == chain_hash(s.kind, s.block(j)),
        forall|i: int| 0 <= i < 32 ==> #[trigger] s.byte((32 * j + i) as nat) == s.block(j)[i],
{
    assert forall|i: int| 0 <= i < 32 implies #[trigger] s.byte((32 * j + i) as nat) == s.block(j)[i] by {
        lemma_fundamental_div_mod_converse((32 * j + i) as int, 32, j as int, i);
    }
}

/// Where `n` draws in a row complete, each shorter run ends no later.
pub proof fn lemma_draw_symbols_monotone(s: ByteStream, start: nat, m: nat, n: nat)
    requires
        m <= n,
        s.draw_symbols(start, n) is Some,
    ensures
        s.draw_symbols(start, m) is Some,
        start <= s.draw_symbols(start, m).unwrap().1 <= s.draw_symbols(start, n).unwrap().1,
    decreases n - m,
{
    if m < n {
        lemma_draw_symbols_monotone(s, start, (m + 1) as nat, n);
        lemma_draw_symbols_step(s, start, m);
        lemma_draw_symbols_shape(s, start, m);
    } else {
        lemma_draw_symbols_shape(s, start, n);
    }
}

proof fn lemma_draw_symbols_step(s: ByteStream, start: nat, m: nat)
    requires
        s.draw_symbols(start, m + 1) is Some,
    ensures
        s.draw_symbols(start, m) is Some,
        s.draw_symbols(start, m).unwrap().1 <= s.draw_symbols(start, m + 1).unwrap().1,
{
    let p = s.draw_symbols(start, m).unwrap().1;
    assert(s.symbol_draw(p) is Some);
}

/// Where `n` draws in a row complete, so do the first `m` of them.
pub proof fn lemma_draw_symbols_prefix(s: ByteStream, start: nat, m: nat, n: nat)
    requires
        m <= n,
        s.draw_symbols(start, n) is Some,
    ensures
        s.draw_symbols(start, m) is Some,
    decreases n - m,
{
    if m < n {
        lemma_draw_symbols_prefix(s, start, (m + 1) as nat, n);
    }
}

/// Draws always consume at least the bytes they read, and symbols are at most `STAR`.
pub proof fn lemma_draw_symbols_shape(s: ByteStream, start: nat, n: nat)
    requires
        s.draw_symbols(start, n) is Some,
    ensures
        s.draw_symbols(start, n).unwrap().0.len() == n,
        s.draw_symbols(start, n).unwrap().1 >= start + 2 * n,
        forall|i: int| 0 <= i < n ==> #[trigger] s.draw_symbols(start, n).unwrap().0[i] <= STAR,
    decreases n,
{
    if n > 0 {
        lemma_draw_symbols_shape(s, start, (n - 1) as nat);
        let p = s.draw_symbols(start, (n - 1) as nat).unwrap().1;
        lemma_first_hit(s.symbol_hit(p), choose|k: nat| s.symbol_accepted(p, k));
    }
}

fn weight_symbol(w: u16) -> (sym: u8)
    ensures
        sym == symbol_of_weight(w as int),
{
    if w < 30 {
        0
    } else if w < 56 {
        1
    } else if w < 78 {
        2
    } else if w < 94 {
        3
    } else if w < 106 {
        4
    } else if w < 114 {
        5
    } else if w < 119 {
        6
    } else {
        STAR
    }
}

/// Byte cursor over a hash-chained stream: the seed's own 32 bytes first,
/// then the bytes of its hash, then of the hash of that, and so on.
pub struct Cursor {
    seed: [u8; 32],
    idx: usize,
    kind: HashKind,
    origin: Ghost<Seq<u8>>,
    block: Ghost<nat>,
}

impl Cursor {
    /// The stream this cursor reads.
    pub closed spec fn stream(&self) -> ByteStream {
        ByteStream { kind: self.kind, origin: self.origin@ }
    }

    /// How many bytes of the stream the cursor has handed out.
    pub closed spec fn pos(&self) -> nat {
        self.block@ * 32 + self.idx as nat
    }

    /// The cursor holds the block of the stream that it is reading.
    pub closed spec fn wf(&self) -> bool {
        &&& self.idx <= 32
        &&& self.seed@ == self.stream().block(self.block@)
    }

    /// Cursor chained with SHA-256, as used on-chain.
    pub fn new(seed: [u8; 32]) -> (cur: Self)
        ensures
            cur.wf(),
            cur.stream() == (ByteStream { kind: HashKind::Sha256, origin: seed@ }),
            cur.pos() == 0,
    {
        Self { seed, idx: 0, kind: HashKind::Sha256, origin: Ghost(seed@), block: Ghost(0) }
    }

    /// Cursor chained with Keccak-256, for parity with the EVM contract and the Python simulator.
    pub fn new_keccak(seed: [u8; 32]) -> (cur: Self)
        ensures
            cur.wf(),
            cur.stream() == (ByteStream { kind: HashKind::Keccak256, origin: seed@ }),
            cur.pos() == 0,
    {
        Self { seed, idx: 0, kind: HashKind::Keccak256, origin: Ghost(seed@), block: Ghost(0) }
    }

    /// The next byte of the stream.
    pub fn next_byte(&mut self) -> (b: u8)
        requires
            old(self).wf(),
        ensures
            final(self).wf(),
            final(self).stream() == old(self).stream(),
            final(self).pos() == old(self).pos() + 1,
            b == old(self).stream().byte(old(self).pos()),
    {
        if self.idx >= 32 {
            let next = match self.kind {
                HashKind::Sha256 => sha256_hash(&self.seed),
                HashKind::Keccak256 => keccak256_hash(&self.seed),
            };
            self.seed = next;
            self.idx = 0;
            self.block = Ghost(self.block@ + 1);
        }
        proof {
            lemma_fundamental_div_mod_converse(self.pos() as int, 32, self.block@ as int, self.idx as int);
        }
        let b = self.seed[self.idx];
        self.idx += 1;
        b
    }

    /// A uniform symbol: 16-bit values at or above `SYMBOL_REJECT` are
    /// rejected, an accepted value is reduced modulo `TOTAL_WEIGHT` and
    /// mapped to its symbol by the weights.
    pub fn draw_symbol(&mut self) -> (sym: u8)
        requires
            old(self).wf(),
            old(self).stream().symbol_draw(old(self).pos()) is Some,
        ensures
            final(self).wf(),
            final(self).stream() == old(self).stream(),
            (sym, final(self).pos()) == old(self).stream().symbol_draw(old(self).pos()).unwrap(),
            sym <= STAR,
    {
        let ghost s = self.stream();
        let ghost start = self.pos();
        proof {
            lemma_first_hit(s.symbol_hit(start), choose|k: nat| s.symbol_accepted(start, k));
        }
        let ghost target = first_hit(s.symbol_hit(start));
        assert forall|j: nat| j < target implies !s.symbol_accepted(start, j) by {
            assert(!s.symbol_hit(start)(j));
        }
        let ghost mut k: nat = 0;
        loop
            invariant
                s == old(self).stream(),
                start == old(self).pos(),
                self.wf(),
                self.stream() == s,
                self.pos() == start + 2 * k,
                k <= target,
                s.symbol_accepted(start, target),
                forall|j: nat| j < target ==> !s.symbol_accepted(start, j),
                s.symbol_draw(start) == Some(
                    (symbol_of_weight(s.pair(start + 2 * target) % (TOTAL_WEIGHT as int)), start + 2 * target + 2),
                ),
            decreases target - k,
        {
            let hi = self.next_byte();
            let lo = self.next_byte();
            let v = ((hi as u16) << 8) | lo as u16;
            assert(v == hi * 256 + lo) by (bit_vector)
                requires
                    v == ((hi as u16) << 8) | lo as u16,
            ;
            if v < SYMBOL_REJECT {
                assert(s.symbol_accepted(start, k));
                let w = v % TOTAL_WEIGHT;
                if w < 30 {
                    return 0;
                }
                if w < 56 {
                    return 1;
                }
                if w < 78 {
                    return 2;
                }
                if w < 94 {
                    return 3;
                }
                if w < 106 {
                    return 4;
                }
                if w < 114 {
                    return 5;
                }
                if w < 119 {
                    return 6;
                }
                return STAR;
            }
            proof {
                k = k + 1;
            }
        }
    }

    /// A uniform value in [0, n): bytes at or above the largest multiple of
    /// `n` not above 256 are rejected, an accepted byte is reduced modulo `n`.
    pub fn draw_range(&mut self, n: u8) -> (v: u8)
        requires
            old(self).wf(),
            n > 0,
            old(self).stream().range_draw(old(self).pos(), n) is Some,
        ensures
            final(self).wf(),
            final(self).stream() == old(self).stream(),
            (v, final(self).pos()) == old(self).stream().range_draw(old(self).pos(), n).unwrap(),
            v < n,
    {
        let ghost s = self.stream();
        let ghost start = self.pos();
        proof {
            lemma_first_hit(s.range_hit(start, n), choose|k: nat| s.range_accepted(start, n, k));
        }
        let ghost target = first_hit(s.range_hit(start, n));
        assert forall|j: nat| j < target implies !s.range_accepted(start, n, j) by {
            assert(!s.range_hit(start, n)(j));
        }
        let q = 256u16 / n as u16;
        assert(q * n <= 256) by (nonlinear_arith)
            requires
                q == 256int / (n as int),
                n > 0,
        ;
        let limit = q * n as u16;
        let ghost mut k: nat = 0;
        loop
            invariant
                s == old(self).stream(),
                start == old(self).pos(),
                self.wf(),
                self.stream() == s,
                self.pos() == start + k,
                k <= target,
                n > 0,
                limit == range_limit(n),
                s.range_accepted(start, n, target),
                forall|j: nat| j < target ==> !s.range_accepted(start, n, j),
                s.range_draw(start, n) == Some(
                    ((s.byte(start + target) as int % (n as int)) as u8, start + target + 1),
                ),
            decreases target - k,
        {
            let b = self.next_byte();
            if (b as u16) < limit {
                assert(s.range_accepted(start, n, k));
                return b % n;
            }
            proof {
                k = k + 1;
            }
        }
    }

    /// A symbol draw that reads at most `*budget` bytes: `Some` exactly
    /// when the draw from the current position ends within the budget, and
    /// then it is that draw, with the bytes read taken off the budget.
    pub fn try_draw_symbol(&mut self, budget: &mut u64) -> (sym: Option<u8>)
        requires
            old(self).wf(),
        ensures
            final(self).wf(),
            final(self).stream() == old(self).stream(),
            sym is Some <==> (old(self).stream().symbol_draw(old(self).pos()) is Some
                && old(self).stream().symbol_draw(old(self).pos()).unwrap().1 <= old(self).pos() + *old(budget)),
            sym is Some ==> (sym.unwrap(), final(self).pos()) == old(self).stream().symbol_draw(old(self).pos()).unwrap()
                && *final(budget) == *old(budget) - (final(self).pos() - old(self).pos()),
    {
        let ghost s = self.stream();
        let ghost start = self.pos();
        let ghost b0 = *budget;
        let ghost mut k: nat = 0;
        loop
            invariant
                s == old(self).stream(),
                start == old(self).pos(),
                b0 == *old(budget),
                self.wf(),
                self.stream() == s,
                self.pos() == start + 2 * k,
                *budget == b0 - 2 * k,
                forall|j: nat| j < k ==> !#[trigger] s.symbol_accepted(start, j),
            decreases *budget,
        {
            if *budget < 2 {
                proof {
                    if exists|w: nat| s.symbol_accepted(start, w) {
                        let w = choose|w: nat| s.symbol_accepted(start, w);
                        lemma_first_hit(s.symbol_hit(start), w);
                        let f = first_hit(s.symbol_hit(start));
                        assert(s.symbol_accepted(start, f));
                        if f < k {
                            assert(!s.symbol_accepted(start, f));
                        }
                    }
                }
                return None;
            }
            let hi = self.next_byte();
            let lo = self.next_byte();
            *budget = *budget - 2;
            let v = ((hi as u16) << 8) | lo as u16;
            assert(v == hi * 256 + lo) by (bit_vector)
                requires
                    v == ((hi as u16) << 8) | lo as u16,
            ;
            if v < SYMBOL_REJECT {
                proof {
                    assert(s.symbol_accepted(start, k));
                    lemma_first_hit(s.symbol_hit(start), k);
                    let f = first_hit(s.symbol_hit(start));
                    assert(s.symbol_accepted(start, f));
                    if f < k {
                        assert(!s.symbol_accepted(start, f));
                    }
                    assert(f == k);
                }
                return Some(weight_symbol(v % TOTAL_WEIGHT));
            }
            proof {
                k = k + 1;
            }
        }
    }

    /// A draw in [0, n) that reads at most `*budget` bytes: `Some` exactly
    /// when the draw from the current position ends within the budget, and
    /// then it is that draw, with the bytes read taken off the budget.
    pub fn try_draw_range(&mut self, n: u8, budget: &mut u64) -> (v: Option<u8>)
        requires
            old(self).wf(),
            n > 0,
        ensures
            final(self).wf(),
            final(self).stream() == old(self).stream(),
            v is Some <==> (old(self).stream().range_draw(old(self).pos(), n) is Some
                && old(self).stream().range_draw(old(self).pos(), n).unwrap().1 <= old(self).pos() + *old(budget)),
            v is Some ==> (v.unwrap(), final(self).pos()) == old(self).stream().range_draw(old(self).pos(), n).unwrap()
                && *final(budget) == *old(budget) - (final(self).pos() - old(self).pos()),
    {
        let ghost s = self.stream();
        let ghost start = self.pos();
        let ghost b0 = *budget;
        let q = 256u16 / n as u16;
        assert(q * n <= 256) by (nonlinear_arith)
            requires
                q == 256int / (n as int),
                n > 0,
        ;
        let limit = q * n as u16;
        let ghost mut k: nat = 0;
        loop
            invariant
                s == old(self).stream(),
                start == old(self).pos(),
                b0 == *old(budget),
                self.wf(),
                self.stream() == s,
                self.pos() == start + k,
                *budget == b0 - k,
                n > 0,
                limit == range_limit(n),
                forall|j: nat| j < k ==> !#[trigger] s.range_accepted(start, n, j),
            decreases *budget,
        {
            if *budget < 1 {
                proof {
                    if exists|w: nat| s.range_accepted(start, n, w) {
                        let w = choose|w: nat| s.range_accepted(start, n, w);
                        lemma_first_hit(s.range_hit(start, n), w);
                        let f = first_hit(s.range_hit(start, n));
                        assert(s.range_accepted(start, n, f));
                        if f < k {
                            assert(!s.range_accepted(start, n, f));
                        }
                    }
                }
                return None;
            }
            let b = self.next_byte();
            *budget = *budget - 1;
            if (b as u16) < limit {
                proof {
                    assert(s.range_accepted(start, n, k));
                    lemma_first_hit(s.range_hit(start, n), k);
                    let f = first_hit(s.range_hit(start, n));
                    assert(s.range_accepted(start, n, f));
                    if f < k {
                        assert(!s.range_accepted(start, n, f));
                    }
                    assert(f == k);
                }
                return Some(b % n);
            }
            proof {
                k = k + 1;
            }
        }
    }
}

} // verus!
