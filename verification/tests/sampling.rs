use sha2::{Digest, Sha256};
use starforge_math::{
    coin_flip, hex_to_seed, payout_for, picks_bps, valid_seed_hex, Cursor, PRIZES, STAR,
};
use tiny_keccak::{Hasher, Keccak};

fn sha256(input: &[u8; 32]) -> [u8; 32] {
    let mut h = Sha256::new();
    h.update(input);
    h.finalize().into()
}

fn keccak256(input: &[u8; 32]) -> [u8; 32] {
    let mut k = Keccak::v256();
    let mut out = [0u8; 32];
    k.update(input);
    k.finalize(&mut out);
    out
}

#[test]
fn first_block_is_the_seed() {
    let mut seed = [0u8; 32];
    for i in 0..32 {
        seed[i] = (i as u8) * 7 + 3;
    }
    let mut cur = Cursor::new(seed);
    for i in 0..32 {
        assert_eq!(cur.next_byte(), seed[i]);
    }
}

#[test]
fn sha256_chain_continues_the_stream() {
    let seed = [9u8; 32];
    let b1 = sha256(&seed);
    let b2 = sha256(&b1);
    let mut cur = Cursor::new(seed);
    for _ in 0..32 {
        cur.next_byte();
    }
    for i in 0..32 {
        assert_eq!(cur.next_byte(), b1[i]);
    }
    for i in 0..32 {
        assert_eq!(cur.next_byte(), b2[i]);
    }
    assert_ne!(b1, seed);
}

#[test]
fn keccak_chain_continues_the_stream() {
    let seed = [5u8; 32];
    let b1 = keccak256(&seed);
    let mut cur = Cursor::new_keccak(seed);
    for i in 0..32 {
        assert_eq!(cur.next_byte(), seed[i]);
    }
    for i in 0..32 {
        assert_eq!(cur.next_byte(), b1[i]);
    }
    assert_ne!(b1, sha256(&seed));
}

#[test]
fn symbol_from_accepted_pair() {
    // 0x0000 -> weight 0 -> copper
    assert_eq!(Cursor::new([0u8; 32]).draw_symbol(), 0);
    // 0x0101 = 257 -> 257 % 122 = 13 -> copper
    assert_eq!(Cursor::new([1u8; 32]).draw_symbol(), 0);
    // weights 29/30 split copper and iron
    let mut seed = [0u8; 32];
    seed[1] = 29;
    assert_eq!(Cursor::new(seed).draw_symbol(), 0);
    seed[1] = 30;
    assert_eq!(Cursor::new(seed).draw_symbol(), 1);
    seed[1] = 118;
    assert_eq!(Cursor::new(seed).draw_symbol(), 6);
    seed[1] = 119;
    assert_eq!(Cursor::new(seed).draw_symbol(), STAR);
    // 0x0100 = 256 -> 256 % 122 = 12 -> copper; 0x01 0x40 = 320 -> 76 -> nickel
    seed[0] = 1;
    seed[1] = 0x40;
    assert_eq!(Cursor::new(seed).draw_symbol(), 2);
}

#[test]
fn symbol_draw_rejects_high_pairs() {
    // 0xFFEA = 65514 is rejected, the next pair 0x0000 is taken
    let mut seed = [0u8; 32];
    seed[0] = 0xFF;
    seed[1] = 0xEA;
    seed[3] = 119;
    let mut cur = Cursor::new(seed);
    assert_eq!(cur.draw_symbol(), STAR);
    // the draw consumed four bytes
    assert_eq!(cur.next_byte(), 0);
    // 0xFFE9 = 65513 is accepted: 65513 % 122 = 121 -> star
    seed[1] = 0xE9;
    let mut cur = Cursor::new(seed);
    assert_eq!(cur.draw_symbol(), STAR);
}

#[test]
fn symbol_draw_reaches_the_hashed_block() {
    // every pair of the seed is rejected: the draw continues into sha256(seed)
    let seed = [0xFFu8; 32];
    let block = sha256(&seed);
    let mut expected = None;
    for k in 0..16 {
        let v = ((block[2 * k] as u16) << 8) | block[2 * k + 1] as u16;
        if v < 65514 {
            let w = v % 122;
            let cum = [30u16, 56, 78, 94, 106, 114, 119, 122];
            expected = Some(cum.iter().position(|&c| w < c).unwrap() as u8);
            break;
        }
    }
    assert_eq!(Cursor::new(seed).draw_symbol(), expected.unwrap());
}

#[test]
fn range_draw_rejects_above_limit() {
    // n = 10: limit 250, so 250..255 are rejected
    let mut seed = [0u8; 32];
    seed[0] = 250;
    seed[1] = 255;
    seed[2] = 123;
    let mut cur = Cursor::new(seed);
    assert_eq!(cur.draw_range(10), 3);
    assert_eq!(cur.next_byte(), 0);
    // n = 8: limit 256, nothing is rejected
    assert_eq!(Cursor::new(seed).draw_range(8), 250 % 8);
    // n = 12: limit 252
    seed[0] = 251;
    assert_eq!(Cursor::new(seed).draw_range(12), 251 % 12);
    seed[0] = 252;
    assert_eq!(Cursor::new(seed).draw_range(12), 123 % 12);
}

#[test]
fn range_draw_stays_in_range() {
    let mut cur = Cursor::new([77u8; 32]);
    for n in 1..=12u8 {
        for _ in 0..200 {
            assert!(cur.draw_range(n) < n);
        }
    }
}

#[test]
fn payout_rounds_down_and_caps() {
    assert_eq!(payout_for(3, 3333), 0);
    assert_eq!(payout_for(10_000, 9_999), 9_999);
    assert_eq!(payout_for(7, 15_000), 10);
    assert_eq!(payout_for(0, 1_000_000), 0);
    assert_eq!(payout_for(1_000, 10_000_000), 1_000_000); // exactly 1000x
    assert_eq!(payout_for(1_000, 10_000_001), 1_000_000);
}

#[test]
fn payout_narrows_to_64_bits() {
    // 2 * (2^64 - 1) does not fit: the cast keeps the low 64 bits
    assert_eq!(payout_for(u64::MAX, 20_000), u64::MAX - 1);
}

#[test]
fn picks_sum_and_temple_bonus() {
    assert_eq!(picks_bps(&PRIZES, &[0, 1, 2, 3, 4], 0), 70_000);
    assert_eq!(picks_bps(&PRIZES, &[0, 1, 2, 3, 4], 0x04), 77_000);
    assert_eq!(picks_bps(&PRIZES, &[11, 10, 9, 8, 7], 0x03), 240_000);
    assert_eq!(picks_bps(&PRIZES, &[11, 10, 9, 8, 7], 0x07), 264_000);
    let mut odd = PRIZES;
    odd[0] = 1;
    assert_eq!(picks_bps(&odd, &[0, 5, 6, 7, 8], 0x04), (1 + 20_000 + 30_000 + 30_000 + 40_000) * 11 / 10);
}

#[test]
fn coin_is_parity_of_first_byte() {
    let mut seed = [1u8; 32];
    assert!(!coin_flip(seed));
    seed[0] = 200;
    assert!(coin_flip(seed));
    seed[0] = 0;
    assert!(coin_flip(seed));
}

#[test]
fn hex_seed_decoding() {
    let s = "00ff10Ab".repeat(8);
    assert!(valid_seed_hex(&s));
    let seed = hex_to_seed(&s);
    for i in 0..8 {
        assert_eq!(&seed[4 * i..4 * i + 4], &[0x00, 0xff, 0x10, 0xab]);
    }
    // a leading plus sign before one digit is a byte, as from_str_radix reads it
    let p = format!("+f{}", "00".repeat(31));
    assert!(valid_seed_hex(&p));
    assert_eq!(hex_to_seed(&p)[0], 15);
}

#[test]
fn hex_seed_rejections() {
    assert!(!valid_seed_hex(&"00".repeat(31)));
    assert!(!valid_seed_hex(&"00".repeat(33)));
    assert!(!valid_seed_hex(&format!("0g{}", "00".repeat(31))));
    assert!(!valid_seed_hex(&format!("-1{}", "00".repeat(31))));
    assert!(!valid_seed_hex(&format!("f+{}", "00".repeat(31))));
    assert!(!valid_seed_hex(&format!("é{}", "0".repeat(62))));
}

#[test]
fn coin_heads_on_half_the_bytes() {
    let mut heads = 0;
    for b in 0..=255u8 {
        let mut seed = [0u8; 32];
        seed[0] = b;
        if coin_flip(seed) {
            heads += 1;
        }
    }
    assert_eq!(heads, 128);
}

#[test]
fn each_symbol_owns_its_weight() {
    let mut counts = [0u16; 8];
    for w in 0..122u8 {
        let mut seed = [0u8; 32];
        seed[1] = w;
        counts[Cursor::new(seed).draw_symbol() as usize] += 1;
    }
    assert_eq!(counts, starforge_math::WEIGHTS);
    assert_eq!(counts.iter().sum::<u16>(), starforge_math::TOTAL_WEIGHT);
    assert_eq!(starforge_math::SYMBOL_REJECT % starforge_math::TOTAL_WEIGHT, 0);
}

#[test]
fn bounded_draws_stop_at_the_budget() {
    // every pair of the seed is rejected: the first 32 bytes are not enough
    let seed = [0xFFu8; 32];
    let mut budget = 32u64;
    assert_eq!(Cursor::new(seed).try_draw_symbol(&mut budget), None);
    let mut budget = 1_000u64;
    let mut cur = Cursor::new(seed);
    let sym = cur.try_draw_symbol(&mut budget).unwrap();
    assert_eq!(sym, Cursor::new(seed).draw_symbol());
    assert!(budget <= 1_000 - 34);
    // an accepted first pair costs two bytes
    let mut budget = 2u64;
    assert_eq!(Cursor::new([0u8; 32]).try_draw_symbol(&mut budget), Some(0));
    assert_eq!(budget, 0);
    let mut budget = 1u64;
    assert_eq!(Cursor::new([0u8; 32]).try_draw_symbol(&mut budget), None);
    // range draws: 250 and 255 are rejected for n = 10
    let mut r = [0u8; 32];
    r[0] = 250;
    r[1] = 255;
    r[2] = 123;
    let mut budget = 2u64;
    assert_eq!(Cursor::new(r).try_draw_range(10, &mut budget), None);
    let mut budget = 3u64;
    assert_eq!(Cursor::new(r).try_draw_range(10, &mut budget), Some(3));
    assert_eq!(budget, 0);
}
