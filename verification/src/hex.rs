use vstd::prelude::*;
use vstd::string::StrSliceExecFns;

verus! {

/// The value of an ASCII hex digit (either case).
pub open spec fn hex_digit(b: u8) -> Option<u8> {
    if 48 <= b <= 57 {
        Some((b - 48) as u8)
    } else if 97 <= b <= 102 {
        Some((b - 87) as u8)
    } else if 65 <= b <= 70 {
        Some((b - 55) as u8)
    } else {
        None
    }
}

/// The byte that a two-character base-16 string denotes, as `u8::from_str_radix`
/// reads it: two hex digits, or a `+` sign before one hex digit.
pub open spec fn hex_pair(hi: u8, lo: u8) -> Option<u8> {
    if hi == 43 {
        hex_digit(lo)
    } else {
        match (hex_digit(hi), hex_digit(lo)) {
            (Some(h), Some(l)) => Some((h * 16 + l) as u8),
            _ => None,
        }
    }
}

/// The character codes of a string.
pub open spec fn char_codes(s: Seq<char>) -> Seq<u8> {
    s.map_values(|c: char| c as u8)
}

/// A seed in hex: 64 ASCII characters, each pair of them denoting a byte.
pub open spec fn seed_hex_valid(s: Seq<char>) -> bool {
    &&& s.len() == 64
    &&& vstd::utf8::is_ascii_chars(s)
    &&& forall|i: int| 0 <= i < 32 ==> #[trigger] hex_pair(char_codes(s)[2 * i], char_codes(s)[2 * i + 1]) is Some
}

fn digit_value(b: u8) -> (v: Option<u8>)
    ensures
        v == hex_digit(b),
{
    if 48 <= b && b <= 57 {
        Some(b - 48)
    } else if 97 <= b && b <= 102 {
        Some(b - 87)
    } else if 65 <= b && b <= 70 {
        Some(b - 55)
    } else {
        None
    }
}

fn pair_value(hi: u8, lo: u8) -> (v: Option<u8>)
    ensures
        v == hex_pair(hi, lo),
{
    if hi == 43 {
        return digit_value(lo);
    }
    match (digit_value(hi), digit_value(lo)) {
        (Some(h), Some(l)) => Some(h * 16 + l),
        _ => None,
    }
}

/// Whether `s` is a seed in hex that `hex_to_seed` accepts.
pub fn valid_seed_hex(s: &str) -> (valid: bool)
    ensures
        valid == seed_hex_valid(s@),
{
    if !s.is_ascii() {
        assert(!seed_hex_valid(s@));
        return false;
    }
    if s.unicode_len() != 64 {
        return false;
    }
    let mut i: usize = 0;
    while i < 32
        invariant
            i <= 32,
            s.is_ascii(),
            s@.len() == 64,
            forall|k: int| 0 <= k < i ==> #[trigger] hex_pair(char_codes(s@)[2 * k], char_codes(s@)[2 * k + 1]) is Some,
        decreases 32 - i,
    {
        let hi = s.get_ascii(2 * i);
        let lo = s.get_ascii(2 * i + 1);
        assert(hi == char_codes(s@)[2 * i] && lo == char_codes(s@)[2 * i + 1]);
        if pair_value(hi, lo).is_none() {
            return false;
        }
        i += 1;
    }
    true
}

/// Decodes a 64-character hex seed into its 32 bytes.
pub fn hex_to_seed(s: &str) -> (seed: [u8; 32])
    requires
        seed_hex_valid(s@),
    ensures
        forall|i: int| 0 <= i < 32 ==> Some(#[trigger] seed@[i]) == hex_pair(char_codes(s@)[2 * i], char_codes(s@)[2 * i + 1]),
{
    let mut seed = [0u8; 32];
    let mut i: usize = 0;
    while i < 32
        invariant
            i <= 32,
            seed_hex_valid(s@),
            forall|k: int| 0 <= k < i ==> Some(#[trigger] seed@[k]) == hex_pair(char_codes(s@)[2 * k], char_codes(s@)[2 * k + 1]),
        decreases 32 - i,
    {
        let hi = s.get_ascii(2 * i);
        let lo = s.get_ascii(2 * i + 1);
        assert(hi == char_codes(s@)[2 * i] && lo == char_codes(s@)[2 * i + 1]);
        assert(hex_pair(hi, lo) is Some);
        let v = pair_value(hi, lo);
        if let Some(b) = v {
            seed[i] = b;
        }
        i += 1;
    }
    seed
}

} // verus!
