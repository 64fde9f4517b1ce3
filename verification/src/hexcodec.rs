//! Hexadecimal framing of byte strings.
//!
//! The encryption envelope ships its output as a lowercase hex string, so the
//! exact relation between a hex string and the bytes it spells is pinned down
//! here: [`spec_hex_encode`] gives the canonical lowercase spelling, and
//! [`hex_spells`] the case-insensitive relation that decoding accepts.

use vstd::prelude::*;

verus! {

/// The lowercase hex digit for a nibble value below 16.
pub open spec fn hex_digit(n: u8) -> char {
    seq!['0', '1', '2', '3', '4', '5', '6', '7', '8', '9', 'a', 'b', 'c', 'd', 'e', 'f'][n as int]
}

/// The nibble value of a hex digit, upper or lower case; `None` for any
/// other character.
pub open spec fn hex_char_val(c: char) -> Option<u8> {
    if c == '0' {
        Some(0u8)
    } else if c == '1' {
        Some(1u8)
    } else if c == '2' {
        Some(2u8)
    } else if c == '3' {
        Some(3u8)
    } else if c == '4' {
        Some(4u8)
    } else if c == '5' {
        Some(5u8)
    } else if c == '6' {
        Some(6u8)
    } else if c == '7' {
        Some(7u8)
    } else if c == '8' {
        Some(8u8)
    } else if c == '9' {
        Some(9u8)
    } else if c == 'a' || c == 'A' {
        Some(10u8)
    } else if c == 'b' || c == 'B' {
        Some(11u8)
    } else if c == 'c' || c == 'C' {
        Some(12u8)
    } else if c == 'd' || c == 'D' {
        Some(13u8)
    } else if c == 'e' || c == 'E' {
        Some(14u8)
    } else if c == 'f' || c == 'F' {
        Some(15u8)
    } else {
        None
    }
}

/// The canonical lowercase hex spelling of a byte string: two digits per
/// byte, high nibble first.
pub open spec fn spec_hex_encode(bytes: Seq<u8>) -> Seq<char>
    decreases bytes.len(),
{
    if bytes.len() == 0 {
        Seq::<char>::empty()
    } else {
        seq![hex_digit(bytes[0] / 16), hex_digit(bytes[0] % 16)] + spec_hex_encode(
            bytes.drop_first(),
        )
    }
}

/// `s` is a hex spelling (in either case) of the byte string `b`.
pub open spec fn hex_spells(s: Seq<char>, b: Seq<u8>) -> bool {
    &&& s.len() == 2 * b.len()
    &&& forall|i: int|
        0 <= i < b.len() ==> (#[trigger] hex_char_val(s[2 * i]) == Some((b[i] / 16) as u8)
            && hex_char_val(s[2 * i + 1]) == Some((b[i] % 16) as u8))
}

/// Reading a hex digit back gives the nibble it was written from.
pub proof fn lemma_hex_digit_val(n: u8)
    requires
        n < 16,
    ensures
        hex_char_val(hex_digit(n)) == Some(n),
{
}

/// The canonical encoding is one of the spellings that decoding accepts.
pub proof fn lemma_encode_spells(b: Seq<u8>)
    ensures
        spec_hex_encode(b).len() == 2 * b.len(),
        hex_spells(spec_hex_encode(b), b),
    decreases b.len(),
{
    if b.len() > 0 {
        lemma_encode_spells(b.drop_first());
        let s = spec_hex_encode(b);
        let rest = spec_hex_encode(b.drop_first());
        lemma_hex_digit_val(b[0] / 16);
        lemma_hex_digit_val(b[0] % 16);
        assert forall|i: int| 0 <= i < b.len() implies (#[trigger] hex_char_val(s[2 * i]) == Some(
            (b[i] / 16) as u8,
        ) && hex_char_val(s[2 * i + 1]) == Some((b[i] % 16) as u8)) by {
            if i > 0 {
                assert(s[2 * i] == rest[2 * (i - 1)]);
                assert(s[2 * i + 1] == rest[2 * (i - 1) + 1]);
                assert(b[i] == b.drop_first()[i - 1]);
            }
        }
    }
}

/// A hex string spells at most one byte string.
pub proof fn lemma_spells_unique(s: Seq<char>, b1: Seq<u8>, b2: Seq<u8>)
    requires
        hex_spells(s, b1),
        hex_spells(s, b2),
    ensures
        b1 == b2,
{
    assert forall|i: int| 0 <= i < b1.len() implies b1[i] == b2[i] by {
        assert(hex_char_val(s[2 * i]) == Some((b1[i] / 16) as u8));
        assert(hex_char_val(s[2 * i]) == Some((b2[i] / 16) as u8));
        assert(hex_char_val(s[2 * i + 1]) == Some((b1[i] % 16) as u8));
        assert(hex_char_val(s[2 * i + 1]) == Some((b2[i] % 16) as u8));
        assert(b1[i] == 16 * (b1[i] / 16) + (b1[i] % 16));
        assert(b2[i] == 16 * (b2[i] / 16) + (b2[i] % 16));
    }
    assert(b1 =~= b2);
}

/// Distinct byte strings have distinct canonical encodings.
pub proof fn lemma_encode_injective(b1: Seq<u8>, b2: Seq<u8>)
    requires
        spec_hex_encode(b1) == spec_hex_encode(b2),
    ensures
        b1 == b2,
{
    lemma_encode_spells(b1);
    lemma_encode_spells(b2);
    lemma_spells_unique(spec_hex_encode(b1), b1, b2);
}

/// Relies on hex::encode: lowercase hex, two digits per byte, high nibble
/// first.
#[verifier::external_body]
pub fn hex_encode(bytes: &[u8]) -> (r: String)
    ensures
        r@ == spec_hex_encode(bytes@),
{
    hex::encode(bytes)
}

/// Relies on hex::decode: accepts upper- or lowercase digits, and fails
/// exactly when the input has odd length or holds a non-hex character.
#[verifier::external_body]
pub fn hex_decode(s: &str) -> (r: Option<Vec<u8>>)
    ensures
        match r {
            Some(v) => hex_spells(s@, v@),
            None => forall|b: Seq<u8>| !hex_spells(s@, b),
        },
{
    hex::decode(s).ok()
}

} // verus!
