//! Lowercase hexadecimal digits: the text form of a digest.

use vstd::prelude::*;

verus! {

/// The lowercase hex digit of a value below sixteen.
pub open spec fn hex_digit(v: u8) -> char {
    if v < 10 {
        (v + 48) as char
    } else {
        (v + 87) as char
    }
}

/// Whether `c` is one of the digits `0`-`9`, `a`-`f`.
pub open spec fn is_lower_hex_digit(c: char) -> bool {
    ('0' <= c && c <= '9') || ('a' <= c && c <= 'f')
}

/// The value of a lowercase hex digit.
pub open spec fn hex_value(c: char) -> u8 {
    if '0' <= c && c <= '9' {
        (c as u32 - 48) as u8
    } else {
        (c as u32 - 87) as u8
    }
}

/// Two lowercase hex digits per byte, high half first.
pub open spec fn hex_of(b: Seq<u8>) -> Seq<char> {
    Seq::new(
        2 * b.len(),
        |i: int|
            if i % 2 == 0 {
                hex_digit(b[i / 2] / 16)
            } else {
                hex_digit(b[i / 2] % 16)
            },
    )
}

/// The bytes that a text of lowercase hex digits spells, two digits a byte.
pub open spec fn bytes_of_hex(s: Seq<char>) -> Seq<u8> {
    Seq::new(
        s.len() / 2,
        |i: int| (16 * hex_value(s[2 * i]) + hex_value(s[2 * i + 1])) as u8,
    )
}

/// Whether every character of `s` is a lowercase hex digit.
pub open spec fn all_lower_hex(s: Seq<char>) -> bool {
    forall|i: int| 0 <= i < s.len() ==> is_lower_hex_digit(#[trigger] s[i])
}

/// Relies on hex::encode: two lowercase digits for each byte, high half first.
#[verifier::external_body]
pub(crate) fn to_hex(b: &[u8]) -> (r: String)
    ensures
        r@ == hex_of(b@),
{
    hex::encode(b)
}

/// The value of one lowercase hex digit; any other character, uppercase
/// digits included, is refused.
pub fn hex_half_byte(c: char) -> (r: Option<u8>)
    ensures
        r is Some <==> is_lower_hex_digit(c),
        r is Some ==> r->0 == hex_value(c) && r->0 < 16 && hex_digit(r->0) == c,
{
    if '0' <= c && c <= '9' {
        Some((c as u32 - 48) as u8)
    } else if 'a' <= c && c <= 'f' {
        Some((c as u32 - 87) as u8)
    } else {
        None
    }
}

pub proof fn lemma_hex_digit_value(v: u8)
    requires
        v < 16,
    ensures
        is_lower_hex_digit(hex_digit(v)),
        hex_value(hex_digit(v)) == v,
{
}

/// Decoding the hex text of some bytes gives those bytes back.
pub proof fn lemma_hex_round_trip(b: Seq<u8>)
    ensures
        all_lower_hex(hex_of(b)),
        bytes_of_hex(hex_of(b)) == b,
{
    let h = hex_of(b);
    assert forall|i: int| 0 <= i < h.len() implies is_lower_hex_digit(#[trigger] h[i]) by {
        lemma_hex_digit_value(b[i / 2] / 16);
        lemma_hex_digit_value(b[i / 2] % 16);
    }
    assert forall|i: int| 0 <= i < b.len() implies #[trigger] bytes_of_hex(h)[i] == b[i] by {
        lemma_hex_digit_value(b[i] / 16);
        lemma_hex_digit_value(b[i] % 16);
        assert(h[2 * i] == hex_digit(b[(2 * i) / 2] / 16));
        assert((2 * i) / 2 == i);
        assert((2 * i + 1) / 2 == i);
        assert((2 * i + 1) % 2 == 1);
    }
    assert(bytes_of_hex(h) =~= b);
}

pub proof fn lemma_value_digit(c: char)
    requires
        is_lower_hex_digit(c),
    ensures
        hex_value(c) < 16,
        hex_digit(hex_value(c)) == c,
{
}

pub proof fn lemma_byte_halves(a: u8, b: u8)
    requires
        a < 16,
        b < 16,
    ensures
        ((16 * a + b) as u8) / 16 == a,
        ((16 * a + b) as u8) % 16 == b,
{
    assert(((16 * a + b) as u8) / 16 == a && ((16 * a + b) as u8) % 16 == b) by (nonlinear_arith)
        requires
            a < 16,
            b < 16,
    ;
}

/// A text of lowercase hex digits of even length is the hex text of the
/// bytes that it spells.
pub proof fn lemma_hex_of_bytes_of_hex(s: Seq<char>)
    requires
        all_lower_hex(s),
        s.len() % 2 == 0,
    ensures
        hex_of(bytes_of_hex(s)) == s,
{
    let b = bytes_of_hex(s);
    let h = hex_of(b);
    assert forall|i: int| 0 <= i < s.len() implies #[trigger] h[i] == s[i] by {
        let j = i / 2;
        assert(0 <= j < b.len());
        assert(is_lower_hex_digit(s[2 * j]));
        assert(is_lower_hex_digit(s[2 * j + 1]));
        lemma_value_digit(s[2 * j]);
        lemma_value_digit(s[2 * j + 1]);
        lemma_byte_halves(hex_value(s[2 * j]), hex_value(s[2 * j + 1]));
        if i % 2 == 0 {
            assert(i == 2 * j);
        } else {
            assert(i == 2 * j + 1);
        }
    }
    assert(h =~= s);
}

} // verus!
