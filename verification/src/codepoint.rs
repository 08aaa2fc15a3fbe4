//! Classification of characters and of the 16-bit values written as
//! `\uXXXX`: control characters, hexadecimal digits, surrogates.

use std::str::Chars;
use vstd::prelude::*;
use vstd::std_specs::iter::IteratorSpec;

verus! {

/// What one 16-bit value of a `\uXXXX` escape stands for. A surrogate
/// carries its ten payload bits, the offset `0xD800` or `0xDC00` taken off.
#[derive(Debug, Clone, Copy, PartialEq, Eq)]
pub enum DecodedCodepoint {
    Char(char),
    LowSurrogate(u16),
    HighSurrogate(u16),
}

/// The Unicode control characters: `U+0000..=U+001F` and `U+007F..=U+009F`.
pub open spec fn is_control_char(c: char) -> bool {
    c as u32 <= 0x1F || 0x7F <= c as u32 <= 0x9F
}

/// The hexadecimal digits: `0` to `9`, `a` to `f` and `A` to `F`.
pub open spec fn is_hex_digit(c: char) -> bool {
    '0' <= c <= '9' || 'a' <= c <= 'f' || 'A' <= c <= 'F'
}

/// The value of a hexadecimal digit, upper or lower case.
pub open spec fn hex_digit_value(c: char) -> int
    recommends
        is_hex_digit(c),
{
    if '0' <= c <= '9' {
        c as int - '0' as int
    } else if 'a' <= c <= 'f' {
        c as int - 'a' as int + 10
    } else {
        c as int - 'A' as int + 10
    }
}

/// Whether `d` is exactly four hexadecimal digits.
pub open spec fn is_hex_quad(d: Seq<char>) -> bool {
    &&& d.len() == 4
    &&& is_hex_digit(d[0])
    &&& is_hex_digit(d[1])
    &&& is_hex_digit(d[2])
    &&& is_hex_digit(d[3])
}

/// The number that four hexadecimal digits denote, most significant first.
pub open spec fn hex_quad_value(d: Seq<char>) -> int
    recommends
        is_hex_quad(d),
{
    0x1000 * hex_digit_value(d[0]) + 0x100 * hex_digit_value(d[1]) + 0x10 * hex_digit_value(d[2])
        + hex_digit_value(d[3])
}

/// The characters that the given bytes stand for, one byte each.
pub open spec fn chars_of_bytes(bytes: Seq<u8>) -> Seq<char> {
    bytes.map_values(|b: u8| b as char)
}

/// The first halves of surrogate pairs.
pub open spec fn is_high_surrogate(unit: int) -> bool {
    0xD800 <= unit <= 0xDBFF
}

/// The second halves of surrogate pairs.
pub open spec fn is_low_surrogate(unit: int) -> bool {
    0xDC00 <= unit <= 0xDFFF
}

/// The reading of one 16-bit escape value.
pub open spec fn decoded(unit: u16) -> DecodedCodepoint {
    if is_high_surrogate(unit as int) {
        DecodedCodepoint::HighSurrogate((unit - 0xD800) as u16)
    } else if is_low_surrogate(unit as int) {
        DecodedCodepoint::LowSurrogate((unit - 0xDC00) as u16)
    } else {
        DecodedCodepoint::Char(unit as char)
    }
}

/// The character of the supplementary planes that a surrogate pair encodes,
/// from the payloads of its two halves.
pub open spec fn surrogate_pair_char(high: u16, low: u16) -> char
    recommends
        high < 0x400,
        low < 0x400,
{
    (high * 0x400 + low + 0x10000) as char
}

/// Whether `ch` is a control character.
pub fn is_control(ch: char) -> (b: bool)
    ensures
        b == is_control_char(ch),
{
    let v: u32 = ch as u32;
    v <= 0x1F || (0x7F <= v && v <= 0x9F)
}

/// Whether `ch` is a hexadecimal digit.
pub fn is_hex(ch: char) -> (b: bool)
    ensures
        b == is_hex_digit(ch),
{
    ('0' <= ch && ch <= '9') || ('a' <= ch && ch <= 'f') || ('A' <= ch && ch <= 'F')
}

/// The value of the hexadecimal digit `ch`.
pub fn hex_char_to_int(ch: char) -> (v: u16)
    requires
        is_hex_digit(ch),
    ensures
        v == hex_digit_value(ch),
        v < 16,
{
    if '0' <= ch && ch <= '9' {
        (ch as u16) - ('0' as u16)
    } else if 'a' <= ch && ch <= 'f' {
        (ch as u16) - ('a' as u16) + 10
    } else {
        (ch as u16) - ('A' as u16) + 10
    }
}

/// Reads a 16-bit escape value as a character or as one half of a
/// surrogate pair.
pub fn decode_codepoint(codepoint: u16) -> (d: DecodedCodepoint)
    ensures
        d == decoded(codepoint),
{
    if 0xD800 <= codepoint && codepoint <= 0xDBFF {
        DecodedCodepoint::HighSurrogate(codepoint - 0xD800)
    } else if 0xDC00 <= codepoint && codepoint <= 0xDFFF {
        DecodedCodepoint::LowSurrogate(codepoint - 0xDC00)
    } else {
        DecodedCodepoint::Char(char::from_u32(codepoint as u32).unwrap())
    }
}

/// Takes the four hexadecimal digits that the iterator yields next. Returns
/// the number they denote and the digits themselves, one byte each.
pub fn parse_codepoint_from_chars(chars: &mut Chars<'_>) -> (r: (u16, [u8; 4]))
    requires
        (*old(chars)).remaining().len() >= 4,
        is_hex_quad((*old(chars)).remaining().take(4)),
    ensures
        (*final(chars)).remaining() == (*old(chars)).remaining().skip(4),
        r.0 == hex_quad_value((*old(chars)).remaining().take(4)),
        chars_of_bytes(r.1@) == (*old(chars)).remaining().take(4),
{
    let ghost digits = (*chars).remaining().take(4);
    assert(is_hex_digit(digits[0]) && is_hex_digit(digits[1]) && is_hex_digit(digits[2])
        && is_hex_digit(digits[3]));
    let c0 = chars.next().unwrap();
    let c1 = chars.next().unwrap();
    let c2 = chars.next().unwrap();
    let c3 = chars.next().unwrap();
    let utf8_chars = [c0 as u8, c1 as u8, c2 as u8, c3 as u8];
    let mut codepoint: u16 = 0;
    codepoint += hex_char_to_int(c0) * 0x1000;
    codepoint += hex_char_to_int(c1) * 0x0100;
    codepoint += hex_char_to_int(c2) * 0x0010;
    codepoint += hex_char_to_int(c3);
    assert(chars_of_bytes(utf8_chars@) =~= digits);
    (codepoint, utf8_chars)
}

} // verus!
