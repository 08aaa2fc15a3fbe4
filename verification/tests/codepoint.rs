use json_string_escape::codepoint::{is_hex, parse_codepoint_from_chars};
use json_string_escape::{decode_codepoint, hex_char_to_int, is_control, DecodedCodepoint};

#[test]
fn decode_codepoint_classifies_every_range() {
    assert_eq!(decode_codepoint(0x0000), DecodedCodepoint::Char('\u{0}'));
    assert_eq!(decode_codepoint(0x0041), DecodedCodepoint::Char('A'));
    assert_eq!(decode_codepoint(0x20AC), DecodedCodepoint::Char('€'));
    assert_eq!(decode_codepoint(0xD7FF), DecodedCodepoint::Char('\u{d7ff}'));
    assert_eq!(decode_codepoint(0xD800), DecodedCodepoint::HighSurrogate(0));
    assert_eq!(decode_codepoint(0xD801), DecodedCodepoint::HighSurrogate(1));
    assert_eq!(decode_codepoint(0xDBFF), DecodedCodepoint::HighSurrogate(0x3FF));
    assert_eq!(decode_codepoint(0xDC00), DecodedCodepoint::LowSurrogate(0));
    assert_eq!(decode_codepoint(0xDC37), DecodedCodepoint::LowSurrogate(0x37));
    assert_eq!(decode_codepoint(0xDFFF), DecodedCodepoint::LowSurrogate(0x3FF));
    assert_eq!(decode_codepoint(0xE000), DecodedCodepoint::Char('\u{e000}'));
    assert_eq!(decode_codepoint(0xFFFF), DecodedCodepoint::Char('\u{ffff}'));
}

#[test]
fn control_characters() {
    assert!(is_control('\u{0}'));
    assert!(is_control('\n'));
    assert!(is_control('\u{1f}'));
    assert!(!is_control(' '));
    assert!(!is_control('~'));
    assert!(is_control('\u{7f}'));
    assert!(is_control('\u{80}'));
    assert!(is_control('\u{9f}'));
    assert!(!is_control('\u{a0}'));
    assert!(!is_control('€'));
    assert!(!is_control('𐐷'));
}

#[test]
fn hexadecimal_digits() {
    let digits = "0123456789abcdef";
    for (value, ch) in digits.chars().enumerate() {
        assert!(is_hex(ch));
        assert_eq!(hex_char_to_int(ch) as usize, value);
        assert_eq!(hex_char_to_int(ch.to_ascii_uppercase()) as usize, value);
    }
    assert!(is_hex('A') && is_hex('F'));
    assert!(!is_hex('g') && !is_hex('G') && !is_hex('/') && !is_hex(':'));
    assert!(!is_hex('@') && !is_hex('`') && !is_hex(' ') && !is_hex('٣'));
}

#[test]
fn parse_codepoint_takes_four_digits() {
    let mut chars = "20ACrest".chars();
    let (value, digits) = parse_codepoint_from_chars(&mut chars);
    assert_eq!(value, 0x20AC);
    assert_eq!(digits, [b'2', b'0', b'A', b'C']);
    assert_eq!(chars.as_str(), "rest");

    let mut chars = "ffff".chars();
    assert_eq!(parse_codepoint_from_chars(&mut chars), (0xFFFF, [b'f'; 4]));
    assert_eq!(chars.next(), None);

    let mut chars = "0000".chars();
    assert_eq!(parse_codepoint_from_chars(&mut chars).0, 0);
}
