use json_string_escape::{
    escape_json_string, escape_json_unicode, escape_unicode_for_regex, safe_unescape_json_string,
    unsafe_unescape_json_string,
};

#[test]
fn two_character_escapes() {
    assert_eq!(escape_json_string("\u{8}"), "\\b");
    assert_eq!(escape_json_string("\u{c}"), "\\f");
    assert_eq!(escape_json_string("\n"), "\\n");
    assert_eq!(escape_json_string("\r"), "\\r");
    assert_eq!(escape_json_string("\t"), "\\t");
    assert_eq!(escape_json_string("\""), "\\\"");
}

#[test]
fn backslash_stays_single() {
    assert_eq!(escape_json_string("\\"), "\\");
    assert_eq!(escape_json_string("a\\b"), "a\\b");
}

#[test]
fn printable_ascii_passes() {
    let printable: String = (0x20u8..0x7f)
        .map(|b| b as char)
        .filter(|c| *c != '"')
        .collect();
    assert_eq!(escape_json_string(&printable), printable);
    assert_eq!(escape_json_string(""), "");
}

#[test]
fn other_characters_become_unicode_escapes() {
    assert_eq!(escape_json_string("\u{0}"), "\\u0000");
    assert_eq!(escape_json_string("\u{1f}"), "\\u001f");
    assert_eq!(escape_json_string("\u{7f}"), "\\u007f");
    assert_eq!(escape_json_string("\u{80}"), "\\u0080");
    assert_eq!(escape_json_string("é"), "\\u00e9");
    assert_eq!(escape_json_string("€"), "\\u20ac");
    assert_eq!(escape_json_string("\u{abcd}"), "\\uabcd");
    assert_eq!(escape_json_string("\u{ffff}"), "\\uffff");
    assert_eq!(escape_json_string("𐐷"), "\\ud801\\udc37");
    assert_eq!(escape_json_string("\u{10000}"), "\\ud800\\udc00");
    assert_eq!(escape_json_string("\u{10ffff}"), "\\udbff\\udfff");
    assert_eq!(escape_json_string("a€ \"𐐷\"\n"), "a\\u20ac \\\"\\ud801\\udc37\\\"\\n");
}

#[test]
fn unicode_escape_with_a_given_backslash() {
    let mut out = String::from(">");
    escape_json_unicode(&mut out, '€', "\\");
    assert_eq!(out, ">\\u20ac");
    escape_json_unicode(&mut out, '𐐷', "%");
    assert_eq!(out, ">\\u20ac%ud801%udc37");
    escape_json_unicode(&mut out, 'A', "");
    assert_eq!(out, ">\\u20ac%ud801%udc37u0041");
}

#[test]
fn regex_form_doubles_the_backslash() {
    assert_eq!(escape_unicode_for_regex("abc"), "abc");
    assert_eq!(escape_unicode_for_regex("a\"\\\n\u{7f}"), "a\"\\\n\u{7f}");
    assert_eq!(escape_unicode_for_regex("\u{80}"), "\\\\u0080");
    assert_eq!(escape_unicode_for_regex("a€b"), "a\\\\u20acb");
    assert_eq!(escape_unicode_for_regex("𐐷"), "\\\\ud801\\\\udc37");
    assert_eq!(escape_unicode_for_regex(""), "");
}

#[test]
fn unescape_inverts_escape() {
    let texts = [
        "",
        "abc",
        "say \"hi\"",
        "€ and 𐐷 and é",
        "\u{a0}\u{d7ff}\u{e000}\u{ffff}\u{10000}\u{10ffff}",
        "a/b",
        "backslash before a quote: \\\" and again \\\"",
    ];
    for text in texts {
        let escaped = escape_json_string(text);
        assert_eq!(safe_unescape_json_string(&escaped).unwrap(), text);
        assert_eq!(unsafe_unescape_json_string(&escaped).unwrap(), text);
    }
}

#[test]
fn safe_unescape_inverts_escape_where_an_escape_is_left_alone() {
    // A backslash before `b`, or before `u` and the digits of a control
    // character, reads as an escape that the safe variant leaves as it is.
    let texts = ["a\\b", "\\u0000", "\\u009F x \\u001f"];
    for text in texts {
        let escaped = escape_json_string(text);
        assert_eq!(escaped, text);
        assert_eq!(safe_unescape_json_string(&escaped).unwrap(), text);
        assert_ne!(unsafe_unescape_json_string(&escaped).unwrap(), text);
    }
    let mixed = "\\b\\\"\\u007f";
    let escaped = escape_json_string(mixed);
    assert_eq!(escaped, "\\b\\\\\"\\u007f");
    assert_eq!(safe_unescape_json_string(&escaped).unwrap(), mixed);
}

#[test]
fn full_unescape_inverts_escape_of_control_characters() {
    let text: String = (0u32..0xa1).filter_map(char::from_u32).filter(|c| *c != '\\').collect();
    let escaped = escape_json_string(&text);
    assert_eq!(unsafe_unescape_json_string(&escaped).unwrap(), text);
}

#[test]
fn a_backslash_before_anything_else_does_not_come_back() {
    assert_eq!(escape_json_string("\\n"), "\\n");
    assert_eq!(unsafe_unescape_json_string("\\n").unwrap(), "\n");
    assert_eq!(escape_json_string("\\\\"), "\\\\");
    assert_eq!(unsafe_unescape_json_string("\\\\").unwrap(), "\\");
}
