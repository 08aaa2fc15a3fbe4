use json_string_escape::{safe_unescape_json_string, unsafe_unescape_json_string};

fn check(escaped: &str, expected_unescaped: &str) {
    let unescaped = match safe_unescape_json_string(escaped) {
        Ok(s) => s,
        Err(err) => format!("ERR: {}", err.to_string()),
    };

    assert_eq!(expected_unescaped, &unescaped);
}

fn check_unsafe(escaped: &str, expected_unescaped: &str) {
    let unescaped = match unsafe_unescape_json_string(escaped) {
        Ok(s) => s,
        Err(err) => format!("ERR: {}", err.to_string()),
    };

    assert_eq!(expected_unescaped, &unescaped);
}

#[test]
fn test_unescape_json_string() {
    // Ok
    check("abc", "abc");
    check("abc \\\\ \\\"", "abc \\ \"");
    check("abc \\n \\t \\r", "abc \n \t \r");
    check("€ \\u20AC", "€ \u{20AC}");
    check("𐐷 \\uD801\\uDC37", "𐐷 \u{10437}");

    // Control characters are escaped
    check("12x\\b34", "12x\\b34");
    check(
        "\\u0000 | \\u001f | \\u0020 | \\u007e | \\u007f | \\u0080 | \\u009F | \\u00a0",
        "\\u0000 | \\u001f | \u{0020} | \u{007e} | \\u007f | \\u0080 | \\u009F | \u{00a0}",
    );

    // But not if unsafe is called
    check_unsafe("12x\\b34", "12x\x0834");
    check_unsafe(
        "\\u0000 | \\u001f | \\u0020 | \\u007e | \\u007f | \\u0080 | \\u009F | \\u00a0",
        "\x00 | \x1f | \u{0020} | \u{007e} | \x7f | \u{0080} | \u{009F} | \u{00a0}",
    );

    // Non-ASCII unescaped control codes also get escaped
    check("12 \u{0080} 34", "12 \\u0080 34");

    // But not if unsafe is called
    check_unsafe("12 \u{0080} 34", "12 \u{0080} 34");

    // Errors; make sure index is computed properly.
    check(
        "abc 𐐷 \\uD801\\uDC37 \\uD801",
        // "abc 𐐷 \uD801\uDC37 \uD801"
        // 0 2 4 6 8 0 2 4 6 8 0 2 4 6
        "ERR: unescaping error at char 26: high surrogate \"\\uD801\" not followed by low surrogate",
    );

    check(
        "abc 𐐷 \\uD801\\uDC37 \\uDC37",
        // "abc 𐐷 \uD801\uDC37 \uDC37"
        // 0 2 4 6 8 0 2 4 6 8 0 2 4 6
        "ERR: unescaping error at char 20: unexpected low surrogate \"\\uDC37\"",
    );
}

#[test]
fn safe_unescape_keeps_control_escapes() {
    assert_eq!(safe_unescape_json_string("\\u0000").unwrap(), "\\u0000");
    assert_eq!(safe_unescape_json_string("\\u001f").unwrap(), "\\u001f");
    assert_eq!(safe_unescape_json_string("\\u009F").unwrap(), "\\u009F");
    assert_eq!(safe_unescape_json_string("\\b").unwrap(), "\\b");
}

#[test]
fn unsafe_unescape_decodes_control_escapes() {
    assert_eq!(unsafe_unescape_json_string("\\u0000").unwrap(), "\u{0}");
    assert_eq!(unsafe_unescape_json_string("\\u009F").unwrap(), "\u{9f}");
    assert_eq!(unsafe_unescape_json_string("\\b").unwrap(), "\u{8}");
}

#[test]
fn surrogate_pair_is_joined() {
    assert_eq!(
        safe_unescape_json_string("𐐷 \\uD801\\uDC37").unwrap(),
        "𐐷 𐐷"
    );
    assert_eq!(
        unsafe_unescape_json_string("\\ud83d\\ude00").unwrap(),
        "\u{1F600}"
    );
    assert_eq!(
        unsafe_unescape_json_string("\\uD800\\uDC00").unwrap(),
        "\u{10000}"
    );
    assert_eq!(
        unsafe_unescape_json_string("\\uDBFF\\uDFFF").unwrap(),
        "\u{10FFFF}"
    );
}

#[test]
fn raw_control_character_is_escaped() {
    assert_eq!(
        safe_unescape_json_string("12 \u{0080} 34").unwrap(),
        "12 \\u0080 34"
    );
    assert_eq!(
        unsafe_unescape_json_string("12 \u{0080} 34").unwrap(),
        "12 \u{0080} 34"
    );
    assert_eq!(safe_unescape_json_string("\n").unwrap(), "\\u000A");
    assert_eq!(safe_unescape_json_string("\u{1f}").unwrap(), "\\u001F");
    assert_eq!(safe_unescape_json_string("\u{7f}").unwrap(), "\\u007F");
    assert_eq!(safe_unescape_json_string("\u{9f}").unwrap(), "\\u009F");
    assert_eq!(safe_unescape_json_string("\u{a0}").unwrap(), "\u{a0}");
    assert_eq!(safe_unescape_json_string("\u{20}").unwrap(), " ");
}

#[test]
fn simple_escapes_are_replaced() {
    assert_eq!(
        unsafe_unescape_json_string("\\\" \\\\ \\/ \\b \\f \\n \\r \\t").unwrap(),
        "\" \\ / \u{8} \u{c} \n \r \t"
    );
    assert_eq!(
        safe_unescape_json_string("\\\" \\\\ \\/ \\b \\f \\n \\r \\t").unwrap(),
        "\" \\ / \\b \u{c} \n \r \t"
    );
}

#[test]
fn hex_digits_of_either_case() {
    assert_eq!(unsafe_unescape_json_string("\\u00e9").unwrap(), "é");
    assert_eq!(unsafe_unescape_json_string("\\u00E9").unwrap(), "é");
    assert_eq!(unsafe_unescape_json_string("\\uaBcD").unwrap(), "\u{abcd}");
    assert_eq!(unsafe_unescape_json_string("\\uFFFF").unwrap(), "\u{ffff}");
    assert_eq!(unsafe_unescape_json_string("\\u0041").unwrap(), "A");
}

#[test]
fn empty_text_unescapes_to_empty_text() {
    assert_eq!(safe_unescape_json_string("").unwrap(), "");
    assert_eq!(unsafe_unescape_json_string("").unwrap(), "");
}
