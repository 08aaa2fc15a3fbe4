use json_string_escape::{
    safe_unescape_json_string, unescape_json_string, unescape_json_string_unwrap,
    unsafe_unescape_json_string, UnicodeError,
};

#[test]
fn unmatched_high_surrogate_at_end_of_text() {
    let err = safe_unescape_json_string("abc 𐐷 \\uD801\\uDC37 \\uD801").unwrap_err();
    assert_eq!(err.index(), 26);
    assert_eq!(err.kind(), UnicodeError::UnmatchedHighSurrogate);
    assert_eq!(err.codepoint_chars(), [b'D', b'8', b'0', b'1']);
}

#[test]
fn unexpected_low_surrogate_is_reported_at_its_backslash() {
    let err = safe_unescape_json_string("abc 𐐷 \\uD801\\uDC37 \\uDC37").unwrap_err();
    assert_eq!(err.index(), 20);
    assert_eq!(err.kind(), UnicodeError::UnexpectedLowSurrogate);
    assert_eq!(err.codepoint_chars(), [b'D', b'C', b'3', b'7']);
}

#[test]
fn low_surrogate_at_the_start() {
    let err = unsafe_unescape_json_string("\\udc00").unwrap_err();
    assert_eq!(err.index(), 1);
    assert_eq!(err.kind(), UnicodeError::UnexpectedLowSurrogate);
    assert_eq!(
        err.to_string(),
        "unescaping error at char 1: unexpected low surrogate \"\\udc00\""
    );
}

#[test]
fn high_surrogate_before_an_escape_that_is_no_low_surrogate() {
    let err = safe_unescape_json_string("\\uD801\\u0041").unwrap_err();
    assert_eq!(err.index(), 13);
    assert_eq!(err.kind(), UnicodeError::UnmatchedHighSurrogate);
    assert_eq!(err.codepoint_chars(), [b'D', b'8', b'0', b'1']);

    let err = safe_unescape_json_string("x\\uD801\\uD801\\uDC37").unwrap_err();
    assert_eq!(err.index(), 14);
    assert_eq!(err.kind(), UnicodeError::UnmatchedHighSurrogate);
}

#[test]
fn position_after_a_failed_probe() {
    // Nothing left to probe.
    assert_eq!(safe_unescape_json_string("\\uD801").unwrap_err().index(), 7);
    // One character left.
    assert_eq!(safe_unescape_json_string("\\uD801a").unwrap_err().index(), 8);
    // Two characters or more: the probe takes two.
    assert_eq!(safe_unescape_json_string("\\uD801ab").unwrap_err().index(), 9);
    assert_eq!(safe_unescape_json_string("\\uD801abc").unwrap_err().index(), 9);
    assert_eq!(safe_unescape_json_string("\\uD801\\n").unwrap_err().index(), 9);
    assert_eq!(
        safe_unescape_json_string("\\uD801 \\uDC37").unwrap_err().index(),
        9
    );
}

#[test]
fn both_variants_report_the_same_failure() {
    let safe = unescape_json_string("ab\\uDFFF", true).unwrap_err();
    let raw = unescape_json_string("ab\\uDFFF", false).unwrap_err();
    assert_eq!(safe.index(), 3);
    assert_eq!(raw.index(), 3);
    assert_eq!(safe.to_string(), raw.to_string());
}

#[test]
fn messages() {
    assert_eq!(
        safe_unescape_json_string("\\uDBFF").unwrap_err().to_string(),
        "unescaping error at char 7: high surrogate \"\\uDBFF\" not followed by low surrogate"
    );
    assert_eq!(
        safe_unescape_json_string("0123456789\\udfff").unwrap_err().to_string(),
        "unescaping error at char 11: unexpected low surrogate \"\\udfff\""
    );
    let long = format!("{}\\uD800", "x".repeat(1234));
    assert_eq!(
        safe_unescape_json_string(&long).unwrap_err().to_string(),
        "unescaping error at char 1241: high surrogate \"\\uD800\" not followed by low surrogate"
    );
}

#[test]
fn unwrap_variant_falls_back_to_its_input() {
    assert_eq!(unescape_json_string_unwrap("abc \\n"), "abc \n");
    assert_eq!(unescape_json_string_unwrap("\\u0000"), "\\u0000");
    assert_eq!(unescape_json_string_unwrap("a \\uD801 b"), "a \\uD801 b");
    assert_eq!(unescape_json_string_unwrap("\\uDC37"), "\\uDC37");
}
