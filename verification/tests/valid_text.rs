use json_string_escape::is_valid_escaped_text;

#[test]
fn texts_with_complete_escapes_are_valid() {
    assert!(is_valid_escaped_text(""));
    assert!(is_valid_escaped_text("abc"));
    assert!(is_valid_escaped_text("\\\" \\\\ \\/ \\b \\f \\n \\r \\t"));
    assert!(is_valid_escaped_text("\\u0000\\uFFFF\\uabcd\\uABCD"));
    assert!(is_valid_escaped_text("é \u{80} \n 𐐷"));
    // Surrogates may fail to pair in a valid text.
    assert!(is_valid_escaped_text("\\uD801"));
    assert!(is_valid_escaped_text("\\uDC37 \\uD801x"));
    assert!(is_valid_escaped_text("\\\\u12"));
}

#[test]
fn texts_with_broken_escapes_are_not_valid() {
    assert!(!is_valid_escaped_text("\\"));
    assert!(!is_valid_escaped_text("abc\\"));
    assert!(!is_valid_escaped_text("\\a"));
    assert!(!is_valid_escaped_text("\\U0041"));
    assert!(!is_valid_escaped_text("\\ "));
    assert!(!is_valid_escaped_text("\\u"));
    assert!(!is_valid_escaped_text("\\u12"));
    assert!(!is_valid_escaped_text("\\u123"));
    assert!(!is_valid_escaped_text("\\u12g4"));
    assert!(!is_valid_escaped_text("\\u12G4"));
    assert!(!is_valid_escaped_text("\\u-123"));
    assert!(!is_valid_escaped_text("\\u00é9"));
    assert!(!is_valid_escaped_text("\\uD801\\u12"));
    assert!(!is_valid_escaped_text("ok \\n then \\x"));
}
