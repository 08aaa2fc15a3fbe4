use json_string_escape::utf8_len::len_utf8;

#[test]
fn len_utf8_at_the_boundaries() {
    assert_eq!(len_utf8('\u{0}'), 1);
    assert_eq!(len_utf8('A'), 1);
    assert_eq!(len_utf8('\u{7f}'), 1);
    assert_eq!(len_utf8('\u{80}'), 2);
    assert_eq!(len_utf8('é'), 2);
    assert_eq!(len_utf8('\u{7ff}'), 2);
    assert_eq!(len_utf8('\u{800}'), 3);
    assert_eq!(len_utf8('€'), 3);
    assert_eq!(len_utf8('\u{ffff}'), 3);
    assert_eq!(len_utf8('\u{10000}'), 4);
    assert_eq!(len_utf8('𐐷'), 4);
    assert_eq!(len_utf8('\u{10ffff}'), 4);
}

#[test]
fn len_utf8_agrees_with_the_encoding() {
    for c in ['\u{0}', 'z', '\u{80}', 'ß', '\u{7ff}', '\u{800}', '中', '\u{ffff}', '😀'] {
        let mut buffer = [0u8; 4];
        assert_eq!(len_utf8(c), c.encode_utf8(&mut buffer).len());
    }
}
