use json_string_escape::{
    escape_json_string, is_valid_escaped_text, safe_unescape_json_string,
    unsafe_unescape_json_string,
};

fn is_control(c: char) -> bool {
    matches!(c as u32, 0x00..=0x1F | 0x7F..=0x9F)
}

/// Whether the backslash at `i` comes back from escaping and unescaping.
fn backslash_survives(text: &[char], i: usize, keep_control_escaped: bool) -> bool {
    if text.get(i + 1) == Some(&'"') {
        return true;
    }
    if !keep_control_escaped {
        return false;
    }
    if text.get(i + 1) == Some(&'b') {
        return true;
    }
    if text.get(i + 1) == Some(&'u') && i + 6 <= text.len() {
        let digits: String = text[i + 2..i + 6].iter().collect();
        if digits.chars().all(|d| d.is_ascii_hexdigit()) {
            let value = u32::from_str_radix(&digits, 16).unwrap();
            return value <= 0x1F || (0x7F..=0x9F).contains(&value);
        }
    }
    false
}

fn backslashes_survive(text: &[char], keep_control_escaped: bool) -> bool {
    (0..text.len()).all(|i| text[i] != '\\' || backslash_survives(text, i, keep_control_escaped))
}

fn comes_back(text: &str, keep_control_escaped: bool) -> bool {
    let escaped = escape_json_string(text);
    if !is_valid_escaped_text(&escaped) {
        return false;
    }
    let unescaped = if keep_control_escaped {
        safe_unescape_json_string(&escaped)
    } else {
        unsafe_unescape_json_string(&escaped)
    };
    match unescaped {
        Ok(unescaped) => unescaped == text,
        Err(_) => false,
    }
}

/// Every text over `alphabet` of at most `max_len` characters.
fn texts(alphabet: &[char], max_len: usize) -> Vec<Vec<char>> {
    let mut all: Vec<Vec<char>> = vec![Vec::new()];
    let mut last: Vec<Vec<char>> = vec![Vec::new()];
    for _ in 0..max_len {
        let mut next = Vec::new();
        for text in &last {
            for c in alphabet {
                let mut longer = text.clone();
                longer.push(*c);
                next.push(longer);
            }
        }
        all.extend(next.iter().cloned());
        last = next;
    }
    all
}

#[test]
fn texts_come_back_exactly_when_their_backslashes_survive() {
    let alphabet = ['\\', '"', 'u', 'b', '0', '5', 'C', '/', 'é'];
    for text in texts(&alphabet, 5) {
        let as_string: String = text.iter().collect();
        for keep_control_escaped in [true, false] {
            assert_eq!(
                comes_back(&as_string, keep_control_escaped),
                backslashes_survive(&text, keep_control_escaped),
                "{:?} {}",
                as_string,
                keep_control_escaped
            );
        }
    }
}

#[test]
fn texts_with_control_characters_come_back_from_full_unescaping() {
    let alphabet = ['\\', '"', '\n', '\u{8}', '\u{0}', '\u{9f}', 'n', '𐐷'];
    for text in texts(&alphabet, 4) {
        let as_string: String = text.iter().collect();
        assert_eq!(
            comes_back(&as_string, false),
            backslashes_survive(&text, false),
            "{:?}",
            as_string
        );
        if text.iter().any(|c| is_control(*c)) {
            continue;
        }
        assert_eq!(
            comes_back(&as_string, true),
            backslashes_survive(&text, true),
            "{:?}",
            as_string
        );
    }
}
