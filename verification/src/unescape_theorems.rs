//! What holds of unescaping on every well-formed text.

use crate::codepoint::{
    decoded, hex_quad_value, is_control_char, is_hex_quad, surrogate_pair_char, DecodedCodepoint,
};
use crate::error::UnescapeFailure;
use crate::unescape::{
    is_simple_escape, lemma_backslash_step, lemma_literal_step, lemma_surrogate_step,
    lemma_unicode_step, literal_output, simple_escape_output, unescaped_from, unescaped_text,
    unicode_escape_output, upper_hex_digit, well_formed_escapes,
};
use vstd::prelude::*;

verus! {

/// An escape that denotes a control character survives unescaping where
/// control characters are kept escaped: its six characters come out as they
/// went in, with the digits as they were written. To unescape the result
/// once more therefore changes nothing.
pub proof fn lemma_control_escape_survives(digits: Seq<char>)
    requires
        is_hex_quad(digits),
        hex_quad_value(digits) <= 0x1F || 0x7F <= hex_quad_value(digits) <= 0x9F,
    ensures
        well_formed_escapes(seq!['\\', 'u'] + digits),
        unescaped_text(seq!['\\', 'u'] + digits, true) == Ok::<Seq<char>, UnescapeFailure>(
            seq!['\\', 'u'] + digits,
        ),
{
    let text = seq!['\\', 'u'] + digits;
    let nothing = Seq::<char>::empty();
    assert(text.subrange(2, 6) =~= digits);
    assert(text.skip(6) =~= nothing);
    assert(well_formed_escapes(nothing));
    assert(unescaped_from(nothing, 6, true) == Ok::<Seq<char>, UnescapeFailure>(nothing));
    assert(text[0] == '\\' && text[1] == 'u');
    assert(text + nothing =~= text);
}

/// The control characters that have a simple escape of their own, the
/// backspace left out: form feed, line feed, carriage return and tab.
pub open spec fn is_whitespace_control(c: char) -> bool {
    c == '\u{c}' || c == '\n' || c == '\r' || c == '\t'
}

/// Whether `text` holds no control character but form feeds, line feeds,
/// carriage returns and tabs.
pub open spec fn controls_are_whitespace(text: Seq<char>) -> bool {
    forall|i: int|
        0 <= i < text.len() && is_control_char(#[trigger] text[i]) ==> is_whitespace_control(
            text[i],
        )
}

/// Two texts joined hold the control characters of the two.
proof fn lemma_controls_are_whitespace_concat(a: Seq<char>, b: Seq<char>)
    requires
        controls_are_whitespace(a),
        controls_are_whitespace(b),
    ensures
        controls_are_whitespace(a + b),
{
    assert forall|i: int| 0 <= i < (a + b).len() && is_control_char(#[trigger] (a + b)[i])
        implies is_whitespace_control((a + b)[i]) by {
        if i < a.len() {
            assert((a + b)[i] == a[i]);
        } else {
            assert((a + b)[i] == b[i - a.len()]);
        }
    }
}

/// Where control characters are kept escaped, a character outside any
/// escape brings no control character into the result.
proof fn lemma_literal_output_is_safe(c: char)
    ensures
        controls_are_whitespace(literal_output(c, true)),
{
    assert forall|d: nat| d < 16 implies !is_control_char(#[trigger] upper_hex_digit(d)) by {}
    assert(c as nat / 16 < 16 || !is_control_char(c));
}

/// Of the simple escapes, only `\f`, `\n`, `\r` and `\t` bring a control
/// character into the result where control characters are kept escaped.
proof fn lemma_simple_escape_output_is_safe(letter: char)
    requires
        is_simple_escape(letter),
    ensures
        controls_are_whitespace(simple_escape_output(letter, true)),
{
}

/// Where control characters are kept escaped, a `\uXXXX` escape brings no
/// control character into the result.
proof fn lemma_unicode_escape_output_is_safe(c: char, digits: Seq<char>)
    requires
        is_hex_quad(digits),
    ensures
        controls_are_whitespace(unicode_escape_output(c, digits, true)),
{
    let escape = seq!['\\', 'u'] + digits;
    assert forall|i: int| 0 <= i < escape.len() implies !is_control_char(#[trigger] escape[i]) by {
        if i >= 2 {
            assert(escape[i] == digits[i - 2]);
        }
    }
}

proof fn lemma_safe_unescape_from(s: Seq<char>, consumed: nat)
    requires
        well_formed_escapes(s),
    ensures
        unescaped_from(s, consumed, true) matches Ok(text) ==> controls_are_whitespace(text),
    decreases s.len(),
{
    if s.len() == 0 {
    } else if s[0] != '\\' {
        lemma_literal_step(s, consumed, true);
        lemma_safe_unescape_from(s.skip(1), consumed + 1);
        lemma_literal_output_is_safe(s[0]);
        if let Ok(text) = unescaped_from(s.skip(1), consumed + 1, true) {
            lemma_controls_are_whitespace_concat(literal_output(s[0], true), text);
        }
    } else {
        lemma_backslash_step(s, consumed, true);
        if s[1] != 'u' {
            lemma_safe_unescape_from(s.skip(2), consumed + 2);
            lemma_simple_escape_output_is_safe(s[1]);
            if let Ok(text) = unescaped_from(s.skip(2), consumed + 2, true) {
                lemma_controls_are_whitespace_concat(simple_escape_output(s[1], true), text);
            }
        } else {
            let digits = s.subrange(2, 6);
            lemma_unicode_step(s, consumed, true);
            match decoded(hex_quad_value(digits) as u16) {
                DecodedCodepoint::Char(c) => {
                    lemma_safe_unescape_from(s.skip(6), consumed + 6);
                    lemma_unicode_escape_output_is_safe(c, digits);
                    if let Ok(text) = unescaped_from(s.skip(6), consumed + 6, true) {
                        lemma_controls_are_whitespace_concat(
                            unicode_escape_output(c, digits, true),
                            text,
                        );
                    }
                },
                DecodedCodepoint::LowSurrogate(_) => {},
                DecodedCodepoint::HighSurrogate(high) => {
                    lemma_surrogate_step(s, consumed, true);
                    let after = s.skip(6);
                    if after.len() >= 2 && after[0] == '\\' && after[1] == 'u' {
                        if let DecodedCodepoint::LowSurrogate(low) = decoded(
                            hex_quad_value(s.subrange(8, 12)) as u16,
                        ) {
                            lemma_safe_unescape_from(s.skip(12), consumed + 12);
                            let pair = seq![surrogate_pair_char(high, low)];
                            assert(surrogate_pair_char(high, low) as u32 >= 0x10000);
                            if let Ok(text) = unescaped_from(s.skip(12), consumed + 12, true) {
                                lemma_controls_are_whitespace_concat(pair, text);
                            }
                        }
                    }
                },
            }
        }
    }
}

proof fn lemma_failure_from_ignores_flag(s: Seq<char>, consumed: nat)
    requires
        well_formed_escapes(s),
    ensures
        unescaped_from(s, consumed, true) matches Err(failure) ==> unescaped_from(
            s,
            consumed,
            false,
        ) == Err::<Seq<char>, UnescapeFailure>(failure),
        unescaped_from(s, consumed, true) is Ok ==> unescaped_from(s, consumed, false) is Ok,
    decreases s.len(),
{
    if s.len() == 0 {
    } else if s[0] != '\\' {
        lemma_literal_step(s, consumed, true);
        lemma_literal_step(s, consumed, false);
        lemma_failure_from_ignores_flag(s.skip(1), consumed + 1);
    } else {
        lemma_backslash_step(s, consumed, true);
        lemma_backslash_step(s, consumed, false);
        if s[1] != 'u' {
            lemma_failure_from_ignores_flag(s.skip(2), consumed + 2);
        } else {
            lemma_unicode_step(s, consumed, true);
            lemma_unicode_step(s, consumed, false);
            match decoded(hex_quad_value(s.subrange(2, 6)) as u16) {
                DecodedCodepoint::Char(_) => {
                    lemma_failure_from_ignores_flag(s.skip(6), consumed + 6);
                },
                DecodedCodepoint::LowSurrogate(_) => {},
                DecodedCodepoint::HighSurrogate(_) => {
                    lemma_surrogate_step(s, consumed, true);
                    lemma_surrogate_step(s, consumed, false);
                    let after = s.skip(6);
                    if after.len() >= 2 && after[0] == '\\' && after[1] == 'u' {
                        lemma_failure_from_ignores_flag(s.skip(12), consumed + 12);
                    }
                },
            }
        }
    }
}

/// The two variants fail alike: whether control characters are kept
/// escaped has no part in whether surrogates pair, nor in where and how
/// they fail to.
pub proof fn lemma_failure_ignores_control_flag(s: Seq<char>)
    requires
        well_formed_escapes(s),
    ensures
        unescaped_text(s, true) matches Err(failure) ==> unescaped_text(s, false) == Err::<
            Seq<char>,
            UnescapeFailure,
        >(failure),
        unescaped_text(s, true) is Ok ==> unescaped_text(s, false) is Ok,
{
    lemma_failure_from_ignores_flag(s, 0);
}

/// What the safe variant is safe from: where control characters are kept
/// escaped, the result holds none, but for form feeds, line feeds, carriage
/// returns and tabs, which `\f`, `\n`, `\r` and `\t` denote and which come
/// out raw.
pub proof fn lemma_safe_unescape_keeps_controls_escaped(s: Seq<char>)
    requires
        well_formed_escapes(s),
    ensures
        unescaped_text(s, true) matches Ok(text) ==> controls_are_whitespace(text),
{
    lemma_safe_unescape_from(s, 0);
}

} // verus!
