//! From escaped text to the text it denotes.

use crate::codepoint::{
    chars_of_bytes, decode_codepoint, decoded, hex_quad_value, is_control, is_control_char,
    is_hex, is_hex_digit, is_hex_quad, parse_codepoint_from_chars, surrogate_pair_char,
    DecodedCodepoint,
};
use crate::error::{UnescapeError, UnescapeFailure, UnicodeError};
use crate::utf8_len::{lemma_char_count_le_utf8_len, utf8_len};
use std::str::Chars;
use vstd::prelude::*;
use vstd::std_specs::iter::IteratorSpec;

verus! {

/// The characters that may follow a backslash on their own.
pub open spec fn is_simple_escape(letter: char) -> bool {
    letter == '"' || letter == '\\' || letter == '/' || letter == 'b' || letter == 'f' || letter
        == 'n' || letter == 'r' || letter == 't'
}

/// Whether `s` begins with a backslash, a `u` and four hexadecimal digits.
pub open spec fn starts_with_unicode_escape(s: Seq<char>) -> bool {
    s.len() >= 6 && s[0] == '\\' && s[1] == 'u' && is_hex_quad(s.subrange(2, 6))
}

/// Whether every backslash of `s` begins a complete escape: a simple one of
/// two characters, or `\u` and four hexadecimal digits. This is the escape
/// syntax of JSON; it says nothing on how surrogates pair.
pub open spec fn well_formed_escapes(s: Seq<char>) -> bool
    decreases s.len(),
{
    if s.len() == 0 {
        true
    } else if s[0] != '\\' {
        well_formed_escapes(s.skip(1))
    } else if s.len() >= 2 && is_simple_escape(s[1]) {
        well_formed_escapes(s.skip(2))
    } else {
        starts_with_unicode_escape(s) && well_formed_escapes(s.skip(6))
    }
}

/// What the unescaping functions ask of their input: well-formed escapes,
/// and a length that leaves room for the position pointer, which counts
/// characters from 1 and may come to stand one past the end.
pub open spec fn valid_escaped_text(s: Seq<char>) -> bool {
    well_formed_escapes(s) && s.len() < usize::MAX
}

/// The upper-case hexadecimal digit of a value below 16.
pub open spec fn upper_hex_digit(d: nat) -> char
    recommends
        d < 16,
{
    if d < 10 {
        ('0' as nat + d) as char
    } else {
        ('A' as nat + d - 10) as char
    }
}

/// The form `\u00XX` of a control character, with upper-case digits.
pub open spec fn control_escape(c: char) -> Seq<char>
    recommends
        is_control_char(c),
{
    seq!['\\', 'u', '0', '0', upper_hex_digit(c as nat / 16), upper_hex_digit(c as nat % 16)]
}

/// What a character outside any escape contributes.
pub open spec fn literal_output(c: char, escape_control: bool) -> Seq<char> {
    if escape_control && is_control_char(c) {
        control_escape(c)
    } else {
        seq![c]
    }
}

/// The character that a simple escape denotes.
pub open spec fn simple_escape_char(letter: char) -> char
    recommends
        is_simple_escape(letter),
{
    if letter == 'b' {
        '\u{8}'
    } else if letter == 'f' {
        '\u{c}'
    } else if letter == 'n' {
        '\n'
    } else if letter == 'r' {
        '\r'
    } else if letter == 't' {
        '\t'
    } else {
        letter
    }
}

/// What a simple escape contributes: the character it denotes, except that
/// `\b` stays as it is where control characters are kept escaped.
pub open spec fn simple_escape_output(letter: char, escape_control: bool) -> Seq<char>
    recommends
        is_simple_escape(letter),
{
    if letter == 'b' && escape_control {
        seq!['\\', 'b']
    } else {
        seq![simple_escape_char(letter)]
    }
}

/// What `\u` and `digits` contribute when they denote the character `c`:
/// `c` itself, or the escape as written where `c` is a control character and
/// control characters are kept escaped.
pub open spec fn unicode_escape_output(c: char, digits: Seq<char>, escape_control: bool) -> Seq<
    char,
> {
    if escape_control && is_control_char(c) {
        seq!['\\', 'u'] + digits
    } else {
        seq![c]
    }
}

/// `rest` with `prefix` put before its text; a failure stays as it is.
pub open spec fn with_prefix(
    prefix: Seq<char>,
    rest: Result<Seq<char>, UnescapeFailure>,
) -> Result<Seq<char>, UnescapeFailure> {
    match rest {
        Ok(text) => Ok(prefix + text),
        Err(failure) => Err(failure),
    }
}

/// The number of characters that the probe for a second `\u` takes from
/// what follows a high surrogate: two, or all that is left.
pub open spec fn probe_len(rest: Seq<char>) -> nat {
    if rest.len() < 2 {
        rest.len()
    } else {
        2
    }
}

/// The result of unescaping `s`, a suffix of an escaped text of which
/// `consumed` characters lie before `s`: the text that `s` denotes, or the
/// first failure of its surrogates to pair. The position of a failure is
/// the position pointer at that moment, which counts from 1 the characters
/// of the whole escaped text that have been taken, the one under it
/// included:
///
/// - for a low surrogate that no high surrogate precedes, it is set back
///   to the backslash of its escape;
/// - for a high surrogate that an escape follows which is no low
///   surrogate, it stands behind that second escape;
/// - for a high surrogate that no `\u` follows, it stands behind the two
///   characters that were taken to look for one, or behind as many as were
///   left.
///
/// Of a text whose escapes are not well formed the value has no meaning.
pub open spec fn unescaped_from(s: Seq<char>, consumed: nat, escape_control: bool) -> Result<
    Seq<char>,
    UnescapeFailure,
>
    recommends
        well_formed_escapes(s),
    decreases s.len(),
{
    if s.len() == 0 {
        Ok(Seq::empty())
    } else if s[0] != '\\' {
        with_prefix(
            literal_output(s[0], escape_control),
            unescaped_from(s.skip(1), consumed + 1, escape_control),
        )
    } else if s.len() < 2 {
        Ok(Seq::empty())
    } else if s[1] != 'u' {
        with_prefix(
            simple_escape_output(s[1], escape_control),
            unescaped_from(s.skip(2), consumed + 2, escape_control),
        )
    } else if s.len() < 6 {
        Ok(Seq::empty())
    } else {
        let digits = s.subrange(2, 6);
        match decoded(hex_quad_value(digits) as u16) {
            DecodedCodepoint::Char(c) => with_prefix(
                unicode_escape_output(c, digits, escape_control),
                unescaped_from(s.skip(6), consumed + 6, escape_control),
            ),
            DecodedCodepoint::LowSurrogate(_) => Err(
                UnescapeFailure {
                    position: consumed + 1,
                    digits,
                    kind: UnicodeError::UnexpectedLowSurrogate,
                },
            ),
            DecodedCodepoint::HighSurrogate(high) => {
                if s.len() >= 12 && s[6] == '\\' && s[7] == 'u' {
                    match decoded(hex_quad_value(s.subrange(8, 12)) as u16) {
                        DecodedCodepoint::LowSurrogate(low) => with_prefix(
                            seq![surrogate_pair_char(high, low)],
                            unescaped_from(s.skip(12), consumed + 12, escape_control),
                        ),
                        _ => Err(
                            UnescapeFailure {
                                position: consumed + 13,
                                digits,
                                kind: UnicodeError::UnmatchedHighSurrogate,
                            },
                        ),
                    }
                } else {
                    Err(
                        UnescapeFailure {
                            position: consumed + 7 + probe_len(s.skip(6)),
                            digits,
                            kind: UnicodeError::UnmatchedHighSurrogate,
                        },
                    )
                }
            },
        }
    }
}

/// The text that the escaped text `s` denotes, or the first failure of its
/// surrogates to pair. With `escape_control`, control characters come out
/// in escaped form.
pub open spec fn unescaped_text(s: Seq<char>, escape_control: bool) -> Result<
    Seq<char>,
    UnescapeFailure,
>
    recommends
        well_formed_escapes(s),
{
    unescaped_from(s, 0, escape_control)
}

/// To put two prefixes before a result, one after the other, is to put
/// the two joined before it.
pub proof fn lemma_with_prefix_twice(
    a: Seq<char>,
    b: Seq<char>,
    rest: Result<Seq<char>, UnescapeFailure>,
)
    ensures
        with_prefix(a, with_prefix(b, rest)) == with_prefix(a + b, rest),
{
    if let Ok(text) = rest {
        assert(a + (b + text) =~= (a + b) + text);
    }
}

/// What unescaping does with a character outside any escape.
pub proof fn lemma_literal_step(rest: Seq<char>, consumed: nat, escape_control: bool)
    requires
        well_formed_escapes(rest),
        rest.len() > 0,
        rest[0] != '\\',
    ensures
        well_formed_escapes(rest.skip(1)),
        unescaped_from(rest, consumed, escape_control) == with_prefix(
            literal_output(rest[0], escape_control),
            unescaped_from(rest.skip(1), consumed + 1, escape_control),
        ),
{
}

/// What follows a backslash: a simple escape, which unescaping replaces, or
/// a `u` and four hexadecimal digits.
pub proof fn lemma_backslash_step(rest: Seq<char>, consumed: nat, escape_control: bool)
    requires
        well_formed_escapes(rest),
        rest.len() > 0,
        rest[0] == '\\',
    ensures
        rest.len() >= 2,
        rest.skip(1).skip(1) == rest.skip(2),
        rest[1] != 'u' ==> {
            &&& is_simple_escape(rest[1])
            &&& well_formed_escapes(rest.skip(2))
            &&& unescaped_from(rest, consumed, escape_control) == with_prefix(
                simple_escape_output(rest[1], escape_control),
                unescaped_from(rest.skip(2), consumed + 2, escape_control),
            )
        },
        rest[1] == 'u' ==> {
            &&& starts_with_unicode_escape(rest)
            &&& rest.skip(2).take(4) == rest.subrange(2, 6)
            &&& rest.skip(2).skip(4) == rest.skip(6)
            &&& well_formed_escapes(rest.skip(6))
        },
{
    assert(rest.skip(1).skip(1) =~= rest.skip(2));
    if rest[1] == 'u' {
        assert(rest.skip(2).take(4) =~= rest.subrange(2, 6));
        assert(rest.skip(2).skip(4) =~= rest.skip(6));
    }
}

/// What unescaping does with a `\uXXXX` escape that is no high surrogate.
pub proof fn lemma_unicode_step(rest: Seq<char>, consumed: nat, escape_control: bool)
    requires
        starts_with_unicode_escape(rest),
    ensures
        match decoded(hex_quad_value(rest.subrange(2, 6)) as u16) {
            DecodedCodepoint::Char(c) => unescaped_from(rest, consumed, escape_control)
                == with_prefix(
                unicode_escape_output(c, rest.subrange(2, 6), escape_control),
                unescaped_from(rest.skip(6), consumed + 6, escape_control),
            ),
            DecodedCodepoint::LowSurrogate(_) => unescaped_from(rest, consumed, escape_control)
                == Err::<Seq<char>, UnescapeFailure>(
                UnescapeFailure {
                    position: consumed + 1,
                    digits: rest.subrange(2, 6),
                    kind: UnicodeError::UnexpectedLowSurrogate,
                },
            ),
            DecodedCodepoint::HighSurrogate(_) => true,
        },
{
}

/// What unescaping does with a high surrogate: the escape that follows must
/// be a low surrogate.
pub proof fn lemma_surrogate_step(rest: Seq<char>, consumed: nat, escape_control: bool)
    requires
        starts_with_unicode_escape(rest),
        well_formed_escapes(rest.skip(6)),
        decoded(hex_quad_value(rest.subrange(2, 6)) as u16) is HighSurrogate,
    ensures
        ({
            let after = rest.skip(6);
            let high = decoded(hex_quad_value(rest.subrange(2, 6)) as u16)->HighSurrogate_0;
            if after.len() >= 2 && after[0] == '\\' && after[1] == 'u' {
                &&& starts_with_unicode_escape(after)
                &&& after.skip(1).skip(1).take(4) == rest.subrange(8, 12)
                &&& after.skip(1).skip(1).skip(4) == rest.skip(12)
                &&& well_formed_escapes(rest.skip(12))
                &&& match decoded(hex_quad_value(rest.subrange(8, 12)) as u16) {
                    DecodedCodepoint::LowSurrogate(low) => unescaped_from(
                        rest,
                        consumed,
                        escape_control,
                    ) == with_prefix(
                        seq![surrogate_pair_char(high, low)],
                        unescaped_from(rest.skip(12), consumed + 12, escape_control),
                    ),
                    _ => unescaped_from(rest, consumed, escape_control) == Err::<
                        Seq<char>,
                        UnescapeFailure,
                    >(
                        UnescapeFailure {
                            position: consumed + 13,
                            digits: rest.subrange(2, 6),
                            kind: UnicodeError::UnmatchedHighSurrogate,
                        },
                    ),
                }
            } else {
                unescaped_from(rest, consumed, escape_control) == Err::<
                    Seq<char>,
                    UnescapeFailure,
                >(
                    UnescapeFailure {
                        position: consumed + 7 + probe_len(after),
                        digits: rest.subrange(2, 6),
                        kind: UnicodeError::UnmatchedHighSurrogate,
                    },
                )
            }
        }),
{
    let after = rest.skip(6);
    if after.len() >= 2 && after[0] == '\\' && after[1] == 'u' {
        assert(after.subrange(2, 6) =~= rest.subrange(8, 12));
        assert(after.skip(1).skip(1).take(4) =~= rest.subrange(8, 12));
        assert(after.skip(1).skip(1).skip(4) =~= rest.skip(12));
        assert(after.skip(6) =~= rest.skip(12));
    }
}

/// Takes the next character, if any, and says whether it was a hexadecimal
/// digit.
fn take_hex_digit(chars: &mut Chars<'_>) -> (found: bool)
    ensures
        found == ((*old(chars)).remaining().len() > 0 && is_hex_digit(
            (*old(chars)).remaining()[0],
        )),
        (*old(chars)).remaining().len() > 0 ==> (*final(chars)).remaining() == (*old(
            chars,
        )).remaining().skip(1),
{
    match chars.next() {
        Some(ch) => is_hex(ch),
        None => false,
    }
}

/// Whether `s` is a text that the unescaping functions accept.
pub fn is_valid_escaped_text(s: &str) -> (valid: bool)
    ensures
        valid == valid_escaped_text(s@),
{
    let len_bytes: usize = s.as_bytes().len();
    let mut chars = s.chars();
    let mut count: usize = 0;
    proof {
        lemma_char_count_le_utf8_len(s@);
    }
    loop
        invariant
            len_bytes == utf8_len(s@),
            s@.len() <= len_bytes,
            count + chars.remaining().len() == s@.len(),
            well_formed_escapes(s@) == well_formed_escapes(chars.remaining()),
        ensures
            count == s@.len(),
            well_formed_escapes(s@),
        decreases s@.len() - count,
    {
        let ghost rest = chars.remaining();
        let ch = match chars.next() {
            Some(ch) => ch,
            None => {
                break ;
            },
        };
        count += 1;
        if ch != '\\' {
            continue ;
        }
        let escaped = match chars.next() {
            Some(escaped) => escaped,
            None => {
                return false;
            },
        };
        count += 1;
        assert(rest.skip(1).skip(1) =~= rest.skip(2));
        if escaped == '"' || escaped == '\\' || escaped == '/' || escaped == 'b' || escaped == 'f'
            || escaped == 'n' || escaped == 'r' || escaped == 't' {
            continue ;
        }
        if escaped != 'u' {
            return false;
        }
        if !take_hex_digit(&mut chars) {
            return false;
        }
        if !take_hex_digit(&mut chars) {
            return false;
        }
        if !take_hex_digit(&mut chars) {
            return false;
        }
        if !take_hex_digit(&mut chars) {
            return false;
        }
        count += 4;
        assert(rest.skip(2).skip(1).skip(1).skip(1).skip(1) =~= rest.skip(6));
    }
    count < usize::MAX
}

/// The upper-case hexadecimal digit of a value below 16.
fn upper_hex_char(d: u8) -> (c: char)
    requires
        d < 16,
    ensures
        c == upper_hex_digit(d as nat),
{
    if d < 10 {
        (('0' as u8) + d) as char
    } else {
        (('A' as u8) + (d - 10)) as char
    }
}

/// Appends what the character `ch`, met outside any escape, contributes.
fn push_literal(unescaped: &mut String, ch: char, escape_control_characters: bool)
    ensures
        final(unescaped)@ == old(unescaped)@ + literal_output(ch, escape_control_characters),
{
    if escape_control_characters && is_control(ch) {
        let v: u32 = ch as u32;
        unescaped.push('\\');
        unescaped.push('u');
        unescaped.push('0');
        unescaped.push('0');
        unescaped.push(upper_hex_char((v / 16) as u8));
        unescaped.push(upper_hex_char((v % 16) as u8));
    } else {
        unescaped.push(ch);
    }
    assert(unescaped@ =~= old(unescaped)@ + literal_output(ch, escape_control_characters));
}

/// Appends what the simple escape with the given letter contributes.
fn push_simple_escape(unescaped: &mut String, escaped: char, escape_control_characters: bool)
    requires
        is_simple_escape(escaped),
    ensures
        final(unescaped)@ == old(unescaped)@ + simple_escape_output(
            escaped,
            escape_control_characters,
        ),
{
    if escaped == 'b' {
        if escape_control_characters {
            unescaped.push('\\');
            unescaped.push('b');
        } else {
            unescaped.push('\u{8}');
        }
    } else if escaped == 'f' {
        unescaped.push('\u{c}');
    } else if escaped == 'n' {
        unescaped.push('\n');
    } else if escaped == 'r' {
        unescaped.push('\r');
    } else if escaped == 't' {
        unescaped.push('\t');
    } else {
        unescaped.push(escaped);
    }
    assert(unescaped@ =~= old(unescaped)@ + simple_escape_output(
        escaped,
        escape_control_characters,
    ));
}

/// Appends what a `\uXXXX` escape contributes that denotes the character
/// `ch` and was written with the digits `codepoint_chars`.
fn push_unicode_escape(
    unescaped: &mut String,
    ch: char,
    codepoint_chars: &[u8; 4],
    escape_control_characters: bool,
)
    ensures
        final(unescaped)@ == old(unescaped)@ + unicode_escape_output(
            ch,
            chars_of_bytes(codepoint_chars@),
            escape_control_characters,
        ),
{
    if escape_control_characters && is_control(ch) {
        unescaped.push('\\');
        unescaped.push('u');
        unescaped.push(codepoint_chars[0] as char);
        unescaped.push(codepoint_chars[1] as char);
        unescaped.push(codepoint_chars[2] as char);
        unescaped.push(codepoint_chars[3] as char);
    } else {
        unescaped.push(ch);
    }
    assert(unescaped@ =~= old(unescaped)@ + unicode_escape_output(
        ch,
        chars_of_bytes(codepoint_chars@),
        escape_control_characters,
    ));
}

/// Unescapes `s`. With `escape_control_characters`, control characters are
/// left in, or put into, escaped form.
pub fn unescape_json_string(s: &str, escape_control_characters: bool) -> (r: Result<
    String,
    UnescapeError,
>)
    requires
        valid_escaped_text(s@),
    ensures
        match unescaped_text(s@, escape_control_characters) {
            Ok(text) => r matches Ok(unescaped) && unescaped@ == text,
            Err(failure) => r matches Err(e) && e@ == failure,
        },
{
    let mut chars = s.chars();
    let mut unescaped = String::new();
    let mut index: usize = 1;
    assert(unescaped@ + s@ =~= s@);

    loop
        invariant
            s@.len() < usize::MAX,
            1 <= index,
            index + chars.remaining().len() == s@.len() + 1,
            well_formed_escapes(chars.remaining()),
            unescaped_text(s@, escape_control_characters) == with_prefix(
                unescaped@,
                unescaped_from(chars.remaining(), (index - 1) as nat, escape_control_characters),
            ),
        ensures
            unescaped_text(s@, escape_control_characters) == Ok::<Seq<char>, UnescapeFailure>(
                unescaped@,
            ),
        decreases s@.len() + 1 - index,
    {
        let ghost rest = chars.remaining();
        let ghost consumed = (index - 1) as nat;
        let ghost before = unescaped@;
        let ch = match chars.next() {
            Some(ch) => ch,
            None => {
                assert(before + Seq::<char>::empty() =~= before);
                break ;
            },
        };
        index += 1;
        if ch != '\\' {
            push_literal(&mut unescaped, ch, escape_control_characters);
            proof {
                lemma_literal_step(rest, consumed, escape_control_characters);
                lemma_with_prefix_twice(
                    before,
                    literal_output(ch, escape_control_characters),
                    unescaped_from(rest.skip(1), consumed + 1, escape_control_characters),
                );
            }
            continue ;
        }
        proof {
            lemma_backslash_step(rest, consumed, escape_control_characters);
        }
        let escaped = chars.next().unwrap();
        index += 1;

        if escaped != 'u' {
            push_simple_escape(&mut unescaped, escaped, escape_control_characters);
            proof {
                lemma_with_prefix_twice(
                    before,
                    simple_escape_output(escaped, escape_control_characters),
                    unescaped_from(rest.skip(2), consumed + 2, escape_control_characters),
                );
            }
            continue ;
        }
        let (codepoint, codepoint_chars) = parse_codepoint_from_chars(&mut chars);
        index += 4;
        proof {
            lemma_unicode_step(rest, consumed, escape_control_characters);
        }

        match decode_codepoint(codepoint) {
            DecodedCodepoint::Char(ch) => {
                push_unicode_escape(
                    &mut unescaped,
                    ch,
                    &codepoint_chars,
                    escape_control_characters,
                );
                proof {
                    lemma_with_prefix_twice(
                        before,
                        unicode_escape_output(
                            ch,
                            rest.subrange(2, 6),
                            escape_control_characters,
                        ),
                        unescaped_from(rest.skip(6), consumed + 6, escape_control_characters),
                    );
                }
            },
            DecodedCodepoint::LowSurrogate(_) => {
                return Err(
                    UnescapeError::new(
                        index - 6,
                        codepoint_chars,
                        UnicodeError::UnexpectedLowSurrogate,
                    ),
                );
            },
            DecodedCodepoint::HighSurrogate(hs) => {
                proof {
                    lemma_surrogate_step(rest, consumed, escape_control_characters);
                }
                let first = chars.next();
                let second = chars.next();
                let paired = match (first, second) {
                    (Some(c0), Some(c1)) => c0 == '\\' && c1 == 'u',
                    _ => false,
                };
                if !paired {
                    if first.is_some() {
                        index += 1;
                    }
                    if second.is_some() {
                        index += 1;
                    }
                    return Err(
                        UnescapeError::new(
                            index,
                            codepoint_chars,
                            UnicodeError::UnmatchedHighSurrogate,
                        ),
                    );
                }
                index += 2;
                let (codepoint, _) = parse_codepoint_from_chars(&mut chars);
                index += 4;

                match decode_codepoint(codepoint) {
                    DecodedCodepoint::LowSurrogate(ls) => {
                        let codepoint: u32 = (hs as u32) * 0x400 + (ls as u32) + 0x10000;
                        unescaped.push(char::from_u32(codepoint).unwrap());
                        proof {
                            let ghost piece = seq![surrogate_pair_char(hs, ls)];
                            assert(unescaped@ =~= before + piece);
                            lemma_with_prefix_twice(
                                before,
                                piece,
                                unescaped_from(
                                    rest.skip(12),
                                    consumed + 12,
                                    escape_control_characters,
                                ),
                            );
                        }
                    },
                    _ => {
                        return Err(
                            UnescapeError::new(
                                index,
                                codepoint_chars,
                                UnicodeError::UnmatchedHighSurrogate,
                            ),
                        );
                    },
                }
            },
        }
    }

    Ok(unescaped)
}

/// Unescapes `s` and keeps control characters in escaped form.
pub fn safe_unescape_json_string(s: &str) -> (r: Result<String, UnescapeError>)
    requires
        valid_escaped_text(s@),
    ensures
        match unescaped_text(s@, true) {
            Ok(text) => r matches Ok(unescaped) && unescaped@ == text,
            Err(failure) => r matches Err(e) && e@ == failure,
        },
{
    unescape_json_string(s, true)
}

/// Unescapes `s` fully: control characters come out raw.
pub fn unsafe_unescape_json_string(s: &str) -> (r: Result<String, UnescapeError>)
    requires
        valid_escaped_text(s@),
    ensures
        match unescaped_text(s@, false) {
            Ok(text) => r matches Ok(unescaped) && unescaped@ == text,
            Err(failure) => r matches Err(e) && e@ == failure,
        },
{
    unescape_json_string(s, false)
}

/// Unescapes `s` as [`safe_unescape_json_string`] does, and returns `s`
/// itself where that fails.
pub fn unescape_json_string_unwrap(s: &str) -> (r: String)
    requires
        valid_escaped_text(s@),
    ensures
        r@ == match unescaped_text(s@, true) {
            Ok(text) => text,
            Err(_) => s@,
        },
{
    match unescape_json_string(s, true) {
        Ok(unescaped) => unescaped,
        Err(_) => s.to_owned(),
    }
}

} // verus!
