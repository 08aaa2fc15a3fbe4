//! From a text to the escaped text that denotes it.

use vstd::prelude::*;
use vstd::std_specs::iter::IteratorSpec;

verus! {

/// The printable characters of ASCII, the space left out.
pub open spec fn is_ascii_graphic_char(c: char) -> bool {
    '!' <= c <= '~'
}

/// The lower-case hexadecimal digit of a value below 16.
pub open spec fn lower_hex_digit(d: nat) -> char
    recommends
        d < 16,
{
    if d < 10 {
        ('0' as nat + d) as char
    } else {
        ('a' as nat + d - 10) as char
    }
}

/// The four lower-case hexadecimal digits of a 16-bit value.
pub open spec fn lower_hex_quad(unit: u16) -> Seq<char> {
    seq![
        lower_hex_digit(unit as nat / 0x1000),
        lower_hex_digit(unit as nat / 0x100 % 0x10),
        lower_hex_digit(unit as nat / 0x10 % 0x10),
        lower_hex_digit(unit as nat % 0x10),
    ]
}

/// Whether a character lies above the Basic Multilingual Plane, so that
/// UTF-16 encodes it as a surrogate pair.
pub open spec fn is_supplementary(c: char) -> bool {
    c as u32 >= 0x10000
}

/// The high surrogate of a supplementary character.
pub open spec fn high_unit(c: char) -> u16
    recommends
        is_supplementary(c),
{
    (0xD800 + (c as u32 - 0x10000) / 0x400) as u16
}

/// The low surrogate of a supplementary character.
pub open spec fn low_unit(c: char) -> u16
    recommends
        is_supplementary(c),
{
    (0xDC00 + (c as u32 - 0x10000) % 0x400) as u16
}

/// The escape of one UTF-16 code unit: `backslash`, a `u`, four digits.
pub open spec fn unit_escape(unit: u16, backslash: Seq<char>) -> Seq<char> {
    backslash.push('u') + lower_hex_quad(unit)
}

/// The escapes of the UTF-16 code units of `c`, one after the other.
pub open spec fn unicode_escape(c: char, backslash: Seq<char>) -> Seq<char> {
    if is_supplementary(c) {
        unit_escape(high_unit(c), backslash) + unit_escape(low_unit(c), backslash)
    } else {
        unit_escape(c as u16, backslash)
    }
}

/// The escaped form of one character: two characters for the backspace,
/// the form feed, the line feed, the carriage return, the tab and the
/// quotation mark, the character itself for the space and the printable
/// characters of ASCII, and `\uXXXX` escapes for all others. The backslash
/// is printable and stands for itself: it is not doubled.
pub open spec fn escaped_char(c: char) -> Seq<char> {
    if c == '\u{8}' {
        seq!['\\', 'b']
    } else if c == '\u{c}' {
        seq!['\\', 'f']
    } else if c == '\n' {
        seq!['\\', 'n']
    } else if c == '\r' {
        seq!['\\', 'r']
    } else if c == '\t' {
        seq!['\\', 't']
    } else if c == '"' {
        seq!['\\', '"']
    } else if c == ' ' || is_ascii_graphic_char(c) {
        seq![c]
    } else {
        unicode_escape(c, seq!['\\'])
    }
}

/// The escaped form of a text: those of its characters, in order.
pub open spec fn escaped_text(s: Seq<char>) -> Seq<char>
    decreases s.len(),
{
    if s.len() == 0 {
        Seq::empty()
    } else {
        escaped_text(s.drop_last()) + escaped_char(s.last())
    }
}

/// The form of one character inside a regular expression: ASCII stays,
/// anything else is escaped with a doubled backslash.
pub open spec fn regex_escaped_char(c: char) -> Seq<char> {
    if c <= '\u{7f}' {
        seq![c]
    } else {
        unicode_escape(c, seq!['\\', '\\'])
    }
}

/// The form of a text inside a regular expression: those of its
/// characters, in order.
pub open spec fn regex_escaped_text(s: Seq<char>) -> Seq<char>
    decreases s.len(),
{
    if s.len() == 0 {
        Seq::empty()
    } else {
        regex_escaped_text(s.drop_last()) + regex_escaped_char(s.last())
    }
}

/// Escaping goes character by character: the escaped form of two texts
/// joined is that of the first, then that of the second.
pub proof fn lemma_escaped_text_concat(a: Seq<char>, b: Seq<char>)
    ensures
        escaped_text(a + b) == escaped_text(a) + escaped_text(b),
    decreases b.len(),
{
    if b.len() == 0 {
        assert(a + b =~= a);
        assert(escaped_text(a) + escaped_text(b) =~= escaped_text(a));
    } else {
        lemma_escaped_text_concat(a, b.drop_last());
        assert((a + b).drop_last() =~= a + b.drop_last());
        assert(escaped_text(a + b) =~= escaped_text(a) + escaped_text(b));
    }
}

/// The escaped form of a text of one character is that of the character.
pub proof fn lemma_escaped_text_single(c: char)
    ensures
        escaped_text(seq![c]) == escaped_char(c),
{
    reveal_with_fuel(escaped_text, 2);
    assert(escaped_text(seq![c]) =~= escaped_char(c));
}

/// The escaped form of a text begins with that of its first character.
pub proof fn lemma_escaped_text_front(s: Seq<char>)
    requires
        s.len() > 0,
    ensures
        escaped_text(s) == escaped_char(s[0]) + escaped_text(s.skip(1)),
{
    assert(s =~= seq![s[0]] + s.skip(1));
    lemma_escaped_text_concat(seq![s[0]], s.skip(1));
    lemma_escaped_text_single(s[0]);
}

/// The lower-case hexadecimal digit of a value below 16.
fn lower_hex_char(d: u16) -> (c: char)
    requires
        d < 16,
    ensures
        c == lower_hex_digit(d as nat),
{
    let d8: u8 = d as u8;
    if d8 < 10 {
        (('0' as u8) + d8) as char
    } else {
        (('a' as u8) + (d8 - 10)) as char
    }
}

/// Appends `backslash`, a `u` and the four digits of `unit`.
fn push_unit_escape(escaped: &mut String, unit: u16, backslash: &str)
    ensures
        final(escaped)@ == old(escaped)@ + unit_escape(unit, backslash@),
{
    escaped.append(backslash);
    escaped.push('u');
    escaped.push(lower_hex_char(unit / 0x1000));
    escaped.push(lower_hex_char(unit / 0x100 % 0x10));
    escaped.push(lower_hex_char(unit / 0x10 % 0x10));
    escaped.push(lower_hex_char(unit % 0x10));
    assert(escaped@ =~= old(escaped)@ + unit_escape(unit, backslash@));
}

/// Appends the escapes of the UTF-16 code units of `c`, each begun by
/// `backslash`.
pub fn escape_json_unicode(escaped: &mut String, c: char, backslash: &str)
    ensures
        final(escaped)@ == old(escaped)@ + unicode_escape(c, backslash@),
{
    let v: u32 = c as u32;
    if v >= 0x10000 {
        let offset: u32 = v - 0x10000;
        push_unit_escape(escaped, (0xD800 + offset / 0x400) as u16, backslash);
        push_unit_escape(escaped, (0xDC00 + offset % 0x400) as u16, backslash);
        assert(escaped@ =~= old(escaped)@ + unicode_escape(c, backslash@));
    } else {
        push_unit_escape(escaped, v as u16, backslash);
    }
}

fn is_ascii_graphic(c: char) -> (b: bool)
    ensures
        b == is_ascii_graphic_char(c),
{
    '!' <= c && c <= '~'
}

/// Appends the escaped form of `c`.
fn push_escaped_char(escaped: &mut String, c: char)
    ensures
        final(escaped)@ == old(escaped)@ + escaped_char(c),
{
    if c == '\u{8}' {
        escaped.push('\\');
        escaped.push('b');
    } else if c == '\u{c}' {
        escaped.push('\\');
        escaped.push('f');
    } else if c == '\n' {
        escaped.push('\\');
        escaped.push('n');
    } else if c == '\r' {
        escaped.push('\\');
        escaped.push('r');
    } else if c == '\t' {
        escaped.push('\\');
        escaped.push('t');
    } else if c == '"' {
        escaped.push('\\');
        escaped.push('"');
    } else if c == '\\' {
        escaped.push('\\');
    } else if c == ' ' {
        escaped.push(' ');
    } else if is_ascii_graphic(c) {
        escaped.push(c);
    } else {
        proof {
            reveal_strlit("\\");
            assert("\\"@ =~= seq!['\\']);
        }
        escape_json_unicode(escaped, c, "\\");
    }
    assert(escaped@ =~= old(escaped)@ + escaped_char(c));
}

/// Escapes `src` for a JSON string.
pub fn escape_json_string(src: &str) -> (escaped: String)
    ensures
        escaped@ == escaped_text(src@),
{
    let mut escaped = String::new();
    let mut chars = src.chars();
    let ghost mut done: int = 0;
    assert(src@.take(0) =~= Seq::<char>::empty());
    assert(src@.skip(0) =~= src@);
    loop
        invariant
            0 <= done <= src@.len(),
            chars.remaining() == src@.skip(done),
            escaped@ == escaped_text(src@.take(done)),
        ensures
            escaped@ == escaped_text(src@),
        decreases src@.len() - done,
    {
        match chars.next() {
            Some(c) => {
                push_escaped_char(&mut escaped, c);
                proof {
                    assert(src@.take(done + 1).drop_last() =~= src@.take(done));
                    assert(src@.skip(done).drop_first() =~= src@.skip(done + 1));
                    done = done + 1;
                }
            },
            None => {
                assert(src@.take(done) =~= src@);
                break ;
            },
        }
    }
    escaped
}

/// Appends the form that `c` has inside a regular expression.
fn push_regex_escaped_char(escaped: &mut String, c: char)
    ensures
        final(escaped)@ == old(escaped)@ + regex_escaped_char(c),
{
    if c <= '\u{7f}' {
        escaped.push(c);
    } else {
        proof {
            reveal_strlit("\\\\");
            assert("\\\\"@ =~= seq!['\\', '\\']);
        }
        escape_json_unicode(escaped, c, "\\\\");
    }
    assert(escaped@ =~= old(escaped)@ + regex_escaped_char(c));
}

/// Escapes the characters of `src` outside ASCII, with doubled
/// backslashes, for use inside a regular expression.
pub fn escape_unicode_for_regex(src: &str) -> (escaped: String)
    ensures
        escaped@ == regex_escaped_text(src@),
{
    let mut escaped = String::new();
    let mut chars = src.chars();
    let ghost mut done: int = 0;
    assert(src@.take(0) =~= Seq::<char>::empty());
    assert(src@.skip(0) =~= src@);
    loop
        invariant
            0 <= done <= src@.len(),
            chars.remaining() == src@.skip(done),
            escaped@ == regex_escaped_text(src@.take(done)),
        ensures
            escaped@ == regex_escaped_text(src@),
        decreases src@.len() - done,
    {
        match chars.next() {
            Some(c) => {
                push_regex_escaped_char(&mut escaped, c);
                proof {
                    assert(src@.take(done + 1).drop_last() =~= src@.take(done));
                    assert(src@.skip(done).drop_first() =~= src@.skip(done + 1));
                    done = done + 1;
                }
            },
            None => {
                assert(src@.take(done) =~= src@);
                break ;
            },
        }
    }
    escaped
}

} // verus!
