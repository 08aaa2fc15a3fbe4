//! Unescaping undoes escaping.

use crate::codepoint::{
    decoded, hex_digit_value, hex_quad_value, is_control_char, is_hex_digit, is_hex_quad,
    DecodedCodepoint,
};
use crate::error::UnescapeFailure;
use crate::escape::{
    escaped_char, escaped_text, high_unit, is_supplementary, lemma_escaped_text_concat,
    lemma_escaped_text_front, low_unit, lower_hex_digit, lower_hex_quad, unit_escape,
};
use crate::unescape::{
    lemma_with_prefix_twice, unescaped_from, unescaped_text, well_formed_escapes, with_prefix,
};
use vstd::prelude::*;

verus! {

/// Whether `s` holds no control character.
pub open spec fn free_of_control_chars(s: Seq<char>) -> bool {
    forall|i: int| 0 <= i < s.len() ==> !is_control_char(#[trigger] s[i])
}

/// Whether a quotation mark stands directly after position `i` of `s`.
pub open spec fn quote_follows(s: Seq<char>, i: int) -> bool {
    i + 1 < s.len() && s[i + 1] == '"'
}

/// Whether a `u` and four hexadecimal digits that denote a control
/// character stand directly after position `i` of `s`.
pub open spec fn control_escape_follows(s: Seq<char>, i: int) -> bool {
    &&& i + 6 <= s.len()
    &&& s[i + 1] == 'u'
    &&& is_hex_quad(s.subrange(i + 2, i + 6))
    &&& {
        let value = hex_quad_value(s.subrange(i + 2, i + 6));
        value <= 0x1F || 0x7F <= value <= 0x9F
    }
}

/// Whether a backslash at position `i` of `s` stands in one of the places
/// from which escaping and unescaping bring it back. Escaping leaves a
/// backslash as it is, so that unescaping reads it as the start of an
/// escape, with what follows it in the escaped text.
///
/// Before a quotation mark this does no harm: the mark is escaped, its
/// backslash is read with the first as an escaped backslash, and the mark
/// then stands for itself. Where control characters are kept escaped two
/// more cases do none, because unescaping leaves the escape as it finds it:
/// before a `b`, and before a `u` and four digits that denote a control
/// character.
pub open spec fn backslash_survives(s: Seq<char>, i: int, escape_control: bool) -> bool {
    ||| quote_follows(s, i)
    ||| escape_control && i + 1 < s.len() && s[i + 1] == 'b'
    ||| escape_control && control_escape_follows(s, i)
}

/// Whether every backslash of `s` stands in such a place.
pub open spec fn backslashes_survive(s: Seq<char>, escape_control: bool) -> bool {
    forall|i: int|
        0 <= i < s.len() && s[i] == '\\' ==> #[trigger] backslash_survives(s, i, escape_control)
}

/// A lower-case digit is read back as the value it was made from.
proof fn lemma_lower_hex_digit_value(d: nat)
    requires
        d < 16,
    ensures
        is_hex_digit(lower_hex_digit(d)),
        hex_digit_value(lower_hex_digit(d)) == d,
{
}

/// A 16-bit value is made up of its four hexadecimal digits.
proof fn lemma_hex_digits_make_up(n: nat)
    requires
        n < 0x10000,
    ensures
        n / 0x1000 < 16,
        n / 0x100 % 0x10 < 16,
        n / 0x10 % 0x10 < 16,
        n % 0x10 < 16,
        0x1000 * (n / 0x1000) + 0x100 * (n / 0x100 % 0x10) + 0x10 * (n / 0x10 % 0x10) + n % 0x10
            == n,
{
}

/// Four lower-case digits are read back as the value they were made from.
pub proof fn lemma_lower_hex_quad_value(unit: u16)
    ensures
        is_hex_quad(lower_hex_quad(unit)),
        hex_quad_value(lower_hex_quad(unit)) == unit,
{
    let n = unit as nat;
    lemma_hex_digits_make_up(n);
    lemma_lower_hex_digit_value(n / 0x1000);
    lemma_lower_hex_digit_value(n / 0x100 % 0x10);
    lemma_lower_hex_digit_value(n / 0x10 % 0x10);
    lemma_lower_hex_digit_value(n % 0x10);
}

/// The escape of one code unit that is no surrogate is read back as the
/// character with that value.
proof fn lemma_unit_round_trip(c: char, tail: Seq<char>, consumed: nat, escape_control: bool)
    requires
        !is_supplementary(c),
        escape_control ==> !is_control_char(c),
        well_formed_escapes(tail),
    ensures
        well_formed_escapes(unit_escape(c as u16, seq!['\\']) + tail),
        unescaped_from(unit_escape(c as u16, seq!['\\']) + tail, consumed, escape_control)
            == with_prefix(seq![c], unescaped_from(tail, consumed + 6, escape_control)),
{
    let unit = c as u16;
    let text = unit_escape(unit, seq!['\\']) + tail;
    lemma_lower_hex_quad_value(unit);
    assert(text.subrange(2, 6) =~= lower_hex_quad(unit));
    assert(text.skip(6) =~= tail);
    assert(text[0] == '\\' && text[1] == 'u');
    assert(decoded(unit) == DecodedCodepoint::Char(c));
}

/// The two escapes of a surrogate pair are read back as the character
/// that the pair encodes.
proof fn lemma_pair_round_trip(c: char, tail: Seq<char>, consumed: nat, escape_control: bool)
    requires
        is_supplementary(c),
        well_formed_escapes(tail),
    ensures
        well_formed_escapes(
            unit_escape(high_unit(c), seq!['\\']) + unit_escape(low_unit(c), seq!['\\']) + tail,
        ),
        unescaped_from(
            unit_escape(high_unit(c), seq!['\\']) + unit_escape(low_unit(c), seq!['\\']) + tail,
            consumed,
            escape_control,
        ) == with_prefix(seq![c], unescaped_from(tail, consumed + 12, escape_control)),
{
    let high = high_unit(c);
    let low = low_unit(c);
    let text = unit_escape(high, seq!['\\']) + unit_escape(low, seq!['\\']) + tail;
    lemma_lower_hex_quad_value(high);
    lemma_lower_hex_quad_value(low);
    assert(text.subrange(2, 6) =~= lower_hex_quad(high));
    assert(text.subrange(8, 12) =~= lower_hex_quad(low));
    assert(text.skip(6) =~= unit_escape(low, seq!['\\']) + tail);
    assert(text.skip(6).subrange(2, 6) =~= lower_hex_quad(low));
    assert(text.skip(6).skip(6) =~= tail);
    assert(text.skip(12) =~= tail);
    assert(text[0] == '\\' && text[1] == 'u' && text[6] == '\\' && text[7] == 'u');
    let offset = (c as u32 - 0x10000) as int;
    assert(0 <= offset < 0x100000);
    assert(decoded(high) == DecodedCodepoint::HighSurrogate((offset / 0x400) as u16));
    assert(decoded(low) == DecodedCodepoint::LowSurrogate((offset % 0x400) as u16));
    assert((offset / 0x400) * 0x400 + offset % 0x400 + 0x10000 == c as u32);
    assert(well_formed_escapes(text.skip(6)));
}

/// The escaped form of a character other than the backslash is read back
/// as that character.
proof fn lemma_char_round_trip(c: char, tail: Seq<char>, consumed: nat, escape_control: bool)
    requires
        c != '\\',
        escape_control ==> !is_control_char(c),
        well_formed_escapes(tail),
    ensures
        well_formed_escapes(escaped_char(c) + tail),
        unescaped_from(escaped_char(c) + tail, consumed, escape_control) == with_prefix(
            seq![c],
            unescaped_from(tail, consumed + escaped_char(c).len(), escape_control),
        ),
{
    let piece = escaped_char(c);
    let text = piece + tail;
    if c == '\u{8}' || c == '\u{c}' || c == '\n' || c == '\r' || c == '\t' || c == '"' {
        assert(text[0] == '\\' && text[1] == piece[1]);
        assert(text.skip(2) =~= tail);
    } else if c == ' ' || '!' <= c <= '~' {
        assert(text[0] == c);
        assert(text.skip(1) =~= tail);
    } else if is_supplementary(c) {
        lemma_pair_round_trip(c, tail, consumed, escape_control);
    } else {
        lemma_unit_round_trip(c, tail, consumed, escape_control);
    }
}

/// A backslash before a quotation mark: escaped, the two are `\\"`, which
/// is read back as an escaped backslash and a quotation mark.
proof fn lemma_backslash_quote_round_trip(tail: Seq<char>, consumed: nat, escape_control: bool)
    requires
        well_formed_escapes(tail),
    ensures
        well_formed_escapes(seq!['\\', '\\', '"'] + tail),
        unescaped_from(seq!['\\', '\\', '"'] + tail, consumed, escape_control) == with_prefix(
            seq!['\\', '"'],
            unescaped_from(tail, consumed + 3, escape_control),
        ),
{
    let text = seq!['\\', '\\', '"'] + tail;
    let rest = text.skip(2);
    assert(text[0] == '\\' && text[1] == '\\');
    assert(rest[0] == '"');
    assert(rest.skip(1) =~= tail);
    assert(well_formed_escapes(rest));
    assert(unescaped_from(rest, consumed + 2, escape_control) == with_prefix(
        seq!['"'],
        unescaped_from(tail, consumed + 3, escape_control),
    ));
    assert(unescaped_from(text, consumed, escape_control) == with_prefix(
        seq!['\\'],
        unescaped_from(rest, consumed + 2, escape_control),
    ));
    lemma_with_prefix_twice(
        seq!['\\'],
        seq!['"'],
        unescaped_from(tail, consumed + 3, escape_control),
    );
    assert(seq!['\\'] + seq!['"'] =~= seq!['\\', '"']);
}

/// What holds of a text in this respect holds of each of its suffixes.
proof fn lemma_suffix_keeps_hypotheses(s: Seq<char>, k: int, escape_control: bool)
    requires
        0 <= k <= s.len(),
        backslashes_survive(s, escape_control),
    ensures
        backslashes_survive(s.skip(k), escape_control),
        free_of_control_chars(s) ==> free_of_control_chars(s.skip(k)),
{
    let tail = s.skip(k);
    assert forall|i: int| 0 <= i < tail.len() && tail[i] == '\\' implies #[trigger] backslash_survives(
        tail,
        i,
        escape_control,
    ) by {
        assert(backslash_survives(s, i + k, escape_control));
        if i + 6 <= tail.len() {
            assert(tail.subrange(i + 2, i + 6) =~= s.subrange(i + k + 2, i + k + 6));
        }
    }
    if free_of_control_chars(s) {
        assert forall|i: int| 0 <= i < tail.len() implies !is_control_char(#[trigger] tail[i]) by {
            assert(!is_control_char(s[i + k]));
        }
    }
}

/// The first step of the round trip, with control characters kept
/// escaped, on a text that begins with a backslash and a `b`.
proof fn lemma_front_backspace_escape(s: Seq<char>, consumed: nat)
    requires
        s.len() >= 2,
        s[0] == '\\',
        s[1] == 'b',
        well_formed_escapes(escaped_text(s.skip(2))),
    ensures
        well_formed_escapes(escaped_text(s)),
        unescaped_from(escaped_text(s), consumed, true) == with_prefix(
            seq!['\\', 'b'],
            unescaped_from(escaped_text(s.skip(2)), consumed + 2, true),
        ),
{
    let tail = escaped_text(s.skip(2));
    lemma_escaped_text_front(s);
    lemma_escaped_text_front(s.skip(1));
    assert(s.skip(1).skip(1) =~= s.skip(2));
    let text = seq!['\\', 'b'] + tail;
    assert(escaped_text(s) =~= text);
    assert(text[0] == '\\' && text[1] == 'b');
    assert(text.skip(2) =~= tail);
}

/// A text of printable ASCII without quotation marks is its own escaped
/// form.
proof fn lemma_escaped_text_of_plain(s: Seq<char>)
    requires
        forall|i: int| 0 <= i < s.len() ==> ' ' <= #[trigger] s[i] <= '~' && s[i] != '"',
    ensures
        escaped_text(s) == s,
    decreases s.len(),
{
    if s.len() > 0 {
        lemma_escaped_text_of_plain(s.drop_last());
        assert(escaped_text(s) =~= s);
    }
}

/// The first step of the round trip, with control characters kept
/// escaped, on a text that begins with what reads as the escape of a
/// control character.
proof fn lemma_front_control_escape(s: Seq<char>, consumed: nat)
    requires
        s.len() >= 1,
        s[0] == '\\',
        control_escape_follows(s, 0),
        well_formed_escapes(escaped_text(s.skip(6))),
    ensures
        well_formed_escapes(escaped_text(s)),
        unescaped_from(escaped_text(s), consumed, true) == with_prefix(
            s.take(6),
            unescaped_from(escaped_text(s.skip(6)), consumed + 6, true),
        ),
{
    let head = s.take(6);
    let digits = s.subrange(2, 6);
    let tail = escaped_text(s.skip(6));
    assert(s =~= head + s.skip(6));
    lemma_escaped_text_concat(head, s.skip(6));
    assert forall|i: int| 0 <= i < head.len() implies ' ' <= #[trigger] head[i] <= '~' && head[i]
        != '"' by {
        if i >= 2 {
            assert(head[i] == digits[i - 2]);
        }
    }
    lemma_escaped_text_of_plain(head);
    let text = head + tail;
    assert(text[0] == '\\' && text[1] == 'u');
    assert(text.subrange(2, 6) =~= digits);
    assert(text.skip(6) =~= tail);
    assert(seq!['\\', 'u'] + digits =~= head);
}

/// The first step of the round trip on a text that begins with a backslash
/// and a quotation mark.
proof fn lemma_front_backslash(s: Seq<char>, consumed: nat, escape_control: bool)
    requires
        s.len() >= 2,
        s[0] == '\\',
        s[1] == '"',
        well_formed_escapes(escaped_text(s.skip(2))),
    ensures
        well_formed_escapes(escaped_text(s)),
        unescaped_from(escaped_text(s), consumed, escape_control) == with_prefix(
            seq!['\\', '"'],
            unescaped_from(escaped_text(s.skip(2)), consumed + 3, escape_control),
        ),
{
    lemma_escaped_text_front(s);
    lemma_escaped_text_front(s.skip(1));
    assert(s.skip(1).skip(1) =~= s.skip(2));
    assert(escaped_text(s) =~= seq!['\\', '\\', '"'] + escaped_text(s.skip(2)));
    lemma_backslash_quote_round_trip(escaped_text(s.skip(2)), consumed, escape_control);
}

/// The first step of the round trip on a text that begins with another
/// character.
proof fn lemma_front_other(s: Seq<char>, consumed: nat, escape_control: bool)
    requires
        s.len() >= 1,
        s[0] != '\\',
        escape_control ==> !is_control_char(s[0]),
        well_formed_escapes(escaped_text(s.skip(1))),
    ensures
        well_formed_escapes(escaped_text(s)),
        unescaped_from(escaped_text(s), consumed, escape_control) == with_prefix(
            seq![s[0]],
            unescaped_from(
                escaped_text(s.skip(1)),
                consumed + escaped_char(s[0]).len(),
                escape_control,
            ),
        ),
{
    lemma_escaped_text_front(s);
    lemma_char_round_trip(s[0], escaped_text(s.skip(1)), consumed, escape_control);
}

proof fn lemma_round_trip_from(s: Seq<char>, consumed: nat, escape_control: bool)
    requires
        escape_control ==> free_of_control_chars(s),
        backslashes_survive(s, escape_control),
    ensures
        well_formed_escapes(escaped_text(s)),
        unescaped_from(escaped_text(s), consumed, escape_control) == Ok::<
            Seq<char>,
            UnescapeFailure,
        >(s),
    decreases s.len(),
{
    if s.len() == 0 {
        assert(s =~= Seq::<char>::empty());
    } else if s[0] != '\\' {
        lemma_suffix_keeps_hypotheses(s, 1, escape_control);
        lemma_round_trip_from(
            s.skip(1),
            consumed + escaped_char(s[0]).len(),
            escape_control,
        );
        lemma_front_other(s, consumed, escape_control);
        assert(seq![s[0]] + s.skip(1) =~= s);
    } else {
        assert(backslash_survives(s, 0, escape_control));
        if quote_follows(s, 0) {
            lemma_suffix_keeps_hypotheses(s, 2, escape_control);
            lemma_round_trip_from(s.skip(2), consumed + 3, escape_control);
            lemma_front_backslash(s, consumed, escape_control);
            assert(seq!['\\', '"'] + s.skip(2) =~= s);
        } else if s.len() >= 2 && s[1] == 'b' {
            lemma_suffix_keeps_hypotheses(s, 2, escape_control);
            lemma_round_trip_from(s.skip(2), consumed + 2, escape_control);
            lemma_front_backspace_escape(s, consumed);
            assert(seq!['\\', 'b'] + s.skip(2) =~= s);
        } else {
            lemma_suffix_keeps_hypotheses(s, 6, escape_control);
            lemma_round_trip_from(s.skip(6), consumed + 6, escape_control);
            lemma_front_control_escape(s, consumed);
            assert(s.take(6) + s.skip(6) =~= s);
        }
    }
}

/// Round trip: unescaping the escaped form of a text gives the text back,
/// whether control characters are kept escaped or not. This holds of every
/// text without control characters whose backslashes all survive; the
/// escaped form then has well-formed escapes.
pub proof fn lemma_unescape_inverts_escape(s: Seq<char>, escape_control: bool)
    requires
        free_of_control_chars(s),
        backslashes_survive(s, escape_control),
    ensures
        well_formed_escapes(escaped_text(s)),
        unescaped_text(escaped_text(s), escape_control) == Ok::<Seq<char>, UnescapeFailure>(s),
{
    lemma_round_trip_from(s, 0, escape_control);
}

/// Round trip with control characters: where unescaping decodes them, it
/// gives back every text in which each backslash stands before a quotation
/// mark, control characters included.
pub proof fn lemma_full_unescape_inverts_escape(s: Seq<char>)
    requires
        backslashes_survive(s, false),
    ensures
        well_formed_escapes(escaped_text(s)),
        unescaped_text(escaped_text(s), false) == Ok::<Seq<char>, UnescapeFailure>(s),
{
    lemma_round_trip_from(s, 0, false);
}

} // verus!
