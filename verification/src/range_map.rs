//! From a byte range of the escaped text to the characters that it touches.

use crate::escape::{
    escaped_char, escaped_text, lemma_escaped_text_concat, lemma_escaped_text_single,
    lower_hex_digit,
};
use crate::utf8_len::{
    lemma_bytes_between_prefixes, lemma_prefix_ends_on_char_boundary, lemma_utf8_len_step,
    len_utf8, utf8_len,
};
use std::ops::Range;
use vstd::prelude::*;
use vstd::std_specs::iter::IteratorSpec;
use vstd::utf8::{
    decode_utf8, encode_utf8, is_ascii_chars, is_ascii_chars_concat, is_ascii_chars_encode_utf8,
    is_char_boundary,
};

verus! {

/// The length of the escaped form of `s`.
pub open spec fn escaped_len(s: Seq<char>) -> nat {
    escaped_text(s).len()
}

/// The number of leading characters of `s` whose escaped forms end at or
/// before the offset `escaped_start` of the escaped text: the index of the
/// first character that reaches beyond it, or the length of `s`.
pub open spec fn start_index(s: Seq<char>, escaped_start: int) -> nat
    decreases s.len(),
{
    if s.len() == 0 || escaped_char(s[0]).len() > escaped_start {
        0
    } else {
        1 + start_index(s.skip(1), escaped_start - escaped_char(s[0]).len())
    }
}

/// The number of leading characters of `s` that it takes for their escaped
/// forms to reach the offset `escaped_end`: at least one, where there is
/// one, and all of `s` where they never reach it.
pub open spec fn span_len(s: Seq<char>, escaped_end: int) -> nat
    decreases s.len(),
{
    if s.len() == 0 {
        0
    } else if escaped_char(s[0]).len() >= escaped_end {
        1
    } else {
        1 + span_len(s.skip(1), escaped_end - escaped_char(s[0]).len())
    }
}

/// The index at which the characters end that the escaped range
/// `escaped_start..escaped_end` is mapped to.
pub open spec fn end_index(s: Seq<char>, escaped_start: int, escaped_end: int) -> nat {
    let i = start_index(s, escaped_start);
    i + span_len(s.skip(i as int), escaped_end - escaped_len(s.take(i as int)))
}

/// The escaped form of a character has 1, 2, 6 or 12 characters.
pub proof fn lemma_escaped_char_len(c: char)
    ensures
        escaped_char(c).len() == 1 || escaped_char(c).len() == 2 || escaped_char(c).len() == 6
            || escaped_char(c).len() == 12,
{
}

/// Escaping makes a text no shorter, and at most twelve times as long.
pub proof fn lemma_escaped_len_bounds(s: Seq<char>)
    ensures
        s.len() <= escaped_len(s) <= 12 * s.len(),
    decreases s.len(),
{
    if s.len() > 0 {
        lemma_escaped_len_bounds(s.drop_last());
        lemma_escaped_char_len(s.last());
    }
}

/// One prefix more takes the escaped form of one character more.
pub proof fn lemma_escaped_len_step(s: Seq<char>, k: int)
    requires
        0 <= k < s.len(),
    ensures
        escaped_len(s.take(k + 1)) == escaped_len(s.take(k)) + escaped_char(s[k]).len(),
{
    assert(s.take(k + 1).drop_last() =~= s.take(k));
}

/// The escaped form of a prefix is no longer than that of the whole.
pub proof fn lemma_escaped_len_of_prefix(s: Seq<char>, k: int)
    requires
        0 <= k <= s.len(),
    ensures
        escaped_len(s.take(k)) <= escaped_len(s),
{
    assert(s =~= s.take(k) + s.skip(k));
    lemma_escaped_text_concat(s.take(k), s.skip(k));
}

/// The escaped form of a text holds ASCII only.
pub proof fn lemma_escaped_text_is_ascii(s: Seq<char>)
    ensures
        is_ascii_chars(escaped_text(s)),
    decreases s.len(),
{
    if s.len() > 0 {
        lemma_escaped_text_is_ascii(s.drop_last());
        let c = s.last();
        let piece = escaped_char(c);
        assert forall|d: nat| d < 16 implies #[trigger] lower_hex_digit(d) <= '\u{7f}' by {}
        assert(is_ascii_chars(piece));
        is_ascii_chars_concat(escaped_text(s), escaped_text(s.drop_last()), piece);
    }
}

/// The escaped forms of the characters between two indices stand between
/// the escaped forms of the two prefixes.
pub proof fn lemma_escaped_between_prefixes(s: Seq<char>, i: int, j: int)
    requires
        0 <= i <= j <= s.len(),
    ensures
        escaped_len(s.take(i)) <= escaped_len(s.take(j)) <= escaped_len(s),
        escaped_text(s).subrange(escaped_len(s.take(i)) as int, escaped_len(s.take(j)) as int)
            == escaped_text(s.subrange(i, j)),
{
    let head = s.take(i);
    let middle = s.subrange(i, j);
    let tail = s.skip(j);
    assert(s.take(j) =~= head + middle);
    assert(s =~= s.take(j) + tail);
    lemma_escaped_text_concat(head, middle);
    lemma_escaped_text_concat(s.take(j), tail);
    assert(escaped_text(s).subrange(escaped_len(head) as int, escaped_len(s.take(j)) as int)
        =~= escaped_text(middle));
}

/// In the UTF-8 form of an ASCII text each character is one byte.
proof fn lemma_ascii_bytes_between(x: Seq<char>, a: int, b: int)
    requires
        is_ascii_chars(x),
        0 <= a <= b <= x.len(),
    ensures
        encode_utf8(x).subrange(a, b) == encode_utf8(x.subrange(a, b)),
{
    is_ascii_chars_concat(x, x.take(a), x.skip(a));
    is_ascii_chars_concat(x, x.take(b), x.skip(b));
    assert(x =~= x.take(a) + x.skip(a));
    assert(x =~= x.take(b) + x.skip(b));
    is_ascii_chars_encode_utf8(x.take(a));
    is_ascii_chars_encode_utf8(x.take(b));
    lemma_bytes_between_prefixes(x, a, b);
}

/// What [`start_index`] is, said without recursion: the escaped forms of
/// the characters before it end at or before the offset, and that of the
/// character at it, if there is one, reaches beyond.
pub proof fn lemma_start_index(s: Seq<char>, escaped_start: int)
    requires
        0 <= escaped_start,
    ensures
        ({
            let i = start_index(s, escaped_start) as int;
            &&& 0 <= i <= s.len()
            &&& escaped_len(s.take(i)) <= escaped_start
            &&& i < s.len() ==> escaped_start < escaped_len(s.take(i + 1))
        }),
    decreases s.len(),
{
    let i = start_index(s, escaped_start) as int;
    if s.len() == 0 {
        assert(s.take(0) =~= Seq::<char>::empty());
    } else if escaped_char(s[0]).len() > escaped_start {
        assert(s.take(0) =~= Seq::<char>::empty());
        assert(s.take(1) =~= seq![s[0]]);
        lemma_escaped_text_single(s[0]);
    } else {
        let rest = s.skip(1);
        let first = escaped_char(s[0]).len();
        lemma_start_index(rest, escaped_start - first);
        lemma_escaped_len_after_first(s, i);
        if i < s.len() {
            lemma_escaped_len_after_first(s, i + 1);
        }
    }
}

/// The escaped length of a prefix, counted from the first character on.
proof fn lemma_escaped_len_after_first(s: Seq<char>, k: int)
    requires
        1 <= k <= s.len(),
    ensures
        escaped_len(s.take(k)) == escaped_char(s[0]).len() + escaped_len(s.skip(1).take(k - 1)),
{
    assert(s.take(k) =~= seq![s[0]] + s.skip(1).take(k - 1));
    lemma_escaped_text_concat(seq![s[0]], s.skip(1).take(k - 1));
    lemma_escaped_text_single(s[0]);
}

/// What [`span_len`] is, said without recursion: the least number of
/// leading characters, one at least, whose escaped forms reach the offset,
/// or all of them.
pub proof fn lemma_span_len(s: Seq<char>, escaped_end: int)
    ensures
        ({
            let m = span_len(s, escaped_end) as int;
            &&& 0 <= m <= s.len()
            &&& s.len() > 0 ==> m >= 1
            &&& m < s.len() ==> escaped_end <= escaped_len(s.take(m))
            &&& m > 1 ==> escaped_len(s.take(m - 1)) < escaped_end
        }),
    decreases s.len(),
{
    let m = span_len(s, escaped_end) as int;
    if s.len() == 0 {
    } else if escaped_char(s[0]).len() >= escaped_end {
        assert(s.take(1) =~= seq![s[0]]);
        lemma_escaped_text_single(s[0]);
    } else {
        let first = escaped_char(s[0]).len();
        lemma_span_len(s.skip(1), escaped_end - first);
        lemma_escaped_len_after_first(s, m);
        if m > 1 {
            lemma_escaped_len_after_first(s, m - 1);
        }
    }
}

/// The mapped range is the tightest that encloses the given one: it
/// begins with the character into which the start of the given range
/// falls, and ends with the first character at whose end the given range
/// has ended. It holds one character at least, unless it begins at the end
/// of the text, and ends with the text where the given range reaches
/// beyond.
pub proof fn lemma_mapped_range_encloses(s: Seq<char>, escaped_start: int, escaped_end: int)
    requires
        0 <= escaped_start,
    ensures
        ({
            let i = start_index(s, escaped_start) as int;
            let j = end_index(s, escaped_start, escaped_end) as int;
            &&& 0 <= i <= j <= s.len()
            &&& escaped_len(s.take(i)) <= escaped_start
            &&& i < s.len() ==> escaped_start < escaped_len(s.take(i + 1))
            &&& i < s.len() ==> i < j
            &&& j < s.len() ==> escaped_end <= escaped_len(s.take(j))
            &&& i + 1 < j ==> escaped_len(s.take(j - 1)) < escaped_end
        }),
{
    let i = start_index(s, escaped_start) as int;
    lemma_start_index(s, escaped_start);
    let rest = s.skip(i);
    let distance = escaped_end - escaped_len(s.take(i));
    let m = span_len(rest, distance) as int;
    lemma_span_len(rest, distance);
    assert(s.take(i + m) =~= s.take(i) + rest.take(m));
    lemma_escaped_text_concat(s.take(i), rest.take(m));
    if m > 1 {
        assert(s.take(i + m - 1) =~= s.take(i) + rest.take(m - 1));
        lemma_escaped_text_concat(s.take(i), rest.take(m - 1));
    }
}

/// The characters that the bytes `start..end` of the UTF-8 form of `s`
/// hold.
pub open spec fn text_of_bytes(s: Seq<char>, start: int, end: int) -> Seq<char> {
    decode_utf8(encode_utf8(s).subrange(start, end))
}

/// Alignment: the mapped range begins and ends between characters, in the
/// text and in its escaped form, and escaping the characters that it holds
/// gives, byte for byte, the part of the escaped text that it names.
pub proof fn lemma_mapped_range_is_aligned(s: Seq<char>, escaped_start: int, escaped_end: int)
    requires
        0 <= escaped_start,
    ensures
        ({
            let i = start_index(s, escaped_start) as int;
            let j = end_index(s, escaped_start, escaped_end) as int;
            let from = utf8_len(s.take(i)) as int;
            let to = utf8_len(s.take(j)) as int;
            let escaped_from = escaped_len(s.take(i)) as int;
            let escaped_to = escaped_len(s.take(j)) as int;
            &&& from <= to <= utf8_len(s)
            &&& escaped_from <= escaped_to <= escaped_len(s)
            &&& is_char_boundary(encode_utf8(s), from)
            &&& is_char_boundary(encode_utf8(s), to)
            &&& text_of_bytes(s, from, to) == s.subrange(i, j)
            &&& encode_utf8(escaped_text(text_of_bytes(s, from, to))) == encode_utf8(
                escaped_text(s),
            ).subrange(escaped_from, escaped_to)
        }),
{
    let i = start_index(s, escaped_start) as int;
    let j = end_index(s, escaped_start, escaped_end) as int;
    lemma_mapped_range_encloses(s, escaped_start, escaped_end);
    lemma_prefix_ends_on_char_boundary(s, i);
    lemma_prefix_ends_on_char_boundary(s, j);
    lemma_bytes_between_prefixes(s, i, j);
    lemma_escaped_between_prefixes(s, i, j);
    lemma_escaped_text_is_ascii(s);
    lemma_ascii_bytes_between(
        escaped_text(s),
        escaped_len(s.take(i)) as int,
        escaped_len(s.take(j)) as int,
    );
}

/// The length of the escaped form of `c`.
fn escaped_len_of_char(c: char) -> (n: usize)
    ensures
        n == escaped_char(c).len(),
        1 <= n <= 12,
{
    if c == '\u{8}' || c == '\u{c}' || c == '\n' || c == '\r' || c == '\t' || c == '"' {
        2
    } else if c == ' ' || ('!' <= c && c <= '~') {
        1
    } else if c as u32 >= 0x10000 {
        12
    } else {
        6
    }
}

/// Maps a byte range of the escaped form of `unescaped` to the characters
/// that it touches. Returns the bytes that these characters take in
/// `unescaped`, then the bytes that their escaped forms take in the escaped
/// text.
pub fn find_range_from_escaped(unescaped: &str, escaped_range: Range<usize>) -> (r: (
    Range<usize>,
    Range<usize>,
))
    requires
        escaped_len(unescaped@) <= usize::MAX,
    ensures
        ({
            let s = unescaped@;
            let i = start_index(s, escaped_range.start as int) as int;
            let j = end_index(s, escaped_range.start as int, escaped_range.end as int) as int;
            &&& r.0.start == utf8_len(s.take(i))
            &&& r.0.end == utf8_len(s.take(j))
            &&& r.1.start == escaped_len(s.take(i))
            &&& r.1.end == escaped_len(s.take(j))
        }),
        r.0.start <= r.0.end <= utf8_len(unescaped@),
        r.1.start <= r.1.end <= escaped_len(unescaped@),
        is_char_boundary(encode_utf8(unescaped@), r.0.start as int),
        is_char_boundary(encode_utf8(unescaped@), r.0.end as int),
        encode_utf8(
            escaped_text(text_of_bytes(unescaped@, r.0.start as int, r.0.end as int)),
        ) == encode_utf8(escaped_text(unescaped@)).subrange(r.1.start as int, r.1.end as int),
{
    let ghost s = unescaped@;
    let len_unescaped: usize = unescaped.as_bytes().len();
    let mut start_escaped: usize = 0;
    let mut start_unescaped: usize = 0;
    let mut chars = unescaped.chars();
    let mut current = chars.next();
    let ghost mut i: int = 0;
    proof {
        assert(s.take(0) =~= Seq::<char>::empty());
        assert(s.skip(0) =~= s);
        assert(s.len() > 0 ==> s.drop_first() =~= s.skip(1));
    }
    loop
        invariant
            s == unescaped@,
            escaped_len(s) <= usize::MAX,
            len_unescaped == utf8_len(s),
            0 <= i <= s.len(),
            i < s.len() ==> current == Some(s[i]) && chars.remaining() == s.skip(i + 1),
            i == s.len() ==> current is None,
            start_escaped == escaped_len(s.take(i)),
            start_unescaped == utf8_len(s.take(i)),
            start_escaped <= escaped_range.start,
            start_index(s, escaped_range.start as int) == i + start_index(
                s.skip(i),
                escaped_range.start - start_escaped,
            ),
        ensures
            i == start_index(s, escaped_range.start as int),
        decreases s.len() - i,
    {
        let c = match current {
            Some(c) => c,
            None => {
                break ;
            },
        };
        let len_escaped: usize = escaped_len_of_char(c);
        proof {
            lemma_escaped_len_step(s, i);
            lemma_escaped_len_of_prefix(s, i + 1);
            lemma_utf8_len_step(s, i);
            lemma_prefix_ends_on_char_boundary(s, i + 1);
            assert(s.skip(i).skip(1) =~= s.skip(i + 1));
            assert(s.skip(i + 1).len() > 0 ==> s.skip(i + 1).drop_first() =~= s.skip(i + 2));
        }
        let next_pos: usize = start_escaped + len_escaped;
        if next_pos > escaped_range.start {
            break ;
        }
        start_escaped = next_pos;
        start_unescaped += len_utf8(c);
        current = chars.next();
        proof {
            i = i + 1;
        }
    }
    let mut end_escaped: usize = start_escaped;
    let mut end_unescaped: usize = start_unescaped;
    let ghost mut j: int = i;
    loop
        invariant_except_break
            j < s.len() ==> current == Some(s[j]) && chars.remaining() == s.skip(j + 1),
            j == s.len() ==> current is None,
            end_index(s, escaped_range.start as int, escaped_range.end as int) == j + span_len(
                s.skip(j),
                escaped_range.end - end_escaped,
            ),
        invariant
            s == unescaped@,
            escaped_len(s) <= usize::MAX,
            len_unescaped == utf8_len(s),
            i == start_index(s, escaped_range.start as int),
            i <= j <= s.len(),
            end_escaped == escaped_len(s.take(j)),
            end_unescaped == utf8_len(s.take(j)),
        ensures
            j == end_index(s, escaped_range.start as int, escaped_range.end as int),
        decreases s.len() - j,
    {
        let c = match current {
            Some(c) => c,
            None => {
                break ;
            },
        };
        let len_escaped: usize = escaped_len_of_char(c);
        proof {
            lemma_escaped_len_step(s, j);
            lemma_escaped_len_of_prefix(s, j + 1);
            lemma_utf8_len_step(s, j);
            lemma_prefix_ends_on_char_boundary(s, j + 1);
            assert(s.skip(j).skip(1) =~= s.skip(j + 1));
            assert(s.skip(j + 1).len() > 0 ==> s.skip(j + 1).drop_first() =~= s.skip(j + 2));
        }
        end_escaped += len_escaped;
        end_unescaped += len_utf8(c);
        proof {
            j = j + 1;
        }
        if end_escaped >= escaped_range.end {
            break ;
        }
        current = chars.next();
    }
    proof {
        lemma_mapped_range_is_aligned(s, escaped_range.start as int, escaped_range.end as int);
    }
    (
        Range { start: start_unescaped, end: end_unescaped },
        Range { start: start_escaped, end: end_escaped },
    )
}

} // verus!
