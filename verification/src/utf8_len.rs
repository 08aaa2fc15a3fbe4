//! Lengths and boundaries in the UTF-8 form of a text.

use vstd::prelude::*;
use vstd::utf8::{
    decode_utf8, encode_scalar, encode_utf8, encode_utf8_decode_utf8, encode_utf8_first_scalar,
    encode_utf8_valid_utf8, is_char_boundary, pop_first_scalar,
};

verus! {

/// The number of bytes that `c` takes in UTF-8.
pub open spec fn char_utf8_len(c: char) -> nat {
    encode_scalar(c as u32).len()
}

/// The number of bytes that `s` takes in UTF-8.
pub open spec fn utf8_len(s: Seq<char>) -> nat {
    encode_utf8(s).len()
}

/// UTF-8 takes one byte below `U+0080`, two below `U+0800`, three below
/// `U+10000`, and four from there on.
pub proof fn lemma_char_utf8_len(c: char)
    ensures
        char_utf8_len(c) == if (c as u32) < 0x80 {
            1nat
        } else if (c as u32) < 0x800 {
            2nat
        } else if (c as u32) < 0x10000 {
            3nat
        } else {
            4nat
        },
{
}

/// The UTF-8 form of two texts joined is that of the first, then that of
/// the second.
pub proof fn lemma_encode_utf8_concat(a: Seq<char>, b: Seq<char>)
    ensures
        encode_utf8(a + b) == encode_utf8(a) + encode_utf8(b),
    decreases a.len(),
{
    if a.len() == 0 {
        assert(a + b =~= b);
        assert(encode_utf8(a) + encode_utf8(b) =~= encode_utf8(b));
    } else {
        lemma_encode_utf8_concat(a.drop_first(), b);
        assert((a + b).drop_first() =~= a.drop_first() + b);
        assert(encode_utf8(a + b) =~= encode_utf8(a) + encode_utf8(b));
    }
}

/// One prefix more takes the bytes of one character more.
pub proof fn lemma_utf8_len_step(s: Seq<char>, k: int)
    requires
        0 <= k < s.len(),
    ensures
        utf8_len(s.take(k + 1)) == utf8_len(s.take(k)) + char_utf8_len(s[k]),
{
    assert(s.take(k + 1) =~= s.take(k) + seq![s[k]]);
    lemma_encode_utf8_concat(s.take(k), seq![s[k]]);
    reveal_with_fuel(encode_utf8, 2);
    assert(seq![s[k]].drop_first() =~= Seq::<char>::empty());
    assert(encode_utf8(seq![s[k]]) =~= encode_scalar(s[k] as u32));
}

/// A text has at most as many characters as its UTF-8 form has bytes.
pub proof fn lemma_char_count_le_utf8_len(s: Seq<char>)
    ensures
        s.len() <= utf8_len(s),
    decreases s.len(),
{
    if s.len() > 0 {
        lemma_char_count_le_utf8_len(s.drop_first());
        lemma_char_utf8_len(s[0]);
    }
}

/// The number of bytes that `c` takes in UTF-8.
pub fn len_utf8(c: char) -> (n: usize)
    ensures
        n == char_utf8_len(c),
        1 <= n <= 4,
{
    proof {
        lemma_char_utf8_len(c);
    }
    let v: u32 = c as u32;
    if v < 0x80 {
        1
    } else if v < 0x800 {
        2
    } else if v < 0x10000 {
        3
    } else {
        4
    }
}

/// Each prefix of a text ends on a character boundary of its UTF-8 form.
pub proof fn lemma_prefix_ends_on_char_boundary(s: Seq<char>, k: int)
    requires
        0 <= k <= s.len(),
    ensures
        utf8_len(s.take(k)) <= utf8_len(s),
        is_char_boundary(encode_utf8(s), utf8_len(s.take(k)) as int),
    decreases s.len(),
{
    let bytes = encode_utf8(s);
    encode_utf8_valid_utf8(s);
    if k == 0 {
        assert(s.take(0) =~= Seq::<char>::empty());
    } else {
        let rest = s.drop_first();
        encode_utf8_first_scalar(s);
        assert(pop_first_scalar(bytes) =~= encode_utf8(rest));
        lemma_prefix_ends_on_char_boundary(rest, k - 1);
        assert(s.take(k) =~= seq![s[0]] + rest.take(k - 1));
        lemma_encode_utf8_concat(seq![s[0]], rest.take(k - 1));
        reveal_with_fuel(encode_utf8, 2);
        assert(seq![s[0]].drop_first() =~= Seq::<char>::empty());
        assert(encode_utf8(seq![s[0]]) =~= encode_scalar(s[0] as u32));
        lemma_char_utf8_len(s[0]);
    }
}

/// The bytes between the ends of two prefixes hold the characters between
/// them.
pub proof fn lemma_bytes_between_prefixes(s: Seq<char>, i: int, j: int)
    requires
        0 <= i <= j <= s.len(),
    ensures
        utf8_len(s.take(i)) <= utf8_len(s.take(j)) <= utf8_len(s),
        encode_utf8(s).subrange(utf8_len(s.take(i)) as int, utf8_len(s.take(j)) as int)
            == encode_utf8(s.subrange(i, j)),
        decode_utf8(
            encode_utf8(s).subrange(utf8_len(s.take(i)) as int, utf8_len(s.take(j)) as int),
        ) == s.subrange(i, j),
{
    let head = s.take(i);
    let middle = s.subrange(i, j);
    let tail = s.skip(j);
    assert(s.take(j) =~= head + middle);
    assert(s =~= s.take(j) + tail);
    lemma_encode_utf8_concat(head, middle);
    lemma_encode_utf8_concat(s.take(j), tail);
    assert(encode_utf8(s).subrange(utf8_len(head) as int, utf8_len(s.take(j)) as int)
        =~= encode_utf8(middle));
    encode_utf8_decode_utf8(middle);
}

} // verus!
