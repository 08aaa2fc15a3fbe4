//! The error that unescaping reports, and its message.

use crate::codepoint::chars_of_bytes;
use vstd::prelude::*;

verus! {

/// The two ways in which the surrogates of an escaped text can fail to pair.
#[derive(Debug, Clone, Copy, PartialEq, Eq)]
pub enum UnicodeError {
    /// A low surrogate that no high surrogate precedes.
    UnexpectedLowSurrogate,
    /// A high surrogate that no low-surrogate escape follows at once.
    UnmatchedHighSurrogate,
}

/// The mathematical content of an [`UnescapeError`].
pub struct UnescapeFailure {
    /// The position pointer at the moment of failure: one more than the
    /// number of characters of the escaped text that lie before it.
    pub position: nat,
    /// The four hexadecimal digits of the offending escape, as written.
    pub digits: Seq<char>,
    pub kind: UnicodeError,
}

/// A failure of the surrogates of an escaped text to pair: where it was
/// met, at which escape, and of which kind.
#[derive(Debug)]
pub struct UnescapeError {
    index: usize,
    codepoint_chars: [u8; 4],
    error: UnicodeError,
}

impl View for UnescapeError {
    type V = UnescapeFailure;

    closed spec fn view(&self) -> UnescapeFailure {
        UnescapeFailure {
            position: self.index as nat,
            digits: chars_of_bytes(self.codepoint_chars@),
            kind: self.error,
        }
    }
}

/// The character that stands for a decimal digit.
pub open spec fn decimal_digit(d: nat) -> char
    recommends
        d < 10,
{
    ('0' as nat + d) as char
}

/// The decimal numeral of `n`, without leading zeros.
pub open spec fn decimal_digits(n: nat) -> Seq<char>
    decreases n,
{
    if n < 10 {
        seq![decimal_digit(n)]
    } else {
        decimal_digits(n / 10).push(decimal_digit(n % 10))
    }
}

/// The text that describes a failure to a reader.
pub open spec fn failure_message(f: UnescapeFailure) -> Seq<char> {
    "unescaping error at char "@ + decimal_digits(f.position) + ": "@ + match f.kind {
        UnicodeError::UnexpectedLowSurrogate => "unexpected low surrogate \"\\u"@ + f.digits
            + "\""@,
        UnicodeError::UnmatchedHighSurrogate => "high surrogate \"\\u"@ + f.digits
            + "\" not followed by low surrogate"@,
    }
}

/// Appends the decimal numeral of `n` to `out`.
fn push_decimal(out: &mut String, n: usize)
    ensures
        final(out)@ == old(out)@ + decimal_digits(n as nat),
    decreases n,
{
    if n >= 10 {
        push_decimal(out, n / 10);
    }
    let d: u8 = (n % 10) as u8;
    out.push((('0' as u8) + d) as char);
    assert(out@ =~= old(out)@ + decimal_digits(n as nat));
}

impl UnescapeError {
    /// The error with the given position, escape digits and kind.
    pub fn new(index: usize, codepoint_chars: [u8; 4], error: UnicodeError) -> (e: Self)
        ensures
            e@ == (UnescapeFailure {
                position: index as nat,
                digits: chars_of_bytes(codepoint_chars@),
                kind: error,
            }),
    {
        UnescapeError { index, codepoint_chars, error }
    }

    /// The position pointer at the moment of failure, counted in characters
    /// from 1.
    pub fn index(&self) -> (i: usize)
        ensures
            i == self@.position,
    {
        self.index
    }

    /// The way in which the surrogates failed to pair.
    pub fn kind(&self) -> (k: UnicodeError)
        ensures
            k == self@.kind,
    {
        self.error
    }

    /// The four hexadecimal digits of the offending escape, as written.
    pub fn codepoint_chars(&self) -> (d: [u8; 4])
        ensures
            chars_of_bytes(d@) == self@.digits,
    {
        self.codepoint_chars
    }

    /// The message that describes this error to a reader.
    pub fn to_string(&self) -> (s: String)
        ensures
            s@ == failure_message(self@),
    {
        let mut s = String::from_str("unescaping error at char ");
        push_decimal(&mut s, self.index);
        s.append(": ");
        match self.error {
            UnicodeError::UnexpectedLowSurrogate => {
                s.append("unexpected low surrogate \"\\u");
            },
            UnicodeError::UnmatchedHighSurrogate => {
                s.append("high surrogate \"\\u");
            },
        }
        let ghost before = s@;
        s.push(self.codepoint_chars[0] as char);
        s.push(self.codepoint_chars[1] as char);
        s.push(self.codepoint_chars[2] as char);
        s.push(self.codepoint_chars[3] as char);
        assert(s@ =~= before + self@.digits);
        match self.error {
            UnicodeError::UnexpectedLowSurrogate => {
                s.append("\"");
            },
            UnicodeError::UnmatchedHighSurrogate => {
                s.append("\" not followed by low surrogate");
            },
        }
        assert(s@ =~= failure_message(self@));
        s
    }
}

} // verus!
