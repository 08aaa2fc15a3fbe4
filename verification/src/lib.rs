//! Escaping and unescaping of the content of JSON string literals.
//!
//! The escaped text is what stands between the quotation marks of a JSON
//! string; the unescaped text is the value it denotes. Both are modelled as
//! sequences of characters (`Seq<char>`, the view of `str` and `String`), and
//! every function states its result over that model.
//!
//! - [`unescape`]: from escaped text to text, with the surrogate pairs of
//!   `\uXXXX` escapes joined and, on demand, control characters kept escaped.
//! - [`escape`]: from text to escaped text.
//! - [`range_map`]: from a byte range of the escaped text to the characters
//!   it touches, as byte ranges of both texts.
//! - [`round_trip`] and [`unescape_theorems`]: what holds of these on every
//!   input.

pub mod codepoint;
pub mod error;
pub mod escape;
pub mod range_map;
pub mod round_trip;
pub mod std_text;
pub mod unescape;
pub mod unescape_theorems;
pub mod utf8_len;

pub use codepoint::{decode_codepoint, hex_char_to_int, is_control, DecodedCodepoint};
pub use error::{UnescapeError, UnicodeError};
pub use escape::{escape_json_string, escape_json_unicode, escape_unicode_for_regex};
pub use range_map::find_range_from_escaped;
pub use unescape::{
    is_valid_escaped_text, safe_unescape_json_string, unescape_json_string,
    unescape_json_string_unwrap, unsafe_unescape_json_string,
};
