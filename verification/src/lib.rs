//! Lenient parsers for the values of HTML attributes: integers, dimensions,
//! legacy font sizes and legacy colours, with the string helpers they share.
//!
//! Every parser accepts any text. What it makes of malformed text is part of
//! its contract, which is stated over the text's characters as a `Seq<char>`.
//! Numbers are kept as their digits and colours as bytes, so that nothing is
//! rounded here.

pub mod chars;
pub mod color;
pub mod dom_string;
pub mod font_size;
pub mod integer;
pub mod length;
pub mod text;

pub use crate::chars::{char_is_whitespace, is_whitespace};
pub use crate::color::{
    legacy_color_digits, legacy_color_name, legacy_color_of, parse_legacy_color, Rgba,
};
pub use crate::dom_string::{DOMString, LowercaseString};
pub use crate::font_size::parse_legacy_font_size;
pub use crate::integer::{parse_integer, parse_unsigned_integer};
pub use crate::length::{nonzero_dimension, parse_length, LengthOrPercentageOrAuto, Number};
pub use crate::text::{is_token, search_index, slice_chars, split_html_space_chars, str_join};
