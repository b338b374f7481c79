//! A recursive-descent decoder for a length-prefixed, self-describing binary
//! encoding: integers, ASCII strings, ordered lists, and keyed dictionaries.
//!
//! A dispatcher inspects one lookahead byte to select a token parser; each
//! token parser consumes a prefix of its input and returns the decoded value
//! together with the unconsumed remainder. The top-level entry point accepts
//! only inputs that a single token consumes exactly.
//!
//! The module [`model`] states, as a total function on byte sequences, what
//! decoding yields — the value, the remainder, and the exact error otherwise —
//! and every parser here is verified against it. The module [`props`] proves
//! the round-trip laws: a token built from a value decodes back to it.

pub mod model;
pub mod value;
pub mod decode;
pub mod props;

pub use value::{BencodeType, ConvertError, ParseResult, dict_get};
pub use decode::{parse, next_rule, parse_int, parse_str, parse_list, parse_dict};
