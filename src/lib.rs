//! A recursive-descent JSON parser whose results are proved against a
//! functional grammar over the input characters.
//!
//! Decisions on the points the grammar leaves open: only `parse`, and the
//! separators inside arrays and objects, skip whitespace; each rule called
//! directly (`parse_string`, `parse_number`, `parse_array`, `parse_object`,
//! `parse_bool_and_null`) starts at the cursor itself. A comma directly before
//! `]` or `}` is accepted; strings are taken literally, with no escape
//! decoding; numbers are kept as their literal text, which is checked to be
//! a valid floating-point literal; a repeated object key replaces the
//! earlier value; nesting deeper than `MAX_DEPTH` levels is an error.
//! A keyword is the whole run of ASCII characters where it starts, so
//! `true`, `false` and `null` parse only when followed by a non-ASCII
//! character or the end of the input.
use vstd::prelude::*;

pub mod error;
pub mod grammar;
pub mod laws;
pub mod lexical;
pub mod parser;
pub mod value;

pub use error::{ErrorKind, ParseError, ValueKind};
pub use grammar::MAX_DEPTH;
pub use parser::JsonParser;
pub use value::{JsonObject, JsonValue};

verus! {

} // verus!
