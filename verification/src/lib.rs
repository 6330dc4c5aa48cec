//! A JSON text parser and serializer with machine-checked contracts.
//!
//! Text is modelled as its UTF-8 byte sequence, a document by
//! [`model::Model`]. [`grammar`] says what is read at each place of a text,
//! [`render`] what is written for each value, and [`laws`] that reading
//! undoes writing.
//!
//! A number with a fraction or an exponent, or one that does not fit in an
//! `i64`, is kept as the literal that writes it ([`FloatLiteral`]); the
//! members of an object are kept in the order of their keys.

pub mod codec;
pub mod equality;
pub mod error;
pub mod escape;
pub mod grammar;
pub mod laws;
pub mod model;
pub mod number;
pub mod order;
pub mod pad;
pub mod parser;
pub mod pretty;
pub mod render;
pub mod repr;
pub mod roundtrip;
pub mod search;
pub mod text;
pub mod unescape;
pub mod units;

pub use codec::{escape, unescape, TextCodec};
pub use error::{ErrorKind, ParseError};
pub use grammar::ItemKind;
pub use model::KeyOrder;
pub use pad::PadAdapter;
pub use parser::{
    delimited_list, parse, parse_array, parse_false, parse_json, parse_json_element,
    parse_null, parse_number, parse_object, parse_string, parse_string_raw, parse_true,
    skip_whitespace, unquote, Collected, ListItem,
};
pub use render::{render_compact, render_pretty};
pub use repr::{key_order, FloatLiteral, Json, JsonObject, JsonValue};
pub use unescape::{hex_u16, parse_escape_seq, scan};
