//! Schema-driven parsing of delimited text records.
//!
//! - `utils`: the field cleaner.
//! - `field`: the quote-aware tokenizer, and the law that rejoined fields
//!   tokenize back to themselves.
//! - `validate`: typed values and the per-type coercion of a token.
//! - `schema`: field specs, defaults and header resolution.
//! - `parser`: the record parser over a header line and data lines.
//! - `csv`: a plain splitter and schema-free value guessing.
//! - `date`: finding the separator of a date and its three parts.
pub mod csv;
pub mod date;
pub mod field;
pub mod parser;
pub mod schema;
pub mod utils;
pub mod validate;
