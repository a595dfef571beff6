//! Repair malformed JSON text from language models, logs and user input.
//!
//! The behavior follows Python's `json_repair` broadly: valid JSON takes a strict fast path,
//! malformed text is read by the rules in [`grammar`], and callers receive either the repaired
//! value or its text. [`standard`], [`laws`] and [`loading`] hold what is proved of every repair.
//! What the rules are for is stated on the text itself: what is left as it is ([`plain`]), what is
//! passed over ([`gaps`], [`prose`], [`stray`]), where strings and words end ([`quoting`],
//! [`escapes`], [`words`], [`phrases`], [`numerals`]), how containers are put together again
//! ([`members`], [`lists`], [`loose`], [`loose_lists`], [`sets`]), what strict mode refuses
//! ([`repeats`]), and how several values become one ([`combining`]). [`steps`], [`settling`] and
//! [`writing`] do the same for JSON as it is read by the standard and written.

pub mod chars;
pub mod combining;
mod cursor;
pub mod equality;
mod error;
pub mod escapes;
pub mod gaps;
pub mod grammar;
pub mod keys;
pub mod laws;
pub mod lists;
pub mod loading;
pub mod loose;
pub mod loose_lists;
pub mod members;
pub mod number;
pub mod numerals;
mod parser;
pub mod phrases;
pub mod plain;
pub mod prose;
pub mod quoting;
pub mod reader;
pub mod repair;
pub mod repeats;
pub mod scan;
pub mod sets;
pub mod settling;
pub mod shift;
pub mod standard;
pub mod steps;
pub mod stray;
pub mod strict;
pub mod text;
pub mod token;
pub mod value;
pub mod words;
pub mod writer;
pub mod writing;

pub use error::RepairError;
pub use repair::{
    loads, loads_given, loads_with_options, repair_json, repair_json_with_options, RepairOptions,
};
pub use value::{JsonValue, Number, Object};
pub use writer::to_json_string;
