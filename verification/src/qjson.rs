//! A recursive descent JSON deserializer.
//!
//! A [`Schema`] describes the data that is expected and holds a slot for
//! every value that is wanted. [`from_str`] walks a JSON text once and fills
//! the slots it comes by; [`validate`] walks it without a schema. Strings and
//! decimal numbers are handed out as slices of the text: nothing is copied or
//! decoded. Objects nest no deeper than the bound given at the call.
//!
//! What both functions return is stated by [`parser::document`], a function
//! from the text, the schema and the bound to the result. Which texts they
//! accept is stated once more by [`grammar::is_json`], without a word about
//! how they are read, and [`laws`] holds what else is true of every reading.

pub mod error;
pub mod grammar;
pub mod laws;
pub mod number;
pub mod parser;
pub mod schema;
pub mod tokenizer;

pub use error::{Error, ErrorKind, Fault};
pub use parser::{from_str, validate};
pub use schema::{Number, NumberView, Schema, SchemaView};
