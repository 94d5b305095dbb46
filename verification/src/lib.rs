//! Allocation-free primitives for embedded and real-time systems.
//!
//! * [`qbump`]: bump arenas over a fixed range of addresses, which start over
//!   once everything they handed out has been given back.
//! * [`qcell`]: the state word of a double-buffered cell that hands a value
//!   from one writer to any number of readers, and a cell built on it.
//! * [`qini`]: a parser of .INI configuration that hands out keys and values
//!   as slices of its input.
//! * [`qjson`]: a JSON deserializer that is driven by a schema, bounded in
//!   depth, and hands out strings and numbers as slices of its input.
//!
//! The parsers share [`text`], which turns a text into characters and
//! characters back into slices of the text.

pub mod qbump;
pub mod qcell;
pub mod qini;
pub mod qjson;
pub mod text;
