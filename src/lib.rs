//! Protocol Buffers binary wire format, with its behaviour proved.
//!
//! - `varint`, `wire_format`: varints, zigzag, tags and fixed-width values.
//! - `coded_output_stream`, `coded_input_stream`: the buffered writer and the
//!   bounds-checked, recursion-limited reader.
//! - `unknown`: the store of fields a schema does not declare.
//! - `field`, `enums`, `oneof`: how each declared field is stored and coded,
//!   enum values and aliases, oneof members and the boxing of recursive ones.
//! - `message`, `dynamic`, `well_known_types`, `doctest_pb`,
//!   `recursive_message`: messages, both schema-driven and with fixed layouts.
//! - `laws`: what holds between encoding and decoding for every input.

pub mod error;
pub mod varint;
pub mod wire_format;
pub mod unknown;
pub mod enums;
pub mod field;
pub mod oneof;
pub mod message;
pub mod coded_output_stream;
pub mod coded_input_stream;
pub mod laws;
pub mod dynamic;
pub mod well_known_types;
pub mod doctest_pb;
pub mod recursive_message;
