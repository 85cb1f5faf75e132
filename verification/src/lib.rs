//! Type-driven binary encoding.
//!
//! A type that implements [`CerealData`] is written to bytes and read back from them:
//! reading gives back an equal value from the bytes that writing gave, and takes exactly
//! those bytes. Numbers are written in a fixed width, least significant byte first;
//! lengths and discriminants always in eight bytes; structs as their fields in declared
//! order; sequences, texts and maps as a count and then their items; optional values as a
//! one-byte tag and then the value; enums as the index of the variant and then its fields.
//!
//! The typed codecs are in `primitive`, `composite`, `optional`, `sequence`, `text` and
//! `table`; `variant` reads and writes discriminants; `schema` reads and writes values
//! whose shape is only known when the program runs. `laws` and `schema_laws` prove that
//! reading undoes writing and that a value cut short is a short read.

pub mod error;
pub mod source;
pub mod wire;
pub mod codec;
pub mod primitive;
pub mod composite;
pub mod optional;
pub mod sequence;
pub mod text;
pub mod table;
pub mod variant;
pub mod schema;
pub mod laws;
pub mod schema_laws;

pub use crate::codec::CerealData;
pub use crate::error::{CerealError, CerealResult, IoFailure};
pub use crate::source::Source;
