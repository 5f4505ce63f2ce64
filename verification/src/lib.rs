//! A decoder for the bencode serialization format.
//!
//! [`bencoding_parser`] holds the executable decoder and the value tree it
//! builds. Its contracts are stated over the mathematical values of
//! [`value`] and the grammar of [`grammar`]. [`guarantees`] proves what
//! holds of the grammar on every input, and [`encoding`] that it reads
//! every well-formed value back from the standard way of writing it down.

pub mod bencoding_parser;
pub mod encoding;
pub mod grammar;
pub mod guarantees;
pub mod occurrence;
pub mod value;
