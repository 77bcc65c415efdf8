//! A verified decoder for the bencode serialization format.
//!
//! Bencode is a compact, self-delimiting encoding of integers, byte
//! strings, lists and string-keyed dictionaries.  The [`Lexer`] scans a
//! character sequence left to right and turns it into a sequence of
//! [`Value`] trees, or reports a [`DecodeError`] describing the first
//! malformed construct.  Every function is specified against a
//! mathematical grammar over `Seq<char>` and proved to follow it.

pub mod parser;
pub mod value;

pub use parser::Lexer;
pub use value::DecodeError;
pub use value::Value;
pub use value::ValueSpec;
