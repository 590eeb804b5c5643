//! A verified decoder for the bencode serialization format.
//!
//! Bencode is the compact, self-describing binary format used by
//! peer-to-peer file-distribution metadata. It has exactly four value
//! kinds: byte strings, signed integers, lists, and dictionaries.
//!
//! The decoder is a recursive-descent grammar walker over a borrowed
//! byte buffer. Decoded byte strings and dictionary keys are zero-copy
//! views into the input buffer. Every decode function is verified
//! against a mathematical model of the grammar (see [`grammar`]): it
//! never panics, never reads out of bounds, always terminates, and
//! returns exactly the value and error that the model prescribes.

pub mod decode;
pub mod errors;
pub mod grammar;
pub mod laws;
pub mod value;

pub use decode::parse;
pub use decode::MAX_DEPTH;
pub use errors::BencodeError;
pub use value::Value;
