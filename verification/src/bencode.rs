//! The bencode codec: values, their byte encoding, the parser and the typed
//! conversions built on them.

pub mod builder;
pub mod dict;
pub mod encode;
pub mod error;
pub mod grammar;
pub mod laws;
pub mod parse;
pub mod typed;
pub mod value;

pub use error::Error;
pub use value::{BencodeValue, Value};
