//! Java-style `.properties` text: a key-value store together with the
//! parser and the serializer of its line format.

pub mod escape;
pub mod lines;
pub mod listing;
pub mod parse;
pub mod properties;
pub mod roundtrip;
pub mod sql;
pub mod text;
pub mod util;
