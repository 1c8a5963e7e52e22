//! The property list under its short path.

pub use crate::properties::Properties;
