//! Rich-text delta documents: a sequence of operations with formatting
//! attributes, read from and written to JSON, and their plain text.
pub mod delta;
pub mod json;

pub use delta::{DecodeError, Delta, Op, OpContent};
pub use json::{Json, JsonValue};
