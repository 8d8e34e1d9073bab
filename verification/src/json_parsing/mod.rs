//! JSON values, pointers and parsing.
pub mod pointer;

pub use crate::json_pointer::{join_pointer, valid_identifier, valid_pointer};
pub use pointer::JsonPointer;
