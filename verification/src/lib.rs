//! A structural diff / merge / patch engine for semi-structured document
//! trees (null, boolean, number, string, sequence, mapping), together with
//! the small protocol and workflow data types that surround it.
//!
//! The engine lets a caller capture an edit to one document as a portable
//! list of operations and replay that edit elsewhere, or fold one document's
//! values into another's shape without tracking explicit operations.

pub mod ident;
pub mod mode;
pub mod model;
pub mod protocol;
pub mod value;
