//! Token representation layer of a streaming XML tokenizer.
//!
//! Defines the structural events a scanner emits while walking a byte
//! stream, and the zero-copy value types that carry each event's payload:
//! tag names, attribute lists, text content and declaration fields.

pub mod attributes;
pub mod bytes;
pub mod decl;
pub mod errors;
pub mod escape;
pub mod events;
pub mod scan;

pub use attributes::{AttrError, Attribute, Attributes};
pub use bytes::XmlBytes;
pub use decl::BytesDecl;
pub use errors::Error;
pub use escape::{escape, unescape, EscapeError};
pub use events::{BytesEnd, BytesStart, BytesText, Event};
