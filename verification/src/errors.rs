//! Errors surfaced by the fallible token accessors.

use vstd::prelude::*;
use crate::attributes::AttrError;
use crate::escape::EscapeError;

verus! {

/// What a token accessor can fail with. Nothing here is fatal: every
/// error is meant to be caught and reported by the caller.
#[derive(Clone, Debug, PartialEq, Eq)]
pub enum Error {
    /// A malformed entity reference met during unescaping.
    EscapeError(EscapeError),
    /// Malformed attribute syntax met while scanning.
    Attr(AttrError),
    /// A declaration's first attribute is missing or is not `version`;
    /// carries the key that stood there instead, if any.
    XmlDeclWithoutVersion(Option<Vec<u8>>),
}

} // verus!
