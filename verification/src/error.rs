//! The ways in which extraction fails.

use vstd::prelude::*;

verus! {

/// Why a container could not be turned back into its content.
#[derive(Clone, Copy, Debug, PartialEq, Eq, Structural)]
pub enum DecodeError {
    /// The container does not start with the magic bytes.
    HeaderMismatch,
    /// The input ends inside a header, a size prefix, a token, a length
    /// field, a literal run or an offset, or where a token is due.
    Truncated,
    /// A match offset is zero or reaches back past the start of the output.
    InvalidOffset,
    /// The block produces more bytes than were declared, or ends with fewer.
    SizeMismatch,
}

} // verus!
