//! Coarse, stable error categories.

use vstd::prelude::*;

verus! {

/// What kind of failure an error is, for callers that act on the kind alone.
#[derive(Debug, Clone, Copy, PartialEq, Eq, Structural)]
pub enum ErrorCode {
    /// Text did not parse.
    Parse,
    /// A definition was rejected for what it says.
    Validation,
    /// Existing state stands in the way.
    Conflict,
    /// Something named does not exist.
    NotFound,
    /// Nothing the caller can act on.
    Internal,
}

} // verus!
