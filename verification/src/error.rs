//! The failures that routing and content loading report.

use vstd::prelude::*;

verus! {

/// Why a request got no entry.
#[derive(Debug, Clone, Copy, PartialEq, Eq, Structural)]
pub enum ErrorKind {
    /// The target of a path is absent.
    NotFound,
    /// A malformed request line, an illegal segment, or a path that would
    /// leave the root directory.
    InvalidInput,
}

} // verus!
