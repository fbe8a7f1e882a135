//! The errors the library reports.

use vstd::prelude::*;

verus! {

/// What went wrong in a call into the pool or into the cursor registry. Each
/// kind stands for one condition.
#[derive(Clone, Copy, Debug, PartialEq, Eq, Structural)]
pub enum GlideError {
    /// The handle was never acquired, or was released.
    InvalidHandle,
    /// No client is registered for the node.
    UnknownNode,
    /// The node's client could not open a connection.
    ConnectionOpenFailed,
    /// No cursor is stored under the token.
    InvalidCursor,
}

impl GlideError {
    /// A short description of the error.
    pub fn message(&self) -> (text: &'static str)
        ensures
            text@ == match *self {
                GlideError::InvalidHandle => "Invalid handle"@,
                GlideError::UnknownNode => "Node not found"@,
                GlideError::ConnectionOpenFailed => "Connection open failed"@,
                GlideError::InvalidCursor => "Invalid scan state cursor"@,
            },
    {
        match self {
            GlideError::InvalidHandle => "Invalid handle",
            GlideError::UnknownNode => "Node not found",
            GlideError::ConnectionOpenFailed => "Connection open failed",
            GlideError::InvalidCursor => "Invalid scan state cursor",
        }
    }
}

} // verus!
