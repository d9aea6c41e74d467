//! The ways an operation can fail.

use vstd::prelude::*;

verus! {

/// Why a versioning operation was refused. No failed operation changes the
/// project.
#[derive(Clone, Copy, PartialEq, Eq, Structural, Debug)]
pub enum VersioningError {
    /// Object data could not be named or contradicts what the store holds.
    ObjectStore,
    /// An unknown commit id, timeline or file path.
    NotFound,
    /// A request that the rules of timelines forbid.
    InvalidOperation,
}

impl VersioningError {
    /// A sentence for the user.
    pub fn message(&self) -> (r: &'static str)
        ensures
            r@ == match *self {
                VersioningError::ObjectStore => "Could not save or load history"@,
                VersioningError::NotFound => "No such snapshot, timeline or file"@,
                VersioningError::InvalidOperation => "This timeline cannot be changed that way"@,
            },
    {
        match self {
            VersioningError::ObjectStore => "Could not save or load history",
            VersioningError::NotFound => "No such snapshot, timeline or file",
            VersioningError::InvalidOperation => "This timeline cannot be changed that way",
        }
    }
}

} // verus!
