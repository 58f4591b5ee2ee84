//! Errors surfaced by the store.

use vstd::prelude::*;

verus! {

/// An error of the store itself.  Conversion failures between a caller's
/// typed record and the store's field representation belong to the record
/// codec collaborator and are not represented here.
#[derive(Clone, Copy, Debug, PartialEq, Eq, Structural)]
pub enum DbError {
    /// An insertion used an external id that is already registered.
    DuplicateExternalId,
    /// A field id was looked up that was never allocated; an internal
    /// consistency fault if the dictionary invariant holds.
    UnknownFieldId,
}

impl DbError {
    /// A short description of the error.
    pub fn describe(&self) -> (r: &'static str)
    {
        match self {
            DbError::DuplicateExternalId => "duplicate external id",
            DbError::UnknownFieldId => "unknown field id",
        }
    }
}

} // verus!
