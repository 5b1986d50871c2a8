//! The ways an operation on the tree can fail.

use vstd::prelude::*;

verus! {

/// Why an operation was refused.
#[derive(Clone, Copy, Debug, PartialEq, Eq, Structural)]
pub enum Error {
    /// A path, pattern or handle resolves to nothing.
    NotFound,
    /// A value cannot be converted to the requested variant.
    TypeMismatch,
    /// A domain does not fit the type of its parameter.
    InvalidDomain,
    /// A child of that name already exists.
    DuplicateName,
    /// A protocol cannot be set up with the given endpoints.
    TransportError,
    /// The operation has no meaning for this variant or state.
    Unsupported,
    /// An argument is malformed.
    InvalidArgument,
}

} // verus!
