//! The error kinds the library reports.

use vstd::prelude::*;

use crate::id::NamespaceId;

verus! {

/// A fallible operation's failure, carrying what went wrong.
///
/// Every fallible operation distinguishes success from a specific error
/// kind; validation failures leave the tree untouched and are fully
/// recoverable by the caller.
#[derive(Debug)]
pub enum Error {
    /// A structural mutation was attempted that would violate a
    /// document-shape invariant. Carries a descriptive reason and is always
    /// raised before any mutation takes effect.
    InvalidOperation(String),
    /// A contextual name accessor was asked for a prefix or full name, but
    /// no ancestor declares a binding for the name's namespace at the point
    /// of query.
    MissingPrefix(NamespaceId),
    /// Construction of a name from a prefix string failed because that
    /// prefix has no namespace binding in the supplied context.
    UnknownPrefix(String),
}

} // verus!
