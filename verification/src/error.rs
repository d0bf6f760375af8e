//! Error taxonomy of the serialize/deserialize protocol.
//!
//! Every error here is fatal to the enclosing call and is returned to the
//! caller; an unknown map key is not an error at all — it is consumed and
//! discarded so that newer data can be read by older group trees.

use vstd::prelude::*;

verus! {

/// A fatal error while serializing a group.
#[derive(Clone, Copy, PartialEq, Eq, Structural, Debug)]
pub enum EncodeError {
    /// A shared lock on a component storage could not be granted because a
    /// conflicting access is outstanding.
    BorrowConflict,
}

/// A fatal error while deserializing a group.
#[derive(Clone, Copy, PartialEq, Eq, Structural, Debug)]
pub enum DecodeError {
    /// A value's shape does not match the packed column expected for its key.
    SchemaMismatch,
    /// An exclusive lock on a component storage could not be granted because
    /// a conflicting access is outstanding.
    BorrowConflict,
    /// A packed column references positions outside the supplied entity
    /// slice.
    EntityCountMismatch,
}

} // verus!
