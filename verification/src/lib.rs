//! Partial serialization of an entity-component store.
//!
//! A static tree of named groups declares which component kinds belong
//! together.  A group flattens deterministically into an ordered list of
//! component identifiers, serializes each component's per-entity column into
//! an ordered map keyed by component name, and deserializes such a map back,
//! routing unrecognized keys to subgroups and silently discarding keys that
//! no group in the subtree owns.

use vstd::prelude::*;

pub mod decode;
pub mod encode;
pub mod entity;
pub mod error;
pub mod group;
pub mod packed;
pub mod roundtrip;
pub mod storage;
pub mod value;
pub mod world;

verus! {

} // verus!
