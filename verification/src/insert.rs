//! The commitment wrapper: a child of a tier is either kept in full,
//! with all of its substructure, or elided to its bare root digest.

use vstd::prelude::*;
use crate::hash::Digest;

verus! {

/// A child committed to a tier: either the full value, whose digest is
/// computed from its substructure, or only a digest, which contributes
/// itself directly and has no retrievable structure beneath it.
#[derive(Debug, Clone, PartialEq, Eq)]
pub enum Insert<T> {
    /// The full value is retained; witness paths may descend into it.
    Keep(T),
    /// Only the root digest is retained; the subtree is permanently opaque.
    Hash(Digest),
}

} // verus!
