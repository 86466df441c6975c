//! A tiered, append-only, sparse commitment tree.
//!
//! The tree commits to a sequence of field-element items and supports
//! selective retention: a witnessed item can later be forgotten, discarding
//! its witness data while the root hash and the shape of the tree stay
//! unchanged, so inclusion proofs for other items remain valid.
//!
//! The tree has three nested tiers, each bounded at 65,536 children:
//! an [`Eternity`] of [`Epoch`]s of [`Block`]s of items, for a total
//! capacity of 2^48 items.

use vstd::prelude::*;

mod block;
mod epoch;
mod eternity;
mod laws;
mod hash;
mod index_map;
mod insert;
mod proofs;
mod tier;

pub use hash::{Fq, Digest};
pub use block::{Block, Item};
pub use epoch::Epoch;
pub use eternity::Eternity;
pub use laws::{lemma_elision_idempotent, lemma_witness_forget_duality};
pub use insert::Insert;
pub use proofs::{PathLevel, Position, Proof};
pub use tier::{Tier, CAPACITY};

verus! {

/// A header verifier that performs no verification; it exists so that a
/// test harness can stand in for a real light client. The trait
/// implementation that consumes it lives with the application, outside
/// the verified library.
pub struct TestVerifier;

} // verus!
