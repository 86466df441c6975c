//! The field-element and digest types, and the domain hash that combines
//! an ordered sequence of child digests into a parent digest.
//!
//! The concrete collision-resistant primitives are not this library's
//! concern: the domain hash here is a fixed, deterministic mixing function
//! over 64-bit values, standing for the opaque hash `H` that the tree is
//! parameterized over. Every contract in the crate is stated against the
//! spec-level mirror of this function, so a standalone verifier can
//! recompute exactly what the tree computes.

use vstd::prelude::*;

verus! {

/// The multiplier of the mixing step.
pub const MIX_MUL: u64 = 0x100000001b3;

/// The additive constant of the mixing step.
pub const MIX_ADD: u64 = 0x9e3779b97f4a7c15;

/// The seed every tier's digest folding starts from.
pub const TIER_SEED: u64 = 0xcbf29ce484222325;

/// The seed of the domain hash of a single item.
pub const ITEM_SEED: u64 = 0x6a09e667f3bcc908;

/// A field element: the value committed at a leaf of the tree.
#[derive(Clone, Copy, Debug, PartialEq, Eq, Structural, Hash)]
pub struct Fq {
    pub inner: u64,
}

/// A digest: the root hash of a subtree, or the domain hash of an item.
#[derive(Clone, Copy, Debug, PartialEq, Eq, Structural, Hash)]
pub struct Digest {
    pub inner: u64,
}

/// One step of the digest fold: absorb one 64-bit word into an accumulator.
pub open spec fn mix_s(acc: u64, h: u64) -> u64 {
    ((acc as int * MIX_MUL as int + h as int + MIX_ADD as int) % 0x10000000000000000) as u64
}

/// Fold a sequence of child digests into an accumulator, front to back.
pub open spec fn combine_from(acc: u64, s: Seq<u64>) -> u64
    decreases s.len(),
{
    if s.len() == 0 {
        acc
    } else {
        combine_from(mix_s(acc, s[0]), s.drop_first())
    }
}

/// The digest of a tier with the given ordered child digests. A tier with
/// no children has the well-defined empty digest `combine_s(Seq::empty())`.
pub open spec fn combine_s(s: Seq<u64>) -> u64 {
    combine_from(TIER_SEED, s)
}

/// The domain hash of an item value.
pub open spec fn item_hash_s(v: u64) -> u64 {
    mix_s(ITEM_SEED, v)
}

/// One step of the digest fold, executably.
pub fn mix(acc: u64, h: u64) -> (r: u64)
    ensures
        r == mix_s(acc, h),
{
    proof {
        assert(acc as int * MIX_MUL as int <= 0xFFFFFFFFFFFFFFFF * 0x100000001b3)
            by (nonlinear_arith)
            requires
                acc <= 0xFFFFFFFFFFFFFFFF,
        ;
    }
    let wide: u128 = acc as u128 * MIX_MUL as u128 + h as u128 + MIX_ADD as u128;
    (wide % 0x10000000000000000u128) as u64
}

/// The domain hash of an item value, executably.
pub fn item_hash(v: u64) -> (r: u64)
    ensures
        r == item_hash_s(v),
{
    mix(ITEM_SEED, v)
}

impl Digest {
    /// The domain hash of a field element.
    pub fn of(value: Fq) -> (r: Digest)
        ensures
            r.inner == item_hash_s(value.inner),
    {
        Digest { inner: item_hash(value.inner) }
    }
}

/// Folding a sequence extended by one element mixes that element last.
pub proof fn lemma_combine_push(acc: u64, s: Seq<u64>, x: u64)
    ensures
        combine_from(acc, s.push(x)) == mix_s(combine_from(acc, s), x),
    decreases s.len(),
{
    if s.len() == 0 {
        assert(s.push(x)[0] == x);
        assert(s.push(x).drop_first() =~= Seq::<u64>::empty());
        assert(combine_from(acc, s.push(x)) == combine_from(
            mix_s(acc, x),
            Seq::<u64>::empty(),
        ));
        assert(combine_from(mix_s(acc, x), Seq::<u64>::empty()) == mix_s(acc, x));
        assert(combine_from(acc, s) == acc);
    } else {
        assert(s.push(x)[0] == s[0]);
        assert(s.push(x).drop_first() =~= s.drop_first().push(x));
        lemma_combine_push(mix_s(acc, s[0]), s.drop_first(), x);
        assert(combine_from(acc, s.push(x)) == combine_from(
            mix_s(acc, s[0]),
            s.drop_first().push(x),
        ));
        assert(combine_from(acc, s) == combine_from(mix_s(acc, s[0]), s.drop_first()));
    }
}

} // verus!
