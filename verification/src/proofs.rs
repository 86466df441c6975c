//! Inclusion proofs: a position, an ordered authentication path of sibling
//! digests from leaf to root, and the leaf value. A proof owns no reference
//! into the tree, so it stays valid even if its leaf is later forgotten.

use vstd::prelude::*;
use crate::hash::{combine_s, item_hash_s, mix, Digest, Fq, TIER_SEED};
use crate::hash::{combine_from, lemma_combine_push};

verus! {

/// The address of a leaf within the eternity: which epoch, which block
/// within that epoch, which item within that block.
#[derive(Clone, Copy, PartialEq, Eq, Structural)]
pub struct Position {
    pub epoch: u16,
    pub block: u16,
    pub item: u16,
}

/// One level of an authentication path: the digests of the siblings before
/// the taken child and after it, in child order. A verifier recombines a
/// level by folding `before`, then the digest carried up from below, then
/// `after`.
pub struct PathLevel {
    pub before: Vec<Digest>,
    pub after: Vec<Digest>,
}

/// An inclusion certificate for one leaf, checkable against a root digest
/// by an external verifier that recomputes the root bottom-up.
pub struct Proof {
    /// Where the leaf sits in the eternity.
    pub position: Position,
    /// Sibling digests at each tier, ordered from leaf to root.
    pub auth_path: Vec<PathLevel>,
    /// The committed field element itself.
    pub leaf: Fq,
}

/// The epoch coordinate of a packed 48-bit position.
pub open spec fn dec3_e(p: u64) -> int {
    p as int / 0x100000000
}

/// The block coordinate of a packed 48-bit position.
pub open spec fn dec3_b(p: u64) -> int {
    (p as int % 0x100000000) / 0x10000
}

/// The item coordinate of a packed 48-bit position.
pub open spec fn dec3_i(p: u64) -> int {
    (p as int % 0x100000000) % 0x10000
}

/// The block coordinate of a position packed within an epoch.
pub open spec fn dec2_b(p: u64) -> int {
    p as int / 0x10000
}

/// The item coordinate of a position packed within an epoch.
pub open spec fn dec2_i(p: u64) -> int {
    p as int % 0x10000
}

/// Lifting a within-epoch position into block `nn` of the epoch leaves the
/// item coordinate alone and sets the block coordinate.
pub proof fn lemma_lift2(p: u64, nn: u64)
    by (nonlinear_arith)
    requires
        p < 0x10000,
        nn < 0x10000,
    ensures
        (p + nn * 0x10000) as int / 0x10000 == nn as int,
        (p + nn * 0x10000) as int % 0x10000 == p as int,
{
}

/// Lifting a within-epoch position into epoch `nn` of the eternity leaves
/// the within-epoch packing alone and sets the epoch coordinate.
pub proof fn lemma_lift3(p: u64, nn: u64)
    by (nonlinear_arith)
    requires
        p < 0x100000000,
        nn < 0x10000,
    ensures
        (p + nn * 0x100000000) as int / 0x100000000 == nn as int,
        (p + nn * 0x100000000) as int % 0x100000000 == p as int,
{
}

/// Unpack a 48-bit position into its epoch, block and item coordinates.
pub fn decode3(p: u64) -> (r: (usize, usize, usize))
    requires
        p < 0x1000000000000,
    ensures
        r.0 == dec3_e(p),
        r.1 == dec3_b(p),
        r.2 == dec3_i(p),
        r.0 < 0x10000,
        r.1 < 0x10000,
        r.2 < 0x10000,
{
    let e = (p / 0x100000000) as usize;
    let rem = p % 0x100000000;
    let b = (rem / 0x10000) as usize;
    let i = (rem % 0x10000) as usize;
    proof {
        assert(p as int / 0x100000000 < 0x10000) by (nonlinear_arith)
            requires p < 0x1000000000000;
        assert((p as int % 0x100000000) / 0x10000 < 0x10000) by (nonlinear_arith);
    }
    (e, b, i)
}

/// The inner 64-bit words of a sequence of digests.
pub open spec fn digests(s: Seq<Digest>) -> Seq<u64> {
    s.map_values(|d: Digest| d.inner)
}

/// Recombine one path level around the digest carried up from below.
pub open spec fn level_combine(lvl: PathLevel, h: u64) -> u64 {
    combine_s(digests(lvl.before@) + seq![h] + digests(lvl.after@))
}

/// Recombine a whole path, bottom-up, starting from the leaf digest.
pub open spec fn recombine_s(path: Seq<PathLevel>, h: u64) -> u64
    decreases path.len(),
{
    if path.len() == 0 {
        h
    } else {
        recombine_s(path.drop_first(), level_combine(path[0], h))
    }
}

/// A tier digest equals the recombination of any one child's digest with
/// the digests of its siblings.
pub proof fn lemma_split_combine(s: Seq<u64>, i: int)
    requires
        0 <= i < s.len(),
    ensures
        combine_s(s) == combine_s(s.subrange(0, i) + seq![s[i]] + s.subrange(i + 1, s.len() as int)),
{
    assert(s.subrange(0, i) + seq![s[i]] + s.subrange(i + 1, s.len() as int) =~= s);
}

/// Fold a level executably: seed, then `before`, then the carried digest,
/// then `after`.
pub fn level_hash(before: &Vec<Digest>, mid: u64, after: &Vec<Digest>) -> (r: u64)
    ensures
        r == combine_s(digests(before@) + seq![mid] + digests(after@)),
{
    let ghost whole: Seq<u64> = digests(before@) + seq![mid] + digests(after@);
    let mut acc: u64 = TIER_SEED;
    let mut j: usize = 0;
    while j < before.len()
        invariant
            j <= before@.len(),
            acc == combine_from(TIER_SEED, digests(before@).subrange(0, j as int)),
        decreases before@.len() - j,
    {
        proof {
            assert(digests(before@).subrange(0, j + 1) =~= digests(before@).subrange(
                0,
                j as int,
            ).push(before@[j as int].inner));
            lemma_combine_push(
                TIER_SEED,
                digests(before@).subrange(0, j as int),
                before@[j as int].inner,
            );
        }
        acc = mix(acc, before[j].inner);
        j += 1;
    }
    proof {
        assert(digests(before@).subrange(0, before@.len() as int) =~= digests(before@));
        lemma_combine_push(TIER_SEED, digests(before@), mid);
        assert(digests(before@).push(mid) =~= digests(before@) + seq![mid]);
    }
    acc = mix(acc, mid);
    let ghost head: Seq<u64> = digests(before@) + seq![mid];
    let mut k: usize = 0;
    while k < after.len()
        invariant
            k <= after@.len(),
            head == digests(before@) + seq![mid],
            acc == combine_from(TIER_SEED, head + digests(after@).subrange(0, k as int)),
        decreases after@.len() - k,
    {
        proof {
            assert(head + digests(after@).subrange(0, k + 1) =~= (head + digests(after@).subrange(
                0,
                k as int,
            )).push(after@[k as int].inner));
            lemma_combine_push(
                TIER_SEED,
                head + digests(after@).subrange(0, k as int),
                after@[k as int].inner,
            );
        }
        acc = mix(acc, after[k].inner);
        k += 1;
    }
    proof {
        assert(head + digests(after@).subrange(0, after@.len() as int) =~= whole);
        assert(head + digests(after@).subrange(0, 0) =~= head);
    }
    acc
}

impl Proof {
    /// Check this proof against a trusted root: recompute the root from the
    /// leaf's domain hash and the authentication path, and compare.
    pub fn verify(&self, root: Digest) -> (r: bool)
        ensures
            r == (recombine_s(self.auth_path@, item_hash_s(self.leaf.inner)) == root.inner),
    {
        let mut h: u64 = crate::hash::item_hash(self.leaf.inner);
        proof {
            assert(self.auth_path@.subrange(0, self.auth_path@.len() as int) =~= self.auth_path@);
        }
        let mut j: usize = 0;
        while j < self.auth_path.len()
            invariant
                j <= self.auth_path@.len(),
                recombine_s(self.auth_path@, item_hash_s(self.leaf.inner)) == recombine_s(
                    self.auth_path@.subrange(j as int, self.auth_path@.len() as int),
                    h,
                ),
            decreases self.auth_path@.len() - j,
        {
            let ghost rest = self.auth_path@.subrange(j as int, self.auth_path@.len() as int);
            let lvl = &self.auth_path[j];
            h = level_hash(&lvl.before, h, &lvl.after);
            proof {
                assert(rest[0] == self.auth_path@[j as int]);
                assert(rest.drop_first() =~= self.auth_path@.subrange(
                    j + 1,
                    self.auth_path@.len() as int,
                ));
            }
            j += 1;
        }
        proof {
            assert(self.auth_path@.subrange(
                self.auth_path@.len() as int,
                self.auth_path@.len() as int,
            ) =~= Seq::<PathLevel>::empty());
        }
        h == root.inner
    }
}

} // verus!
