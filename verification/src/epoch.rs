//! The middle tier: an epoch of up to 65,536 blocks, with a reverse index
//! from item value to packed within-epoch positions.

use vstd::prelude::*;
use crate::block::{all_hash1, hash1, leaf_keep1, leaf_val1, tier1_hash, tier1_wf, witness1};
use crate::block::{all_hash1_s, forget1, pos_ok1, Block, Item};
use crate::hash::{combine_from, combine_s, lemma_combine_push, mix, Digest, TIER_SEED};
use crate::hash::item_hash_s;
use crate::index_map::{
    empty_index, index_into_pairs, index_new, lift_seq, merge_index, positions_of, IndexMap,
};
use crate::index_map::key_in_pairs;
use crate::insert::Insert;
use crate::proofs::{dec2_b, dec2_i, digests, lemma_lift2, lemma_split_combine, level_combine};
use crate::proofs::PathLevel;
use crate::tier::{Tier, CAPACITY};

verus! {

/// The digest a child contributes to its epoch: the block tier's digest if
/// kept, or the elided digest directly.
pub open spec fn ins2_hash(c: Insert<Tier<Item>>) -> u64 {
    match c {
        Insert::Keep(t1) => tier1_hash(t1),
        Insert::Hash(d) => d.inner,
    }
}

/// The ordered child digests of an epoch tier.
pub open spec fn tier2_digests(t: Tier<Tier<Item>>) -> Seq<u64> {
    t.children@.map_values(|c: Insert<Tier<Item>>| ins2_hash(c))
}

/// The root digest of an epoch tier.
pub open spec fn tier2_hash(t: Tier<Tier<Item>>) -> u64 {
    combine_s(tier2_digests(t))
}

/// Well-formedness of an epoch tier: within capacity, every kept block
/// tier is itself well-formed, and the cache, when present, is the digest
/// of the current children.
pub open spec fn tier2_wf(t: Tier<Tier<Item>>) -> bool {
    &&& t.children@.len() <= CAPACITY
    &&& forall|j: int|
        0 <= j < t.children@.len() ==> (#[trigger] t.children@[j] matches Insert::Keep(t1)
            ==> tier1_wf(t1))
    &&& (t.cached matches Some(d) ==> d.inner == tier2_hash(t))
}

/// Whether block `b`, item `i` holds a kept (witnessable) item.
pub open spec fn leaf_keep2(t: Tier<Tier<Item>>, b: int, i: int) -> bool {
    &&& 0 <= b < t.children@.len()
    &&& match t.children@[b] {
        Insert::Keep(t1) => leaf_keep1(t1, i),
        Insert::Hash(_) => false,
    }
}

/// The value of the kept item at block `b`, item `i`.
pub open spec fn leaf_val2(t: Tier<Tier<Item>>, b: int, i: int) -> u64 {
    match t.children@[b] {
        Insert::Keep(t1) => leaf_val1(t1, i),
        Insert::Hash(_) => 0,
    }
}

/// Whether every child of the epoch tier is elided.
pub open spec fn all_hash2_s(t: Tier<Tier<Item>>) -> bool {
    forall|j: int| 0 <= j < t.children@.len() ==> (#[trigger] t.children@[j]) is Hash
}

/// The digest one child contributes, executably; a kept block's cache is
/// used when present.
pub fn child_hash2(c: &Insert<Tier<Item>>) -> (h: u64)
    requires
        *c matches Insert::Keep(t1) ==> tier1_wf(t1),
    ensures
        h == ins2_hash(*c),
{
    match c {
        Insert::Keep(t1) => hash1(t1),
        Insert::Hash(d) => d.inner,
    }
}

/// Recompute an epoch tier's digest from its children.
#[verifier::loop_isolation(false)]
pub fn hash2_compute(t: &Tier<Tier<Item>>) -> (h: u64)
    requires
        tier2_wf(*t),
    ensures
        h == tier2_hash(*t),
{
    let mut acc: u64 = TIER_SEED;
    let mut j: usize = 0;
    while j < t.children.len()
        invariant
            j <= t.children@.len(),
            acc == combine_from(TIER_SEED, tier2_digests(*t).subrange(0, j as int)),
        decreases t.children@.len() - j,
    {
        proof {
            assert(tier2_digests(*t).subrange(0, j + 1) =~= tier2_digests(*t).subrange(
                0,
                j as int,
            ).push(tier2_digests(*t)[j as int]));
            lemma_combine_push(
                TIER_SEED,
                tier2_digests(*t).subrange(0, j as int),
                tier2_digests(*t)[j as int],
            );
        }
        acc = mix(acc, child_hash2(&t.children[j]));
        j += 1;
    }
    proof {
        assert(tier2_digests(*t).subrange(0, t.children@.len() as int) =~= tier2_digests(*t));
    }
    acc
}

/// An epoch tier's digest: the cache if present, else recomputed.
pub fn hash2(t: &Tier<Tier<Item>>) -> (h: u64)
    requires
        tier2_wf(*t),
    ensures
        h == tier2_hash(*t),
{
    match &t.cached {
        Some(d) => d.inner,
        None => hash2_compute(t),
    }
}

/// The digests of all children except `b`, split into those before and
/// those after, in child order.
#[verifier::loop_isolation(false)]
pub fn siblings2(t: &Tier<Tier<Item>>, b: usize) -> (r: (Vec<Digest>, Vec<Digest>))
    requires
        tier2_wf(*t),
        b < t.children@.len(),
    ensures
        digests(r.0@) == tier2_digests(*t).subrange(0, b as int),
        digests(r.1@) == tier2_digests(*t).subrange(b + 1, t.children@.len() as int),
{
    let n = t.children.len();
    let mut before: Vec<Digest> = Vec::new();
    proof {
        assert(digests(before@) =~= tier2_digests(*t).subrange(0, 0));
    }
    let mut j: usize = 0;
    while j < b
        invariant
            j <= b,
            digests(before@) == tier2_digests(*t).subrange(0, j as int),
        decreases b - j,
    {
        let d = Digest { inner: child_hash2(&t.children[j]) };
        proof {
            assert(digests(before@.push(d)) =~= digests(before@).push(d.inner));
            assert(tier2_digests(*t).subrange(0, j + 1) =~= tier2_digests(*t).subrange(
                0,
                j as int,
            ).push(tier2_digests(*t)[j as int]));
        }
        before.push(d);
        j += 1;
    }
    let mut after: Vec<Digest> = Vec::new();
    proof {
        assert(digests(after@) =~= tier2_digests(*t).subrange(b + 1, b + 1));
    }
    let mut k: usize = b + 1;
    while k < n
        invariant
            b + 1 <= k <= t.children@.len(),
            digests(after@) == tier2_digests(*t).subrange(b + 1, k as int),
        decreases t.children@.len() - k,
    {
        let d = Digest { inner: child_hash2(&t.children[k]) };
        proof {
            assert(digests(after@.push(d)) =~= digests(after@).push(d.inner));
            assert(tier2_digests(*t).subrange(b + 1, k + 1) =~= tier2_digests(*t).subrange(
                b + 1,
                k as int,
            ).push(tier2_digests(*t)[k as int]));
        }
        after.push(d);
        k += 1;
    }
    (before, after)
}

/// The witness data for block `b`, item `i` of an epoch tier: the two path
/// levels (epoch-level first, then block-level) and the leaf's digest.
/// `None` exactly when the position is out of range or passes through an
/// elided node.
pub fn witness2(t: &Tier<Tier<Item>>, b: usize, i: usize) -> (r: Option<
    (PathLevel, PathLevel, Digest),
>)
    requires
        tier2_wf(*t),
    ensures
        r is Some <==> leaf_keep2(*t, b as int, i as int),
        r matches Some(w) ==> level_combine(w.0, level_combine(w.1, w.2.inner)) == tier2_hash(*t)
            && w.2.inner == item_hash_s(leaf_val2(*t, b as int, i as int)),
{
    if b >= t.children.len() {
        return None;
    }
    match &t.children[b] {
        Insert::Hash(_) => None,
        Insert::Keep(t1) => {
            match witness1(t1, i) {
                None => None,
                Some((l0, leaf)) => {
                    let (before, after) = siblings2(t, b);
                    proof {
                        lemma_split_combine(tier2_digests(*t), b as int);
                        assert(digests(before@) + seq![tier1_hash(*t1)] + digests(after@)
                            =~= tier2_digests(*t).subrange(0, b as int) + seq![
                            tier2_digests(*t)[b as int],
                        ] + tier2_digests(*t).subrange(b + 1, t.children@.len() as int));
                    }
                    Some((PathLevel { before, after }, l0, leaf))
                },
            }
        },
    }
}

/// Forget the item at block `b`, item `i`: the leaf becomes a bare digest,
/// and if the whole block is thereby elided, the block itself is elided to
/// its digest. The epoch tier's digest, its length, and every other leaf
/// are unchanged.
pub fn forget2(t: &mut Tier<Tier<Item>>, b: usize, i: usize) -> (changed: bool)
    requires
        tier2_wf(*old(t)),
    ensures
        tier2_wf(*final(t)),
        final(t).children@.len() == old(t).children@.len(),
        tier2_hash(*final(t)) == tier2_hash(*old(t)),
        final(t).cached == old(t).cached,
        changed == leaf_keep2(*old(t), b as int, i as int),
        !leaf_keep2(*final(t), b as int, i as int),
        forall|b2: int, i2: int|
            (b2 != b || i2 != i) ==> (leaf_keep2(*final(t), b2, i2) == leaf_keep2(
                *old(t),
                b2,
                i2,
            ) && (leaf_keep2(*old(t), b2, i2) ==> leaf_val2(*final(t), b2, i2) == leaf_val2(
                *old(t),
                b2,
                i2,
            ))),
    {
    if b >= t.children.len() {
        return false;
    }
    let c = t.children.remove(b);
    match c {
        Insert::Hash(d) => {
            t.children.insert(b, Insert::Hash(d));
            proof {
                assert(t.children@ =~= old(t).children@);
            }
            false
        },
        Insert::Keep(mut t1) => {
            let ghost t1_pre = t1;
            let changed = forget1(&mut t1, i);
            let elide = changed && all_hash1(&t1);
            let repl: Insert<Tier<Item>> = if elide {
                Insert::Hash(Digest { inner: hash1(&t1) })
            } else {
                Insert::Keep(t1)
            };
            t.children.insert(b, repl);
            proof {
                assert(t.children@ =~= old(t).children@.update(b as int, repl));
                assert(ins2_hash(repl) == ins2_hash(old(t).children@[b as int]));
                assert(tier2_digests(*t) =~= tier2_digests(*old(t)));
                assert forall|b2: int, i2: int| (b2 != b || i2 != i) implies (leaf_keep2(
                    *t,
                    b2,
                    i2,
                ) == leaf_keep2(*old(t), b2, i2) && (leaf_keep2(*old(t), b2, i2) ==> leaf_val2(
                    *t,
                    b2,
                    i2,
                ) == leaf_val2(*old(t), b2, i2))) by {
                    if b2 == b {
                        if 0 <= i2 < t1_pre.children@.len() && i2 != i {
                            assert(t1.children@[i2] == t1_pre.children@[i2]);
                            if elide {
                                assert(all_hash1_s(t1));
                                assert(t1.children@[i2] is Hash);
                                assert(!leaf_keep1(t1_pre, i2));
                            }
                        }
                    }
                }
            }
            changed
        },
    }
}

/// Whether every child of the epoch tier is elided, executably.
pub fn all_hash2(t: &Tier<Tier<Item>>) -> (r: bool)
    ensures
        r == all_hash2_s(*t),
{
    let mut j: usize = 0;
    while j < t.children.len()
        invariant
            j <= t.children@.len(),
            forall|x: int| 0 <= x < j ==> (#[trigger] t.children@[x]) is Hash,
        decreases t.children@.len() - j,
    {
        match &t.children[j] {
            Insert::Keep(_) => {
                return false;
            },
            Insert::Hash(_) => {},
        }
        j += 1;
    }
    true
}

/// Whether `p` encodes a within-epoch position at which a kept item with
/// value `v` sits.
pub open spec fn pos_ok2(t: Tier<Tier<Item>>, p: u64, v: u64) -> bool {
    &&& p < 0x100000000
    &&& leaf_keep2(t, dec2_b(p), dec2_i(p))
    &&& leaf_val2(t, dec2_b(p), dec2_i(p)) == v
}

/// The epoch's index is sound: every recorded position holds a kept item
/// with the recorded value, and no recorded list is empty.
pub open spec fn index_wf2(m: Map<u64, Vec<u64>>, t: Tier<Tier<Item>>) -> bool {
    &&& forall|k: u64| #[trigger] m.contains_key(k) ==> m[k]@.len() > 0
    &&& forall|k: u64, j: int|
        m.contains_key(k) && 0 <= j < m[k]@.len() ==> pos_ok2(t, #[trigger] m[k]@[j], k)
}

/// The fill level a block contributes to its epoch's length: its item
/// count if kept, or the maximum partial value if elided, since an elided
/// block's true fill is not observable.
pub open spec fn ins_block_fill(c: Insert<Tier<Item>>) -> int {
    match c {
        Insert::Keep(t1) => t1.children@.len() as int,
        Insert::Hash(_) => 0xFFFF,
    }
}

/// The packed length of an epoch tier: every block before the focus counts
/// as full, and the focus contributes its fill level.
pub open spec fn epoch_fill(t: Tier<Tier<Item>>) -> int {
    if t.children@.len() == 0 {
        0
    } else {
        (t.children@.len() - 1) * 0x10000 + ins_block_fill(t.children@.last())
    }
}

/// An epoch: up to 65,536 blocks, plus a reverse index from item value to
/// the packed within-epoch positions at which it is witnessed.
#[derive(Debug, Clone, PartialEq, Eq)]
pub struct Epoch {
    pub index: IndexMap,
    pub inner: Tier<Tier<Item>>,
}

/// The stored form of a block inserted into an epoch: its index is peeled
/// off for merging and only the tier is kept.
pub open spec fn strip_block(c: Insert<Block>) -> Insert<Tier<Item>> {
    match c {
        Insert::Keep(b) => Insert::Keep(b.inner),
        Insert::Hash(d) => Insert::Hash(d),
    }
}

impl Epoch {
    /// The epoch's invariant: a well-formed tier and a sound index.
    pub open spec fn wf(self) -> bool {
        &&& tier2_wf(self.inner)
        &&& index_wf2(self.index@, self.inner)
    }

    /// The epoch's root digest, as a mathematical value.
    pub open spec fn hash_s(self) -> u64 {
        tier2_hash(self.inner)
    }

    /// A new empty epoch.
    pub fn new() -> (e: Epoch)
        ensures
            e.wf(),
            e.inner.children@.len() == 0,
            e.index@ == empty_index(),
            e.inner.cached is None,
    {
        Epoch { index: index_new(), inner: Tier::new() }
    }

    /// The packed length of the epoch: completed blocks count 65,536 each,
    /// and the focus block contributes its fill level.
    pub fn len(&self) -> (n: u64)
        requires
            self.wf(),
        ensures
            n == epoch_fill(self.inner),
    {
        let m = self.inner.len();
        if m == 0 {
            0
        } else {
            let fill: u64 = match self.inner.focus() {
                None => 0,
                Some(Insert::Hash(_)) => 0xFFFF,
                Some(Insert::Keep(t1)) => t1.children.len() as u64,
            };
            ((m - 1) as u64) * 0x10000 + fill
        }
    }

    /// Whether no block has been appended.
    pub fn is_empty(&self) -> (r: bool)
        ensures
            r == (self.inner.children@.len() == 0),
    {
        self.inner.is_empty()
    }

    /// The epoch's root digest, cached for subsequent calls. The epoch's
    /// children and index are unchanged.
    pub fn hash(&mut self) -> (d: Digest)
        requires
            old(self).wf(),
        ensures
            final(self).wf(),
            final(self).inner.children@ == old(self).inner.children@,
            final(self).index@ == old(self).index@,
            d.inner == tier2_hash(old(self).inner),
    {
        let h = hash2(&self.inner);
        self.inner.cached = Some(Digest { inner: h });
        Digest { inner: h }
    }

    /// Append one block (kept with its index, or elided to a digest) at
    /// the next free position. If the epoch is full, hand the block back
    /// unchanged — index and all — and mutate nothing. A kept block's
    /// index entries are re-addressed by the new block position and merged
    /// into the epoch's own index.
    #[verifier::loop_isolation(false)]
    pub fn insert(&mut self, block: Insert<Block>) -> (r: Result<(), Insert<Block>>)
        requires
            old(self).wf(),
            block matches Insert::Keep(b) ==> b.wf(),
        ensures
            final(self).wf(),
            old(self).inner.children@.len() >= CAPACITY ==> (r matches Err(c) && c == block)
                && *final(self) == *old(self),
            old(self).inner.children@.len() < CAPACITY ==> {
                &&& r is Ok
                &&& final(self).inner.children@ == old(self).inner.children@.push(
                    strip_block(block),
                )
                &&& final(self).inner.cached is None
                &&& (block matches Insert::Keep(b) ==> {
                    &&& forall|k: u64|
                        b.index@.contains_key(k) ==> #[trigger] final(self).index@.contains_key(k)
                            && final(self).index@[k]@ == positions_of(old(self).index@, k)
                            + lift_seq(
                            b.index@[k]@,
                            (old(self).inner.children@.len() * 0x10000) as u64,
                        )
                    &&& forall|k: u64|
                        !b.index@.contains_key(k) ==> (#[trigger] final(self).index@.contains_key(
                            k,
                        ) <==> old(self).index@.contains_key(k)) && (old(self).index@.contains_key(
                            k,
                        ) ==> final(self).index@[k] == old(self).index@[k])
                })
                &&& (block is Hash ==> final(self).index@ == old(self).index@)
                &&& epoch_fill(final(self).inner) >= epoch_fill(old(self).inner)
            },
    {
        let n = self.inner.len();
        if n >= CAPACITY {
            return Err(block);
        }
        match block {
            Insert::Hash(d) => {
                let res = self.inner.insert(Insert::Hash(d));
                if let Err(_) = res {
                    proof {
                        assert(false);
                    }
                }
                proof {
                    lemma_insert_keeps_index_wf2(old(self).inner, self.inner, self.index@);
                    lemma_fill_monotone(old(self).inner, self.inner);
                }
                Ok(())
            },
            Insert::Keep(b) => {
                let ghost b0 = b;
                let Block { index, inner } = b;
                let res = self.inner.insert(Insert::Keep(inner));
                if let Err(_) = res {
                    proof {
                        assert(false);
                    }
                }
                let pairs = index_into_pairs(index);
                proof {
                    assert forall|a: int, j: int|
                        0 <= a < pairs@.len() && 0 <= j < pairs@[a].1@.len() implies (
                    #[trigger] pairs@[a].1@[j]) as int + (n * 0x10000) as int
                        <= 0xFFFFFFFFFFFFFFFF by {
                        assert(b0.index@.contains_key(pairs@[a].0));
                        assert(b0.index@[pairs@[a].0]@[j] == pairs@[a].1@[j]);
                        assert(pos_ok1(b0.inner, pairs@[a].1@[j], pairs@[a].0));
                    }
                    assert forall|a: int| 0 <= a < pairs@.len() implies (
                    #[trigger] pairs@[a].1)@.len() > 0 by {
                        assert(b0.index@.contains_key(pairs@[a].0));
                    }
                }
                merge_index(&mut self.index, pairs, (n as u64) * 0x10000);
                proof {
                    let t_new = self.inner;
                    let m_new = self.index@;
                    assert(block == Insert::Keep(b0));
                    assert forall|k: u64|
                        b0.index@.contains_key(k) implies #[trigger] m_new.contains_key(k)
                        && m_new[k]@ == positions_of(old(self).index@, k) + lift_seq(
                        b0.index@[k]@,
                        (n * 0x10000) as u64,
                    ) by {
                        let a = choose|a: int| 0 <= a < pairs@.len() && pairs@[a].0 == k;
                        assert(pairs@[a].0 == k);
                        assert(pairs@[a].1 == b0.index@[k]);
                    }
                    assert forall|k: u64|
                        !b0.index@.contains_key(k) implies (#[trigger] m_new.contains_key(k)
                        <==> old(self).index@.contains_key(k)) && (old(self).index@.contains_key(k)
                        ==> m_new[k] == old(self).index@[k]) by {
                        assert(!key_in_pairs(pairs@, k));
                    }
                    assert forall|k: u64, j: int|
                        m_new.contains_key(k) && 0 <= j < m_new[k]@.len() implies pos_ok2(
                        t_new,
                        #[trigger] m_new[k]@[j],
                        k,
                    ) by {
                        if key_in_pairs(pairs@, k) {
                            let a = choose|a: int| 0 <= a < pairs@.len() && pairs@[a].0 == k;
                            assert(m_new[k]@ == positions_of(old(self).index@, k) + lift_seq(
                                pairs@[a].1@,
                                (n * 0x10000) as u64,
                            ));
                            let base = positions_of(old(self).index@, k).len() as int;
                            if j < base {
                                assert(pos_ok2(old(self).inner, m_new[k]@[j], k));
                                lemma_push_keeps_leaf2(old(self).inner, t_new, m_new[k]@[j], k);
                            } else {
                                let p0 = pairs@[a].1@[j - base];
                                assert(pos_ok1(inner, p0, k));
                                assert(m_new[k]@[j] == (p0 + (n * 0x10000) as u64) as u64);
                                lemma_lift2(p0, n as u64);
                                assert(t_new.children@[n as int] == Insert::Keep(inner));
                            }
                        } else {
                            assert(old(self).index@.contains_key(k) && old(self).index@[k]
                                == m_new[k]);
                            assert(pos_ok2(old(self).inner, m_new[k]@[j], k));
                            lemma_push_keeps_leaf2(old(self).inner, t_new, m_new[k]@[j], k);
                        }
                    }
                    assert forall|k: u64| #[trigger] m_new.contains_key(k) implies m_new[k]@.len()
                        > 0 by {
                        if key_in_pairs(pairs@, k) {
                            let a = choose|a: int| 0 <= a < pairs@.len() && pairs@[a].0 == k;
                            assert(b0.index@.contains_key(k));
                            assert(b0.index@[k]@.len() > 0);
                            assert(lift_seq(pairs@[a].1@, (n * 0x10000) as u64).len()
                                == pairs@[a].1@.len());
                        }
                    }
                    assert forall|k: u64|
                        b0.index@.contains_key(k) implies key_in_pairs(pairs@, k) by {}
                    assert forall|k: u64|
                        !b0.index@.contains_key(k) implies !key_in_pairs(pairs@, k) by {}
                    lemma_fill_monotone(old(self).inner, self.inner);
                }
                Ok(())
            },
        }
    }
}

/// Appending a child to an epoch tier does not disturb any existing leaf,
/// so a sound index stays sound.
proof fn lemma_push_keeps_leaf2(t0: Tier<Tier<Item>>, t1: Tier<Tier<Item>>, p: u64, v: u64)
    requires
        t1.children@.len() == t0.children@.len() + 1,
        forall|j: int| 0 <= j < t0.children@.len() ==> t1.children@[j] == t0.children@[j],
        pos_ok2(t0, p, v),
    ensures
        pos_ok2(t1, p, v),
{
    assert(t1.children@[dec2_b(p)] == t0.children@[dec2_b(p)]);
}

/// A sound index is unaffected by appending a child, since no existing
/// leaf moves.
proof fn lemma_insert_keeps_index_wf2(
    t0: Tier<Tier<Item>>,
    t1: Tier<Tier<Item>>,
    m: Map<u64, Vec<u64>>,
)
    requires
        index_wf2(m, t0),
        t1.children@.len() == t0.children@.len() + 1,
        forall|j: int| 0 <= j < t0.children@.len() ==> t1.children@[j] == t0.children@[j],
    ensures
        index_wf2(m, t1),
{
    assert forall|k: u64, j: int|
        m.contains_key(k) && 0 <= j < m[k]@.len() implies pos_ok2(t1, #[trigger] m[k]@[j], k) by {
        assert(pos_ok2(t0, m[k]@[j], k));
        lemma_push_keeps_leaf2(t0, t1, m[k]@[j], k);
    }
}

/// Appending a child never shrinks the packed length: the old focus block
/// contributes at most a completed block's worth.
proof fn lemma_fill_monotone(t0: Tier<Tier<Item>>, t1: Tier<Tier<Item>>)
    requires
        tier2_wf(t0),
        t1.children@.len() == t0.children@.len() + 1,
        forall|j: int| 0 <= j < t0.children@.len() ==> t1.children@[j] == t0.children@[j],
    ensures
        epoch_fill(t1) >= epoch_fill(t0),
{
    let n = t0.children@.len() as int;
    if n > 0 {
        assert(t0.children@.last() == t1.children@[n - 1]);
        assert(ins_block_fill(t0.children@.last()) <= 0x10000);
        assert(ins_block_fill(t1.children@.last()) >= 0);
    }
}

} // verus!
