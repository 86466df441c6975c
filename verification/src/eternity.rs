//! The outermost tier: an eternity of up to 65,536 epochs, with the
//! queryable reverse index from item value to every position at which the
//! value is witnessed.

use vstd::prelude::*;
use crate::block::Item;
use crate::epoch::{
    all_hash2, all_hash2_s, epoch_fill, forget2, hash2, ins_block_fill, leaf_keep2, leaf_val2,
    pos_ok2, tier2_hash, tier2_wf, witness2, Epoch,
};
use crate::hash::{
    combine_from, combine_s, item_hash_s, lemma_combine_push, mix, Digest, Fq, TIER_SEED,
};
use crate::index_map::{
    empty_index, index_get, index_into_pairs, index_new, index_remove, key_in_pairs, lift_seq,
    merge_index, positions_of, IndexMap,
};
use crate::insert::Insert;
use crate::proofs::{
    dec3_b, dec3_e, dec3_i, decode3, digests, lemma_lift3, lemma_split_combine, level_combine,
    recombine_s, PathLevel, Position, Proof,
};
use crate::tier::{Tier, CAPACITY};

verus! {

/// The digest a child contributes to the eternity: the epoch tier's digest
/// if kept, or the elided digest directly.
pub open spec fn ins3_hash(c: Insert<Tier<Tier<Item>>>) -> u64 {
    match c {
        Insert::Keep(t2) => tier2_hash(t2),
        Insert::Hash(d) => d.inner,
    }
}

/// The ordered child digests of the eternity tier.
pub open spec fn tier3_digests(t: Tier<Tier<Tier<Item>>>) -> Seq<u64> {
    t.children@.map_values(|c: Insert<Tier<Tier<Item>>>| ins3_hash(c))
}

/// The root digest of the eternity tier.
pub open spec fn tier3_hash(t: Tier<Tier<Tier<Item>>>) -> u64 {
    combine_s(tier3_digests(t))
}

/// Well-formedness of the eternity tier: within capacity, every kept epoch
/// tier is itself well-formed, and the cache, when present, is the digest
/// of the current children.
pub open spec fn tier3_wf(t: Tier<Tier<Tier<Item>>>) -> bool {
    &&& t.children@.len() <= CAPACITY
    &&& forall|j: int|
        0 <= j < t.children@.len() ==> (#[trigger] t.children@[j] matches Insert::Keep(t2)
            ==> tier2_wf(t2))
    &&& (t.cached matches Some(d) ==> d.inner == tier3_hash(t))
}

/// Whether epoch `e`, block `b`, item `i` holds a kept item.
pub open spec fn leaf_keep3(t: Tier<Tier<Tier<Item>>>, e: int, b: int, i: int) -> bool {
    &&& 0 <= e < t.children@.len()
    &&& match t.children@[e] {
        Insert::Keep(t2) => leaf_keep2(t2, b, i),
        Insert::Hash(_) => false,
    }
}

/// The value of the kept item at epoch `e`, block `b`, item `i`.
pub open spec fn leaf_val3(t: Tier<Tier<Tier<Item>>>, e: int, b: int, i: int) -> u64 {
    match t.children@[e] {
        Insert::Keep(t2) => leaf_val2(t2, b, i),
        Insert::Hash(_) => 0,
    }
}

/// The digest one child contributes, executably; a kept epoch tier's cache
/// is used when present.
pub fn child_hash3(c: &Insert<Tier<Tier<Item>>>) -> (h: u64)
    requires
        *c matches Insert::Keep(t2) ==> tier2_wf(t2),
    ensures
        h == ins3_hash(*c),
{
    match c {
        Insert::Keep(t2) => hash2(t2),
        Insert::Hash(d) => d.inner,
    }
}

/// Recompute the eternity tier's digest from its children.
#[verifier::loop_isolation(false)]
pub fn hash3_compute(t: &Tier<Tier<Tier<Item>>>) -> (h: u64)
    requires
        tier3_wf(*t),
    ensures
        h == tier3_hash(*t),
{
    let mut acc: u64 = TIER_SEED;
    let mut j: usize = 0;
    while j < t.children.len()
        invariant
            j <= t.children@.len(),
            acc == combine_from(TIER_SEED, tier3_digests(*t).subrange(0, j as int)),
        decreases t.children@.len() - j,
    {
        proof {
            assert(tier3_digests(*t).subrange(0, j + 1) =~= tier3_digests(*t).subrange(
                0,
                j as int,
            ).push(tier3_digests(*t)[j as int]));
            lemma_combine_push(
                TIER_SEED,
                tier3_digests(*t).subrange(0, j as int),
                tier3_digests(*t)[j as int],
            );
        }
        acc = mix(acc, child_hash3(&t.children[j]));
        j += 1;
    }
    proof {
        assert(tier3_digests(*t).subrange(0, t.children@.len() as int) =~= tier3_digests(*t));
    }
    acc
}

/// The eternity tier's digest: the cache if present, else recomputed.
pub fn hash3(t: &Tier<Tier<Tier<Item>>>) -> (h: u64)
    requires
        tier3_wf(*t),
    ensures
        h == tier3_hash(*t),
{
    match &t.cached {
        Some(d) => d.inner,
        None => hash3_compute(t),
    }
}

/// The digests of all children except `e`, split into those before and
/// those after, in child order.
#[verifier::loop_isolation(false)]
pub fn siblings3(t: &Tier<Tier<Tier<Item>>>, e: usize) -> (r: (Vec<Digest>, Vec<Digest>))
    requires
        tier3_wf(*t),
        e < t.children@.len(),
    ensures
        digests(r.0@) == tier3_digests(*t).subrange(0, e as int),
        digests(r.1@) == tier3_digests(*t).subrange(e + 1, t.children@.len() as int),
{
    let n = t.children.len();
    let mut before: Vec<Digest> = Vec::new();
    proof {
        assert(digests(before@) =~= tier3_digests(*t).subrange(0, 0));
    }
    let mut j: usize = 0;
    while j < e
        invariant
            j <= e,
            digests(before@) == tier3_digests(*t).subrange(0, j as int),
        decreases e - j,
    {
        let d = Digest { inner: child_hash3(&t.children[j]) };
        proof {
            assert(digests(before@.push(d)) =~= digests(before@).push(d.inner));
            assert(tier3_digests(*t).subrange(0, j + 1) =~= tier3_digests(*t).subrange(
                0,
                j as int,
            ).push(tier3_digests(*t)[j as int]));
        }
        before.push(d);
        j += 1;
    }
    let mut after: Vec<Digest> = Vec::new();
    proof {
        assert(digests(after@) =~= tier3_digests(*t).subrange(e + 1, e + 1));
    }
    let mut k: usize = e + 1;
    while k < n
        invariant
            e + 1 <= k <= t.children@.len(),
            digests(after@) == tier3_digests(*t).subrange(e + 1, k as int),
        decreases t.children@.len() - k,
    {
        let d = Digest { inner: child_hash3(&t.children[k]) };
        proof {
            assert(digests(after@.push(d)) =~= digests(after@).push(d.inner));
            assert(tier3_digests(*t).subrange(e + 1, k + 1) =~= tier3_digests(*t).subrange(
                e + 1,
                k as int,
            ).push(tier3_digests(*t)[k as int]));
        }
        after.push(d);
        k += 1;
    }
    (before, after)
}

/// The witness data for epoch `e`, block `b`, item `i`: the three path
/// levels ordered root-to-leaf in the tuple (eternity, epoch, block) and
/// the leaf's digest. `None` exactly when the position is out of range or
/// passes through an elided node.
pub fn witness3(t: &Tier<Tier<Tier<Item>>>, e: usize, b: usize, i: usize) -> (r: Option<
    (PathLevel, PathLevel, PathLevel, Digest),
>)
    requires
        tier3_wf(*t),
    ensures
        r is Some <==> leaf_keep3(*t, e as int, b as int, i as int),
        r matches Some(w) ==> level_combine(w.0, level_combine(w.1, level_combine(w.2, w.3.inner)))
            == tier3_hash(*t) && w.3.inner == item_hash_s(
            leaf_val3(*t, e as int, b as int, i as int),
        ),
{
    if e >= t.children.len() {
        return None;
    }
    match &t.children[e] {
        Insert::Hash(_) => None,
        Insert::Keep(t2) => {
            match witness2(t2, b, i) {
                None => None,
                Some((l1, l0, leaf)) => {
                    let (before, after) = siblings3(t, e);
                    proof {
                        lemma_split_combine(tier3_digests(*t), e as int);
                        assert(digests(before@) + seq![tier2_hash(*t2)] + digests(after@)
                            =~= tier3_digests(*t).subrange(0, e as int) + seq![
                            tier3_digests(*t)[e as int],
                        ] + tier3_digests(*t).subrange(e + 1, t.children@.len() as int));
                    }
                    Some((PathLevel { before, after }, l1, l0, leaf))
                },
            }
        },
    }
}

/// Forget the item at epoch `e`, block `b`, item `i`: the leaf becomes a
/// bare digest, and any block or epoch that is thereby entirely elided is
/// elided to its digest. The root digest, the child count, and every other
/// leaf are unchanged.
pub fn forget3(t: &mut Tier<Tier<Tier<Item>>>, e: usize, b: usize, i: usize) -> (changed: bool)
    requires
        tier3_wf(*old(t)),
    ensures
        tier3_wf(*final(t)),
        final(t).children@.len() == old(t).children@.len(),
        tier3_hash(*final(t)) == tier3_hash(*old(t)),
        final(t).cached == old(t).cached,
        changed == leaf_keep3(*old(t), e as int, b as int, i as int),
        !leaf_keep3(*final(t), e as int, b as int, i as int),
        forall|e2: int, b2: int, i2: int|
            (e2 != e || b2 != b || i2 != i) ==> (leaf_keep3(*final(t), e2, b2, i2) == leaf_keep3(
                *old(t),
                e2,
                b2,
                i2,
            ) && (leaf_keep3(*old(t), e2, b2, i2) ==> leaf_val3(*final(t), e2, b2, i2) == leaf_val3(
                *old(t),
                e2,
                b2,
                i2,
            ))),
    {
    if e >= t.children.len() {
        return false;
    }
    let c = t.children.remove(e);
    match c {
        Insert::Hash(d) => {
            t.children.insert(e, Insert::Hash(d));
            proof {
                assert(t.children@ =~= old(t).children@);
            }
            false
        },
        Insert::Keep(mut t2) => {
            let ghost t2_pre = t2;
            let changed = forget2(&mut t2, b, i);
            let elide = changed && all_hash2(&t2);
            let repl: Insert<Tier<Tier<Item>>> = if elide {
                Insert::Hash(Digest { inner: hash2(&t2) })
            } else {
                Insert::Keep(t2)
            };
            t.children.insert(e, repl);
            proof {
                assert(t.children@ =~= old(t).children@.update(e as int, repl));
                assert(ins3_hash(repl) == ins3_hash(old(t).children@[e as int]));
                assert(tier3_digests(*t) =~= tier3_digests(*old(t)));
                assert forall|e2: int, b2: int, i2: int|
                    (e2 != e || b2 != b || i2 != i) implies (leaf_keep3(*t, e2, b2, i2)
                    == leaf_keep3(*old(t), e2, b2, i2) && (leaf_keep3(*old(t), e2, b2, i2)
                    ==> leaf_val3(*t, e2, b2, i2) == leaf_val3(*old(t), e2, b2, i2))) by {
                    if e2 == e {
                        if b2 != b || i2 != i {
                            assert(leaf_keep2(t2, b2, i2) == leaf_keep2(t2_pre, b2, i2));
                            assert(leaf_keep2(t2_pre, b2, i2) ==> leaf_val2(t2, b2, i2)
                                == leaf_val2(t2_pre, b2, i2));
                            if elide {
                                assert(all_hash2_s(t2));
                                if 0 <= b2 < t2.children@.len() {
                                    assert(t2.children@[b2] is Hash);
                                    assert(!leaf_keep2(t2, b2, i2));
                                }
                            }
                        }
                    }
                }
            }
            changed
        },
    }
}

/// The fill level an epoch contributes to the eternity's length: its
/// packed block/item count if kept, or the maximum partial value if
/// elided, since an elided epoch's true fill is not observable.
pub open spec fn ins_epoch_fill(c: Insert<Tier<Tier<Item>>>) -> int {
    match c {
        Insert::Keep(t2) => epoch_fill(t2),
        Insert::Hash(_) => 0xFFFFFFFF,
    }
}

/// The packed length of the eternity: every epoch before the focus counts
/// as full (2^32 items), and the focus contributes its fill level.
pub open spec fn eternity_len_s(t: Tier<Tier<Tier<Item>>>) -> int {
    if t.children@.len() == 0 {
        0
    } else {
        (t.children@.len() - 1) * 0x100000000 + ins_epoch_fill(t.children@.last())
    }
}

/// The packed fill level of an epoch tier, executably.
pub fn epoch_fill_exec(t: &Tier<Tier<Item>>) -> (n: u64)
    requires
        tier2_wf(*t),
    ensures
        n == epoch_fill(*t),
        n <= 0x100000000,
{
    let m = t.len();
    if m == 0 {
        0
    } else {
        let fill: u64 = match t.focus() {
            None => 0,
            Some(Insert::Hash(_)) => 0xFFFF,
            Some(Insert::Keep(t1)) => t1.children.len() as u64,
        };
        proof {
            assert(ins_block_fill(t.children@.last()) <= 0x10000);
        }
        ((m - 1) as u64) * 0x10000 + fill
    }
}

/// Whether `p` encodes a position in the eternity at which a kept item
/// with value `v` sits.
pub open spec fn pos_ok3(t: Tier<Tier<Tier<Item>>>, p: u64, v: u64) -> bool {
    &&& p < 0x1000000000000
    &&& leaf_keep3(t, dec3_e(p), dec3_b(p), dec3_i(p))
    &&& leaf_val3(t, dec3_e(p), dec3_b(p), dec3_i(p)) == v
}

/// The eternity's index is sound: every recorded position holds a kept
/// item with the recorded value, and no recorded list is empty.
pub open spec fn index_wf3(m: Map<u64, Vec<u64>>, t: Tier<Tier<Tier<Item>>>) -> bool {
    &&& forall|k: u64| #[trigger] m.contains_key(k) ==> m[k]@.len() > 0
    &&& forall|k: u64, j: int|
        m.contains_key(k) && 0 <= j < m[k]@.len() ==> pos_ok3(t, #[trigger] m[k]@[j], k)
}

/// The stored form of an epoch inserted into the eternity: its index is
/// peeled off for merging and only the tier is kept.
pub open spec fn strip_epoch(c: Insert<Epoch>) -> Insert<Tier<Tier<Item>>> {
    match c {
        Insert::Keep(ep) => Insert::Keep(ep.inner),
        Insert::Hash(d) => Insert::Hash(d),
    }
}

/// A sparse commitment tree of up to 65,536 epochs of 65,536 blocks of
/// 65,536 items, together with a reverse index from item value to every
/// position at which the value is witnessed.
#[derive(Debug, Clone, PartialEq, Eq)]
pub struct Eternity {
    pub index: IndexMap,
    pub inner: Tier<Tier<Tier<Item>>>,
}

/// Whether `v` is currently witnessed somewhere in the eternity.
pub open spec fn witnessed(e: Eternity, v: u64) -> bool {
    e.index@.contains_key(v)
}

/// Whether the leaf at packed position `p` is elided (not kept).
pub open spec fn elided_at(t: Tier<Tier<Tier<Item>>>, p: u64) -> bool {
    !leaf_keep3(t, dec3_e(p), dec3_b(p), dec3_i(p))
}

impl Eternity {
    /// The eternity's invariant: a well-formed tier and a sound index.
    pub open spec fn wf(self) -> bool {
        &&& tier3_wf(self.inner)
        &&& index_wf3(self.index@, self.inner)
    }

    /// The eternity's root digest, as a mathematical value.
    pub open spec fn hash_s(self) -> u64 {
        tier3_hash(self.inner)
    }

    /// Create a new empty eternity for storing all commitments to the end
    /// of time.
    pub fn new() -> (e: Eternity)
        ensures
            e.wf(),
            e.inner.children@.len() == 0,
            e.index@ == empty_index(),
            e.inner.cached is None,
    {
        Eternity { index: index_new(), inner: Tier::new() }
    }

    /// The packed length of the eternity: 2^32 per completed epoch, 2^16
    /// per completed block in the focus epoch, plus the items of the focus
    /// block; an elided focus contributes the maximum partial value for
    /// its tier.
    pub fn len(&self) -> (n: u64)
        requires
            self.wf(),
        ensures
            n == eternity_len_s(self.inner),
    {
        let m = self.inner.len();
        if m == 0 {
            0
        } else {
            let fill: u64 = match self.inner.focus() {
                None => 0,
                Some(Insert::Hash(_)) => 0xFFFFFFFF,
                Some(Insert::Keep(t2)) => epoch_fill_exec(t2),
            };
            proof {
                assert(ins_epoch_fill(self.inner.children@.last()) <= 0x100000000);
            }
            ((m - 1) as u64) * 0x100000000 + fill
        }
    }

    /// Whether nothing has been inserted yet.
    pub fn is_empty(&self) -> (r: bool)
        ensures
            r == (self.inner.children@.len() == 0),
    {
        self.inner.is_empty()
    }

    /// The eternity's root digest, cached for subsequent calls. The
    /// children and the index are unchanged.
    pub fn hash(&mut self) -> (d: Digest)
        requires
            old(self).wf(),
        ensures
            final(self).wf(),
            final(self).inner.children@ == old(self).inner.children@,
            final(self).index@ == old(self).index@,
            d.inner == tier3_hash(old(self).inner),
            d.inner == tier3_hash(final(self).inner),
    {
        let h = hash3(&self.inner);
        self.inner.cached = Some(Digest { inner: h });
        Digest { inner: h }
    }

    /// Add a new epoch (or its root digest) all at once. If the eternity
    /// is full, the epoch is handed back unchanged — index and all — and
    /// nothing is mutated. A kept epoch's index entries are re-addressed
    /// by the new epoch position and merged into the eternity's index, so
    /// the length never decreases across a successful insert.
    #[verifier::loop_isolation(false)]
    pub fn insert(&mut self, epoch: Insert<Epoch>) -> (r: Result<(), Insert<Epoch>>)
        requires
            old(self).wf(),
            epoch matches Insert::Keep(ep) ==> ep.wf(),
        ensures
            final(self).wf(),
            old(self).inner.children@.len() >= CAPACITY ==> (r matches Err(c) && c == epoch)
                && *final(self) == *old(self),
            old(self).inner.children@.len() < CAPACITY ==> {
                &&& r is Ok
                &&& final(self).inner.children@ == old(self).inner.children@.push(
                    strip_epoch(epoch),
                )
                &&& final(self).inner.cached is None
                &&& (epoch matches Insert::Keep(ep) ==> {
                    &&& forall|k: u64|
                        ep.index@.contains_key(k) ==> #[trigger] final(self).index@.contains_key(k)
                            && final(self).index@[k]@ == positions_of(old(self).index@, k)
                            + lift_seq(
                            ep.index@[k]@,
                            (old(self).inner.children@.len() * 0x100000000) as u64,
                        )
                    &&& forall|k: u64|
                        !ep.index@.contains_key(k)
                            ==> (#[trigger] final(self).index@.contains_key(k)
                            <==> old(self).index@.contains_key(k))
                            && (old(self).index@.contains_key(k) ==> final(self).index@[k]
                            == old(self).index@[k])
                })
                &&& (epoch is Hash ==> final(self).index@ == old(self).index@)
                &&& eternity_len_s(final(self).inner) >= eternity_len_s(old(self).inner)
            },
    {
        let n = self.inner.len();
        if n >= CAPACITY {
            return Err(epoch);
        }
        match epoch {
            Insert::Hash(d) => {
                let res = self.inner.insert(Insert::Hash(d));
                if let Err(_) = res {
                    proof {
                        assert(false);
                    }
                }
                proof {
                    lemma_insert_keeps_index_wf3(old(self).inner, self.inner, self.index@);
                    lemma_len_monotone(old(self).inner, self.inner);
                }
                Ok(())
            },
            Insert::Keep(ep) => {
                let ghost ep0 = ep;
                let Epoch { index, inner } = ep;
                let res = self.inner.insert(Insert::Keep(inner));
                if let Err(_) = res {
                    proof {
                        assert(false);
                    }
                }
                let pairs = index_into_pairs(index);
                proof {
                    assert forall|a: int, j: int|
                        0 <= a < pairs@.len() && 0 <= j < pairs@[a].1@.len() implies (
                    #[trigger] pairs@[a].1@[j]) as int + (n * 0x100000000) as int
                        <= 0xFFFFFFFFFFFFFFFF by {
                        assert(ep0.index@.contains_key(pairs@[a].0));
                        assert(ep0.index@[pairs@[a].0]@[j] == pairs@[a].1@[j]);
                        assert(pos_ok2(ep0.inner, pairs@[a].1@[j], pairs@[a].0));
                    }
                    assert forall|a: int| 0 <= a < pairs@.len() implies (
                    #[trigger] pairs@[a].1)@.len() > 0 by {
                        assert(ep0.index@.contains_key(pairs@[a].0));
                    }
                }
                merge_index(&mut self.index, pairs, (n as u64) * 0x100000000);
                proof {
                    let t_new = self.inner;
                    let m_new = self.index@;
                    assert(epoch == Insert::Keep(ep0));
                    assert forall|k: u64|
                        ep0.index@.contains_key(k) implies #[trigger] m_new.contains_key(k)
                        && m_new[k]@ == positions_of(old(self).index@, k) + lift_seq(
                        ep0.index@[k]@,
                        (n * 0x100000000) as u64,
                    ) by {
                        let a = choose|a: int| 0 <= a < pairs@.len() && pairs@[a].0 == k;
                        assert(pairs@[a].0 == k);
                        assert(pairs@[a].1 == ep0.index@[k]);
                    }
                    assert forall|k: u64|
                        !ep0.index@.contains_key(k) implies (#[trigger] m_new.contains_key(k)
                        <==> old(self).index@.contains_key(k)) && (old(self).index@.contains_key(k)
                        ==> m_new[k] == old(self).index@[k]) by {
                        assert(!key_in_pairs(pairs@, k));
                    }
                    assert forall|k: u64, j: int|
                        m_new.contains_key(k) && 0 <= j < m_new[k]@.len() implies pos_ok3(
                        t_new,
                        #[trigger] m_new[k]@[j],
                        k,
                    ) by {
                        if key_in_pairs(pairs@, k) {
                            let a = choose|a: int| 0 <= a < pairs@.len() && pairs@[a].0 == k;
                            assert(m_new[k]@ == positions_of(old(self).index@, k) + lift_seq(
                                pairs@[a].1@,
                                (n * 0x100000000) as u64,
                            ));
                            let base = positions_of(old(self).index@, k).len() as int;
                            if j < base {
                                assert(pos_ok3(old(self).inner, m_new[k]@[j], k));
                                lemma_push_keeps_leaf3(old(self).inner, t_new, m_new[k]@[j], k);
                            } else {
                                let p0 = pairs@[a].1@[j - base];
                                assert(ep0.index@[k]@[j - base] == p0);
                                assert(pos_ok2(ep0.inner, p0, k));
                                assert(m_new[k]@[j] == (p0 + (n * 0x100000000) as u64) as u64);
                                lemma_lift3(p0, n as u64);
                                assert(t_new.children@[n as int] == Insert::Keep(inner));
                            }
                        } else {
                            assert(old(self).index@.contains_key(k) && old(self).index@[k]
                                == m_new[k]);
                            assert(pos_ok3(old(self).inner, m_new[k]@[j], k));
                            lemma_push_keeps_leaf3(old(self).inner, t_new, m_new[k]@[j], k);
                        }
                    }
                    assert forall|k: u64| #[trigger] m_new.contains_key(k) implies m_new[k]@.len()
                        > 0 by {
                        if key_in_pairs(pairs@, k) {
                            let a = choose|a: int| 0 <= a < pairs@.len() && pairs@[a].0 == k;
                            assert(ep0.index@.contains_key(k));
                            assert(lift_seq(pairs@[a].1@, (n * 0x100000000) as u64).len()
                                == pairs@[a].1@.len());
                        }
                    }
                    lemma_len_monotone(old(self).inner, self.inner);
                }
                Ok(())
            },
        }
    }

    /// Get a proof of inclusion for the latest position at which `item` is
    /// witnessed, or `None` if the value is not witnessed. The proof's
    /// authentication path recombines, from the item's domain hash, to the
    /// eternity's root digest, and always has one level per tier.
    pub fn witness(&self, item: Fq) -> (r: Option<Proof>)
        requires
            self.wf(),
        ensures
            r is Some <==> witnessed(*self, item.inner),
            r matches Some(pf) ==> {
                let p = self.index@[item.inner]@.last();
                &&& pf.leaf == item
                &&& pf.auth_path@.len() == 3
                &&& recombine_s(pf.auth_path@, item_hash_s(item.inner)) == tier3_hash(self.inner)
                &&& pf.position.epoch == dec3_e(p)
                &&& pf.position.block == dec3_b(p)
                &&& pf.position.item == dec3_i(p)
            },
    {
        match index_get(&self.index, item.inner) {
            None => None,
            Some(ps) => {
                let p = ps[ps.len() - 1];
                proof {
                    assert(self.index@[item.inner]@.last() == p);
                    assert(pos_ok3(self.inner, p, item.inner));
                }
                let (e, b, i) = decode3(p);
                match witness3(&self.inner, e, b, i) {
                    None => {
                        proof {
                            assert(false);
                        }
                        None
                    },
                    Some((l2, l1, l0, leaf)) => {
                        let mut path: Vec<PathLevel> = Vec::new();
                        path.push(l0);
                        path.push(l1);
                        path.push(l2);
                        let position = Position {
                            epoch: (e as u16),
                            block: (b as u16),
                            item: (i as u16),
                        };
                        proof {
                            let s = path@;
                            let h0 = level_combine(l0, leaf.inner);
                            let h1 = level_combine(l1, h0);
                            let h2 = level_combine(l2, h1);
                            assert(s[0] == l0 && s[1] == l1 && s[2] == l2);
                            assert(s.drop_first().drop_first().drop_first()
                                =~= Seq::<PathLevel>::empty());
                            assert(s.drop_first().drop_first()[0] == l2);
                            assert(s.drop_first()[0] == l1);
                            assert(recombine_s(s, leaf.inner) == recombine_s(s.drop_first(), h0));
                            assert(recombine_s(s.drop_first(), h0) == recombine_s(
                                s.drop_first().drop_first(),
                                h1,
                            ));
                            assert(recombine_s(s.drop_first().drop_first(), h1) == recombine_s(
                                s.drop_first().drop_first().drop_first(),
                                h2,
                            ));
                            assert(recombine_s(Seq::<PathLevel>::empty(), h2) == h2);
                        }
                        Some(Proof { position, auth_path: path, leaf: item })
                    },
                }
            },
        }
    }

    /// Forget every witnessed occurrence of `item`: each indexed position
    /// is elided and the value's entry leaves the index, so a later
    /// witness finds nothing and a later forget returns false. Forgetting
    /// a value that is not witnessed is a silent no-op. Returns whether
    /// the value had been witnessed at all. The root digest is unchanged,
    /// and no leaf is ever removed, moved or un-elided.
    #[verifier::loop_isolation(false)]
    pub fn forget(&mut self, item: Fq) -> (r: bool)
        requires
            old(self).wf(),
        ensures
            final(self).wf(),
            r == witnessed(*old(self), item.inner),
            !witnessed(*final(self), item.inner),
            final(self).index@ == old(self).index@.remove(item.inner),
            tier3_hash(final(self).inner) == tier3_hash(old(self).inner),
            final(self).inner.children@.len() == old(self).inner.children@.len(),
            !witnessed(*old(self), item.inner) ==> final(self).inner == old(self).inner,
            witnessed(*old(self), item.inner) ==> forall|x: int|
                0 <= x < old(self).index@[item.inner]@.len() ==> elided_at(
                    final(self).inner,
                    #[trigger] old(self).index@[item.inner]@[x],
                ),
            forall|e2: int, b2: int, i2: int|
                #[trigger] leaf_keep3(final(self).inner, e2, b2, i2) ==> leaf_keep3(
                    old(self).inner,
                    e2,
                    b2,
                    i2,
                ) && leaf_val3(final(self).inner, e2, b2, i2) == leaf_val3(
                    old(self).inner,
                    e2,
                    b2,
                    i2,
                ),
    {
        match index_remove(&mut self.index, item.inner) {
            None => false,
            Some(ps) => {
                let ghost t0 = old(self).inner;
                proof {
                    assert forall|x: int| 0 <= x < ps@.len() implies pos_ok3(
                        t0,
                        #[trigger] ps@[x],
                        item.inner,
                    ) by {
                        assert(old(self).index@[item.inner]@[x] == ps@[x]);
                    }
                }
                let mut j: usize = 0;
                while j < ps.len()
                    invariant
                        j <= ps@.len(),
                        tier3_wf(self.inner),
                        self.index@ == old(self).index@.remove(item.inner),
                        index_wf3(self.index@, self.inner),
                        tier3_hash(self.inner) == tier3_hash(t0),
                        self.inner.children@.len() == t0.children@.len(),
                        forall|e2: int, b2: int, i2: int|
                            #[trigger] leaf_keep3(self.inner, e2, b2, i2) ==> leaf_keep3(
                                t0,
                                e2,
                                b2,
                                i2,
                            ) && leaf_val3(self.inner, e2, b2, i2) == leaf_val3(t0, e2, b2, i2),
                        forall|x: int| 0 <= x < j ==> elided_at(self.inner, #[trigger] ps@[x]),
                    decreases ps@.len() - j,
                {
                    let p = ps[j];
                    proof {
                        assert(pos_ok3(t0, p, item.inner));
                    }
                    let (e, b, i) = decode3(p);
                    let ghost t_pre = self.inner;
                    forget3(&mut self.inner, e, b, i);
                    proof {
                        assert forall|k: u64, jj: int|
                            self.index@.contains_key(k) && 0 <= jj < self.index@[k]@.len() implies
                            pos_ok3(self.inner, #[trigger] self.index@[k]@[jj], k) by {
                            let p2 = self.index@[k]@[jj];
                            assert(pos_ok3(t_pre, p2, k));
                            assert(k != item.inner);
                            if dec3_e(p2) == e as int && dec3_b(p2) == b as int && dec3_i(p2)
                                == i as int {
                                assert(leaf_keep3(t_pre, e as int, b as int, i as int));
                                assert(leaf_val3(t0, e as int, b as int, i as int) == item.inner);
                                assert(leaf_val3(t_pre, e as int, b as int, i as int) == k);
                                assert(false);
                            }
                        }
                        assert forall|e2: int, b2: int, i2: int|
                            #[trigger] leaf_keep3(self.inner, e2, b2, i2) implies leaf_keep3(
                            t0,
                            e2,
                            b2,
                            i2,
                        ) && leaf_val3(self.inner, e2, b2, i2) == leaf_val3(t0, e2, b2, i2) by {
                            assert(leaf_keep3(t_pre, e2, b2, i2));
                        }
                        assert forall|x: int| 0 <= x < j + 1 implies elided_at(
                            self.inner,
                            #[trigger] ps@[x],
                        ) by {
                            if x == j {
                                assert(!leaf_keep3(
                                    self.inner,
                                    e as int,
                                    b as int,
                                    i as int,
                                ));
                            } else {
                                assert(elided_at(t_pre, ps@[x]));
                                let q = ps@[x];
                                if dec3_e(q) == e as int && dec3_b(q) == b as int && dec3_i(q)
                                    == i as int {
                                    assert(!leaf_keep3(self.inner, e as int, b as int, i as int));
                                } else {
                                    assert(leaf_keep3(self.inner, dec3_e(q), dec3_b(q), dec3_i(q))
                                        == leaf_keep3(t_pre, dec3_e(q), dec3_b(q), dec3_i(q)));
                                }
                            }
                        }
                    }
                    j += 1;
                }
                proof {
                    assert forall|x: int|
                        0 <= x < old(self).index@[item.inner]@.len() implies elided_at(
                        self.inner,
                        #[trigger] old(self).index@[item.inner]@[x],
                    ) by {
                        assert(old(self).index@[item.inner]@[x] == ps@[x]);
                    }
                }
                true
            },
        }
    }
}

impl Default for Eternity {
    /// An empty eternity, exactly as `new` creates it.
    fn default() -> (e: Eternity)
        ensures
            e.wf(),
            e.inner.children@.len() == 0,
            e.index@ == empty_index(),
            e.inner.cached is None,
    {
        Eternity::new()
    }
}

/// Appending a child to the eternity tier does not disturb any existing
/// leaf, so a sound index stays sound.
proof fn lemma_push_keeps_leaf3(
    t0: Tier<Tier<Tier<Item>>>,
    t1: Tier<Tier<Tier<Item>>>,
    p: u64,
    v: u64,
)
    requires
        t1.children@.len() == t0.children@.len() + 1,
        forall|j: int| 0 <= j < t0.children@.len() ==> t1.children@[j] == t0.children@[j],
        pos_ok3(t0, p, v),
    ensures
        pos_ok3(t1, p, v),
{
    assert(t1.children@[dec3_e(p)] == t0.children@[dec3_e(p)]);
}

/// A sound index is unaffected by appending a child, since no existing
/// leaf moves.
proof fn lemma_insert_keeps_index_wf3(
    t0: Tier<Tier<Tier<Item>>>,
    t1: Tier<Tier<Tier<Item>>>,
    m: Map<u64, Vec<u64>>,
)
    requires
        index_wf3(m, t0),
        t1.children@.len() == t0.children@.len() + 1,
        forall|j: int| 0 <= j < t0.children@.len() ==> t1.children@[j] == t0.children@[j],
    ensures
        index_wf3(m, t1),
{
    assert forall|k: u64, j: int|
        m.contains_key(k) && 0 <= j < m[k]@.len() implies pos_ok3(t1, #[trigger] m[k]@[j], k) by {
        assert(pos_ok3(t0, m[k]@[j], k));
        lemma_push_keeps_leaf3(t0, t1, m[k]@[j], k);
    }
}

/// Appending an epoch never shrinks the packed length: the old focus epoch
/// contributes at most a completed epoch's worth.
proof fn lemma_len_monotone(t0: Tier<Tier<Tier<Item>>>, t1: Tier<Tier<Tier<Item>>>)
    requires
        tier3_wf(t0),
        t1.children@.len() == t0.children@.len() + 1,
        forall|j: int| 0 <= j < t0.children@.len() ==> t1.children@[j] == t0.children@[j],
    ensures
        eternity_len_s(t1) >= eternity_len_s(t0),
{
    let n = t0.children@.len() as int;
    if n > 0 {
        assert(t0.children@.last() == t1.children@[n - 1]);
        assert(ins_epoch_fill(t0.children@.last()) <= 0x100000000);
        assert(ins_epoch_fill(t1.children@.last()) >= 0);
    }
}

} // verus!
