//! The innermost tier: a block of up to 65,536 items, with a reverse index
//! from item value to the positions at which it is witnessed.

use vstd::prelude::*;
use crate::hash::{
    combine_from, item_hash, item_hash_s, lemma_combine_push, mix, Digest, Fq, TIER_SEED,
};
use crate::hash::combine_s;
use crate::index_map::{empty_index, index_new, index_push, positions_of, IndexMap};
use crate::insert::Insert;
use crate::proofs::{digests, level_combine, lemma_split_combine, PathLevel};
use crate::tier::{Tier, CAPACITY};

verus! {

/// A leaf commitment: a field element together with its domain hash.
#[derive(Debug, Clone, PartialEq, Eq)]
pub struct Item {
    pub value: Fq,
    pub hash: Digest,
}

impl Item {
    /// The stored digest really is the domain hash of the stored value.
    pub open spec fn wf(self) -> bool {
        self.hash.inner == item_hash_s(self.value.inner)
    }

    /// Commit to a field element.
    pub fn new(value: Fq) -> (it: Item)
        ensures
            it.wf(),
            it.value == value,
    {
        Item { value, hash: Digest::of(value) }
    }
}

/// The digest a child contributes to its block: the item's domain hash if
/// kept, or the elided digest directly.
pub open spec fn ins1_hash(c: Insert<Item>) -> u64 {
    match c {
        Insert::Keep(it) => item_hash_s(it.value.inner),
        Insert::Hash(d) => d.inner,
    }
}

/// The ordered child digests of a block tier.
pub open spec fn tier1_digests(t: Tier<Item>) -> Seq<u64> {
    t.children@.map_values(|c: Insert<Item>| ins1_hash(c))
}

/// The root digest of a block tier.
pub open spec fn tier1_hash(t: Tier<Item>) -> u64 {
    combine_s(tier1_digests(t))
}

/// Well-formedness of a block tier: within capacity, every kept item
/// carries its own domain hash, and the cache, when present, is the digest
/// of the current children.
pub open spec fn tier1_wf(t: Tier<Item>) -> bool {
    &&& t.children@.len() <= CAPACITY
    &&& forall|j: int|
        0 <= j < t.children@.len() ==> (#[trigger] t.children@[j] matches Insert::Keep(it)
            ==> it.wf())
    &&& (t.cached matches Some(d) ==> d.inner == tier1_hash(t))
}

/// Whether position `i` holds a kept (witnessable) item.
pub open spec fn leaf_keep1(t: Tier<Item>, i: int) -> bool {
    0 <= i < t.children@.len() && t.children@[i] is Keep
}

/// The value of the kept item at position `i`.
pub open spec fn leaf_val1(t: Tier<Item>, i: int) -> u64 {
    match t.children@[i] {
        Insert::Keep(it) => it.value.inner,
        Insert::Hash(_) => 0,
    }
}

/// Whether every child of the tier is elided.
pub open spec fn all_hash1_s(t: Tier<Item>) -> bool {
    forall|j: int| 0 <= j < t.children@.len() ==> (#[trigger] t.children@[j]) is Hash
}

/// The digest one child contributes, executably.
pub fn child_hash1(c: &Insert<Item>) -> (h: u64)
    ensures
        h == ins1_hash(*c),
{
    match c {
        Insert::Keep(it) => item_hash(it.value.inner),
        Insert::Hash(d) => d.inner,
    }
}

/// Recompute a block tier's digest from its children.
pub fn hash1_compute(t: &Tier<Item>) -> (h: u64)
    ensures
        h == tier1_hash(*t),
{
    let mut acc: u64 = TIER_SEED;
    let mut j: usize = 0;
    while j < t.children.len()
        invariant
            j <= t.children@.len(),
            acc == combine_from(TIER_SEED, tier1_digests(*t).subrange(0, j as int)),
        decreases t.children@.len() - j,
    {
        proof {
            assert(tier1_digests(*t).subrange(0, j + 1) =~= tier1_digests(*t).subrange(
                0,
                j as int,
            ).push(tier1_digests(*t)[j as int]));
            lemma_combine_push(
                TIER_SEED,
                tier1_digests(*t).subrange(0, j as int),
                tier1_digests(*t)[j as int],
            );
        }
        acc = mix(acc, child_hash1(&t.children[j]));
        j += 1;
    }
    proof {
        assert(tier1_digests(*t).subrange(0, t.children@.len() as int) =~= tier1_digests(*t));
    }
    acc
}

/// A block tier's digest: the cache if present, else recomputed.
pub fn hash1(t: &Tier<Item>) -> (h: u64)
    requires
        tier1_wf(*t),
    ensures
        h == tier1_hash(*t),
{
    match &t.cached {
        Some(d) => d.inner,
        None => hash1_compute(t),
    }
}

/// The digests of all children except `i`, split into those before and
/// those after, in child order.
pub fn siblings1(t: &Tier<Item>, i: usize) -> (r: (Vec<Digest>, Vec<Digest>))
    requires
        i < t.children@.len(),
    ensures
        digests(r.0@) == tier1_digests(*t).subrange(0, i as int),
        digests(r.1@) == tier1_digests(*t).subrange(i + 1, t.children@.len() as int),
{
    let n = t.children.len();
    let mut before: Vec<Digest> = Vec::new();
    let mut j: usize = 0;
    while j < i
        invariant
            j <= i,
            i < t.children@.len(),
            digests(before@) == tier1_digests(*t).subrange(0, j as int),
        decreases i - j,
    {
        let d = Digest { inner: child_hash1(&t.children[j]) };
        proof {
            assert(digests(before@.push(d)) =~= digests(before@).push(d.inner));
            assert(tier1_digests(*t).subrange(0, j + 1) =~= tier1_digests(*t).subrange(
                0,
                j as int,
            ).push(tier1_digests(*t)[j as int]));
        }
        before.push(d);
        j += 1;
    }
    proof {
        assert(i < n);
    }
    let mut after: Vec<Digest> = Vec::new();
    proof {
        assert(digests(after@) =~= Seq::<u64>::empty());
        assert(tier1_digests(*t).subrange(i + 1, i + 1) =~= Seq::<u64>::empty());
    }
    let mut k: usize = i + 1;
    while k < n
        invariant
            n == t.children@.len(),
            i < n,
            i + 1 <= k <= t.children@.len(),
            digests(after@) == tier1_digests(*t).subrange(i + 1, k as int),
        decreases t.children@.len() - k,
    {
        let d = Digest { inner: child_hash1(&t.children[k]) };
        proof {
            assert(digests(after@.push(d)) =~= digests(after@).push(d.inner));
            assert(tier1_digests(*t).subrange(i + 1, k + 1) =~= tier1_digests(*t).subrange(
                i + 1,
                k as int,
            ).push(tier1_digests(*t)[k as int]));
        }
        after.push(d);
        k += 1;
    }
    proof {
        assert(digests(after@) =~= tier1_digests(*t).subrange(i + 1, t.children@.len() as int));
        assert(digests(Seq::<Digest>::empty()) =~= Seq::<u64>::empty());
    }
    (before, after)
}

/// The witness data for position `i` of a block tier: the sibling digests
/// and the leaf's own digest. `None` exactly when the position is out of
/// range or elided.
pub fn witness1(t: &Tier<Item>, i: usize) -> (r: Option<(PathLevel, Digest)>)
    requires
        tier1_wf(*t),
    ensures
        r is Some <==> leaf_keep1(*t, i as int),
        r matches Some(w) ==> level_combine(w.0, w.1.inner) == tier1_hash(*t) && w.1.inner
            == item_hash_s(leaf_val1(*t, i as int)),
{
    if i >= t.children.len() {
        return None;
    }
    match &t.children[i] {
        Insert::Hash(_) => None,
        Insert::Keep(it) => {
            let (before, after) = siblings1(t, i);
            proof {
                lemma_split_combine(tier1_digests(*t), i as int);
                assert(digests(before@) + seq![it.hash.inner] + digests(after@) =~= tier1_digests(
                    *t,
                ).subrange(0, i as int) + seq![tier1_digests(*t)[i as int]] + tier1_digests(
                    *t,
                ).subrange(i + 1, t.children@.len() as int));
            }
            Some((PathLevel { before, after }, it.hash))
        },
    }
}

/// Forget the item at position `i`: replace it by its bare digest. A
/// position out of range or already elided is left alone. The tier's
/// digest, its length, and every other child are unchanged.
pub fn forget1(t: &mut Tier<Item>, i: usize) -> (changed: bool)
    requires
        tier1_wf(*old(t)),
    ensures
        tier1_wf(*final(t)),
        final(t).children@.len() == old(t).children@.len(),
        tier1_hash(*final(t)) == tier1_hash(*old(t)),
        final(t).cached == old(t).cached,
        changed == leaf_keep1(*old(t), i as int),
        !leaf_keep1(*final(t), i as int),
        forall|j: int|
            0 <= j < old(t).children@.len() && j != i ==> final(t).children@[j] == old(
                t,
            ).children@[j],
    {
    if i >= t.children.len() {
        return false;
    }
    let c = t.children.remove(i);
    let (repl, changed): (Insert<Item>, bool) = match c {
        Insert::Hash(d) => (Insert::Hash(d), false),
        Insert::Keep(it) => (Insert::Hash(it.hash), true),
    };
    t.children.insert(i, repl);
    proof {
        assert(t.children@ =~= old(t).children@.update(i as int, repl));
        assert(tier1_digests(*t) =~= tier1_digests(*old(t)));
    }
    changed
}

/// Whether every child of the tier is elided, executably.
pub fn all_hash1(t: &Tier<Item>) -> (r: bool)
    ensures
        r == all_hash1_s(*t),
{
    let mut j: usize = 0;
    while j < t.children.len()
        invariant
            j <= t.children@.len(),
            forall|x: int| 0 <= x < j ==> (#[trigger] t.children@[x]) is Hash,
        decreases t.children@.len() - j,
    {
        match &t.children[j] {
            Insert::Keep(_) => {
                return false;
            },
            Insert::Hash(_) => {},
        }
        j += 1;
    }
    true
}

/// Whether `p` encodes a position within a block at which a kept item
/// with value `v` sits.
pub open spec fn pos_ok1(t: Tier<Item>, p: u64, v: u64) -> bool {
    &&& p < 0x10000
    &&& leaf_keep1(t, p as int)
    &&& leaf_val1(t, p as int) == v
}

/// The block's index is sound: every recorded position holds a kept item
/// with the recorded value, and no recorded list is empty.
pub open spec fn index_wf1(m: Map<u64, Vec<u64>>, t: Tier<Item>) -> bool {
    &&& forall|k: u64| #[trigger] m.contains_key(k) ==> m[k]@.len() > 0
    &&& forall|k: u64, j: int|
        m.contains_key(k) && 0 <= j < m[k]@.len() ==> pos_ok1(t, #[trigger] m[k]@[j], k)
}

/// A block: up to 65,536 items, plus a reverse index from item value to
/// the positions at which it was inserted with witness data.
#[derive(Debug, Clone, PartialEq, Eq)]
pub struct Block {
    pub index: IndexMap,
    pub inner: Tier<Item>,
}

impl Block {
    /// The block's invariant: a well-formed tier and a sound index.
    pub open spec fn wf(self) -> bool {
        &&& tier1_wf(self.inner)
        &&& index_wf1(self.index@, self.inner)
    }

    /// The block's root digest, as a mathematical value.
    pub open spec fn hash_s(self) -> u64 {
        tier1_hash(self.inner)
    }

    /// A new empty block.
    pub fn new() -> (b: Block)
        ensures
            b.wf(),
            b.inner.children@.len() == 0,
            b.index@ == empty_index(),
            b.inner.cached is None,
    {
        Block { index: index_new(), inner: Tier::new() }
    }

    /// How many items (kept or elided) have been appended.
    pub fn len(&self) -> (n: usize)
        ensures
            n == self.inner.children@.len(),
    {
        self.inner.len()
    }

    /// Whether no item has been appended.
    pub fn is_empty(&self) -> (r: bool)
        ensures
            r == (self.inner.children@.len() == 0),
    {
        self.inner.is_empty()
    }

    /// The block's root digest, cached for subsequent calls. The block's
    /// children and index are unchanged.
    pub fn hash(&mut self) -> (d: Digest)
        requires
            old(self).wf(),
        ensures
            final(self).wf(),
            final(self).inner.children@ == old(self).inner.children@,
            final(self).index@ == old(self).index@,
            d.inner == tier1_hash(old(self).inner),
    {
        let h = hash1(&self.inner);
        self.inner.cached = Some(Digest { inner: h });
        Digest { inner: h }
    }

    /// Append one item (kept, or elided to a digest) at the next free
    /// position. If the block is full, hand the item back unchanged and
    /// mutate nothing. A kept item is also recorded in the index at its
    /// new position.
    pub fn insert(&mut self, item: Insert<Item>) -> (r: Result<(), Insert<Item>>)
        requires
            old(self).wf(),
            item matches Insert::Keep(it) ==> it.wf(),
        ensures
            final(self).wf(),
            old(self).inner.children@.len() >= CAPACITY ==> (r matches Err(c) && c == item)
                && *final(self) == *old(self),
            old(self).inner.children@.len() < CAPACITY ==> {
                &&& r is Ok
                &&& final(self).inner.children@ == old(self).inner.children@.push(item)
                &&& (item matches Insert::Keep(it) ==> {
                    &&& final(self).index@.dom() == old(self).index@.dom().insert(it.value.inner)
                    &&& final(self).index@[it.value.inner]@ == positions_of(
                        old(self).index@,
                        it.value.inner,
                    ).push(old(self).inner.children@.len() as u64)
                    &&& forall|k2: u64|
                        k2 != it.value.inner && old(self).index@.contains_key(k2)
                            ==> #[trigger] final(self).index@.contains_key(k2)
                            && final(self).index@[k2] == old(self).index@[k2]
                })
                &&& (item is Hash ==> final(self).index@ == old(self).index@)
            },
    {
        let n = self.inner.len();
        if n >= CAPACITY {
            return Err(item);
        }
        let v_opt: Option<u64> = match &item {
            Insert::Keep(it) => Some(it.value.inner),
            Insert::Hash(_) => None,
        };
        let res = self.inner.insert(item);
        if let Err(e) = res {
            proof {
                assert(false);
            }
            return Err(e);
        }
        if let Some(v) = v_opt {
            index_push(&mut self.index, v, n as u64);
        }
        proof {
            assert forall|k: u64, j: int|
                self.index@.contains_key(k) && 0 <= j < self.index@[k]@.len() implies pos_ok1(
                self.inner,
                #[trigger] self.index@[k]@[j],
                k,
            ) by {
                if v_opt matches Some(v) && k == v && j == self.index@[k]@.len() - 1 {
                    assert(self.inner.children@[n as int] is Keep);
                } else {
                    assert(old(self).index@.contains_key(k) && old(self).index@[k]@[j]
                        == self.index@[k]@[j]);
                    assert(pos_ok1(old(self).inner, old(self).index@[k]@[j], k));
                }
            }
        }
        Ok(())
    }
}

} // verus!
