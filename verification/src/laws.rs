//! Laws that relate several operations of the tree.

use vstd::prelude::*;
use crate::block::Item;
use crate::epoch::Epoch;
use crate::eternity::{ins3_hash, strip_epoch, tier3_digests, witnessed, Eternity};
use crate::hash::{Digest, Fq};
use crate::insert::Insert;
use crate::tier::Tier;

verus! {

/// Witness/forget duality: a successful forget of `v` leaves the index
/// without `v` — exactly what `forget` ensures — and in any such state `v`
/// is no longer witnessed, so a later `witness(v)` returns nothing and a
/// later `forget(v)` returns false, both of which are stated over
/// `witnessed` in those functions' contracts.
pub proof fn lemma_witness_forget_duality(pre: Eternity, post: Eternity, v: Fq)
    requires
        post.index@ == pre.index@.remove(v.inner),
    ensures
        !witnessed(post, v.inner),
        forall|w: u64| w != v.inner ==> witnessed(post, w) == witnessed(pre, w),
{
}

/// Elision idempotence: inserting an epoch in full and inserting the same
/// epoch elided to its root digest produce the same eternity root digest.
/// The two eternities here hold the same children but for the last one,
/// which is the kept epoch on one side and its bare digest on the other —
/// exactly the two outcomes `insert` produces for `Keep` and `Hash`.
pub proof fn lemma_elision_idempotent(
    e1: Eternity,
    e2: Eternity,
    base: Seq<Insert<Tier<Tier<Item>>>>,
    ep: Epoch,
    d: Digest,
)
    requires
        d.inner == ep.hash_s(),
        e1.inner.children@ == base.push(strip_epoch(Insert::Keep(ep))),
        e2.inner.children@ == base.push(strip_epoch(Insert::Hash(d))),
    ensures
        e1.hash_s() == e2.hash_s(),
{
    assert(ins3_hash(Insert::Keep(ep.inner)) == ins3_hash(Insert::Hash(d)));
    assert(tier3_digests(e1.inner) =~= tier3_digests(e2.inner));
}

} // verus!
