//! The reverse index from item value to the positions at which it is
//! witnessed, kept in `hash_hasher`'s `HashedMap`: a `std` `HashMap` whose
//! hasher passes the already-uniform key bytes straight through.
//!
//! `hash_hasher::HashHasher` is deterministic and hashes a `u64` key by its
//! own bytes, so the map behaves as a plain map keyed by the `u64`; the
//! wrappers below state the effect of each call on the map's abstract view.

use vstd::prelude::*;

verus! {

#[verifier::external_type_specification]
#[verifier::external_body]
pub struct ExHashHasher(hash_hasher::HashHasher);

#[verifier::external_type_specification]
#[verifier::external_body]
#[verifier::reject_recursive_types(H)]
pub struct ExBuildHasherDefault<H>(core::hash::BuildHasherDefault<H>);

/// The index: item value, pre-hashed as a 64-bit key, to the encoded
/// positions at which that value is witnessed, in insertion order.
pub type IndexMap = hash_hasher::HashedMap<u64, Vec<u64>>;

/// The empty index, as a mathematical map.
pub open spec fn empty_index() -> Map<u64, Vec<u64>> {
    Map::<u64, Vec<u64>>::empty()
}

/// The position list recorded for a key, or the empty sequence.
pub open spec fn positions_of(m: Map<u64, Vec<u64>>, k: u64) -> Seq<u64> {
    if m.contains_key(k) {
        m[k]@
    } else {
        Seq::<u64>::empty()
    }
}

/// Relies on `HashMap::default`: the new map is empty.
#[verifier::external_body]
pub fn index_new() -> (m: IndexMap)
    ensures
        m@ == empty_index(),
{
    hash_hasher::HashedMap::default()
}

/// Relies on `HashMap::get`: the value recorded for the key, if any.
#[verifier::external_body]
pub fn index_get(m: &IndexMap, k: u64) -> (r: Option<Vec<u64>>)
    ensures
        match r {
            Some(v) => m@.contains_key(k) && v@ == m@[k]@,
            None => !m@.contains_key(k),
        },
{
    m.get(&k).cloned()
}

/// Relies on `HashMap::entry` and `Entry::or_insert_with`: append one
/// position to the key's list, starting a fresh list for a new key.
#[verifier::external_body]
pub fn index_push(m: &mut IndexMap, k: u64, p: u64)
    ensures
        final(m)@.dom() == old(m)@.dom().insert(k),
        final(m)@[k]@ == positions_of(old(m)@, k).push(p),
        forall|k2: u64|
            k2 != k && old(m)@.contains_key(k2) ==> final(m)@.contains_key(k2) && final(m)@[k2]
                == old(m)@[k2],
{
    m.entry(k).or_insert_with(Vec::new).push(p);
}

/// Relies on `HashMap::remove`: take the key's list out of the map.
#[verifier::external_body]
pub fn index_remove(m: &mut IndexMap, k: u64) -> (r: Option<Vec<u64>>)
    ensures
        final(m)@ == old(m)@.remove(k),
        match r {
            Some(v) => old(m)@.contains_key(k) && v == old(m)@[k],
            None => !old(m)@.contains_key(k),
        },
{
    m.remove(&k)
}

/// A position list re-addressed into a parent coordinate space by a fixed
/// offset.
pub open spec fn lift_seq(ps: Seq<u64>, off: u64) -> Seq<u64> {
    ps.map_values(|p: u64| (p + off) as u64)
}

/// Whether a key occurs among a vector of index pairs.
pub open spec fn key_in_pairs(ps: Seq<(u64, Vec<u64>)>, k: u64) -> bool {
    exists|a: int| 0 <= a < ps.len() && ps[a].0 == k
}

/// Merge a child's index entries into a parent index, re-addressing every
/// position by `off` and appending to the parent's existing lists.
#[verifier::loop_isolation(false)]
pub fn merge_index(dst: &mut IndexMap, pairs: Vec<(u64, Vec<u64>)>, off: u64)
    requires
        forall|a: int, b: int| 0 <= a < b < pairs@.len() ==> pairs@[a].0 != pairs@[b].0,
        forall|a: int| 0 <= a < pairs@.len() ==> (#[trigger] pairs@[a].1)@.len() > 0,
        forall|a: int, j: int|
            0 <= a < pairs@.len() && 0 <= j < pairs@[a].1@.len() ==> (#[trigger] pairs@[a].1@[j])
                as int + off as int <= 0xFFFFFFFFFFFFFFFF,
    ensures
        forall|a: int|
            0 <= a < pairs@.len() ==> final(dst)@.contains_key(#[trigger] pairs@[a].0)
                && final(dst)@[pairs@[a].0]@ == positions_of(old(dst)@, pairs@[a].0)
                + lift_seq(pairs@[a].1@, off),
        forall|k: u64|
            !(#[trigger] key_in_pairs(pairs@, k)) ==> (final(dst)@.contains_key(k)
                <==> old(dst)@.contains_key(k)) && (old(dst)@.contains_key(k) ==> final(dst)@[k]
                == old(dst)@[k]),
{
    let mut a: usize = 0;
    while a < pairs.len()
        invariant
            a <= pairs@.len(),
            forall|x: int, y: int| 0 <= x < y < pairs@.len() ==> pairs@[x].0 != pairs@[y].0,
            forall|x: int, j: int|
                0 <= x < pairs@.len() && 0 <= j < pairs@[x].1@.len() ==> (#[trigger] pairs@[x].1@[j])
                    as int + off as int <= 0xFFFFFFFFFFFFFFFF,
            forall|x: int|
                0 <= x < a ==> dst@.contains_key(#[trigger] pairs@[x].0) && dst@[pairs@[x].0]@
                    == positions_of(old(dst)@, pairs@[x].0) + lift_seq(pairs@[x].1@, off),
            forall|k: u64|
                !(#[trigger] key_in_pairs(pairs@.subrange(0, a as int), k)) ==> (dst@.contains_key(
                    k,
                ) <==> old(dst)@.contains_key(k)) && (old(dst)@.contains_key(k) ==> dst@[k]
                    == old(dst)@[k]),
        decreases pairs@.len() - a,
    {
        let k: u64 = pairs[a].0;
        let ghost dst_pre = dst@;
        proof {
            assert forall|x: int| 0 <= x < a implies dst_pre.contains_key(#[trigger] pairs@[x].0)
                && dst_pre[pairs@[x].0]@ == positions_of(old(dst)@, pairs@[x].0) + lift_seq(
                pairs@[x].1@,
                off,
            ) by {
                assert(dst@.contains_key(pairs@[x].0) && dst@[pairs@[x].0]@ == positions_of(
                    old(dst)@,
                    pairs@[x].0,
                ) + lift_seq(pairs@[x].1@, off));
            }
            assert forall|k2: u64|
                !key_in_pairs(pairs@.subrange(0, a as int), k2) implies (dst_pre.contains_key(k2)
                <==> old(dst)@.contains_key(k2)) && (old(dst)@.contains_key(k2) ==> dst_pre[k2]
                == old(dst)@[k2]) by {
                assert(dst@.contains_key(k2) <==> old(dst)@.contains_key(k2));
                assert(old(dst)@.contains_key(k2) ==> dst@[k2] == old(dst)@[k2]);
            }
            assert(!key_in_pairs(pairs@.subrange(0, a as int), k));
            assert(positions_of(dst_pre, k) == positions_of(old(dst)@, k));
            assert(lift_seq(pairs@[a as int].1@.subrange(0, 0), off) =~= Seq::<u64>::empty());
            assert(positions_of(dst_pre, k) + lift_seq(pairs@[a as int].1@.subrange(0, 0), off)
                =~= positions_of(dst_pre, k));
        }
        let mut j: usize = 0;
        while j < pairs[a].1.len()
            invariant
                a < pairs@.len(),
                j <= pairs@[a as int].1@.len(),
                k == pairs@[a as int].0,
                forall|x: int, y: int| 0 <= x < y < pairs@.len() ==> pairs@[x].0 != pairs@[y].0,
                forall|x: int, jj: int|
                    0 <= x < pairs@.len() && 0 <= jj < pairs@[x].1@.len() ==> (
                    #[trigger] pairs@[x].1@[jj]) as int + off as int <= 0xFFFFFFFFFFFFFFFF,
                j > 0 ==> dst@.contains_key(k),
                j > 0 ==> dst@[k]@ == positions_of(dst_pre, k) + lift_seq(
                    pairs@[a as int].1@.subrange(0, j as int),
                    off,
                ),
                j == 0 ==> dst@ == dst_pre,
                forall|k2: u64|
                    k2 != k && dst_pre.contains_key(k2) ==> #[trigger] dst@.contains_key(k2)
                        && dst@[k2] == dst_pre[k2],
                forall|k2: u64| k2 != k && !dst_pre.contains_key(k2) ==> !dst@.contains_key(k2),
            decreases pairs@[a as int].1@.len() - j,
        {
            let p: u64 = pairs[a].1[j];
            let ghost before = dst@;
            index_push(dst, k, p + off);
            proof {
                assert(positions_of(before, k) == positions_of(dst_pre, k) + lift_seq(
                    pairs@[a as int].1@.subrange(0, j as int),
                    off,
                ));
                assert(lift_seq(pairs@[a as int].1@.subrange(0, j + 1), off) =~= lift_seq(
                    pairs@[a as int].1@.subrange(0, j as int),
                    off,
                ).push((p + off) as u64));
                assert(dst@[k]@ == (positions_of(dst_pre, k) + lift_seq(
                    pairs@[a as int].1@.subrange(0, j as int),
                    off,
                )).push((p + off) as u64));
                assert((positions_of(dst_pre, k) + lift_seq(
                    pairs@[a as int].1@.subrange(0, j as int),
                    off,
                )).push((p + off) as u64) =~= positions_of(dst_pre, k) + lift_seq(
                    pairs@[a as int].1@.subrange(0, j + 1),
                    off,
                ));
            }
            j += 1;
        }
        proof {
            assert(pairs@[a as int].1@.subrange(0, pairs@[a as int].1@.len() as int)
                =~= pairs@[a as int].1@);
        }
        proof {
            assert(dst@.contains_key(k) && dst@[k]@ == positions_of(old(dst)@, k) + lift_seq(
                pairs@[a as int].1@,
                off,
            ));
            assert(pairs@.subrange(0, a + 1)[a as int].0 == k);
            assert(key_in_pairs(pairs@.subrange(0, a + 1), k));
            assert forall|k2: u64| !(#[trigger] key_in_pairs(pairs@.subrange(0, a + 1), k2))
                implies (dst@.contains_key(k2) <==> old(dst)@.contains_key(k2))
                && (old(dst)@.contains_key(k2) ==> dst@[k2] == old(dst)@[k2]) by {
                assert(k2 != k);
                if key_in_pairs(pairs@.subrange(0, a as int), k2) {
                    let x = choose|x: int|
                        0 <= x < a && (#[trigger] pairs@.subrange(0, a as int)[x]).0 == k2;
                    assert(pairs@.subrange(0, a + 1)[x].0 == k2);
                    assert(false);
                }
                assert(dst_pre.contains_key(k2) <==> old(dst)@.contains_key(k2));
                assert(old(dst)@.contains_key(k2) ==> dst_pre[k2] == old(dst)@[k2]);
            }
            assert forall|x: int| 0 <= x < a + 1 implies dst@.contains_key(#[trigger] pairs@[x].0)
                && dst@[pairs@[x].0]@ == positions_of(old(dst)@, pairs@[x].0) + lift_seq(
                pairs@[x].1@,
                off,
            ) by {
                if x < a {
                    assert(pairs@[x].0 != k);
                    assert(dst_pre.contains_key(pairs@[x].0) && dst_pre[pairs@[x].0]@
                        == positions_of(old(dst)@, pairs@[x].0) + lift_seq(pairs@[x].1@, off));
                } else {
                    assert(x == a && pairs@[x].0 == k);
                }
            }
        }
        a += 1;
    }
    proof {
        assert(pairs@.subrange(0, pairs@.len() as int) =~= pairs@);
        assert forall|k: u64| !key_in_pairs(pairs@, k) implies (dst@.contains_key(k)
            <==> old(dst)@.contains_key(k)) && (old(dst)@.contains_key(k) ==> dst@[k]
            == old(dst)@[k]) by {
            assert(!key_in_pairs(pairs@.subrange(0, pairs@.len() as int), k));
        }
    }
}

/// Relies on `HashMap::into_iter`: the map's entries as a vector of pairs,
/// with distinct keys, in no particular order.
#[verifier::external_body]
pub fn index_into_pairs(m: IndexMap) -> (r: Vec<(u64, Vec<u64>)>)
    ensures
        forall|a: int, b: int| 0 <= a < b < r@.len() ==> r@[a].0 != r@[b].0,
        forall|a: int|
            0 <= a < r@.len() ==> m@.contains_key(#[trigger] r@[a].0) && r@[a].1 == m@[r@[a].0],
        forall|k: u64| m@.contains_key(k) ==> exists|a: int| 0 <= a < r@.len() && r@[a].0 == k,
{
    m.into_iter().collect()
}

} // verus!
