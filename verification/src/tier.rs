//! The generic tier engine: an ordered, append-only sequence of up to
//! 65,536 children, each wrapped in [`Insert`], with a lazily cached root
//! digest. Insertion appends at the next free position and never mutates
//! existing children; the cache is invalidated eagerly on every mutation
//! and refilled only when a digest is next demanded.

use vstd::prelude::*;
use crate::hash::Digest;
use crate::insert::Insert;

verus! {

/// The fixed capacity of every tier: at most this many children.
pub const CAPACITY: usize = 65536;

/// A fixed-capacity, append-only tier of children, with a cached root
/// digest. The cache is valid whenever it is present; each concrete level
/// of the tree states this in its well-formedness predicate.
#[derive(Debug, Clone, PartialEq, Eq)]
pub struct Tier<T> {
    /// The children, contiguous from index 0, in insertion order.
    pub children: Vec<Insert<T>>,
    /// The cached root digest, or `None` after a mutation.
    pub cached: Option<Digest>,
}

impl<T> Tier<T> {
    /// An empty tier, with nothing cached.
    pub fn new() -> (t: Self)
        ensures
            t.children@.len() == 0,
            t.cached is None,
    {
        Tier { children: Vec::new(), cached: None }
    }

    /// How many children have ever been appended.
    pub fn len(&self) -> (n: usize)
        ensures
            n == self.children@.len(),
    {
        self.children.len()
    }

    /// Whether no child has been appended yet.
    pub fn is_empty(&self) -> (r: bool)
        ensures
            r == (self.children@.len() == 0),
    {
        self.children.len() == 0
    }

    /// The most recently appended child, if any: the only child still
    /// open for deeper insertion.
    pub fn focus(&self) -> (r: Option<&Insert<T>>)
        ensures
            self.children@.len() == 0 ==> r is None,
            self.children@.len() > 0 ==> (r matches Some(c) && *c == self.children@[self.children@.len()
                - 1]),
    {
        let n = self.children.len();
        if n == 0 {
            None
        } else {
            Some(&self.children[n - 1])
        }
    }

    /// Append a child at the next free position. If the tier is full, the
    /// child is handed back unchanged and the tier is not mutated at all;
    /// otherwise the child is appended and the cached digest is cleared.
    pub fn insert(&mut self, child: Insert<T>) -> (r: Result<(), Insert<T>>)
        ensures
            old(self).children@.len() < CAPACITY ==> {
                &&& r is Ok
                &&& final(self).children@ == old(self).children@.push(child)
                &&& final(self).cached is None
            },
            old(self).children@.len() >= CAPACITY ==> {
                &&& (r matches Err(c) && c == child)
                &&& *final(self) == *old(self)
            },
    {
        if self.children.len() >= CAPACITY {
            Err(child)
        } else {
            self.children.push(child);
            self.cached = None;
            Ok(())
        }
    }
}

} // verus!
