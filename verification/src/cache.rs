//! The cache store: what has been decoded, by index. Only the consumer writes it.

use vstd::prelude::*;
use std::collections::HashMap;

verus! {

broadcast use vstd::std_specs::hash::group_hash_axioms;

/// A map from index to whatever the consumer keeps for a decoded image.
pub struct CacheStore<H> {
    entries: HashMap<usize, H>,
}

impl<H> View for CacheStore<H> {
    type V = Map<usize, H>;

    closed spec fn view(&self) -> Map<usize, H> {
        self.entries@
    }
}

impl<H> CacheStore<H> {
    /// An empty store.
    pub fn new() -> (store: Self)
        ensures
            store@ == Map::<usize, H>::empty(),
    {
        CacheStore { entries: HashMap::new() }
    }

    /// Puts `handle` at `index`, in place of what was there.
    pub fn insert(&mut self, index: usize, handle: H)
        ensures
            final(self)@ == old(self)@.insert(index, handle),
    {
        self.entries.insert(index, handle);
    }

    /// Takes out what is at `index`, if anything.
    pub fn remove(&mut self, index: usize)
        ensures
            final(self)@ == old(self)@.remove(index),
    {
        self.entries.remove(&index);
    }

    /// What is cached for `index`.
    pub fn get_cached(&self, index: usize) -> (handle: Option<&H>)
        ensures
            match handle {
                Some(h) => self@.contains_key(index) && *h == self@[index],
                None => !self@.contains_key(index),
            },
    {
        self.entries.get(&index)
    }

    /// Whether anything is cached for `index`.
    pub fn contains(&self, index: usize) -> (present: bool)
        ensures
            present == self@.contains_key(index),
    {
        self.entries.contains_key(&index)
    }

    /// Empties the store.
    pub fn clear(&mut self)
        ensures
            final(self)@ == Map::<usize, H>::empty(),
    {
        self.entries.clear();
    }

    /// The number of cached indices.
    pub fn len(&self) -> (n: usize)
        ensures
            n == self@.dom().len(),
    {
        self.entries.len()
    }
}

} // verus!
