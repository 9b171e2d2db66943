//! A set of numeric ids.

use std::collections::BTreeSet;
use vstd::prelude::*;

verus! {

/// A set of ids.
#[derive(Debug)]
pub struct IdSet {
    ids: BTreeSet<u64>,
}

impl View for IdSet {
    type V = Set<u64>;

    closed spec fn view(&self) -> Set<u64> {
        self.ids@
    }
}

impl IdSet {
    pub fn new() -> (set: IdSet)
        ensures
            set@ == Set::<u64>::empty(),
    {
        IdSet { ids: BTreeSet::new() }
    }

    pub fn contains(&self, id: u64) -> (found: bool)
        ensures
            found == self@.contains(id),
    {
        broadcast use vstd::laws_cmp::group_laws_cmp;

        self.ids.contains(&id)
    }

    /// Add an id; true when it is new.
    pub fn insert(&mut self, id: u64) -> (new: bool)
        ensures
            final(self)@ == old(self)@.insert(id),
            new == !old(self)@.contains(id),
    {
        broadcast use vstd::laws_cmp::group_laws_cmp;

        self.ids.insert(id)
    }

    /// Take an id out; true when it was held.
    pub fn remove(&mut self, id: u64) -> (held: bool)
        ensures
            final(self)@ == old(self)@.remove(id),
            held == old(self)@.contains(id),
    {
        broadcast use vstd::laws_cmp::group_laws_cmp;

        self.ids.remove(&id)
    }
}

} // verus!
