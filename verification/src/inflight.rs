//! The in-flight tracker: the indices that some worker is processing right now.

use vstd::prelude::*;
use std::collections::HashSet;

verus! {

broadcast use vstd::std_specs::hash::group_hash_axioms;

/// The set of indices between dispatch and their terminal message.
pub struct InFlightSet {
    members: HashSet<usize>,
}

impl View for InFlightSet {
    type V = Set<usize>;

    closed spec fn view(&self) -> Set<usize> {
        self.members@
    }
}

impl InFlightSet {
    /// A tracker that holds no index.
    pub fn new() -> (tracker: Self)
        ensures
            tracker@ == Set::<usize>::empty(),
    {
        InFlightSet { members: HashSet::new() }
    }

    /// Whether `index` is being processed.
    pub fn contains(&self, index: usize) -> (held: bool)
        ensures
            held == self@.contains(index),
    {
        self.members.contains(&index)
    }

    /// Checks membership and inserts in one step: `true` when `index` was absent and
    /// is now held by the caller, `false` when it was already held, in which case
    /// nothing changes.
    pub fn try_acquire(&mut self, index: usize) -> (acquired: bool)
        ensures
            acquired == !old(self)@.contains(index),
            final(self)@ == old(self)@.insert(index),
    {
        let fresh = self.members.insert(index);
        assert(!fresh ==> self.members@ =~= old(self).members@);
        fresh
    }

    /// Removes `index`, whether it was held or not.
    pub fn release(&mut self, index: usize)
        ensures
            final(self)@ == old(self)@.remove(index),
    {
        self.members.remove(&index);
    }

    /// Releases every index.
    pub fn clear(&mut self)
        ensures
            final(self)@ == Set::<usize>::empty(),
    {
        self.members.clear();
    }

    /// How many indices are held.
    pub fn len(&self) -> (n: usize)
        ensures
            n == self@.len(),
    {
        self.members.len()
    }
}

/// How many of `attempts` attempts to acquire `index`, made one after another on a
/// tracker that holds `held`, succeed.
pub open spec fn successes(held: Set<usize>, index: usize, attempts: nat) -> nat
    decreases attempts,
{
    if attempts == 0 {
        0
    } else {
        (if held.contains(index) {
            0nat
        } else {
            1nat
        }) + successes(held.insert(index), index, (attempts - 1) as nat)
    }
}

/// However many workers contend for one index, exactly one acquires it where it was
/// free, and none where it was held.
pub proof fn lemma_exactly_one_acquires(held: Set<usize>, index: usize, attempts: nat)
    requires
        attempts >= 1,
    ensures
        successes(held, index, attempts) == if held.contains(index) {
            0nat
        } else {
            1nat
        },
    decreases attempts,
{
    if attempts > 1 {
        lemma_exactly_one_acquires(held.insert(index), index, (attempts - 1) as nat);
    } else {
        assert(successes(held.insert(index), index, 0) == 0);
    }
}

/// An index that was acquired and released is free again, and the tracker is as it
/// was before.
pub proof fn lemma_release_restores(held: Set<usize>, index: usize)
    requires
        !held.contains(index),
    ensures
        held.insert(index).remove(index) == held,
{
    assert(held.insert(index).remove(index) =~= held);
}

} // verus!
