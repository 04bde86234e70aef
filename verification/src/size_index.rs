//! An index from file sizes to the groups whose files have that size.

use vstd::prelude::*;
use vstd::std_specs::hash::*;
use std::collections::HashMap;

verus! {

/// For every size that has been entered, the numbers of the groups entered
/// under it, in the order in which they were entered.
pub struct SizeIndex {
    slot_of: HashMap<u64, usize>,
    slots: Vec<Vec<usize>>,
}

impl SizeIndex {
    /// Every size has a slot of its own.
    pub closed spec fn well_formed(self) -> bool {
        &&& forall|size: u64| #[trigger]
            self.slot_of@.contains_key(size) ==> self.slot_of@[size] < self.slots@.len()
        &&& forall|one: u64, other: u64|
            self.slot_of@.contains_key(one) && self.slot_of@.contains_key(other) && one != other
                ==> self.slot_of@[one] != self.slot_of@[other]
    }

    /// The group `group` has been entered under `size`.
    pub closed spec fn lists(self, size: u64, group: usize) -> bool {
        &&& self.slot_of@.contains_key(size)
        &&& self.slots@[self.slot_of@[size] as int]@.contains(group)
    }

    /// An index without entries.
    pub fn new() -> (index: Self)
        ensures
            index.well_formed(),
            forall|size: u64, group: usize| !index.lists(size, group),
    {
        SizeIndex { slot_of: HashMap::new(), slots: Vec::new() }
    }

    /// The groups entered under `size`, if there are any.
    pub fn groups_of(&self, size: u64) -> (groups: Option<&Vec<usize>>)
        requires
            self.well_formed(),
        ensures
            match groups {
                Some(entered) => forall|group: usize|
                    self.lists(size, group) == entered@.contains(group),
                None => forall|group: usize| !self.lists(size, group),
            },
    {
        broadcast use group_hash_axioms;

        match self.slot_of.get(&size) {
            Some(slot) => Some(&self.slots[*slot]),
            None => None,
        }
    }

    /// Enters `group` under `size`.
    pub fn enter(&mut self, size: u64, group: usize)
        requires
            old(self).well_formed(),
        ensures
            final(self).well_formed(),
            forall|other: u64, g: usize|
                final(self).lists(other, g) == (old(self).lists(other, g) || (other == size && g
                    == group)),
    {
        broadcast use group_hash_axioms;

        let known: Option<usize> = match self.slot_of.get(&size) {
            Some(slot) => Some(*slot),
            None => None,
        };
        match known {
            Some(slot) => {
                self.slots[slot].push(group);
                proof {
                    assert forall|other: u64, g: usize|
                        self.lists(other, g) == (old(self).lists(other, g) || (other == size && g
                            == group)) by {
                        if self.slot_of@.contains_key(other) {
                            let at = self.slot_of@[other] as int;
                            if other == size {
                                assert(self.slots@[at]@ == old(self).slots@[at]@.push(group));
                                if g == group {
                                    assert(self.slots@[at]@[old(self).slots@[at]@.len() as int] == g);
                                } else if old(self).slots@[at]@.contains(g) {
                                    let k = choose|k: int|
                                        0 <= k < old(self).slots@[at]@.len() && old(self).slots@[at]@[k]
                                            == g;
                                    assert(self.slots@[at]@[k] == g);
                                }
                            } else {
                                assert(self.slots@[at] == old(self).slots@[at]);
                            }
                        }
                    }
                }
            },
            None => {
                let slot: usize = self.slots.len();
                let mut entered: Vec<usize> = Vec::new();
                entered.push(group);
                self.slots.push(entered);
                self.slot_of.insert(size, slot);
                proof {
                    assert forall|other: u64, g: usize|
                        self.lists(other, g) == (old(self).lists(other, g) || (other == size && g
                            == group)) by {
                        if other == size {
                            assert(self.slots@[slot as int]@ =~= seq![group]);
                            if g == group {
                                assert(self.slots@[slot as int]@[0] == g);
                            }
                        } else if self.slot_of@.contains_key(other) {
                            let at = self.slot_of@[other] as int;
                            assert(self.slots@[at] == old(self).slots@[at]);
                        }
                    }
                }
            },
        }
    }
}

} // verus!
