//! Per-group ledger entries: liberty count and member list, stored at a
//! group's root index.

use vstd::prelude::*;

verus! {

/// Ledger entry for one stone group: its liberty count `qi` (the number
/// of distinct empty cells orthogonally adjacent to the group) and the
/// flat indices of all its stones.
pub struct GroupInfo {
    pub qi: usize,
    pub members: Vec<usize>,
}

impl GroupInfo {
    pub fn new(qi: usize, members: Vec<usize>) -> (g: GroupInfo)
        ensures
            g.qi == qi,
            g.members == members,
    {
        GroupInfo { qi, members }
    }
}

/// One optional ledger slot per board cell; only slots at current group
/// roots hold an entry.
pub struct GroupInfoArray(pub Vec<Option<GroupInfo>>);

impl GroupInfoArray {
    pub fn new(size: usize) -> (a: GroupInfoArray)
        ensures
            a.0@.len() == size,
            forall|i: int| 0 <= i < size ==> a.0@[i] is None,
    {
        let mut v: Vec<Option<GroupInfo>> = Vec::new();
        let mut i: usize = 0;
        while i < size
            invariant
                i <= size,
                v@.len() == i,
                forall|j: int| 0 <= j < i ==> v@[j] is None,
            decreases size - i,
        {
            v.push(None);
            i = i + 1;
        }
        GroupInfoArray(v)
    }

    /// The entry stored at `index`, which must be a current root.
    pub fn get(&self, index: usize) -> (g: &GroupInfo)
        requires
            index < self.0@.len(),
            self.0@[index as int] is Some,
        ensures
            *g == self.0@[index as int]->Some_0,
    {
        match &self.0[index] {
            Some(g) => g,
            None => unreached(),
        }
    }

    /// Liberty count stored at root `index`.
    pub fn qi_at(&self, index: usize) -> (n: usize)
        requires
            index < self.0@.len(),
            self.0@[index as int] is Some,
        ensures
            n == self.0@[index as int]->Some_0.qi,
    {
        self.get(index).qi
    }

    /// Replaces the entry at `index` and hands back the previous one.
    pub fn swap_entry(&mut self, index: usize, entry: Option<GroupInfo>) -> (prev: Option<
        GroupInfo,
    >)
        requires
            index < old(self).0@.len(),
        ensures
            final(self).0@ == old(self).0@.update(index as int, entry),
            prev == old(self).0@[index as int],
    {
        let mut slot = entry;
        self.0.set_and_swap(index, &mut slot);
        slot
    }

    /// Overwrites the entry at `index`.
    pub fn set_entry(&mut self, index: usize, entry: Option<GroupInfo>)
        requires
            index < old(self).0@.len(),
        ensures
            final(self).0@ == old(self).0@.update(index as int, entry),
    {
        self.0.set(index, entry);
    }
}

} // verus!
