//! Identifiers without repetition.

use vstd::prelude::*;

verus! {

/// Identifiers in the order in which they were first met.
pub struct FirstMet {
    ids: Vec<i32>,
}

impl FirstMet {
    pub closed spec fn view(&self) -> Seq<i32> {
        self.ids@
    }

    /// Nothing occurs twice.
    pub open spec fn well_formed(&self) -> bool {
        self@.no_duplicates()
    }

    pub fn new() -> (res: Self)
        ensures
            res@ == Seq::<i32>::empty(),
            res.well_formed(),
    {
        FirstMet { ids: Vec::new() }
    }

    /// How many identifiers there are.
    pub fn len(&self) -> (res: usize)
        ensures
            res == self@.len(),
    {
        self.ids.len()
    }

    /// The identifier that was met in that place.
    pub fn get(&self, index: usize) -> (res: i32)
        requires
            index < self@.len(),
        ensures
            res == self@[index as int],
    {
        self.ids[index]
    }

    /// Notes an identifier; says whether it is new.
    pub fn insert(&mut self, id: i32) -> (res: bool)
        requires
            old(self).well_formed(),
        ensures
            final(self).well_formed(),
            res == !old(self)@.contains(id),
            final(self)@ == (if old(self)@.contains(id) {
                old(self)@
            } else {
                old(self)@.push(id)
            }),
    {
        for i in 0..self.ids.len()
            invariant
                self.ids@ == old(self)@,
                old(self).well_formed(),
                forall|k: int| 0 <= k < i ==> self.ids@[k] != id,
        {
            if self.ids[i] == id {
                return false;
            }
        }
        self.ids.push(id);
        true
    }
}

} // verus!
