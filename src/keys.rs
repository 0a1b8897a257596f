//! The key ledger of one search: which key cells have been collected on the
//! current route, and how many key uses are left to spend.
use vstd::prelude::*;
use crate::graph::SimpleField;

verus! {

pub struct Keys {
    fields: Vec<(u8, u8)>,
    total: usize,
}

impl View for Keys {
    /// The collected key cells, oldest first, and the spendable balance.
    type V = (Seq<(u8, u8)>, nat);

    closed spec fn view(&self) -> (Seq<(u8, u8)>, nat) {
        (self.fields@, self.total as nat)
    }
}

impl Keys {
    /// The balance never exceeds the number of keys collected.
    pub open spec fn wf(&self) -> bool {
        self@.1 <= self@.0.len()
    }

    pub fn new() -> (r: Self)
        ensures
            r.wf(),
            r@.0 == Seq::<(u8, u8)>::empty(),
            r@.1 == 0,
    {
        Keys { fields: Vec::new(), total: 0 }
    }

    /// Collects the key of `f` unless a key at its coordinate was already
    /// collected; returns whether it was collected now.
    pub fn add(&mut self, f: &SimpleField) -> (r: bool)
        requires
            old(self).wf(),
            old(self)@.0.len() < usize::MAX,
        ensures
            final(self).wf(),
            r == !old(self)@.0.contains(f.pos()),
            r ==> final(self)@ == (old(self)@.0.push(f.pos()), old(self)@.1 + 1),
            !r ==> final(self)@ == old(self)@,
    {
        let p = f.position();
        let mut i: usize = 0;
        while i < self.fields.len()
            invariant
                old(self).wf(),
                p == f.pos(),
                i <= self.fields@.len(),
                self.fields@ == old(self).fields@,
                self.total == old(self).total,
                forall|j: int| 0 <= j < i ==> self.fields@[j] != p,
            decreases self.fields@.len() - i,
        {
            let q = self.fields[i];
            if q.0 == p.0 && q.1 == p.1 {
                assert(old(self)@.0[i as int] == p);
                return false;
            }
            i += 1;
        }
        self.fields.push(p);
        self.total += 1;
        true
    }

    /// Gives back one key use, undoing an earlier successful `remove_use`.
    pub fn add_use(&mut self)
        requires
            old(self).wf(),
            old(self)@.1 < old(self)@.0.len(),
        ensures
            final(self).wf(),
            final(self)@ == (old(self)@.0, old(self)@.1 + 1),
    {
        let collected = self.fields.len();
        assert(self.total < collected);
        self.total += 1;
    }

    /// Spends one key use if there is one; returns whether it did.
    pub fn remove_use(&mut self) -> (r: bool)
        requires
            old(self).wf(),
        ensures
            final(self).wf(),
            r == (old(self)@.1 > 0),
            r ==> final(self)@ == (old(self)@.0, (old(self)@.1 - 1) as nat),
            !r ==> final(self)@ == old(self)@,
    {
        if self.total == 0 {
            return false;
        }
        self.total -= 1;
        true
    }

    /// Undoes the most recent successful `add`.
    pub fn remove(&mut self)
        requires
            old(self).wf(),
            old(self)@.1 > 0,
        ensures
            final(self).wf(),
            final(self)@ == (old(self)@.0.drop_last(), (old(self)@.1 - 1) as nat),
    {
        self.fields.pop();
        self.total -= 1;
    }
}

} // verus!
