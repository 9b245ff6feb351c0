use vstd::prelude::*;

verus! {

/// The largest number of shared borrows.
pub const COUNTER_MASK: usize = usize::MAX >> 1;

/// A borrow flag: any number of shared borrows, or one unique borrow.
#[derive(Debug)]
pub struct AtomicBorrow {
    shared: usize,
    unique: bool,
}

impl AtomicBorrow {
    pub closed spec fn spec_shared(&self) -> nat {
        self.shared as nat
    }

    pub closed spec fn spec_unique(&self) -> bool {
        self.unique
    }

    /// Shared and unique borrows never coexist.
    pub open spec fn wf(&self) -> bool {
        !(self.spec_unique() && self.spec_shared() > 0)
    }

    pub fn new() -> (r: AtomicBorrow)
        ensures
            r.wf(),
            r.spec_shared() == 0,
            !r.spec_unique(),
    {
        AtomicBorrow { shared: 0, unique: false }
    }

    /// Takes a shared borrow; fails, changing nothing, while a unique borrow
    /// is held.
    pub fn borrow(&mut self) -> (r: bool)
        requires
            old(self).wf(),
            old(self).spec_shared() < COUNTER_MASK,
        ensures
            final(self).wf(),
            r == !old(self).spec_unique(),
            r ==> final(self).spec_shared() == old(self).spec_shared() + 1 && !final(self).spec_unique(),
            !r ==> final(self).spec_shared() == old(self).spec_shared() && final(self).spec_unique() == old(self).spec_unique(),
    {
        if self.unique {
            false
        } else {
            self.shared = self.shared + 1;
            true
        }
    }

    /// Takes the unique borrow; succeeds only when nothing is borrowed.
    pub fn borrow_mut(&mut self) -> (r: bool)
        requires
            old(self).wf(),
        ensures
            final(self).wf(),
            r == (old(self).spec_shared() == 0 && !old(self).spec_unique()),
            r ==> final(self).spec_unique() && final(self).spec_shared() == 0,
            !r ==> final(self).spec_shared() == old(self).spec_shared() && final(self).spec_unique() == old(self).spec_unique(),
    {
        if self.shared == 0 && !self.unique {
            self.unique = true;
            true
        } else {
            false
        }
    }

    /// Gives back a shared borrow.
    pub fn release(&mut self)
        requires
            old(self).wf(),
            old(self).spec_shared() > 0,
        ensures
            final(self).wf(),
            final(self).spec_shared() == old(self).spec_shared() - 1,
            final(self).spec_unique() == old(self).spec_unique(),
    {
        self.shared = self.shared - 1;
    }

    /// Gives back the unique borrow.
    pub fn release_mut(&mut self)
        requires
            old(self).wf(),
            old(self).spec_unique(),
        ensures
            final(self).wf(),
            !final(self).spec_unique(),
            final(self).spec_shared() == old(self).spec_shared(),
    {
        self.unique = false;
    }
}

} // verus!
