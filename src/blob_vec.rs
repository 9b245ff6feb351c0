use vstd::prelude::*;

use crate::component::Layout;

verus! {

/// A copy of a byte vector.
pub fn copy_bytes(v: &Vec<u8>) -> (r: Vec<u8>)
    ensures
        r@ == v@,
{
    let mut r: Vec<u8> = Vec::with_capacity(v.len());
    let mut i: usize = 0;
    while i < v.len()
        invariant
            i <= v.len(),
            r@ == v@.subrange(0, i as int),
        decreases v.len() - i,
    {
        r.push(v[i]);
        i = i + 1;
        proof {
            assert(r@ =~= v@.subrange(0, i as int));
        }
    }
    proof {
        assert(r@ =~= v@);
    }
    r
}

/// `s` without its element at `i`, the last element taking its place.
pub open spec fn swap_remove_seq<A>(s: Seq<A>, i: int) -> Seq<A> {
    s.update(i, s.last()).drop_last()
}

/// A type-erased vector: every element is the bytes of one value of
/// `item_layout`. The capacity is tracked as the grow policy sets it; a
/// zero-sized layout has unbounded capacity.
#[derive(Debug)]
pub struct BlobVec {
    item_layout: Layout,
    capacity: usize,
    items: Vec<Vec<u8>>,
}

impl View for BlobVec {
    type V = Seq<Seq<u8>>;

    closed spec fn view(&self) -> Seq<Seq<u8>> {
        self.items@.map_values(|v: Vec<u8>| v@)
    }
}

impl BlobVec {
    pub closed spec fn spec_layout(&self) -> Layout {
        self.item_layout
    }

    pub closed spec fn spec_capacity(&self) -> nat {
        self.capacity as nat
    }

    pub open spec fn wf(&self) -> bool {
        &&& self@.len() <= self.spec_capacity()
        &&& forall|i: int| 0 <= i < self@.len() ==> (#[trigger] self@[i]).len() == self.spec_layout().size
        &&& self.spec_layout().size == 0 ==> self.spec_capacity() == usize::MAX
        &&& self.spec_capacity() <= usize::MAX
    }

    pub fn new(item_layout: Layout, capacity: usize) -> (r: BlobVec)
        ensures
            r.wf(),
            r@.len() == 0,
            r.spec_layout() == item_layout,
            r.spec_capacity() == if item_layout.size == 0 { usize::MAX as nat } else { capacity as nat },
    {
        let capacity = if item_layout.size == 0 {
            usize::MAX
        } else {
            capacity
        };
        let r = BlobVec { item_layout, capacity, items: Vec::new() };
        proof {
            assert(r@ =~= Seq::<Seq<u8>>::empty());
        }
        r
    }

    pub fn len(&self) -> (r: usize)
        ensures
            r == self@.len(),
    {
        self.items.len()
    }

    pub fn is_empty(&self) -> (r: bool)
        ensures
            r == (self@.len() == 0),
    {
        self.items.len() == 0
    }

    pub fn capacity(&self) -> (r: usize)
        ensures
            r == self.spec_capacity(),
    {
        self.capacity
    }

    pub fn layout(&self) -> (r: Layout)
        ensures
            r == self.spec_layout(),
    {
        self.item_layout
    }

    /// The capacity after asking room for `additional` more elements: it
    /// grows by the larger of the old capacity and what is missing.
    pub open spec fn reserved_capacity(&self, additional: nat) -> nat {
        let cap = self.spec_capacity();
        let free = cap - self@.len();
        if free >= additional {
            cap
        } else {
            let needed = (additional - free) as nat;
            cap + if cap >= needed {
                cap
            } else {
                needed
            }
        }
    }

    /// Asking room for `additional` more elements does not overflow the
    /// capacity, which would be fatal.
    pub open spec fn reserve_fits(&self, additional: nat) -> bool {
        self.reserved_capacity(additional) <= usize::MAX
    }

    /// The capacity after asking room for exactly `additional` more elements.
    pub open spec fn reserved_capacity_exact(&self, additional: nat) -> nat {
        let cap = self.spec_capacity();
        let free = cap - self@.len();
        if free >= additional {
            cap
        } else {
            (cap + additional - free) as nat
        }
    }

    /// Makes room for at least `additional` more elements.
    pub fn reserve(&mut self, additional: usize)
        requires
            old(self).wf(),
            old(self).reserve_fits(additional as nat),
        ensures
            final(self).wf(),
            final(self)@ == old(self)@,
            final(self).spec_layout() == old(self).spec_layout(),
            final(self).spec_capacity() == old(self).reserved_capacity(additional as nat),
    {
        if self.capacity - self.items.len() < additional {
            let needed = additional - (self.capacity - self.items.len());
            let increment = if self.capacity >= needed {
                self.capacity
            } else {
                needed
            };
            self.grow_exact(increment);
        }
    }

    /// Makes room for exactly `additional` more elements.
    pub fn reserve_exact(&mut self, additional: usize)
        requires
            old(self).wf(),
            old(self)@.len() + additional <= usize::MAX,
        ensures
            final(self).wf(),
            final(self)@ == old(self)@,
            final(self).spec_layout() == old(self).spec_layout(),
            final(self).spec_capacity() == old(self).reserved_capacity_exact(additional as nat),
    {
        let free = self.capacity - self.items.len();
        if free < additional {
            self.grow_exact(additional - free);
        }
    }

    fn grow_exact(&mut self, increment: usize)
        requires
            old(self).wf(),
            old(self).spec_capacity() + increment <= usize::MAX,
        ensures
            final(self).wf(),
            final(self)@ == old(self)@,
            final(self).spec_layout() == old(self).spec_layout(),
            final(self).spec_capacity() == old(self).spec_capacity() + increment,
    {
        let new_capacity = self.capacity + increment;
        self.items.reserve(new_capacity - self.items.len());
        self.capacity = new_capacity;
    }

    /// Appends a value.
    pub fn push(&mut self, value: Vec<u8>)
        requires
            old(self).wf(),
            value@.len() == old(self).spec_layout().size,
            old(self).reserve_fits(1),
        ensures
            final(self).wf(),
            final(self)@ == old(self)@.push(value@),
            final(self).spec_layout() == old(self).spec_layout(),
            final(self).spec_capacity() == old(self).reserved_capacity(1),
    {
        self.reserve(1);
        self.items.push(value);
        proof {
            assert(self@ =~= old(self)@.push(value@));
        }
    }

    /// Appends a zeroed value, the state of a row that is still to be
    /// initialized.
    pub fn push_uninit(&mut self)
        requires
            old(self).wf(),
            old(self).reserve_fits(1),
        ensures
            final(self).wf(),
            final(self)@ == old(self)@.push(Seq::new(old(self).spec_layout().size as nat, |i: int| 0u8)),
            final(self).spec_layout() == old(self).spec_layout(),
            final(self).spec_capacity() == old(self).reserved_capacity(1),
    {
        let size = self.item_layout.size;
        let mut v: Vec<u8> = Vec::with_capacity(size);
        let mut i: usize = 0;
        while i < size
            invariant
                i <= size,
                v@ == Seq::new(i as nat, |k: int| 0u8),
            decreases size - i,
        {
            v.push(0u8);
            i = i + 1;
            proof {
                assert(v@ =~= Seq::new(i as nat, |k: int| 0u8));
            }
        }
        self.push(v);
    }

    /// Writes a value into a row that holds none yet.
    pub fn initialize_unchecked(&mut self, row: usize, value: Vec<u8>)
        requires
            old(self).wf(),
            row < old(self)@.len(),
            value@.len() == old(self).spec_layout().size,
        ensures
            final(self).wf(),
            final(self)@ == old(self)@.update(row as int, value@),
            final(self).spec_layout() == old(self).spec_layout(),
            final(self).spec_capacity() == old(self).spec_capacity(),
    {
        self.items.set(row, value);
        proof {
            assert(self@ =~= old(self)@.update(row as int, value@));
        }
    }

    /// Replaces the value in a row, handing back the old one.
    pub fn replace_unchecked(&mut self, row: usize, value: Vec<u8>) -> (r: Vec<u8>)
        requires
            old(self).wf(),
            row < old(self)@.len(),
            value@.len() == old(self).spec_layout().size,
        ensures
            final(self).wf(),
            final(self)@ == old(self)@.update(row as int, value@),
            r@ == old(self)@[row as int],
            final(self).spec_layout() == old(self).spec_layout(),
            final(self).spec_capacity() == old(self).spec_capacity(),
    {
        let mut value = value;
        std::mem::swap(&mut self.items[row], &mut value);
        proof {
            assert(self@ =~= old(self)@.update(row as int, self.items@[row as int]@));
        }
        value
    }

    /// Removes a row, moving the last row into its place, and hands back the
    /// removed value.
    pub fn swap_remove_and_forget_unchecked(&mut self, row: usize) -> (r: Vec<u8>)
        requires
            old(self).wf(),
            row < old(self)@.len(),
        ensures
            final(self).wf(),
            final(self)@ == swap_remove_seq(old(self)@, row as int),
            r@ == old(self)@[row as int],
            final(self).spec_layout() == old(self).spec_layout(),
            final(self).spec_capacity() == old(self).spec_capacity(),
    {
        let r = self.items.swap_remove(row);
        proof {
            assert(self@ =~= swap_remove_seq(old(self)@, row as int));
        }
        r
    }

    /// Removes a row, moving the last row into its place, and releases the
    /// removed value.
    pub fn swap_remove_and_drop_unchecked(&mut self, row: usize)
        requires
            old(self).wf(),
            row < old(self)@.len(),
        ensures
            final(self).wf(),
            final(self)@ == swap_remove_seq(old(self)@, row as int),
            final(self).spec_layout() == old(self).spec_layout(),
            final(self).spec_capacity() == old(self).spec_capacity(),
    {
        let _ = self.swap_remove_and_forget_unchecked(row);
    }

    /// The value in a row.
    pub fn get_unchecked(&self, row: usize) -> (r: &Vec<u8>)
        requires
            row < self@.len(),
        ensures
            r@ == self@[row as int],
    {
        &self.items[row]
    }

    /// Releases every value and keeps the capacity.
    pub fn clear(&mut self)
        requires
            old(self).wf(),
        ensures
            final(self).wf(),
            final(self)@.len() == 0,
            final(self).spec_layout() == old(self).spec_layout(),
            final(self).spec_capacity() == old(self).spec_capacity(),
    {
        self.items.clear();
        proof {
            assert(self@ =~= Seq::<Seq<u8>>::empty());
        }
    }
}

} // verus!
