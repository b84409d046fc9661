//! An append-only array of fixed capacity: the segment that the segmented
//! vector is made of.

use vstd::prelude::*;

verus! {

/// An append-only array of fixed capacity.
///
/// The backing array is reserved once, when the segment is made, and never
/// grows: a push into a full segment hands the value back. Slots below the
/// reserved length hold values, in the order in which they were reserved.
#[derive(Debug)]
pub struct ConcurrentSlice<T> {
    /// The filled slots, in reservation order.
    data: Vec<T>,
    /// The number of slots of the backing array.
    capacity: usize,
}

impl<T> ConcurrentSlice<T> {
    /// The segment is well formed when it holds no more values than it has
    /// slots. Every constructor establishes this and every method keeps it.
    pub closed spec fn wf(&self) -> bool {
        self.data@.len() <= self.capacity
    }

    /// The stored values in the order in which their slots were reserved.
    pub closed spec fn view(&self) -> Seq<T> {
        self.data@
    }

    /// The number of slots the segment was made with.
    pub closed spec fn spec_capacity(&self) -> nat {
        self.capacity as nat
    }

    /// A well-formed segment holds at most as many values as it has slots.
    pub proof fn lemma_len_within_capacity(&self)
        requires
            self.wf(),
        ensures
            self@.len() <= self.spec_capacity(),
    {
    }

    /// Makes an empty segment with `capacity` slots.
    ///
    /// The backing array is reserved at once, unless it would be larger than
    /// an array can be; such a segment is never filled.
    pub fn new(capacity: usize) -> (slice: Self)
        ensures
            slice.wf(),
            slice@ == Seq::<T>::empty(),
            slice.spec_capacity() == capacity,
    {
        let data: Vec<T> = match capacity.checked_mul(core::mem::size_of::<T>()) {
            Some(bytes) => if bytes <= isize::MAX as usize {
                Vec::with_capacity(capacity)
            } else {
                Vec::new()
            },
            None => Vec::new(),
        };
        ConcurrentSlice { data, capacity }
    }

    /// The number of slots, filled or not.
    pub fn capacity(&self) -> (capacity: usize)
        ensures
            capacity == self.spec_capacity(),
    {
        self.capacity
    }

    /// The number of filled slots.
    pub fn len(&self) -> (len: usize)
        ensures
            len == self@.len(),
    {
        self.data.len()
    }

    /// Reserves the next slot and moves `value` into it, if a slot is left.
    ///
    /// A full segment is left as it is and `value` comes back untouched.
    /// Otherwise the value takes the slot after the last filled one, and the
    /// reference that is returned is the only way to the new slot until it
    /// is given up.
    pub fn push(&mut self, value: T) -> (stored: Result<&mut T, T>)
        requires
            old(self).wf(),
        ensures
            final(self).wf(),
            final(self).spec_capacity() == old(self).spec_capacity(),
            old(self)@.len() == old(self).spec_capacity() ==> stored == Err::<&mut T, T>(value)
                && final(self)@ == old(self)@,
            old(self)@.len() < old(self).spec_capacity() ==> stored is Ok && *stored->Ok_0
                == value && final(self)@ == old(self)@.push(*final(stored->Ok_0)),
    {
        let len: usize = self.data.len();
        if len == self.capacity {
            Err(value)
        } else {
            self.data.push(value);
            Ok(&mut self.data[len])
        }
    }

    /// Exclusive references to the values in reservation order. What the
    /// caller writes through the reference at position `i` becomes the value
    /// in slot `i`.
    pub fn iter_assume_init_mut(&mut self) -> (items: Vec<&mut T>)
        requires
            old(self).wf(),
        ensures
            final(self).wf(),
            final(self).spec_capacity() == old(self).spec_capacity(),
            items@.len() == old(self)@.len(),
            final(self)@.len() == old(self)@.len(),
            forall|i: int| 0 <= i < items@.len() ==> *#[trigger] items@[i] == old(self)@[i],
            forall|i: int|
                0 <= i < items@.len() ==> #[trigger] final(self)@[i] == *final(items@[i]),
    {
        let mut items: Vec<&mut T> = Vec::new();
        let mut rest: &mut [T] = self.data.as_mut_slice();
        let ghost slots = rest@;
        let ghost end = final(rest)@;
        while rest.len() > 0
            invariant
                rest@.len() + items@.len() == slots.len(),
                rest@ == slots.subrange(items@.len() as int, slots.len() as int),
                forall|i: int| 0 <= i < items@.len() ==> *#[trigger] items@[i] == slots[i],
                end == Seq::new(items@.len(), |j: int| *final(items@[j])) + final(rest)@,
            decreases rest@.len(),
        {
            let ghost taken = Seq::new(items@.len(), |j: int| *final(items@[j]));
            let (front, back) = rest.split_at_mut(1);
            match front.first_mut() {
                Some(slot) => {
                    proof {
                        let grown = items@.push(slot);
                        assert(taken + seq![*final(slot)] == Seq::new(
                            grown.len(),
                            |j: int| *final(grown[j]),
                        ));
                        assert((taken + seq![*final(slot)]) + final(back)@ == taken + (seq![
                            *final(slot),
                        ] + final(back)@));
                    }
                    items.push(slot);
                },
                None => {},
            }
            rest = back;
        }
        proof {
            assert(end == Seq::new(items@.len(), |j: int| *final(items@[j])));
        }
        items
    }

    /// Empties the segment and hands its values out, the one reserved last
    /// first. The slots stay.
    pub fn drain(&mut self) -> (items: Vec<T>)
        requires
            old(self).wf(),
        ensures
            final(self).wf(),
            final(self).spec_capacity() == old(self).spec_capacity(),
            final(self)@ == Seq::<T>::empty(),
            items@ == old(self)@.reverse(),
    {
        let mut items: Vec<T> = Vec::new();
        loop
            invariant
                self.capacity == old(self).capacity,
                self.data@.len() + items@.len() == old(self).data@.len(),
                self.data@ == old(self).data@.subrange(0, self.data@.len() as int),
                forall|i: int|
                    0 <= i < items@.len() ==> #[trigger] items@[i] == old(self).data@[old(
                        self,
                    ).data@.len() - 1 - i],
            ensures
                self.capacity == old(self).capacity,
                self.data@ == Seq::<T>::empty(),
                items@ == old(self).data@.reverse(),
            decreases self.data@.len(),
        {
            match self.data.pop() {
                Some(value) => {
                    items.push(value);
                },
                None => {
                    break ;
                },
            }
        }
        items
    }

    /// Consumes the segment and hands its values out, the one reserved last
    /// first.
    pub fn into_iter(self) -> (items: Vec<T>)
        requires
            self.wf(),
        ensures
            items@ == self@.reverse(),
    {
        let mut slice = self;
        slice.drain()
    }

    /// Empties the segment, dropping every value it holds. The slots stay.
    pub fn clear(&mut self)
        requires
            old(self).wf(),
        ensures
            final(self).wf(),
            final(self).spec_capacity() == old(self).spec_capacity(),
            final(self)@ == Seq::<T>::empty(),
    {
        let _dropped = self.drain();
    }
}

} // verus!
