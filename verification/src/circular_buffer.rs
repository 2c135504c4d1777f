//! A queue of fixed capacity kept in a ring of slots.

use vstd::prelude::*;

verus! {

/// Why a read or a write could not be carried out.
#[derive(Debug, PartialEq, Eq, Structural)]
pub enum Error {
    EmptyBuffer,
    FullBuffer,
}

/// A circular buffer with fixed capacity.
pub struct CircularBuffer<T> {
    slots: Vec<Option<T>>,
    /// The slot of the oldest element.
    start: usize,
    /// The number of elements held.
    len: usize,
}

/// The slot that lies `offset` places after `start` in a ring of `capacity`
/// slots.
pub open spec fn ring_slot(start: int, offset: int, capacity: int) -> int {
    if start + offset < capacity {
        start + offset
    } else {
        start + offset - capacity
    }
}

/// Computes the slot `offset` places after `start` without leaving `usize`.
fn slot_after(start: usize, offset: usize, capacity: usize) -> (slot: usize)
    requires
        start < capacity,
        offset <= capacity,
    ensures
        slot == ring_slot(start as int, offset as int, capacity as int),
        slot < capacity,
{
    if offset < capacity - start {
        start + offset
    } else {
        offset - (capacity - start)
    }
}

impl<T> CircularBuffer<T> {
    /// The elements held, oldest first.
    pub closed spec fn view(&self) -> Seq<T> {
        Seq::new(
            self.len as nat,
            |i: int| self.slots@[ring_slot(self.start as int, i, self.slots@.len() as int)].unwrap(),
        )
    }

    /// The number of elements that the buffer can hold.
    pub closed spec fn capacity(&self) -> nat {
        self.slots@.len()
    }

    #[verifier::type_invariant]
    spec fn well_formed(&self) -> bool {
        &&& self.len <= self.slots@.len()
        &&& self.start < self.slots@.len() || (self.start == 0 && self.slots@.len() == 0)
        &&& forall|i: int|
            0 <= i < self.len ==> (#[trigger] self.slots@[ring_slot(
                self.start as int,
                i,
                self.slots@.len() as int,
            )]) is Some
    }

    /// Creates a new empty circular buffer with the given capacity.
    pub fn new(capacity: usize) -> (buffer: Self)
        ensures
            buffer@ == Seq::<T>::empty(),
            buffer.capacity() == capacity,
    {
        let mut slots: Vec<Option<T>> = Vec::new();
        let mut filled: usize = 0;
        while filled < capacity
            invariant
                filled <= capacity,
                slots@.len() == filled,
            decreases capacity - filled,
        {
            slots.push(None);
            filled += 1;
        }
        CircularBuffer { slots, start: 0, len: 0 }
    }

    /// Moves the parts out and leaves a buffer without capacity behind.
    fn take_parts(&mut self) -> (parts: (Vec<Option<T>>, usize, usize))
        ensures
            parts.0 == old(self).slots,
            parts.1 == old(self).start,
            parts.2 == old(self).len,
    {
        let mut taken = Self::new(0);
        std::mem::swap(self, &mut taken);
        let CircularBuffer { slots, start, len } = taken;
        (slots, start, len)
    }

    /// Returns true if the buffer is empty.
    pub fn is_empty(&self) -> (empty: bool)
        ensures
            empty == (self@.len() == 0),
    {
        self.len == 0
    }

    /// Returns true if the buffer is full.
    pub fn is_full(&self) -> (full: bool)
        ensures
            full == (self@.len() == self.capacity()),
            self@.len() <= self.capacity(),
    {
        proof {
            use_type_invariant(self);
        }
        self.len == self.slots.len()
    }

    /// Writes an element to the buffer.
    /// Returns an error if the buffer is full.
    pub fn write(&mut self, element: T) -> (written: Result<(), Error>)
        ensures
            final(self).capacity() == old(self).capacity(),
            match written {
                Ok(_) => old(self)@.len() < old(self).capacity() && final(self)@ == old(self)@.push(
                    element,
                ),
                Err(error) => {
                    &&& error == Error::FullBuffer
                    &&& old(self)@.len() == old(self).capacity()
                    &&& final(self)@ == old(self)@
                },
            },
    {
        proof {
            use_type_invariant(&*self);
        }
        if self.len == self.slots.len() {
            return Err(Error::FullBuffer);
        }
        let (mut slots, start, len) = self.take_parts();
        let slot = slot_after(start, len, slots.len());
        slots.set(slot, Some(element));
        let len = len + 1;
        *self = CircularBuffer { slots, start, len };
        Ok(())
    }

    /// Writes an element, overwriting the oldest if full. A buffer without
    /// capacity stays empty.
    pub fn overwrite(&mut self, element: T)
        ensures
            final(self).capacity() == old(self).capacity(),
            final(self)@ == if old(self)@.len() < old(self).capacity() {
                old(self)@.push(element)
            } else if old(self).capacity() > 0 {
                old(self)@.drop_first().push(element)
            } else {
                old(self)@
            },
    {
        proof {
            use_type_invariant(&*self);
        }
        let ghost before = *self;
        if self.len < self.slots.len() {
            let _ = self.write(element);
        } else if self.len > 0 {
            let (mut slots, start, len) = self.take_parts();
            slots.set(start, Some(element));
            let start = slot_after(start, 1, slots.len());
            proof {
                assert forall|i: int| 0 <= i < len implies (#[trigger] slots@[ring_slot(
                    start as int,
                    i,
                    slots@.len() as int,
                )]) is Some by {
                    if i + 1 < len {
                        assert(before.slots@[ring_slot(
                            before.start as int,
                            i + 1,
                            slots@.len() as int,
                        )] is Some);
                    }
                }
            }
            *self = CircularBuffer { slots, start, len };
        }
    }

    /// Clears the buffer.
    pub fn clear(&mut self)
        ensures
            final(self).capacity() == old(self).capacity(),
            final(self)@ == Seq::<T>::empty(),
    {
        while self.len > 0
            invariant
                self.capacity() == old(self).capacity(),
                self@.len() == self.len,
            decreases self@.len(),
        {
            let _ = self.read();
        }
    }

    /// Reads the oldest element from the buffer.
    /// Returns an error if the buffer is empty.
    pub fn read(&mut self) -> (read: Result<T, Error>)
        ensures
            final(self).capacity() == old(self).capacity(),
            match read {
                Ok(element) => {
                    &&& old(self)@.len() > 0
                    &&& element == old(self)@.first()
                    &&& final(self)@ == old(self)@.drop_first()
                },
                Err(error) => {
                    &&& error == Error::EmptyBuffer
                    &&& old(self)@.len() == 0
                    &&& final(self)@ == old(self)@
                },
            },
    {
        proof {
            use_type_invariant(&*self);
        }
        if self.len == 0 {
            return Err(Error::EmptyBuffer);
        }
        let ghost before = *self;
        let (mut slots, start, len) = self.take_parts();
        assert(slots@[ring_slot(start as int, 0, slots@.len() as int)] is Some);
        let element = slots[start].take().unwrap();
        let start = slot_after(start, 1, slots.len());
        let len = len - 1;
        proof {
            assert forall|i: int| 0 <= i < len implies (#[trigger] slots@[ring_slot(
                start as int,
                i,
                slots@.len() as int,
            )]) is Some by {
                assert(before.slots@[ring_slot(
                    before.start as int,
                    i + 1,
                    slots@.len() as int,
                )] is Some);
            }
        }
        *self = CircularBuffer { slots, start, len };
        Ok(element)
    }
}

} // verus!
