//! A slot arena whose handles carry the generation of their slot, so that a
//! handle to a removed value never reaches a later value in the same slot.

use vstd::prelude::*;

verus! {

/// Names one value stored in an [`Arena`]: the slot it lives in and the
/// generation of that slot when the value was inserted.
#[derive(Copy, Clone, Debug, PartialEq, Eq, Hash, Structural)]
pub struct Handle {
    index: usize,
    generation: u32,
}

impl View for Handle {
    type V = (nat, nat);

    /// The slot and the generation that the handle names.
    closed spec fn view(&self) -> (nat, nat) {
        (self.index as nat, self.generation as nat)
    }
}

impl Handle {
    /// The slot that the handle names.
    pub fn index(self) -> (index: usize)
        ensures
            index == self@.0,
    {
        self.index
    }

    /// The generation that the handle names.
    pub fn generation(self) -> (generation: u32)
        ensures
            generation == self@.1,
    {
        self.generation
    }
}

struct Slot<T> {
    generation: u32,
    value: Option<T>,
}

/// The value in slot `index`, for changing in place. The slot keeps its
/// generation and stays occupied whatever is written through the result.
fn value_mut<T>(slots: &mut Vec<Slot<T>>, index: usize) -> (found: Option<&mut T>)
    requires
        index < old(slots)@.len(),
    ensures
        match found {
            Some(value) => {
                &&& old(slots)@[index as int].value == Some(*value)
                &&& final(slots)@ == old(slots)@.update(
                    index as int,
                    Slot {
                        generation: old(slots)@[index as int].generation,
                        value: Some(*final(value)),
                    },
                )
            },
            None => old(slots)@[index as int].value is None && final(slots)@ == old(slots)@,
        },
    no_unwind
{
    match &mut slots[index].value {
        Some(value) => Some(value),
        None => None,
    }
}

/// Stores values in reusable slots and hands out a [`Handle`] for each.
pub struct Arena<T> {
    slots: Vec<Slot<T>>,
    /// The empty slots that may be used again, most recently emptied last.
    free: Vec<usize>,
    /// The number of slots that hold a value.
    len: usize,
}

impl<T> Arena<T> {
    /// Whether `handle` names the value that its slot holds now.
    spec fn is_live(&self, handle: Handle) -> bool {
        &&& handle.index < self.slots@.len()
        &&& self.slots@[handle.index as int].generation == handle.generation
        &&& self.slots@[handle.index as int].value is Some
    }

    /// The stored values, each under its handle.
    pub closed spec fn view(&self) -> Map<Handle, T> {
        Map::new(
            |handle: Handle| self.is_live(handle),
            |handle: Handle| self.slots@[handle.index as int].value.unwrap(),
        )
    }

    /// The current generation of every slot created so far.
    pub closed spec fn generations(&self) -> Seq<nat> {
        Seq::new(self.slots@.len(), |i: int| self.slots@[i].generation as nat)
    }

    /// The empty slots that the next insertions use, the last one first.
    pub closed spec fn vacant(&self) -> Seq<nat> {
        Seq::new(self.free@.len(), |i: int| self.free@[i] as nat)
    }

    #[verifier::type_invariant]
    spec fn well_formed(&self) -> bool {
        &&& self.len + self.free@.len() <= self.slots@.len()
        &&& self@.dom().finite()
        &&& self@.dom().len() == self.len
        &&& forall|k: int|
            0 <= k < self.free@.len() ==> {
                &&& (#[trigger] self.free@[k]) < self.slots@.len()
                &&& self.slots@[self.free@[k] as int].value is None
                &&& self.slots@[self.free@[k] as int].generation < u32::MAX
            }
        &&& forall|a: int, b: int|
            0 <= a < b < self.free@.len() ==> self.free@[a] != self.free@[b]
    }

    /// Whether `after` is this arena with nothing changed but the value
    /// that `handle` names.
    spec fn differs_in_value_at(&self, after: Self, handle: Handle) -> bool {
        &&& self.is_live(handle)
        &&& after.free == self.free
        &&& after.len == self.len
        &&& after.slots@.len() == self.slots@.len()
        &&& after.is_live(handle)
        &&& forall|i: int|
            0 <= i < self.slots@.len() && i != handle.index ==> after.slots@[i] == self.slots@[i]
    }

    /// Changing a stored value in place changes that entry of the view and
    /// nothing else.
    proof fn lemma_value_changed(&self, after: Self, handle: Handle)
        requires
            self.well_formed(),
            self.differs_in_value_at(after, handle),
        ensures
            after.well_formed(),
            after.generations() == self.generations(),
            after.vacant() == self.vacant(),
            after@ == self@.insert(handle, after.slots@[handle.index as int].value.unwrap()),
    {
        assert(after@ =~= self@.insert(handle, after.slots@[handle.index as int].value.unwrap()));
    }

    /// Moves the parts out and leaves an arena with no slots behind.
    fn take_parts(&mut self) -> (parts: (Vec<Slot<T>>, Vec<usize>, usize))
        ensures
            parts.0 == old(self).slots,
            parts.1 == old(self).free,
            parts.2 == old(self).len,
    {
        let mut taken = Self::new();
        std::mem::swap(self, &mut taken);
        let Arena { slots, free, len } = taken;
        (slots, free, len)
    }

    /// Creates an arena with no slots.
    pub fn new() -> (arena: Self)
        ensures
            arena@ == Map::<Handle, T>::empty(),
            arena.generations() == Seq::<nat>::empty(),
            arena.vacant() == Seq::<nat>::empty(),
    {
        let slots: Vec<Slot<T>> = Vec::new();
        let free: Vec<usize> = Vec::new();
        proof {
            let ghost model = Arena { slots, free, len: 0 };
            assert(model@ =~= Map::<Handle, T>::empty());
        }
        Arena { slots, free, len: 0 }
    }

    /// Stores `value` and returns its handle. The most recently emptied
    /// reusable slot is used again, with its generation raised by one; where
    /// there is none, a new slot is created at generation zero.
    pub fn insert(&mut self, value: T) -> (handle: Handle)
        ensures
            !old(self)@.contains_key(handle),
            final(self)@ == old(self)@.insert(handle, value),
            final(self)@.dom().finite(),
            old(self).vacant().len() > 0 ==> {
                let slot = old(self).vacant().last() as int;
                let raised = old(self).generations()[slot] + 1;
                &&& handle@ == (slot as nat, raised as nat)
                &&& final(self).vacant() == old(self).vacant().drop_last()
                &&& final(self).generations() == old(self).generations().update(slot, raised as nat)
            },
            old(self).vacant().len() == 0 ==> {
                &&& handle@ == (old(self).generations().len(), 0nat)
                &&& final(self).vacant() == old(self).vacant()
                &&& final(self).generations() == old(self).generations().push(0nat)
            },
    {
        proof {
            use_type_invariant(&*self);
        }
        let ghost before = *self;
        let (mut slots, mut free, len) = self.take_parts();
        if free.len() > 0 {
            let index = free.pop().unwrap();
            let generation = slots[index].generation + 1;
            slots.set(index, Slot { generation, value: Some(value) });
            let handle = Handle { index, generation };
            let len = len + 1;
            proof {
                let ghost model = Arena { slots, free, len };
                assert(model@ =~= before@.insert(handle, value));
                assert(model.generations() =~= before.generations().update(
                    index as int,
                    generation as nat,
                ));
            }
            *self = Arena { slots, free, len };
            handle
        } else {
            let index = slots.len();
            slots.push(Slot { generation: 0, value: Some(value) });
            let handle = Handle { index, generation: 0 };
            assert(slots.len() == index + 1);
            let len = len + 1;
            proof {
                let ghost model = Arena { slots, free, len };
                assert(model@ =~= before@.insert(handle, value));
            }
            *self = Arena { slots, free, len };
            handle
        }
    }

    /// The value that `handle` names, if it is still stored.
    pub fn get(&self, handle: Handle) -> (found: Option<&T>)
        ensures
            match found {
                Some(value) => self@.contains_key(handle) && *value == self@[handle],
                None => !self@.contains_key(handle),
            },
            found is Some ==> handle@.0 < self.generations().len() && self.generations()[handle@.0 as int]
                == handle@.1,
    {
        if handle.index < self.slots.len() && self.slots[handle.index].generation
            == handle.generation {
            self.slots[handle.index].value.as_ref()
        } else {
            None
        }
    }

    /// The value that `handle` names, for changing in place, if it is still
    /// stored. Nothing but that value can change through the result.
    pub fn get_mut(&mut self, handle: Handle) -> (found: Option<&mut T>)
        ensures
            match found {
                Some(value) => {
                    &&& old(self)@.contains_key(handle)
                    &&& *value == old(self)@[handle]
                    &&& final(self)@ == old(self)@.insert(handle, *final(value))
                },
                None => !old(self)@.contains_key(handle) && final(self)@ == old(self)@,
            },
            final(self).generations() == old(self).generations(),
            final(self).vacant() == old(self).vacant(),
    {
        proof {
            use_type_invariant(&*self);
        }
        let ghost before = *self;
        if handle.index < self.slots.len() && self.slots[handle.index].generation
            == handle.generation && self.slots[handle.index].value.is_some() {
            proof {
                assert forall|after: Self| before.differs_in_value_at(after, handle) implies {
                    &&& #[trigger] after.well_formed()
                    &&& after.generations() == before.generations()
                    &&& after.vacant() == before.vacant()
                    &&& after@ == before@.insert(
                        handle,
                        after.slots@[handle.index as int].value.unwrap(),
                    )
                } by {
                    before.lemma_value_changed(after, handle);
                }
            }
            value_mut(&mut self.slots, handle.index)
        } else {
            None
        }
    }

    /// Removes the value that `handle` names and returns it. The emptied slot
    /// becomes reusable unless its generation cannot be raised any further.
    pub fn remove(&mut self, handle: Handle) -> (removed: Option<T>)
        ensures
            final(self)@ == old(self)@.remove(handle),
            final(self)@.dom().finite(),
            final(self).generations() == old(self).generations(),
            match removed {
                Some(value) => {
                    &&& old(self)@.contains_key(handle)
                    &&& value == old(self)@[handle]
                    &&& final(self).vacant() == if handle@.1 < u32::MAX {
                        old(self).vacant().push(handle@.0)
                    } else {
                        old(self).vacant()
                    }
                },
                None => !old(self)@.contains_key(handle) && final(self).vacant() == old(
                    self,
                ).vacant(),
            },
    {
        proof {
            use_type_invariant(&*self);
        }
        let ghost before = *self;
        let index = handle.index;
        if index < self.slots.len() && self.slots[index].generation == handle.generation
            && self.slots[index].value.is_some() {
            let (mut slots, mut free, len) = self.take_parts();
            let removed = slots[index].value.take();
            if handle.generation < u32::MAX {
                free.push(index);
            }
            assert(before@.dom().contains(handle));
            let len = len - 1;
            proof {
                let ghost model = Arena { slots, free, len };
                assert(model@ =~= before@.remove(handle));
                if handle.generation < u32::MAX {
                    assert(model.vacant() =~= before.vacant().push(index as nat));
                } else {
                    assert(model.vacant() =~= before.vacant());
                }
            }
            *self = Arena { slots, free, len };
            removed
        } else {
            None
        }
    }

    /// The number of stored values.
    pub fn len(&self) -> (len: usize)
        ensures
            self@.dom().finite(),
            len == self@.dom().len(),
    {
        proof {
            use_type_invariant(self);
        }
        self.len
    }

    /// Whether no value is stored.
    pub fn is_empty(&self) -> (empty: bool)
        ensures
            empty == (self@ == Map::<Handle, T>::empty()),
    {
        proof {
            use_type_invariant(self);
            if self.len == 0 {
                assert(self@ =~= Map::<Handle, T>::empty());
            }
        }
        self.len() == 0
    }
}

} // verus!
