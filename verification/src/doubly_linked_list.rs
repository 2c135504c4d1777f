//! A doubly-linked list whose nodes live in one vector and name their
//! neighbours by position in it.

use vstd::prelude::*;

verus! {

/// A doubly-linked list node.
struct Node<T> {
    value: Option<T>,
    prev: Option<usize>,
    next: Option<usize>,
}

/// A doubly-linked list.
pub struct DoublyLinkedList<T> {
    nodes: Vec<Node<T>>,
    head: Option<usize>,
    tail: Option<usize>,
    len: usize,
    /// The nodes that hold no value and may be used again.
    free: Vec<usize>,
    /// The nodes in use, from the front of the list to its back.
    order: Ghost<Seq<usize>>,
}

/// Whether the node named by `order[i]` holds a value and names the nodes
/// before and after it in `order` as its neighbours.
spec fn is_linked<T>(nodes: Seq<Node<T>>, order: Seq<usize>, i: int) -> bool {
    &&& order[i] < nodes.len()
    &&& nodes[order[i] as int].value is Some
    &&& nodes[order[i] as int].prev == if i > 0 {
        Some(order[i - 1])
    } else {
        None
    }
    &&& nodes[order[i] as int].next == if i + 1 < order.len() {
        Some(order[i + 1])
    } else {
        None
    }
}

/// Whether the nodes named by `order` hold values and are linked to one
/// another in that order, from `head` to `tail`.
spec fn is_chain<T>(
    nodes: Seq<Node<T>>,
    order: Seq<usize>,
    head: Option<usize>,
    tail: Option<usize>,
) -> bool {
    &&& head == if order.len() > 0 {
        Some(order.first())
    } else {
        None
    }
    &&& tail == if order.len() > 0 {
        Some(order.last())
    } else {
        None
    }
    &&& forall|i: int| 0 <= i < order.len() ==> #[trigger] is_linked(nodes, order, i)
    &&& forall|i: int, j: int| 0 <= i < j < order.len() ==> order[i] != order[j]
}

/// Whether `free` names distinct nodes that hold no value.
spec fn is_spare<T>(nodes: Seq<Node<T>>, free: Seq<usize>) -> bool {
    &&& forall|k: int|
        0 <= k < free.len() ==> (#[trigger] free[k]) < nodes.len() && nodes[free[k] as int].value
            is None
    &&& forall|a: int, b: int| 0 <= a < b < free.len() ==> free[a] != free[b]
}

/// Puts `node` into a spare place, or into a new one where none is spare,
/// and returns the place.
fn place<T>(nodes: &mut Vec<Node<T>>, free: &mut Vec<usize>, node: Node<T>) -> (index: usize)
    requires
        is_spare(old(nodes)@, old(free)@),
    ensures
        index < final(nodes)@.len(),
        final(nodes)@[index as int] == node,
        forall|k: int|
            0 <= k < old(nodes)@.len() && k != index ==> final(nodes)@[k] == old(nodes)@[k],
        old(free)@.len() > 0 ==> {
            &&& index == old(free)@.last()
            &&& final(free)@ == old(free)@.drop_last()
            &&& final(nodes)@.len() == old(nodes)@.len()
        },
        old(free)@.len() == 0 ==> {
            &&& index == old(nodes)@.len()
            &&& final(free)@ == old(free)@
            &&& final(nodes)@.len() == old(nodes)@.len() + 1
        },
{
    if free.len() > 0 {
        let index = free.pop().unwrap();
        nodes.set(index, node);
        index
    } else {
        let index = nodes.len();
        nodes.push(node);
        index
    }
}

/// Rewrites the backward link of one node.
fn set_prev<T>(nodes: &mut Vec<Node<T>>, index: usize, prev: Option<usize>)
    requires
        index < old(nodes)@.len(),
    ensures
        final(nodes)@.len() == old(nodes)@.len(),
        final(nodes)@[index as int].prev == prev,
        final(nodes)@[index as int].next == old(nodes)@[index as int].next,
        final(nodes)@[index as int].value == old(nodes)@[index as int].value,
        forall|k: int|
            0 <= k < old(nodes)@.len() && k != index ==> final(nodes)@[k] == old(nodes)@[k],
{
    nodes[index].prev = prev;
}

/// Rewrites the forward link of one node.
fn set_next<T>(nodes: &mut Vec<Node<T>>, index: usize, next: Option<usize>)
    requires
        index < old(nodes)@.len(),
    ensures
        final(nodes)@.len() == old(nodes)@.len(),
        final(nodes)@[index as int].next == next,
        final(nodes)@[index as int].prev == old(nodes)@[index as int].prev,
        final(nodes)@[index as int].value == old(nodes)@[index as int].value,
        forall|k: int|
            0 <= k < old(nodes)@.len() && k != index ==> final(nodes)@[k] == old(nodes)@[k],
{
    nodes[index].next = next;
}

/// Takes the value out of one node and leaves the node empty.
fn take_value<T>(nodes: &mut Vec<Node<T>>, index: usize) -> (value: Option<T>)
    requires
        index < old(nodes)@.len(),
    ensures
        final(nodes)@.len() == old(nodes)@.len(),
        value == old(nodes)@[index as int].value,
        final(nodes)@[index as int].value is None,
        final(nodes)@[index as int].prev == old(nodes)@[index as int].prev,
        final(nodes)@[index as int].next == old(nodes)@[index as int].next,
        forall|k: int|
            0 <= k < old(nodes)@.len() && k != index ==> final(nodes)@[k] == old(nodes)@[k],
{
    nodes[index].value.take()
}

impl<T> DoublyLinkedList<T> {
    /// The values held, from the front of the list to its back.
    pub closed spec fn view(&self) -> Seq<T> {
        Seq::new(self.order@.len(), |i: int| self.nodes@[self.order@[i] as int].value.unwrap())
    }

    #[verifier::type_invariant]
    spec fn well_formed(&self) -> bool {
        &&& self.order@.len() == self.len
        &&& self.len + self.free@.len() <= self.nodes@.len()
        &&& is_chain(self.nodes@, self.order@, self.head, self.tail)
        &&& is_spare(self.nodes@, self.free@)
    }

    /// Creates a new empty list.
    pub fn new() -> (list: Self)
        ensures
            list@ == Seq::<T>::empty(),
    {
        DoublyLinkedList {
            nodes: Vec::new(),
            head: None,
            tail: None,
            len: 0,
            free: Vec::new(),
            order: Ghost(Seq::empty()),
        }
    }

    /// Moves the parts out and leaves an empty list behind.
    fn take_parts(&mut self) -> (parts: (
        Vec<Node<T>>,
        Option<usize>,
        Option<usize>,
        usize,
        Vec<usize>,
        Ghost<Seq<usize>>,
    ))
        ensures
            parts.0 == old(self).nodes,
            parts.1 == old(self).head,
            parts.2 == old(self).tail,
            parts.3 == old(self).len,
            parts.4 == old(self).free,
            parts.5@ == old(self).order@,
    {
        let mut taken = Self::new();
        std::mem::swap(self, &mut taken);
        let DoublyLinkedList { nodes, head, tail, len, free, order } = taken;
        (nodes, head, tail, len, free, order)
    }

    /// Pushes a value to the front of the list.
    pub fn push_front(&mut self, value: T)
        ensures
            final(self)@ == seq![value] + old(self)@,
    {
        proof {
            use_type_invariant(&*self);
        }
        let ghost before = *self;
        let (mut nodes, head, tail, len, mut free, order) = self.take_parts();
        let index = place(&mut nodes, &mut free, Node { value: Some(value), prev: None, next: head });
        let tail = match head {
            Some(first) => {
                assert(is_linked(before.nodes@, order@, 0));
                set_prev(&mut nodes, first, Some(index));
                tail
            },
            None => Some(index),
        };
        let head = Some(index);
        assert(len < nodes.len());
        let len = len + 1;
        let ghost grown = seq![index] + order@;
        proof {
            assert forall|i: int| 0 <= i < grown.len() implies #[trigger] is_linked(
                nodes@,
                grown,
                i,
            ) by {
                if i > 0 {
                    assert(is_linked(before.nodes@, order@, i - 1));
                    if i > 1 {
                        assert(grown[i - 1] == order@[i - 2]);
                    }
                    if i + 1 < grown.len() {
                        assert(grown[i + 1] == order@[i]);
                    }
                } else if grown.len() > 1 {
                    assert(grown[1] == order@[0]);
                }
            }
            assert forall|i: int, j: int| 0 <= i < j < grown.len() implies grown[i]
                != grown[j] by {
                assert(is_linked(before.nodes@, order@, j - 1));
                if i > 0 {
                    assert(order@[i - 1] != order@[j - 1]);
                }
            }
            let ghost model = DoublyLinkedList { nodes, head, tail, len, free, order: Ghost(grown) };
            assert forall|i: int| 0 <= i < order@.len() implies nodes@[order@[i] as int].value
                == before.nodes@[order@[i] as int].value by {
                assert(is_linked(before.nodes@, order@, i));
            }
            assert forall|i: int| 0 <= i < grown.len() implies model@[i] == (seq![value]
                + before@)[i] by {
                if i > 0 {
                    assert(grown[i] == order@[i - 1]);
                }
            }
        }
        *self = DoublyLinkedList { nodes, head, tail, len, free, order: Ghost(grown) };
    }

    /// Pushes a value to the back of the list.
    pub fn push_back(&mut self, value: T)
        ensures
            final(self)@ == old(self)@.push(value),
    {
        proof {
            use_type_invariant(&*self);
        }
        let ghost before = *self;
        let (mut nodes, head, tail, len, mut free, order) = self.take_parts();
        let index = place(&mut nodes, &mut free, Node { value: Some(value), prev: tail, next: None });
        let head = match tail {
            Some(last) => {
                assert(is_linked(before.nodes@, order@, order@.len() - 1));
                set_next(&mut nodes, last, Some(index));
                head
            },
            None => Some(index),
        };
        let tail = Some(index);
        assert(len < nodes.len());
        let len = len + 1;
        let ghost grown = order@.push(index);
        proof {
            assert forall|i: int| 0 <= i < grown.len() implies #[trigger] is_linked(
                nodes@,
                grown,
                i,
            ) by {
                if i < order@.len() {
                    assert(is_linked(before.nodes@, order@, i));
                    if i + 1 < order@.len() {
                        assert(order@[i] != order@[order@.len() - 1]);
                    }
                } else if i > 0 {
                    assert(is_linked(before.nodes@, order@, i - 1));
                }
            }
            assert forall|i: int, j: int| 0 <= i < j < grown.len() implies grown[i]
                != grown[j] by {
                assert(is_linked(before.nodes@, order@, i));
            }
            assert forall|i: int| 0 <= i < order@.len() implies nodes@[order@[i] as int].value
                == before.nodes@[order@[i] as int].value by {
                assert(is_linked(before.nodes@, order@, i));
            }
        }
        *self = DoublyLinkedList { nodes, head, tail, len, free, order: Ghost(grown) };
    }

    /// Pops a value from the front of the list.
    pub fn pop_front(&mut self) -> (popped: Option<T>)
        ensures
            match popped {
                Some(value) => {
                    &&& old(self)@.len() > 0
                    &&& value == old(self)@.first()
                    &&& final(self)@ == old(self)@.drop_first()
                },
                None => old(self)@.len() == 0 && final(self)@ == old(self)@,
            },
    {
        proof {
            use_type_invariant(&*self);
        }
        let ghost before = *self;
        let first = match self.head {
            Some(first) => first,
            None => {
                return None;
            },
        };
        let (mut nodes, head, tail, len, mut free, order) = self.take_parts();
        assert(is_linked(before.nodes@, order@, 0));
        let next = nodes[first].next;
        let popped = take_value(&mut nodes, first);
        let tail = match next {
            Some(second) => {
                assert(is_linked(before.nodes@, order@, 1));
                set_prev(&mut nodes, second, None);
                tail
            },
            None => None,
        };
        let head = next;
        free.push(first);
        let len = len - 1;
        let ghost shrunk = order@.drop_first();
        proof {
            assert forall|i: int| 0 <= i < shrunk.len() implies #[trigger] is_linked(
                nodes@,
                shrunk,
                i,
            ) by {
                assert(is_linked(before.nodes@, order@, i + 1));
                if i > 0 {
                    assert(shrunk[i - 1] == order@[i]);
                }
                if i + 1 < shrunk.len() {
                    assert(shrunk[i + 1] == order@[i + 2]);
                }
            }
            assert forall|i: int, j: int| 0 <= i < j < shrunk.len() implies shrunk[i]
                != shrunk[j] by {
                assert(order@[i + 1] != order@[j + 1]);
            }
            assert forall|k: int| 0 <= k < free@.len() implies (#[trigger] free@[k]) < nodes@.len()
                && nodes@[free@[k] as int].value is None by {
                if k < before.free@.len() && next is Some {
                    assert(is_linked(before.nodes@, order@, 1));
                }
            }
            let ghost model = DoublyLinkedList {
                nodes,
                head,
                tail,
                len,
                free,
                order: Ghost(shrunk),
            };
            assert forall|i: int| 0 <= i < shrunk.len() implies model@[i]
                == before@.drop_first()[i] by {
                assert(is_linked(before.nodes@, order@, i + 1));
            }
        }
        *self = DoublyLinkedList { nodes, head, tail, len, free, order: Ghost(shrunk) };
        popped
    }

    /// Pops a value from the back of the list.
    pub fn pop_back(&mut self) -> (popped: Option<T>)
        ensures
            match popped {
                Some(value) => {
                    &&& old(self)@.len() > 0
                    &&& value == old(self)@.last()
                    &&& final(self)@ == old(self)@.drop_last()
                },
                None => old(self)@.len() == 0 && final(self)@ == old(self)@,
            },
    {
        proof {
            use_type_invariant(&*self);
        }
        let ghost before = *self;
        let last = match self.tail {
            Some(last) => last,
            None => {
                return None;
            },
        };
        let (mut nodes, head, tail, len, mut free, order) = self.take_parts();
        let ghost end = order@.len() - 1;
        assert(is_linked(before.nodes@, order@, end));
        let prev = nodes[last].prev;
        let popped = take_value(&mut nodes, last);
        let head = match prev {
            Some(second) => {
                assert(is_linked(before.nodes@, order@, end - 1));
                set_next(&mut nodes, second, None);
                head
            },
            None => None,
        };
        let tail = prev;
        free.push(last);
        let len = len - 1;
        let ghost shrunk = order@.drop_last();
        proof {
            assert forall|i: int| 0 <= i < shrunk.len() implies #[trigger] is_linked(
                nodes@,
                shrunk,
                i,
            ) by {
                assert(is_linked(before.nodes@, order@, i));
                if i + 1 < shrunk.len() {
                    assert(shrunk[i + 1] == order@[i + 1]);
                }
                if i > 0 {
                    assert(shrunk[i - 1] == order@[i - 1]);
                }
            }
            assert forall|i: int, j: int| 0 <= i < j < shrunk.len() implies shrunk[i]
                != shrunk[j] by {
                assert(order@[i] != order@[j]);
            }
            assert forall|k: int| 0 <= k < free@.len() implies (#[trigger] free@[k]) < nodes@.len()
                && nodes@[free@[k] as int].value is None by {
                if k < before.free@.len() && prev is Some {
                    assert(is_linked(before.nodes@, order@, end - 1));
                }
            }
            let ghost model = DoublyLinkedList {
                nodes,
                head,
                tail,
                len,
                free,
                order: Ghost(shrunk),
            };
            assert forall|i: int| 0 <= i < shrunk.len() implies model@[i]
                == before@.drop_last()[i] by {
                assert(is_linked(before.nodes@, order@, i));
            }
        }
        *self = DoublyLinkedList { nodes, head, tail, len, free, order: Ghost(shrunk) };
        popped
    }

    /// Returns a reference to the front value.
    pub fn front(&self) -> (front: Option<&T>)
        ensures
            match front {
                Some(value) => self@.len() > 0 && *value == self@.first(),
                None => self@.len() == 0,
            },
    {
        proof {
            use_type_invariant(self);
        }
        match self.head {
            Some(first) => {
                assert(is_linked(self.nodes@, self.order@, 0));
                self.nodes[first].value.as_ref()
            },
            None => None,
        }
    }

    /// Returns a reference to the back value.
    pub fn back(&self) -> (back: Option<&T>)
        ensures
            match back {
                Some(value) => self@.len() > 0 && *value == self@.last(),
                None => self@.len() == 0,
            },
    {
        proof {
            use_type_invariant(self);
        }
        match self.tail {
            Some(last) => {
                assert(is_linked(self.nodes@, self.order@, self.order@.len() - 1));
                self.nodes[last].value.as_ref()
            },
            None => None,
        }
    }

    /// Returns the length of the list.
    pub fn len(&self) -> (len: usize)
        ensures
            len == self@.len(),
    {
        proof {
            use_type_invariant(self);
        }
        self.len
    }

    /// Returns true if the list is empty.
    pub fn is_empty(&self) -> (empty: bool)
        ensures
            empty == (self@.len() == 0),
    {
        self.len() == 0
    }
}

impl<T> Default for DoublyLinkedList<T> {
    /// An empty list.
    fn default() -> (list: Self)
        ensures
            list@ == Seq::<T>::empty(),
    {
        Self::new()
    }
}

} // verus!
