use regex_lite::circular_buffer::{CircularBuffer, Error};
use regex_lite::doubly_linked_list::DoublyLinkedList;
use regex_lite::generational_arena::{Arena, Handle};

#[test]
fn buffer_reports_empty_and_full() {
    let mut buffer = CircularBuffer::new(2);
    assert!(buffer.is_empty());
    assert!(!buffer.is_full());
    assert!(buffer.write('a').is_ok());
    assert!(!buffer.is_empty());
    assert!(!buffer.is_full());
    assert!(buffer.write('b').is_ok());
    assert!(buffer.is_full());
    assert_eq!(buffer.read(), Ok('a'));
    assert!(!buffer.is_full());
}

#[test]
fn buffer_without_capacity_holds_nothing() {
    let mut buffer: CircularBuffer<u8> = CircularBuffer::new(0);
    assert!(buffer.is_empty());
    assert!(buffer.is_full());
    assert_eq!(buffer.write(1), Err(Error::FullBuffer));
    buffer.overwrite(2);
    assert_eq!(buffer.read(), Err(Error::EmptyBuffer));
    buffer.clear();
    assert!(buffer.is_empty());
}

#[test]
fn buffer_wraps_around_many_times() {
    let mut buffer = CircularBuffer::new(3);
    let mut next_written = 0;
    let mut next_read = 0;
    for round in 0..50 {
        let writes = 1 + round % 3;
        for _ in 0..writes {
            if buffer.write(next_written).is_ok() {
                next_written += 1;
            } else {
                assert!(buffer.is_full());
            }
        }
        let reads = 1 + (round / 2) % 3;
        for _ in 0..reads {
            match buffer.read() {
                Ok(value) => {
                    assert_eq!(value, next_read);
                    next_read += 1;
                }
                Err(error) => {
                    assert_eq!(error, Error::EmptyBuffer);
                    assert_eq!(next_read, next_written);
                }
            }
        }
    }
}

#[test]
fn overwrite_keeps_the_newest_elements() {
    let mut buffer = CircularBuffer::new(3);
    for value in 1..=8 {
        buffer.overwrite(value);
    }
    assert!(buffer.is_full());
    assert_eq!(buffer.read(), Ok(6));
    assert_eq!(buffer.read(), Ok(7));
    assert_eq!(buffer.read(), Ok(8));
    assert_eq!(buffer.read(), Err(Error::EmptyBuffer));
}

#[test]
fn overwrite_appends_while_there_is_room() {
    let mut buffer = CircularBuffer::new(3);
    assert!(buffer.write(1).is_ok());
    buffer.overwrite(2);
    assert!(!buffer.is_full());
    assert_eq!(buffer.read(), Ok(1));
    assert_eq!(buffer.read(), Ok(2));
}

#[test]
fn clear_empties_a_wrapped_buffer() {
    let mut buffer = CircularBuffer::new(2);
    assert!(buffer.write(String::from("a")).is_ok());
    assert!(buffer.write(String::from("b")).is_ok());
    assert_eq!(buffer.read(), Ok(String::from("a")));
    assert!(buffer.write(String::from("c")).is_ok());
    buffer.clear();
    assert!(buffer.is_empty());
    assert_eq!(buffer.read(), Err(Error::EmptyBuffer));
    assert!(buffer.write(String::from("d")).is_ok());
    assert!(buffer.write(String::from("e")).is_ok());
    assert_eq!(buffer.write(String::from("f")), Err(Error::FullBuffer));
    assert_eq!(buffer.read(), Ok(String::from("d")));
}

#[test]
fn list_keeps_order_from_both_ends() {
    let mut list = DoublyLinkedList::new();
    for value in 0..5 {
        list.push_back(value);
    }
    for value in 5..10 {
        list.push_front(value);
    }
    assert_eq!(list.len(), 10);
    assert_eq!(list.front(), Some(&9));
    assert_eq!(list.back(), Some(&4));
    let mut from_front = Vec::new();
    while let Some(value) = list.pop_front() {
        from_front.push(value);
    }
    assert_eq!(from_front, vec![9, 8, 7, 6, 5, 0, 1, 2, 3, 4]);
    assert!(list.is_empty());
    assert_eq!(list.front(), None);
    assert_eq!(list.back(), None);
}

#[test]
fn list_uses_emptied_nodes_again() {
    let mut list = DoublyLinkedList::new();
    for round in 0..100 {
        list.push_back(round);
        list.push_front(round + 1000);
        assert_eq!(list.pop_back(), Some(round));
        assert_eq!(list.len(), round + 1);
    }
    for round in (0..100).rev() {
        assert_eq!(list.pop_front(), Some(round + 1000));
    }
    assert_eq!(list.pop_front(), None);
    assert_eq!(list.pop_back(), None);
}

#[test]
fn list_holds_values_that_are_not_copy() {
    let mut list = DoublyLinkedList::default();
    list.push_back(String::from("b"));
    list.push_front(String::from("a"));
    list.push_back(String::from("c"));
    assert_eq!(list.front().map(|s| s.as_str()), Some("a"));
    assert_eq!(list.back().map(|s| s.as_str()), Some("c"));
    assert_eq!(list.pop_back(), Some(String::from("c")));
    assert_eq!(list.pop_back(), Some(String::from("b")));
    assert_eq!(list.pop_back(), Some(String::from("a")));
    assert_eq!(list.pop_back(), None);
}

#[test]
fn arena_first_handles_have_generation_zero() {
    let mut arena = Arena::new();
    let a = arena.insert("a");
    let b = arena.insert("b");
    assert_eq!((a.index(), a.generation()), (0, 0));
    assert_eq!((b.index(), b.generation()), (1, 0));
    assert_ne!(a, b);
}

#[test]
fn arena_reuses_the_most_recently_emptied_slot_first() {
    let mut arena = Arena::new();
    let handles: Vec<Handle> = (0..4).map(|value| arena.insert(value)).collect();
    assert_eq!(arena.remove(handles[1]), Some(1));
    assert_eq!(arena.remove(handles[3]), Some(3));
    let first = arena.insert(10);
    let second = arena.insert(11);
    let third = arena.insert(12);
    assert_eq!((first.index(), first.generation()), (3, 1));
    assert_eq!((second.index(), second.generation()), (1, 1));
    assert_eq!((third.index(), third.generation()), (4, 0));
    assert_eq!(arena.len(), 5);
}

#[test]
fn arena_refuses_handles_it_never_gave_out() {
    let mut arena = Arena::new();
    let only = arena.insert(1);
    let mut other = Arena::new();
    let _ = other.insert(5);
    let later = other.insert(6);
    assert_eq!(arena.get(later), None);
    assert!(arena.get_mut(later).is_none());
    assert_eq!(arena.remove(later), None);
    assert_eq!(arena.len(), 1);
    assert_eq!(arena.get(only), Some(&1));
}

#[test]
fn arena_removes_a_value_once_only() {
    let mut arena = Arena::new();
    let handle = arena.insert(String::from("x"));
    assert_eq!(arena.remove(handle), Some(String::from("x")));
    assert_eq!(arena.remove(handle), None);
    assert!(arena.get_mut(handle).is_none());
    let again = arena.insert(String::from("y"));
    assert_eq!(arena.remove(handle), None);
    assert_eq!(arena.get(again).map(|s| s.as_str()), Some("y"));
}

#[test]
fn arena_get_mut_changes_one_value_only() {
    let mut arena = Arena::new();
    let a = arena.insert(1);
    let b = arena.insert(2);
    if let Some(value) = arena.get_mut(a) {
        *value += 10;
    }
    assert_eq!(arena.get(a), Some(&11));
    assert_eq!(arena.get(b), Some(&2));
    assert_eq!(arena.len(), 2);
}
