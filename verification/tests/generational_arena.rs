use regex_lite::generational_arena::Arena;

#[test]
fn new_is_empty() {
    let arena: Arena<i32> = Arena::new();
    assert!(arena.is_empty());
    assert_eq!(arena.len(), 0);
}

#[test]
fn insert_and_get() {
    let mut arena = Arena::new();
    let h = arena.insert("hello".to_string());
    assert_eq!(arena.len(), 1);
    assert_eq!(arena.get(h).map(|s| s.as_str()), Some("hello"));
}

#[test]
fn get_mut_allows_update() {
    let mut arena = Arena::new();
    let h = arena.insert(1);
    *arena.get_mut(h).unwrap() = 2;
    assert_eq!(arena.get(h), Some(&2));
}

#[test]
fn remove_makes_handle_invalid() {
    let mut arena = Arena::new();
    let h = arena.insert(123);
    assert_eq!(arena.remove(h), Some(123));
    assert_eq!(arena.get(h), None);
    assert!(arena.is_empty());
}

#[test]
fn slot_reuse_increments_generation() {
    let mut arena = Arena::new();
    let h1 = arena.insert('a');
    let idx = h1.index();
    let gen = h1.generation();

    assert_eq!(arena.remove(h1), Some('a'));

    let h2 = arena.insert('b');
    assert_eq!(h2.index(), idx);
    assert_eq!(h2.generation(), gen + 1);

    assert_eq!(arena.get(h1), None);
    assert_eq!(arena.get(h2), Some(&'b'));
}


#[test]
fn stale_handles_do_not_resurrect_values() {
    let mut arena = Arena::new();

    let h1 = arena.insert(10);
    let idx = h1.index();

    assert_eq!(arena.remove(h1), Some(10));

    // Reuse the same slot multiple times.
    let h2 = arena.insert(20);
    assert_eq!(h2.index(), idx);
    assert_eq!(arena.remove(h2), Some(20));

    let h3 = arena.insert(30);
    assert_eq!(h3.index(), idx);

    assert_eq!(arena.get(h1), None);
    assert_eq!(arena.get(h2), None);
    assert_eq!(arena.get(h3), Some(&30));
}

#[test]
fn len_tracks_live_values_only() {
    let mut arena = Arena::new();
    let a = arena.insert(1);
    let b = arena.insert(2);
    let c = arena.insert(3);
    assert_eq!(arena.len(), 3);

    arena.remove(b);
    assert_eq!(arena.len(), 2);

    arena.remove(a);
    arena.remove(c);
    assert_eq!(arena.len(), 0);
    assert!(arena.is_empty());
}
