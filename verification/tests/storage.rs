use lru_slab::{LruSlab, NONE};

#[test]
fn new_slab_is_empty_without_capacity() {
    let cache: LruSlab<u8> = LruSlab::new();
    assert!(cache.is_empty());
    assert_eq!(cache.len(), 0);
    assert_eq!(cache.capacity(), 0);
    assert_eq!(cache.lru(), None);
}

#[test]
fn default_is_the_empty_slab() {
    let cache: LruSlab<u8> = LruSlab::default();
    assert!(cache.is_empty());
    assert_eq!(cache.capacity(), 0);
}

#[test]
fn sentinel_is_the_largest_index() {
    assert_eq!(NONE, u32::MAX);
}

#[test]
fn with_capacity_hands_out_slots_in_index_order() {
    let mut cache = LruSlab::with_capacity(3);
    assert_eq!(cache.capacity(), 3);
    assert_eq!(cache.insert('x'), 0);
    assert_eq!(cache.insert('y'), 1);
    assert_eq!(cache.insert('z'), 2);
    assert_eq!(cache.capacity(), 3);
    assert_eq!(cache.len(), 3);
}

#[test]
fn growth_from_nothing_gives_two_slots() {
    let mut cache = LruSlab::new();
    assert_eq!(cache.insert('a'), 0);
    assert_eq!(cache.capacity(), 2);
    assert_eq!(cache.insert('b'), 1);
    assert_eq!(cache.capacity(), 2);
    assert_eq!(cache.insert('c'), 2);
    assert_eq!(cache.capacity(), 4);
    assert_eq!(cache.insert('d'), 3);
    assert_eq!(cache.capacity(), 4);
    assert_eq!(cache.insert('e'), 4);
    assert_eq!(cache.capacity(), 8);
}

#[test]
fn growth_from_one_slot_leaves_no_spare() {
    let mut cache = LruSlab::with_capacity(1);
    assert_eq!(cache.insert('a'), 0);
    assert_eq!(cache.capacity(), 1);
    assert_eq!(cache.insert('b'), 1);
    assert_eq!(cache.capacity(), 2);
    assert_eq!(cache.len(), 2);
    assert_eq!(cache.insert('c'), 2);
    assert_eq!(cache.capacity(), 4);
}

#[test]
fn growth_doubles_a_full_slab() {
    let mut cache = LruSlab::with_capacity(3);
    for n in 0..3u32 {
        assert_eq!(cache.insert(n), n);
    }
    assert_eq!(cache.insert(3), 3);
    assert_eq!(cache.capacity(), 6);
    assert_eq!(cache.insert(4), 4);
    assert_eq!(cache.insert(5), 5);
    assert_eq!(cache.capacity(), 6);
    assert_eq!(cache.insert(6), 6);
    assert_eq!(cache.capacity(), 12);
}

#[test]
fn growth_keeps_handles_and_values() {
    let mut cache = LruSlab::with_capacity(2);
    let mut handles = Vec::new();
    for n in 0..100u32 {
        let before = cache.capacity();
        handles.push(cache.insert(n * 7));
        assert!(cache.capacity() >= before);
        assert_eq!(cache.len(), n + 1);
    }
    for (n, handle) in handles.iter().enumerate() {
        assert_eq!(*cache.peek(*handle), n as u32 * 7);
    }
    assert_eq!(cache.capacity(), 128);
    assert_eq!(cache.lru(), Some(handles[0]));
}

#[test]
fn freed_slots_are_reused_last_in_first_out() {
    let mut cache = LruSlab::new();
    let a = cache.insert('a');
    let b = cache.insert('b');
    let c = cache.insert('c');
    assert_eq!(cache.remove(a), 'a');
    assert_eq!(cache.remove(b), 'b');
    assert_eq!(cache.insert('x'), b);
    assert_eq!(cache.insert('y'), a);
    assert_eq!(*cache.peek(c), 'c');
    assert_eq!(*cache.peek(b), 'x');
    assert_eq!(*cache.peek(a), 'y');
    assert_eq!(cache.len(), 3);
}

#[test]
fn length_counts_inserts_less_removes() {
    let mut cache = LruSlab::new();
    assert!(cache.is_empty());
    let a = cache.insert(1);
    let b = cache.insert(2);
    assert_eq!(cache.len(), 2);
    assert!(!cache.is_empty());
    cache.get_mut(a);
    cache.peek(b);
    assert_eq!(cache.len(), 2);
    let capacity = cache.capacity();
    cache.remove(a);
    assert_eq!(cache.len(), 1);
    cache.remove(b);
    assert_eq!(cache.len(), 0);
    assert!(cache.is_empty());
    assert_eq!(cache.capacity(), capacity);
}

#[test]
fn clone_keeps_handles_order_and_values() {
    let mut cache = LruSlab::new();
    let a = cache.insert(String::from("a"));
    let b = cache.insert(String::from("b"));
    let c = cache.insert(String::from("c"));
    cache.remove(b);
    cache.get_mut(a);
    let mut copy = cache.clone();
    assert_eq!(copy.len(), 2);
    assert_eq!(copy.capacity(), cache.capacity());
    assert_eq!(copy.peek(a), "a");
    assert_eq!(copy.peek(c), "c");
    assert_eq!(copy.lru(), Some(c));
    assert_eq!(copy.insert(String::from("d")), b);
    assert_eq!(cache.len(), 2);
    copy.peek_mut(a).push('!');
    assert_eq!(cache.peek(a), "a");
    assert_eq!(copy.peek(a), "a!");
}
