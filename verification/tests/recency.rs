use lru_slab::LruSlab;

fn front_to_back(cache: &LruSlab<char>) -> String {
    let mut out = String::new();
    let mut walk = cache.iter();
    while let Some(c) = walk.next() {
        out.push(*c);
    }
    out
}

fn back_to_front(cache: &LruSlab<char>) -> String {
    let mut out = String::new();
    let mut walk = cache.iter();
    while let Some(c) = walk.next_back() {
        out.push(*c);
    }
    out
}

#[test]
fn lru_order() {
    let mut cache = LruSlab::new();
    let b = cache.insert('b');
    assert_eq!(front_to_back(&cache), "b");
    let _a = cache.insert('a');
    assert_eq!(front_to_back(&cache), "ab");
    let d = cache.insert('d');
    assert_eq!(front_to_back(&cache), "dab");
    let c = cache.insert('c');
    assert_eq!(front_to_back(&cache), "cdab");
    let e = cache.insert('e');
    assert_eq!(front_to_back(&cache), "ecdab");

    cache.get_mut(b);
    cache.get_mut(c);
    cache.get_mut(d);
    cache.get_mut(e);

    assert_eq!(cache.remove(cache.lru().unwrap()), 'a');
    assert_eq!(cache.remove(cache.lru().unwrap()), 'b');
    assert_eq!(cache.remove(cache.lru().unwrap()), 'c');
    assert_eq!(cache.remove(cache.lru().unwrap()), 'd');
    assert_eq!(cache.remove(cache.lru().unwrap()), 'e');
    assert!(cache.lru().is_none());
}

#[test]
fn slot_reuse() {
    let mut cache = LruSlab::new();
    let a = cache.insert('a');
    cache.remove(a);
    let a_prime = cache.insert('a');
    assert_eq!(a, a_prime);
    assert_eq!(cache.len(), 1);
}

#[test]
fn inserts_read_back_newest_first() {
    let mut cache = LruSlab::new();
    for c in ['b', 'a', 'd', 'c', 'e'] {
        cache.insert(c);
    }
    assert_eq!(front_to_back(&cache), "ecdab");
    assert_eq!(back_to_front(&cache), "badce");
}

#[test]
fn freshening_moves_to_front_and_keeps_the_rest() {
    let mut cache = LruSlab::new();
    let b = cache.insert('b');
    let _a = cache.insert('a');
    let d = cache.insert('d');
    let c = cache.insert('c');
    let e = cache.insert('e');
    assert_eq!(front_to_back(&cache), "ecdab");
    cache.get_mut(b);
    assert_eq!(front_to_back(&cache), "becda");
    cache.get_mut(c);
    assert_eq!(front_to_back(&cache), "cbeda");
    cache.get_mut(d);
    assert_eq!(front_to_back(&cache), "dcbea");
    cache.get_mut(e);
    assert_eq!(front_to_back(&cache), "edcba");
    // the freshest slot stays where it is
    cache.get_mut(e);
    assert_eq!(front_to_back(&cache), "edcba");
    assert_eq!(cache.len(), 5);
}

#[test]
fn get_mut_gives_the_stored_value_for_writing() {
    let mut cache = LruSlab::new();
    let x = cache.insert(10u64);
    let y = cache.insert(20u64);
    *cache.get_mut(x) += 1;
    assert_eq!(*cache.peek(x), 11);
    assert_eq!(*cache.peek(y), 20);
    assert_eq!(cache.lru(), Some(y));
}

#[test]
fn peeking_does_not_reorder() {
    let mut cache = LruSlab::new();
    let a = cache.insert('a');
    let b = cache.insert('b');
    assert_eq!(*cache.peek(a), 'a');
    assert_eq!(front_to_back(&cache), "ba");
    *cache.peek_mut(a) = 'z';
    assert_eq!(front_to_back(&cache), "bz");
    assert_eq!(*cache.peek(b), 'b');
    assert_eq!(cache.lru(), Some(a));
}

#[test]
fn draining_by_lru_goes_from_stalest_to_freshest() {
    let mut cache = LruSlab::new();
    for c in ['b', 'a', 'd', 'c', 'e'] {
        cache.insert(c);
    }
    let mut drained = String::new();
    while let Some(slot) = cache.lru() {
        drained.push(cache.remove(slot));
    }
    assert_eq!(drained, "badce");
    assert!(cache.is_empty());
    assert_eq!(cache.len(), 0);
    assert_eq!(cache.lru(), None);
    assert_eq!(front_to_back(&cache), "");
}

#[test]
fn removing_from_the_middle_keeps_the_order_of_the_rest() {
    let mut cache = LruSlab::new();
    let _a = cache.insert('a');
    let b = cache.insert('b');
    let c = cache.insert('c');
    let _d = cache.insert('d');
    assert_eq!(cache.remove(b), 'b');
    assert_eq!(front_to_back(&cache), "dca");
    assert_eq!(back_to_front(&cache), "acd");
    assert_eq!(cache.remove(c), 'c');
    assert_eq!(front_to_back(&cache), "da");
    assert_eq!(cache.len(), 2);
}

#[test]
fn iterator_meets_in_the_middle() {
    let mut cache = LruSlab::new();
    for c in ['a', 'b', 'c', 'd'] {
        cache.insert(c);
    }
    let mut walk = cache.iter();
    assert_eq!(walk.len(), 4);
    assert_eq!(walk.size_hint(), (4, Some(4)));
    assert_eq!(walk.next(), Some(&'d'));
    assert_eq!(walk.next_back(), Some(&'a'));
    assert_eq!(walk.len(), 2);
    assert_eq!(walk.next_back(), Some(&'b'));
    assert_eq!(walk.next(), Some(&'c'));
    assert_eq!(walk.size_hint(), (0, Some(0)));
    assert_eq!(walk.next(), None);
    assert_eq!(walk.next_back(), None);
    assert_eq!(walk.len(), 0);
}

#[test]
fn iterating_an_empty_slab_yields_nothing() {
    let cache: LruSlab<char> = LruSlab::new();
    let mut walk = cache.iter();
    assert_eq!(walk.len(), 0);
    assert_eq!(walk.next(), None);
    assert_eq!(walk.next_back(), None);
}

#[test]
fn removing_the_ends_moves_the_ends() {
    let mut cache = LruSlab::new();
    let a = cache.insert('a');
    let b = cache.insert('b');
    let c = cache.insert('c');
    // the most recently used
    assert_eq!(cache.remove(c), 'c');
    assert_eq!(front_to_back(&cache), "ba");
    assert_eq!(cache.lru(), Some(a));
    // the least recently used
    assert_eq!(cache.remove(a), 'a');
    assert_eq!(front_to_back(&cache), "b");
    assert_eq!(cache.lru(), Some(b));
    // the only one
    assert_eq!(cache.remove(b), 'b');
    assert_eq!(front_to_back(&cache), "");
    assert_eq!(cache.lru(), None);
    assert!(cache.is_empty());
    // and the list starts over
    let d = cache.insert('d');
    assert_eq!(d, b);
    assert_eq!(front_to_back(&cache), "d");
    assert_eq!(cache.lru(), Some(d));
}

#[test]
fn freshening_the_only_value_changes_nothing() {
    let mut cache = LruSlab::new();
    let a = cache.insert('a');
    assert_eq!(*cache.get_mut(a), 'a');
    assert_eq!(front_to_back(&cache), "a");
    assert_eq!(cache.lru(), Some(a));
    assert_eq!(cache.len(), 1);
}

#[test]
fn freshening_the_least_recent_makes_its_neighbour_least_recent() {
    let mut cache = LruSlab::new();
    let a = cache.insert('a');
    let b = cache.insert('b');
    let _c = cache.insert('c');
    cache.get_mut(a);
    assert_eq!(front_to_back(&cache), "acb");
    assert_eq!(back_to_front(&cache), "bca");
    assert_eq!(cache.lru(), Some(b));
}
