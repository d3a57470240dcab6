use lru_slab::LruSlab;

/// The same container kept the slow way: handles and values in recency order,
/// and a stack of freed handles.
struct Plain {
    live: Vec<(u32, u64)>,
    freed: Vec<u32>,
    capacity: u32,
}

impl Plain {
    fn insert(&mut self, value: u64) -> u32 {
        let handle = match self.freed.pop() {
            Some(handle) => handle,
            None => {
                let first = self.capacity;
                self.capacity = (2 * first).max(2);
                for unused in (first + 1..self.capacity).rev() {
                    self.freed.push(unused);
                }
                first
            }
        };
        self.live.insert(0, (handle, value));
        handle
    }

    fn remove(&mut self, handle: u32) -> u64 {
        let at = self.live.iter().position(|entry| entry.0 == handle).unwrap();
        self.freed.push(handle);
        self.live.remove(at).1
    }

    fn touch(&mut self, handle: u32) -> &mut u64 {
        let at = self.live.iter().position(|entry| entry.0 == handle).unwrap();
        let entry = self.live.remove(at);
        self.live.insert(0, entry);
        &mut self.live[0].1
    }
}

fn agree(cache: &LruSlab<u64>, plain: &Plain) {
    assert_eq!(cache.len() as usize, plain.live.len());
    assert_eq!(cache.capacity(), plain.capacity);
    assert_eq!(cache.is_empty(), plain.live.is_empty());
    assert_eq!(cache.lru(), plain.live.last().map(|entry| entry.0));
    let mut walk = cache.iter();
    assert_eq!(walk.len(), plain.live.len());
    for entry in &plain.live {
        assert_eq!(walk.next(), Some(&entry.1));
        assert_eq!(*cache.peek(entry.0), entry.1);
    }
    assert_eq!(walk.next(), None);
    let mut walk = cache.iter();
    for entry in plain.live.iter().rev() {
        assert_eq!(walk.next_back(), Some(&entry.1));
    }
    assert_eq!(walk.next_back(), None);
}

#[test]
fn agrees_with_a_plain_list_under_mixed_calls() {
    let mut cache = LruSlab::with_capacity(3);
    let mut plain = Plain { live: Vec::new(), freed: vec![2, 1, 0], capacity: 3 };
    let mut seed: u64 = 0x2545_f491_4f6c_dd1d;
    for round in 0..4000u64 {
        seed ^= seed << 13;
        seed ^= seed >> 7;
        seed ^= seed << 17;
        let pick = (seed >> 8) as usize;
        match seed % 5 {
            0 | 1 => {
                assert_eq!(cache.insert(round), plain.insert(round));
            }
            2 if !plain.live.is_empty() => {
                let handle = plain.live[pick % plain.live.len()].0;
                assert_eq!(cache.remove(handle), plain.remove(handle));
            }
            3 if !plain.live.is_empty() => {
                let handle = plain.live[pick % plain.live.len()].0;
                let seen = cache.get_mut(handle);
                let expected = plain.touch(handle);
                assert_eq!(seen, expected);
                *seen += 1;
                *expected += 1;
            }
            4 if !plain.live.is_empty() => {
                let handle = plain.live[pick % plain.live.len()].0;
                let at = plain.live.iter().position(|entry| entry.0 == handle).unwrap();
                *cache.peek_mut(handle) += 3;
                plain.live[at].1 += 3;
            }
            _ => {}
        }
        agree(&cache, &plain);
    }
    while let Some(handle) = cache.lru() {
        assert_eq!(cache.remove(handle), plain.remove(handle));
        agree(&cache, &plain);
    }
    assert!(plain.live.is_empty());
}
