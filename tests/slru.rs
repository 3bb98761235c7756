use cache::slru::Cache;
use std::cell::RefCell;
use std::rc::Rc;

/// A small deterministic generator standing in for a random source.
struct Lcg(u64);

impl Lcg {
    fn next(&mut self) -> i64 {
        self.0 = self.0.wrapping_mul(6364136223846793005).wrapping_add(1442695040888963407);
        (self.0 >> 1) as i64
    }
}

#[test]
fn slru_test_random_ops() {
    let size = 128;
    let mut cache: Cache<i64, i64> = Cache::new(size);
    let mut rng = Lcg(42);

    for _ in 0usize..20000 {
        let mut key: i64 = rng.next();
        key %= 512;
        let r: i64 = rng.next();

        match r % 3 {
            0 => {
                cache.add(key, key);
            }
            1 => {
                cache.get(&key);
            }
            2 => {
                cache.remove(&key);
            }
            _ => {}
        }
        assert!(cache.protected_len() + cache.probation_len() <= size);
    }
}

#[test]
fn slru_test_get_in_main() {
    let size = 128;
    let mut cache: Cache<usize, usize> = Cache::new(size);
    for i in 0usize..size {
        cache.add(i, i);
    }

    assert_eq!(cache.probation_len(), 128);
    assert_eq!(cache.protected_len(), 0);

    for i in 0usize..size {
        assert!(cache.get(&i).is_some());
    }

    assert_eq!(cache.probation_len(), 32);
    assert_eq!(cache.protected_len(), 96);
}

#[test]
fn slru_test_add_in_to_main() {
    let size = 128;
    let mut cache: Cache<usize, usize> = Cache::new(size);

    cache.add(1, 1);
    assert_eq!(cache.probation_len(), 1);
    assert_eq!(cache.protected_len(), 0);

    cache.add(1, 1);
    assert_eq!(cache.probation_len(), 0);
    assert_eq!(cache.protected_len(), 1);

    cache.add(1, 1);
    assert_eq!(cache.probation_len(), 0);
    assert_eq!(cache.protected_len(), 1);
}

#[test]
fn test_back_to_in_front() {
    let size = 4;
    let mut cache: Cache<usize, usize> = Cache::new(size);

    let e_count = Rc::new(RefCell::new(0));
    let count = e_count.clone();
    cache.set_eviction_callback(move |_, _| {
        *count.borrow_mut() += 1;
    });

    cache.add(1, 1);
    cache.add(2, 2);
    cache.add(3, 3);
    cache.add(4, 4);
    cache.add(5, 5);
    assert_eq!(cache.probation_len(), 4);
    assert_eq!(cache.protected_len(), 0);
    assert_eq!(*e_count.as_ref().borrow(), 1);

    assert!(cache.get(&4).is_some());
    assert!(cache.get(&3).is_some());
    assert!(cache.get(&5).is_some());
    assert_eq!(cache.probation_len(), 1);
    assert_eq!(cache.protected_len(), 3);
    assert_eq!(cache.protected_front(), Some((&5, &5)));

    assert!(cache.get(&2).is_some());
    assert_eq!(cache.probation_len(), 1);
    assert_eq!(cache.protected_len(), 3);

    assert_eq!(cache.probation_front(), Some((&4, &4)));
    assert_eq!(cache.protected_back(), Some((&3, &3)));
    assert_eq!(cache.protected_front(), Some((&2, &2)));

    cache.add(6, 6);
    assert!(cache.get(&6).is_some());
    assert_eq!(cache.protected_back(), Some((&5, &5)));
    assert_eq!(cache.protected_front(), Some((&6, &6)));
    assert_eq!(cache.probation_front(), Some((&3, &3)));

    assert_eq!(cache.probation_len(), 1);
    assert_eq!(cache.protected_len(), 3);
}

#[test]
fn slru_test_cache() {
    let mut cache: Cache<usize, usize> = Cache::new(128);
    for i in 0usize..256 {
        cache.add(i, i);
    }
    assert_eq!(cache.len(), 128);

    for i in 0usize..128 {
        assert!(cache.get(&i).is_none());
    }

    for i in 128usize..256 {
        assert!(cache.get(&i).is_some());
    }

    for i in 128usize..192 {
        cache.remove(&i);
        assert!(cache.get(&i).is_none());
    }

    cache.purge();
    assert!(cache.is_empty());
    assert!(cache.get(&200).is_none());
}

#[test]
fn slru_test_contains() {
    let mut cache: Cache<usize, usize> = Cache::new(2);
    cache.add(1, 1);
    cache.add(2, 2);
    assert!(cache.contains_key(&1));
    cache.add(3, 3);
    assert!(!cache.contains_key(&1));
}

#[test]
fn slru_test_peek() {
    let mut cache: Cache<usize, usize> = Cache::new(2);
    cache.add(1, 1);
    cache.add(2, 2);
    assert_eq!(cache.peek(&1), Some(&1));
    cache.add(3, 3);
    assert!(!cache.contains_key(&1));
}

#[test]
fn slru_remove_twice_and_counters() {
    let mut cache: Cache<u64, u64> = Cache::new(8);
    cache.add(1, 10);
    assert!(cache.remove(&1));
    assert!(!cache.remove(&1));
    assert_eq!(cache.get(&1), None);
    cache.add(2, 20);
    assert_eq!(cache.get(&2), Some(&20));
    assert_eq!(cache.get(&2), Some(&20));
    let info = cache.stat();
    assert_eq!(info.hit_count, 2);
    assert_eq!(info.miss_count, 1);
    assert_eq!(cache.add(2, 21), Some(20));
    cache.shrink_to_fit();
    assert_eq!(cache.peek(&2), Some(&21));
}

#[test]
fn slru_explicit_limits() {
    let mut cache: Cache<u64, u64> =
        Cache::with_limits_and_hasher(4, 1, 3, std::collections::hash_map::RandomState::new());
    for i in 0u64..10 {
        cache.add(i, i);
        assert!(cache.len() <= 4);
    }
    assert_eq!(cache.len(), 4);
}

#[test]
fn slru_listener_gets_probation_back() {
    let mut cache: Cache<u64, u64> = Cache::new(4);
    let evicted = Rc::new(RefCell::new(Vec::new()));
    let sink = evicted.clone();
    cache.set_eviction_callback(move |k, v| {
        sink.borrow_mut().push((k, v));
    });
    for i in 1u64..=5 {
        cache.add(i, i * 10);
    }
    assert_eq!(*evicted.borrow(), vec![(1, 10)]);
    cache.remove(&2);
    cache.purge();
    assert_eq!(evicted.borrow().len(), 1);
}
