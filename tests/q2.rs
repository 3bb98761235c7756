use cache::q2::Cache;
use std::cell::RefCell;
use std::rc::Rc;

/// A small deterministic generator standing in for a random source.
struct Lcg(u64);

impl Lcg {
    fn next(&mut self) -> i64 {
        self.0 = self.0.wrapping_mul(6364136223846793005).wrapping_add(1442695040888963407);
        (self.0 >> 1) as i64
    }
}

#[test]
fn q2_test_random_ops() {
    let size = 128;
    let mut cache: Cache<i64, i64> = Cache::new(size);
    let mut rng = Lcg(7);

    for _ in 0usize..20000 {
        let mut key: i64 = rng.next();
        key %= 512;
        let r: i64 = rng.next();

        match r % 3 {
            0 => {
                cache.add(key, key);
            }
            1 => {
                cache.get(&key);
            }
            2 => {
                cache.remove(&key);
            }
            _ => {}
        }
        assert!(cache.main_len() + cache.admission_len() <= size);
    }
}

#[test]
fn q2_test_get_in_main() {
    let size = 128;
    let mut cache: Cache<usize, usize> = Cache::new(size);
    for i in 0usize..size {
        cache.add(i, i);
    }

    assert_eq!(cache.admission_len(), 128);
    assert_eq!(cache.main_len(), 0);

    for i in 0usize..size {
        assert!(cache.get(&i).is_some());
    }
    assert_eq!(cache.admission_len(), 0);
    assert_eq!(cache.main_len(), 128);
}

#[test]
fn q2_test_add_in_to_main() {
    let size = 128;
    let mut cache: Cache<usize, usize> = Cache::new(size);

    cache.add(1, 1);
    assert_eq!(cache.admission_len(), 1);
    assert_eq!(cache.main_len(), 0);

    cache.add(1, 1);
    assert_eq!(cache.admission_len(), 0);
    assert_eq!(cache.main_len(), 1);

    cache.add(1, 1);
    assert_eq!(cache.admission_len(), 0);
    assert_eq!(cache.main_len(), 1);
}

#[test]
fn test_add_out() {
    let size = 4;
    let mut cache: Cache<usize, usize> = Cache::new(size);

    let e_count = Rc::new(RefCell::new(0));
    let count = e_count.clone();
    cache.set_eviction_callback(move |_, _| {
        *count.borrow_mut() += 1;
    });

    cache.add(1, 1);
    cache.add(2, 2);
    cache.add(3, 3);
    cache.add(4, 4);
    cache.add(5, 5);
    assert_eq!(cache.admission_len(), 4);
    assert_eq!(cache.ghost_len(), 1);
    assert_eq!(cache.main_len(), 0);
    assert_eq!(*e_count.as_ref().borrow(), 1);

    cache.add(1, 1);
    assert_eq!(cache.admission_len(), 3);
    assert_eq!(cache.ghost_len(), 1);
    assert_eq!(cache.main_len(), 1);

    cache.add(6, 6);
    assert_eq!(cache.admission_len(), 3);
    assert_eq!(cache.ghost_len(), 2);
    assert_eq!(cache.main_len(), 1);
}

#[test]
fn q2_test_cache() {
    let mut cache: Cache<usize, usize> = Cache::new(128);
    for i in 0usize..256 {
        cache.add(i, i);
    }
    assert_eq!(cache.len(), 128);

    for i in 0usize..128 {
        assert!(cache.get(&i).is_none());
    }

    for i in 128usize..256 {
        assert!(cache.get(&i).is_some());
    }

    for i in 128usize..192 {
        cache.remove(&i);
        assert!(cache.get(&i).is_none());
    }

    cache.purge();
    assert!(cache.is_empty());
    assert!(cache.get(&200).is_none());
}

#[test]
fn q2_test_contains() {
    let mut cache: Cache<usize, usize> = Cache::new(2);
    cache.add(1, 1);
    cache.add(2, 2);
    assert!(cache.contains_key(&1));
    cache.add(3, 3);
    assert!(!cache.contains_key(&1));
}

#[test]
fn q2_test_peek() {
    let mut cache: Cache<usize, usize> = Cache::new(2);
    cache.add(1, 1);
    cache.add(2, 2);
    assert_eq!(cache.peek(&1), Some(&1));
    cache.add(3, 3);
    assert!(!cache.contains_key(&1));
}

#[test]
fn q2_ghost_admission_goes_to_main() {
    let mut cache: Cache<u64, u64> = Cache::new(4);
    for i in 1u64..=5 {
        cache.add(i, i);
    }
    assert!(!cache.contains_key(&1));
    assert_eq!(cache.add(1, 100), None);
    assert_eq!(cache.main_len(), 1);
    assert_eq!(cache.ghost_len(), 1);
    assert!(!cache.contains_key(&2));
    assert_eq!(cache.peek(&1), Some(&100));
    assert_eq!(cache.remove(&1), Some(100));
    assert_eq!(cache.remove(&1), None);
    let before = cache.stat();
    assert_eq!(cache.get(&3), Some(&3));
    assert_eq!(cache.stat().hit_count, before.hit_count + 1);
    cache.shrink_to_fit();
    assert_eq!(cache.peek(&3), Some(&3));
}

#[test]
fn q2_hashed_ghost_readmission() {
    let mut cache: Cache<u64, u64> = Cache::new(4);
    let evicted = Rc::new(RefCell::new(Vec::new()));
    let sink = evicted.clone();
    cache.set_eviction_callback(move |k, v| {
        sink.borrow_mut().push((k, v));
    });
    for i in 1u64..=4 {
        let (r, ev, _) = cache.insert_hashed(i, i, 1000 + i);
        assert_eq!(r, None);
        assert_eq!(ev, None);
    }
    let (r, ev, from_admission) = cache.insert_hashed(5, 5, 1005);
    assert_eq!(r, None);
    assert_eq!(ev, Some((1, 1)));
    assert!(from_admission);
    cache.remember(1001);
    assert_eq!(cache.ghost_len(), 1);
    assert_eq!(cache.admission_len(), 4);
    let (r, ev, from_admission) = cache.insert_hashed(1, 10, 1001);
    assert_eq!(r, None);
    assert_eq!(ev, Some((2, 2)));
    assert!(from_admission);
    assert_eq!(cache.ghost_len(), 0);
    assert_eq!(cache.main_len(), 1);
    assert_eq!(cache.admission_len(), 3);
    cache.remember(1002);
    assert_eq!(cache.remove_hashed(&1, 1002), Some(10));
    assert_eq!(cache.ghost_len(), 0);
    assert!(evicted.borrow().is_empty());
}

#[test]
fn q2_listener_gets_evicted_pairs() {
    let mut cache: Cache<u64, u64> = Cache::new(4);
    let evicted = Rc::new(RefCell::new(Vec::new()));
    let sink = evicted.clone();
    cache.set_eviction_callback(move |k, v| {
        sink.borrow_mut().push((k, v));
    });
    for i in 1u64..=6 {
        cache.add(i, i * 10);
    }
    assert_eq!(*evicted.borrow(), vec![(1, 10), (2, 20)]);
    cache.remove(&3);
    cache.purge();
    assert_eq!(evicted.borrow().len(), 2);
}
