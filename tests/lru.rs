use cache::lru::Cache;
use std::cell::RefCell;
use std::rc::Rc;

#[test]
fn lru_test_cache() {
    let mut cache = Cache::new(128);

    let e_count = Rc::new(RefCell::new(0));
    let count = e_count.clone();
    cache.set_eviction_callback(move |_, _| {
        *count.borrow_mut() += 1;
    });

    for i in 0usize..256 {
        cache.add(i, i);
    }
    assert_eq!(cache.len(), 128);
    assert_eq!(*e_count.as_ref().borrow(), 128);

    for i in 0usize..128 {
        assert!(cache.get(&i).is_none());
    }
    for i in 128usize..256 {
        assert!(cache.get(&i).is_some());
    }
    for i in 128usize..192 {
        assert!(cache.remove(&i).is_some());
        assert!(cache.remove(&i).is_none());
        assert!(cache.get(&i).is_none());
    }

    let (last, _) = cache.back().unwrap();
    let last = *last;
    cache.get(&last);
    let (last_after_get, _) = cache.back().unwrap();
    assert!(*last_after_get != last);

    cache.purge();
    assert!(cache.is_empty());
    assert!(cache.get(&200).is_none());
}

#[test]
fn lru_test_contains() {
    let mut cache = Cache::new(2);

    cache.add(1, 1);
    cache.add(2, 2);
    assert!(cache.contains_key(&1));

    cache.add(3, 3);
    assert!(!cache.contains_key(&1));
}

#[test]
fn lru_test_peek() {
    let mut cache = Cache::new(2);
    cache.add(1, 1);
    cache.add(2, 2);
    assert_eq!(cache.peek(&1), Some(&1));
    cache.add(3, 3);
    assert!(!cache.contains_key(&1));
}

#[test]
fn lru_basic_values_and_evictions() {
    let mut cache = Cache::new(128);
    let e_count = Rc::new(RefCell::new(0));
    let count = e_count.clone();
    cache.set_eviction_callback(move |_, _| {
        *count.borrow_mut() += 1;
    });
    for i in 0u64..256 {
        cache.add(i, i);
    }
    assert_eq!(cache.len(), 128);
    assert_eq!(*e_count.borrow(), 128);
    for i in 0u64..128 {
        assert_eq!(cache.get(&i), None);
    }
    for i in 128u64..256 {
        assert_eq!(cache.get(&i), Some(&i));
    }
    cache.remove(&200);
    cache.purge();
    assert_eq!(*e_count.borrow(), 128);
    let info = cache.stat();
    assert_eq!(info.hit_count, 128);
    assert_eq!(info.miss_count, 128);
}

#[test]
fn lru_get_moves_to_front() {
    let mut cache = Cache::new(4);
    cache.add(1, 10);
    cache.add(2, 20);
    cache.add(3, 30);
    assert_eq!(cache.back(), Some((&1, &10)));
    assert_eq!(cache.get(&1), Some(&10));
    assert_eq!(cache.front(), Some((&1, &10)));
    assert_eq!(cache.back(), Some((&2, &20)));
    assert_eq!(cache.add(2, 21), Some(20));
    assert_eq!(cache.front(), Some((&2, &21)));
}

#[test]
fn lru_single_entry_stays_at_tail() {
    let mut cache = Cache::new(1);
    cache.add(5, 50);
    assert_eq!(cache.get(&5), Some(&50));
    assert_eq!(cache.back(), Some((&5, &50)));
    cache.add(6, 60);
    assert!(!cache.contains_key(&5));
    assert_eq!(cache.len(), 1);
}

#[test]
fn lru_size_zero_is_clamped_to_one() {
    let mut cache = Cache::new(0);
    cache.add(1, 1);
    cache.add(2, 2);
    assert_eq!(cache.len(), 1);
    assert_eq!(cache.remove_entry(&2), Some((2, 2)));
    assert!(cache.is_empty());
    cache.shrink_to_fit();
    assert!(cache.is_empty());
}

#[test]
fn lru_listener_gets_back_entry() {
    let mut cache = Cache::new(2);
    let evicted = Rc::new(RefCell::new(Vec::new()));
    let sink = evicted.clone();
    cache.set_eviction_callback(move |k, v| {
        sink.borrow_mut().push((k, v));
    });
    cache.add(1u64, 10u64);
    cache.add(2, 20);
    cache.add(1, 11);
    assert!(evicted.borrow().is_empty());
    cache.add(3, 30);
    assert_eq!(*evicted.borrow(), vec![(2, 20)]);
    cache.remove(&1);
    cache.purge();
    assert_eq!(evicted.borrow().len(), 1);
}
