use cache::fifo::Cache;
use std::cell::RefCell;
use std::rc::Rc;

#[test]
fn fifo_evicts_oldest() {
    let mut cache = Cache::new(3);
    let evicted = Rc::new(RefCell::new(Vec::new()));
    let sink = evicted.clone();
    cache.set_eviction_callback(move |k, v| {
        sink.borrow_mut().push((k, v));
    });
    cache.add(1, 10);
    cache.add(2, 20);
    cache.add(3, 30);
    assert_eq!(cache.get(&1), Some(&10));
    cache.add(4, 40);
    assert!(!cache.contains_key(&1));
    assert_eq!(*evicted.borrow(), vec![(1, 10)]);
    assert_eq!(cache.len(), 3);
}

#[test]
fn fifo_update_keeps_order() {
    let mut cache = Cache::new(2);
    cache.add(1, 10);
    cache.add(2, 20);
    assert_eq!(cache.add(1, 11), Some(10));
    cache.add(3, 30);
    assert!(!cache.contains_key(&1));
    assert_eq!(cache.peek(&2), Some(&20));
    assert_eq!(cache.peek(&3), Some(&30));
}

#[test]
fn fifo_counters_and_removal() {
    let mut cache = Cache::new(4);
    cache.add(1u64, 1u64);
    assert_eq!(cache.get(&1), Some(&1));
    assert_eq!(cache.get(&2), None);
    assert_eq!(cache.peek(&2), None);
    let info = cache.stat();
    assert_eq!(info.hit_count, 1);
    assert_eq!(info.miss_count, 1);
    assert_eq!(cache.remove(&1), Some(1));
    assert_eq!(cache.remove(&1), None);
    cache.add(2, 2);
    assert_eq!(cache.remove_entry(&2), Some((2, 2)));
    assert!(cache.is_empty());
    cache.add(3, 3);
    cache.purge();
    cache.shrink_to_fit();
    assert!(cache.is_empty());
}
