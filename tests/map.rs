use cache::map::LinkedHashMap;

#[test]
fn test_common() {
    type LHM = LinkedHashMap<i32, i32>;
    let mut m = LHM::new();
    assert_eq!(m.capacity(), 0);
    assert!(m.is_empty());
    assert_eq!(m.len(), 0);

    assert_eq!(m.push_front(1, 1), None);
    assert_eq!(m.push_front(2, 2), None);
    assert_eq!(m.push_front(3, 3), None);
    assert_eq!(m.push_front(4, 4), None);
    assert_eq!(m.push_front(5, 5), None);

    assert_eq!(m.get(&1), Some(&1));
    assert_eq!(m.get(&2), Some(&2));
    assert_eq!(m.get(&3), Some(&3));
    assert_eq!(m.get(&4), Some(&4));
    assert_eq!(m.get(&5), Some(&5));

    assert_eq!(m.front(), Some((&5, &5)));
    assert_eq!(m.back(), Some((&1, &1)));

    let el = m.get_mut(&5).unwrap();
    *el = 6;
    assert_eq!(m.get(&5), Some(&6));

    assert_eq!(m.empty_len(), 0);
    assert_eq!(m.len(), 5);

    assert_eq!(m.pop_back(), Some((1, 1)));
    assert_eq!(m.pop_front(), Some((5, 6)));

    assert_eq!(m.front(), Some((&4, &4)));
    assert_eq!(m.back(), Some((&2, &2)));

    assert_eq!(m.remove(&4), Some(4));
    assert_eq!(m.get(&4), None);
    assert_eq!(m.front(), Some((&3, &3)));
    assert_eq!(m.back(), Some((&2, &2)));

    assert_eq!(m.remove(&2), Some(2));
    assert_eq!(m.back(), Some((&3, &3)));
    assert_eq!(m.front(), Some((&3, &3)));

    assert_eq!(m.empty_len(), 4);
    assert!(m.empty_len() > 0);
    assert_eq!(m.len(), 1);

    m.shrink_to_fit();
    assert_eq!(m.empty_len(), 0);

    m.clear();
    assert!(m.is_empty());
    assert_eq!(m.len(), 0);
}

#[test]
fn test_move_to_front() {
    type LHM = LinkedHashMap<i32, i32>;
    let mut m = LHM::new();
    assert_eq!(m.capacity(), 0);
    assert!(m.is_empty());
    assert_eq!(m.len(), 0);

    assert_eq!(m.push_front(1, 1), None);
    assert_eq!(m.push_front(2, 2), None);
    assert_eq!(m.push_front(3, 3), None);
    assert_eq!(m.push_front(4, 4), None);
    assert_eq!(m.push_front(5, 5), None);

    assert!(m.move_to_front(&1));
    assert_eq!(m.front(), Some((&1, &1)));
    assert_eq!(m.back(), Some((&2, &2)));

    assert!(m.move_to_front(&2));
    assert_eq!(m.front(), Some((&2, &2)));
    assert_eq!(m.back(), Some((&3, &3)));

    assert!(m.move_to_front(&3));
    assert_eq!(m.front(), Some((&3, &3)));
    assert_eq!(m.back(), Some((&4, &4)));

    assert!(m.move_to_front(&4));
    assert_eq!(m.front(), Some((&4, &4)));
    assert_eq!(m.back(), Some((&5, &5)));

    assert!(m.move_to_front(&5));
    assert_eq!(m.front(), Some((&5, &5)));
    assert_eq!(m.back(), Some((&1, &1)));
}

#[test]
fn replacement_at_front() {
    let mut m: LinkedHashMap<i32, char> = LinkedHashMap::new();
    assert_eq!(m.push_front(1, 'a'), None);
    assert_eq!(m.push_front(2, 'b'), None);
    assert_eq!(m.push_front(1, 'c'), Some('a'));
    assert_eq!(m.front(), Some((&1, &'c')));
    assert_eq!(m.back(), Some((&2, &'b')));
    assert_eq!(m.len(), 2);
}

#[test]
fn replacement_at_front_moves_even_from_front() {
    let mut m: LinkedHashMap<i32, char> = LinkedHashMap::new();
    m.push_back(1, 'a');
    m.push_back(2, 'b');
    assert_eq!(m.push_back(2, 'z'), Some('b'));
    assert_eq!(m.back(), Some((&2, &'z')));
    assert_eq!(m.push_back(1, 'y'), Some('a'));
    assert_eq!(m.front(), Some((&2, &'z')));
    assert_eq!(m.back(), Some((&1, &'y')));
}

#[test]
fn freelist_recycling() {
    let mut m: LinkedHashMap<u64, u64> = LinkedHashMap::with_capacity(8);
    for i in 0u64..10 {
        m.push_front(i, i * 10);
    }
    for _ in 0..4 {
        assert!(m.pop_back().is_some());
    }
    assert_eq!(m.empty_len(), 4);
    assert_eq!(m.len(), 6);
    m.push_front(100, 1000);
    assert_eq!(m.empty_len(), 3);
    m.shrink_to_fit();
    assert_eq!(m.empty_len(), 0);
    assert_eq!(m.len(), 7);
    assert_eq!(m.front(), Some((&100, &1000)));
    assert_eq!(m.back(), Some((&4, &40)));
    m.push_front(200, 2000);
    assert_eq!(m.len(), 8);
    assert_eq!(m.get(&200), Some(&2000));
    assert_eq!(m.get(&9), Some(&90));
}

#[test]
fn pops_on_empty_give_none() {
    let mut m: LinkedHashMap<u64, u64> = LinkedHashMap::new();
    assert_eq!(m.pop_front(), None);
    assert_eq!(m.pop_back(), None);
    assert_eq!(m.front(), None);
    assert_eq!(m.back(), None);
    assert_eq!(m.empty_len(), 0);
}

#[test]
fn double_remove_is_noop() {
    let mut m: LinkedHashMap<u64, u64> = LinkedHashMap::new();
    m.push_front(7, 70);
    m.push_front(8, 80);
    assert_eq!(m.remove_entry(&7), Some((7, 70)));
    assert_eq!(m.remove_entry(&7), None);
    assert_eq!(m.remove(&8), Some(80));
    assert_eq!(m.remove(&8), None);
    assert!(m.is_empty());
}

#[test]
fn round_trip_through_back() {
    let mut m: LinkedHashMap<u64, u64> = LinkedHashMap::new();
    m.push_front(1, 11);
    m.push_front(2, 22);
    m.push_front(3, 33);
    assert_eq!(m.get(&1), Some(&11));
    assert_eq!(m.pop_back(), Some((1, 11)));
    assert_eq!(m.pop_back(), Some((2, 22)));
    assert_eq!(m.pop_back(), Some((3, 33)));
    assert_eq!(m.pop_back(), None);
}

#[test]
fn move_to_back_and_absent_keys() {
    let mut m: LinkedHashMap<u64, u64> = LinkedHashMap::new();
    m.push_back(1, 1);
    m.push_back(2, 2);
    m.push_back(3, 3);
    assert!(m.move_to_back(&1));
    assert_eq!(m.back(), Some((&1, &1)));
    assert_eq!(m.front(), Some((&2, &2)));
    assert!(!m.move_to_back(&9));
    assert!(!m.move_to_front(&9));
    assert!(m.contains_key(&3));
    assert!(!m.contains_key(&9));
    assert_eq!(m.get_key_value(&3), Some((&3, &3)));
    *m.front_mut().unwrap() = 20;
    *m.back_mut().unwrap() = 10;
    assert_eq!(m.get(&2), Some(&20));
    assert_eq!(m.get(&1), Some(&10));
    m.reserve(16);
    assert_eq!(m.len(), 3);
}

#[test]
fn custom_hasher_map() {
    let hasher = std::collections::hash_map::RandomState::new();
    let mut m: LinkedHashMap<u64, u64, _> = LinkedHashMap::with_hasher(hasher);
    assert!(m.is_empty());
    m.push_back(3, 30);
    m.push_back(4, 40);
    let _ = m.hasher();
    assert_eq!(m.front(), Some((&3, &30)));
    let mut n: LinkedHashMap<u64, u64, _> =
        LinkedHashMap::with_capacity_and_hasher(4, std::collections::hash_map::RandomState::new());
    assert!(n.capacity() >= 4);
    n.push_front(1, 1);
    assert_eq!(n.len(), 1);
}
