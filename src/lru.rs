//! A least-recently-used cache: reads and writes move an entry to the
//! front, and when the cache overflows the entry at the back is evicted.
use std::collections::hash_map::RandomState;
use std::hash::{BuildHasher, Hash};
use vstd::prelude::*;
use vstd::std_specs::hash::{builds_valid_hashers, obeys_key_model};

use crate::evict::Callback;
use crate::fifo::bumped;
pub use crate::fifo::Info;
use crate::map::{unique_keys, has_key, index_of, put_front, value_of, without_key, LinkedHashMap};

verus! {

broadcast use vstd::std_specs::hash::group_hash_axioms;

/// A cache of at most `max_size` entries that evicts the least recently
/// used one.
#[verifier::reject_recursive_types(K)]
#[verifier::reject_recursive_types(V)]
#[verifier::reject_recursive_types(S)]
pub struct Cache<K, V, S = RandomState> {
    max_size: usize,
    hit_count: usize,
    miss_count: usize,
    callback: Callback<K, V>,
    l_map: LinkedHashMap<K, V, S>,
}

impl<K: Copy, V, S> View for Cache<K, V, S> {
    type V = Seq<(K, V)>;

    /// The entries, most recently used first.
    closed spec fn view(&self) -> Seq<(K, V)> {
        self.l_map@
    }
}

impl<K: Copy + Hash + Eq, V> Cache<K, V, RandomState> {
    /// An empty cache of at most `max_size` entries (at least one).
    pub fn new(max_size: usize) -> (r: Self)
        requires
            obeys_key_model::<K>(),
        ensures
            r.wf(),
            r@ == Seq::<(K, V)>::empty(),
            r.max() == if max_size < 1 { 1 } else { max_size },
            r.hits() == 0 && r.misses() == 0,
            r.evicted() == Seq::<(K, V)>::empty() && !r.listening(),
    {
        Cache::with_hasher(max_size, RandomState::new())
    }
}

impl<K: Copy + Hash + Eq, V, S: BuildHasher> Cache<K, V, S> {
    /// The most entries the cache holds.
    pub closed spec fn max(&self) -> nat {
        self.max_size as nat
    }

    pub closed spec fn hits(&self) -> usize {
        self.hit_count
    }

    pub closed spec fn misses(&self) -> usize {
        self.miss_count
    }

    /// Every entry dropped to make room, oldest first; each was handed to
    /// the eviction listener installed at the time, if any.
    pub closed spec fn evicted(&self) -> Seq<(K, V)> {
        self.callback.handed()
    }

    /// Whether an eviction listener is installed.
    pub closed spec fn listening(&self) -> bool {
        self.callback.installed()
    }

    /// Slots that entries left and that the cache still holds for reuse.
    pub closed spec fn free_slots(&self) -> nat {
        self.l_map.free_len()
    }

    pub closed spec fn wf(&self) -> bool {
        &&& self.l_map.wf()
        &&& self.max_size >= 1
        &&& self.l_map@.len() <= self.max_size
    }

    /// An empty cache of at most `max_size` entries (at least one) that
    /// hashes with `hash_builder`.
    pub fn with_hasher(max_size: usize, hash_builder: S) -> (r: Self)
        requires
            obeys_key_model::<K>(),
            builds_valid_hashers::<S>(),
        ensures
            r.wf(),
            r@ == Seq::<(K, V)>::empty(),
            r.max() == if max_size < 1 { 1 } else { max_size },
            r.hits() == 0 && r.misses() == 0,
            r.evicted() == Seq::<(K, V)>::empty() && !r.listening(),
    {
        let max_size = if max_size < 1 { 1 } else { max_size };
        Cache {
            max_size,
            hit_count: 0,
            miss_count: 0,
            callback: Callback::none(),
            l_map: LinkedHashMap::with_capacity_and_hasher(max_size, hash_builder),
        }
    }

    /// Whether `k` is cached.
    pub fn contains_key(&self, k: &K) -> (r: bool)
        requires
            self.wf(),
        ensures
            r == has_key(self@, *k),
    {
        self.l_map.contains_key(k)
    }

    /// Installs the listener for entries evicted to make room, replacing
    /// any earlier one.
    pub fn set_eviction_callback<C: Fn(K, V) + 'static>(&mut self, cb: C)
        requires
            old(self).wf(),
        ensures
            final(self).wf(),
            final(self)@ == old(self)@,
            final(self).max() == old(self).max(),
            final(self).listening(),
            final(self).hits() == old(self).hits(),
            final(self).misses() == old(self).misses(),
            final(self).evicted() == old(self).evicted(),
    {
        self.callback.set(cb);
    }

    /// The value under `k`, counted as a hit or a miss; a hit moves the
    /// entry to the front.
    pub fn get(&mut self, k: &K) -> (r: Option<&V>)
        requires
            old(self).wf(),
        ensures
            final(self).wf(),
            r.is_some() == has_key(old(self)@, *k),
            r.is_some() ==> Some(*r.unwrap()) == value_of(old(self)@, *k) && final(self)@
                == put_front(old(self)@, *k, value_of(old(self)@, *k).unwrap()),
            r.is_some() ==> final(self)@[0].0 == *k,
            r.is_none() ==> final(self)@ == old(self)@,
            r.is_some() ==> final(self).hits() == bumped(old(self).hits()) && final(self).misses()
                == old(self).misses(),
            r.is_none() ==> final(self).misses() == bumped(old(self).misses()) && final(
                self).hits() == old(self).hits(),
            final(self).max() == old(self).max(),
            final(self).listening() == old(self).listening(),
            final(self).evicted() == old(self).evicted(),
    {
        if self.l_map.move_to_front(k) {
            self.hit_count = self.hit_count.saturating_add(1);
            proof {
                old(self).l_map.lemma_keys_unique();
                crate::map::lemma_put_front_len(old(self)@, *k, value_of(old(self)@, *k).unwrap());
                crate::map::lemma_value_of_put_front(
                    old(self)@,
                    *k,
                    value_of(old(self)@, *k).unwrap(),
                );
            }
        } else {
            self.miss_count = self.miss_count.saturating_add(1);
        }
        self.l_map.get(k)
    }

    /// The value under `k`, with no effect on order or counters.
    pub fn peek(&self, k: &K) -> (r: Option<&V>)
        requires
            self.wf(),
        ensures
            r.is_some() == has_key(self@, *k),
            r.is_some() ==> Some(*r.unwrap()) == value_of(self@, *k),
    {
        self.l_map.get(k)
    }

    /// Drops the entry of `k`, returning its value; no listener is told.
    pub fn remove(&mut self, k: &K) -> (r: Option<V>)
        requires
            old(self).wf(),
        ensures
            final(self).wf(),
            final(self)@ == without_key(old(self)@, *k),
            r == value_of(old(self)@, *k),
            final(self).max() == old(self).max(),
            final(self).listening() == old(self).listening(),
            final(self).hits() == old(self).hits(),
            final(self).misses() == old(self).misses(),
            final(self).evicted() == old(self).evicted(),
    {
        let r = self.l_map.remove(k);
        proof {
            crate::map::lemma_without_key_len(old(self)@, *k);
        }
        r
    }

    /// Drops the entry of `k`, returning its key and value.
    pub fn remove_entry(&mut self, k: &K) -> (r: Option<(K, V)>)
        requires
            old(self).wf(),
        ensures
            final(self).wf(),
            final(self)@ == without_key(old(self)@, *k),
            r.is_some() == has_key(old(self)@, *k),
            r.is_some() ==> r.unwrap() == (*k, value_of(old(self)@, *k).unwrap()),
            final(self).max() == old(self).max(),
            final(self).listening() == old(self).listening(),
            final(self).hits() == old(self).hits(),
            final(self).misses() == old(self).misses(),
            final(self).evicted() == old(self).evicted(),
    {
        let r = self.l_map.remove_entry(k);
        proof {
            crate::map::lemma_without_key_len(old(self)@, *k);
        }
        r
    }

    /// Stores `v` under `k` at the front, returning the value it replaced.
    /// When a new key makes the cache overflow, the entry at the back is
    /// evicted.
    pub fn add(&mut self, k: K, v: V) -> (r: Option<V>)
        requires
            old(self).wf(),
        ensures
            final(self).wf(),
            r == value_of(old(self)@, k),
            has_key(old(self)@, k) || old(self)@.len() < old(self).max() ==> final(self)@
                == put_front(old(self)@, k, v) && final(self).evicted() == old(self).evicted(),
            !has_key(old(self)@, k) && old(self)@.len() == old(self).max() ==> final(self)@ == (
            seq![(k, v)] + old(self)@).drop_last() && final(self).evicted() == old(self).evicted().push(old(self)@.last()),
            final(self).max() == old(self).max(),
            final(self).listening() == old(self).listening(),
            final(self).hits() == old(self).hits(),
            final(self).misses() == old(self).misses(),
    {
        let r = self.l_map.push_front(k, v);
        proof {
            crate::map::lemma_put_front_len(old(self)@, k, v);
        }
        if self.l_map.len() > self.max_size {
            match self.l_map.pop_back() {
                Some((ek, ev)) => {
                    self.callback.fire(ek, ev);
                },
                None => {},
            }
        }
        r
    }

    /// The number of cached entries.
    pub fn len(&self) -> (r: usize)
        requires
            self.wf(),
        ensures
            r == self@.len(),
    {
        self.l_map.len()
    }

    /// Drops every entry; no listener is told.
    pub fn purge(&mut self)
        requires
            old(self).wf(),
        ensures
            final(self).wf(),
            final(self)@ == Seq::<(K, V)>::empty(),
            final(self).max() == old(self).max(),
            final(self).listening() == old(self).listening(),
            final(self).hits() == old(self).hits(),
            final(self).misses() == old(self).misses(),
            final(self).evicted() == old(self).evicted(),
    {
        self.l_map.clear()
    }

    /// Whether the cache holds no entry.
    pub fn is_empty(&self) -> (r: bool)
        requires
            self.wf(),
        ensures
            r == (self@.len() == 0),
    {
        self.l_map.is_empty()
    }

    /// Releases memory held for entries that have left.
    pub fn shrink_to_fit(&mut self)
        requires
            old(self).wf(),
        ensures
            final(self).wf(),
            final(self)@ == old(self)@,
            final(self).max() == old(self).max(),
            final(self).listening() == old(self).listening(),
            final(self).hits() == old(self).hits(),
            final(self).misses() == old(self).misses(),
            final(self).evicted() == old(self).evicted(),
            final(self).free_slots() == 0,
    {
        self.l_map.shrink_to_fit();
    }

    /// The hit and miss counters.
    pub fn stat(&self) -> (r: Info)
        ensures
            r.hit_count == self.hits(),
            r.miss_count == self.misses(),
    {
        Info { hit_count: self.hit_count, miss_count: self.miss_count }
    }
}

impl<K: Copy + Hash + Eq, V, S: BuildHasher> Cache<K, V, S> {
    /// The most recently used entry.
    pub fn front(&self) -> (r: Option<(&K, &V)>)
        requires
            self.wf(),
        ensures
            r.is_some() == (self@.len() > 0),
            r.is_some() ==> (*r.unwrap().0, *r.unwrap().1) == self@[0],
    {
        self.l_map.front()
    }

    /// The least recently used entry, the next to be evicted.
    pub fn back(&self) -> (r: Option<(&K, &V)>)
        requires
            self.wf(),
        ensures
            r.is_some() == (self@.len() > 0),
            r.is_some() ==> (*r.unwrap().0, *r.unwrap().1) == self@.last(),
    {
        self.l_map.back()
    }
}

/// A cache that is well formed holds at most `max_size` entries; every
/// operation keeps it well formed.
pub proof fn law_bounded<K: Copy + Hash + Eq, V, S: BuildHasher>(c: &Cache<K, V, S>)
    requires
        c.wf(),
    ensures
        c@.len() <= c.max(),
{
}

/// A `get` of the entry at the back, in a cache of two or more entries,
/// moves it off the back.
pub proof fn law_get_tail_moves_off<K: Copy + Hash + Eq, V, S: BuildHasher>(c: &Cache<K, V, S>)
    requires
        c.wf(),
        c@.len() > 1,
    ensures
        put_front(c@, c@.last().0, value_of(c@, c@.last().0).unwrap()).last().0 != c@.last().0,
{
    c.l_map.lemma_keys_unique();
    let k = c@.last().0;
    assert(c@[c@.len() - 1].0 == k);
    assert(index_of(c@, k) == c@.len() - 1);
    crate::map::law_front_move_leaves_back(c@);
}

/// The entries of a well-formed cache have distinct keys.
pub proof fn law_keys_unique<K: Copy + Hash + Eq, V, S: BuildHasher>(c: &Cache<K, V, S>)
    requires
        c.wf(),
    ensures
        unique_keys(c@),
{
    c.l_map.lemma_keys_unique();
}

} // verus!
