//! A first-in first-out cache: reads never reorder, and when the cache is
//! full the oldest entry makes room for the new one.
use std::collections::hash_map::RandomState;
use std::hash::{BuildHasher, Hash};
use vstd::prelude::*;
use vstd::std_specs::hash::{builds_valid_hashers, obeys_key_model};

use crate::evict::Callback;
use crate::map::{unique_keys, has_key, value_of, with_value, without_key, LinkedHashMap};

verus! {

broadcast use vstd::std_specs::hash::group_hash_axioms;

/// A snapshot of a cache's hit and miss counters.
pub struct Info {
    pub hit_count: usize,
    pub miss_count: usize,
}

/// `n + 1`, held at `usize::MAX`.
pub open spec fn bumped(n: usize) -> usize {
    if n == usize::MAX {
        n
    } else {
        (n + 1) as usize
    }
}

/// A cache of at most `max_size` entries that evicts in insertion order.
#[verifier::reject_recursive_types(K)]
#[verifier::reject_recursive_types(V)]
#[verifier::reject_recursive_types(S)]
pub struct Cache<K, V, S = RandomState> {
    max_size: usize,
    hit_count: usize,
    miss_count: usize,
    callback: Callback<K, V>,
    l_map: LinkedHashMap<K, V, S>,
}

impl<K: Copy, V, S> View for Cache<K, V, S> {
    type V = Seq<(K, V)>;

    /// The entries, newest first.
    closed spec fn view(&self) -> Seq<(K, V)> {
        self.l_map@
    }
}

impl<K: Copy + Hash + Eq, V> Cache<K, V, RandomState> {
    /// An empty cache of at most `max_size` entries (at least one).
    pub fn new(max_size: usize) -> (r: Self)
        requires
            obeys_key_model::<K>(),
        ensures
            r.wf(),
            r@ == Seq::<(K, V)>::empty(),
            r.max() == if max_size < 1 { 1 } else { max_size },
            r.hits() == 0 && r.misses() == 0,
            r.evicted() == Seq::<(K, V)>::empty() && !r.listening(),
    {
        Cache::with_hasher(max_size, RandomState::new())
    }
}

impl<K: Copy + Hash + Eq, V, S: BuildHasher> Cache<K, V, S> {
    /// The most entries the cache holds.
    pub closed spec fn max(&self) -> nat {
        self.max_size as nat
    }

    pub closed spec fn hits(&self) -> usize {
        self.hit_count
    }

    pub closed spec fn misses(&self) -> usize {
        self.miss_count
    }

    /// Every entry dropped to make room, oldest first; each was handed to
    /// the eviction listener installed at the time, if any.
    pub closed spec fn evicted(&self) -> Seq<(K, V)> {
        self.callback.handed()
    }

    /// Whether an eviction listener is installed.
    pub closed spec fn listening(&self) -> bool {
        self.callback.installed()
    }

    /// Slots that entries left and that the cache still holds for reuse.
    pub closed spec fn free_slots(&self) -> nat {
        self.l_map.free_len()
    }

    pub closed spec fn wf(&self) -> bool {
        &&& self.l_map.wf()
        &&& self.max_size >= 1
        &&& self.l_map@.len() <= self.max_size
    }

    /// An empty cache of at most `max_size` entries (at least one) that
    /// hashes with `hash_builder`.
    pub fn with_hasher(max_size: usize, hash_builder: S) -> (r: Self)
        requires
            obeys_key_model::<K>(),
            builds_valid_hashers::<S>(),
        ensures
            r.wf(),
            r@ == Seq::<(K, V)>::empty(),
            r.max() == if max_size < 1 { 1 } else { max_size },
            r.hits() == 0 && r.misses() == 0,
            r.evicted() == Seq::<(K, V)>::empty() && !r.listening(),
    {
        let max_size = if max_size < 1 { 1 } else { max_size };
        Cache {
            max_size,
            hit_count: 0,
            miss_count: 0,
            callback: Callback::none(),
            l_map: LinkedHashMap::with_capacity_and_hasher(max_size, hash_builder),
        }
    }

    /// Whether `k` is cached.
    pub fn contains_key(&self, k: &K) -> (r: bool)
        requires
            self.wf(),
        ensures
            r == has_key(self@, *k),
    {
        self.l_map.contains_key(k)
    }

    /// Installs the listener for entries evicted to make room, replacing
    /// any earlier one.
    pub fn set_eviction_callback<C: Fn(K, V) + 'static>(&mut self, cb: C)
        requires
            old(self).wf(),
        ensures
            final(self).wf(),
            final(self)@ == old(self)@,
            final(self).max() == old(self).max(),
            final(self).listening(),
            final(self).hits() == old(self).hits(),
            final(self).misses() == old(self).misses(),
            final(self).evicted() == old(self).evicted(),
    {
        self.callback.set(cb);
    }

    /// The value under `k`, counted as a hit or a miss; the order is kept.
    pub fn get(&mut self, k: &K) -> (r: Option<&V>)
        requires
            old(self).wf(),
        ensures
            final(self).wf(),
            final(self)@ == old(self)@,
            r.is_some() == has_key(old(self)@, *k),
            r.is_some() ==> Some(*r.unwrap()) == value_of(old(self)@, *k),
            r.is_some() ==> final(self).hits() == bumped(old(self).hits()) && final(self).misses()
                == old(self).misses(),
            r.is_none() ==> final(self).misses() == bumped(old(self).misses()) && final(
                self).hits() == old(self).hits(),
            final(self).max() == old(self).max(),
            final(self).listening() == old(self).listening(),
            final(self).evicted() == old(self).evicted(),
    {
        if self.l_map.contains_key(k) {
            self.hit_count = self.hit_count.saturating_add(1);
        } else {
            self.miss_count = self.miss_count.saturating_add(1);
        }
        self.l_map.get(k)
    }

    /// The value under `k`, with no effect on order or counters.
    pub fn peek(&self, k: &K) -> (r: Option<&V>)
        requires
            self.wf(),
        ensures
            r.is_some() == has_key(self@, *k),
            r.is_some() ==> Some(*r.unwrap()) == value_of(self@, *k),
    {
        self.l_map.get(k)
    }

    /// Drops the entry of `k`, returning its value; no listener is told.
    pub fn remove(&mut self, k: &K) -> (r: Option<V>)
        requires
            old(self).wf(),
        ensures
            final(self).wf(),
            final(self)@ == without_key(old(self)@, *k),
            r == value_of(old(self)@, *k),
            final(self).max() == old(self).max(),
            final(self).listening() == old(self).listening(),
            final(self).hits() == old(self).hits(),
            final(self).misses() == old(self).misses(),
            final(self).evicted() == old(self).evicted(),
    {
        let r = self.l_map.remove(k);
        proof {
            crate::map::lemma_without_key_len(old(self)@, *k);
        }
        r
    }

    /// Drops the entry of `k`, returning its key and value.
    pub fn remove_entry(&mut self, k: &K) -> (r: Option<(K, V)>)
        requires
            old(self).wf(),
        ensures
            final(self).wf(),
            final(self)@ == without_key(old(self)@, *k),
            r.is_some() == has_key(old(self)@, *k),
            r.is_some() ==> r.unwrap() == (*k, value_of(old(self)@, *k).unwrap()),
            final(self).max() == old(self).max(),
            final(self).listening() == old(self).listening(),
            final(self).hits() == old(self).hits(),
            final(self).misses() == old(self).misses(),
            final(self).evicted() == old(self).evicted(),
    {
        let r = self.l_map.remove_entry(k);
        proof {
            crate::map::lemma_without_key_len(old(self)@, *k);
        }
        r
    }

    /// Stores `v` under `k`. A present key keeps its place and its old
    /// value is returned; a new key goes in front, after the oldest entry
    /// is evicted if the cache is full.
    pub fn add(&mut self, k: K, v: V) -> (r: Option<V>)
        requires
            old(self).wf(),
        ensures
            final(self).wf(),
            r == value_of(old(self)@, k),
            has_key(old(self)@, k) ==> final(self)@ == with_value(old(self)@, k, v)
                && final(self).evicted() == old(self).evicted(),
            has_key(old(self)@, k) ==> final(self)@.len() == old(self)@.len() && forall|i: int|
                0 <= i < old(self)@.len() ==> (#[trigger] final(self)@[i]).0 == old(self)@[i].0,
            !has_key(old(self)@, k) && old(self)@.len() < old(self).max() ==> final(self)@ == seq![
                (k, v)] + old(self)@ && final(self).evicted() == old(self).evicted(),
            !has_key(old(self)@, k) && old(self)@.len() == old(self).max() ==> final(self)@ == seq![
                (k, v)] + old(self)@.drop_last() && final(self).evicted() == old(self).evicted().push(old(self)@.last()),
            final(self).max() == old(self).max(),
            final(self).listening() == old(self).listening(),
            final(self).hits() == old(self).hits(),
            final(self).misses() == old(self).misses(),
    {
        match self.l_map.get_mut(&k) {
            Some(val) => {
                let mut v = v;
                std::mem::swap(val, &mut v);
                return Some(v);
            },
            None => {},
        }
        if self.l_map.len() >= self.max_size {
            match self.l_map.pop_back() {
                Some((ek, ev)) => {
                    self.callback.fire(ek, ev);
                },
                None => {},
            }
        }
        self.l_map.push_front(k, v);
        proof {
            if !has_key(old(self)@, k) && old(self)@.len() == old(self).max() {
                assert(!has_key(old(self)@.drop_last(), k)) by {
                    if has_key(old(self)@.drop_last(), k) {
                        let j = choose|j: int|
                            0 <= j < old(self)@.drop_last().len() && (#[trigger] old(
                                self,
                            )@.drop_last()[j]).0 == k;
                        assert(old(self)@[j].0 == k);
                    }
                }
            }
        }
        None
    }

    /// The number of cached entries.
    pub fn len(&self) -> (r: usize)
        requires
            self.wf(),
        ensures
            r == self@.len(),
    {
        self.l_map.len()
    }

    /// Drops every entry; no listener is told.
    pub fn purge(&mut self)
        requires
            old(self).wf(),
        ensures
            final(self).wf(),
            final(self)@ == Seq::<(K, V)>::empty(),
            final(self).max() == old(self).max(),
            final(self).listening() == old(self).listening(),
            final(self).hits() == old(self).hits(),
            final(self).misses() == old(self).misses(),
            final(self).evicted() == old(self).evicted(),
    {
        self.l_map.clear()
    }

    /// Whether the cache holds no entry.
    pub fn is_empty(&self) -> (r: bool)
        requires
            self.wf(),
        ensures
            r == (self@.len() == 0),
    {
        self.l_map.is_empty()
    }

    /// Releases memory held for entries that have left.
    pub fn shrink_to_fit(&mut self)
        requires
            old(self).wf(),
        ensures
            final(self).wf(),
            final(self)@ == old(self)@,
            final(self).max() == old(self).max(),
            final(self).listening() == old(self).listening(),
            final(self).hits() == old(self).hits(),
            final(self).misses() == old(self).misses(),
            final(self).evicted() == old(self).evicted(),
            final(self).free_slots() == 0,
    {
        self.l_map.shrink_to_fit();
    }

    /// The hit and miss counters.
    pub fn stat(&self) -> (r: Info)
        ensures
            r.hit_count == self.hits(),
            r.miss_count == self.misses(),
    {
        Info { hit_count: self.hit_count, miss_count: self.miss_count }
    }
}

/// A cache that is well formed holds at most `max_size` entries; every
/// operation keeps it well formed.
pub proof fn law_bounded<K: Copy + Hash + Eq, V, S: BuildHasher>(c: &Cache<K, V, S>)
    requires
        c.wf(),
    ensures
        c@.len() <= c.max(),
{
}

/// The entries of a well-formed cache have distinct keys.
pub proof fn law_keys_unique<K: Copy + Hash + Eq, V, S: BuildHasher>(c: &Cache<K, V, S>)
    requires
        c.wf(),
    ensures
        unique_keys(c@),
{
    c.l_map.lemma_keys_unique();
}

} // verus!
