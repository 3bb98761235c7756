//! A segmented LRU cache: new entries wait in a probationary segment, and a
//! second touch promotes them to a protected segment. Promotion into a full
//! protected segment demotes its coldest entry back to probation.
use std::collections::hash_map::RandomState;
use std::hash::{BuildHasher, Hash};
use vstd::prelude::*;
use vstd::std_specs::hash::{builds_valid_hashers, obeys_key_model};

use crate::evict::Callback;
use crate::fifo::bumped;
pub use crate::fifo::Info;
use crate::map::{
    has_key, lemma_cons_keys, lemma_drop_last_keys, lemma_put_front_len, lemma_value_of_put_front,
    lemma_without_key_absent, lemma_without_key_len, lemma_without_keys, put_front, unique_keys,
    value_of, without_key, LinkedHashMap,
};

verus! {

broadcast use vstd::std_specs::hash::group_hash_axioms;

/// No key is in both `a` and `b`.
pub open spec fn disjoint<K, V>(a: Seq<(K, V)>, b: Seq<(K, V)>) -> bool {
    forall|k: K| !(#[trigger] has_key(a, k) && has_key(b, k))
}

/// The protected segment's bound, taken as at least one.
pub open spec fn main_room(max_size_main: nat) -> nat {
    if max_size_main == 0 {
        1
    } else {
        max_size_main
    }
}

/// Limits under which the cache never holds more than `max_size` entries.
pub open spec fn sound_limits(max_size: nat, max_size_in: nat, max_size_main: nat) -> bool {
    &&& max_size >= 2
    &&& max_size_in + main_room(max_size_main) <= max_size
    &&& main_room(max_size_main) < max_size
}

/// The segments after making room for one entry (`promoted`: one about to
/// enter the protected segment), and the entries evicted: first a
/// full protected segment demotes its back entry to the front of probation;
/// then, if the cache is full, probation evicts its back entry when it is
/// over its bound, or at it and nothing is being promoted.
pub open spec fn make_room<K, V>(
    probation: Seq<(K, V)>,
    protected: Seq<(K, V)>,
    max_size: nat,
    max_size_in: nat,
    max_size_main: nat,
    promoted: bool,
) -> (Seq<(K, V)>, Seq<(K, V)>, Seq<(K, V)>) {
    let demote = promoted && protected.len() >= max_size_main && protected.len() > 0;
    let in1 = if demote {
        seq![protected.last()] + probation
    } else {
        probation
    };
    let main1 = if demote {
        protected.drop_last()
    } else {
        protected
    };
    let evict = in1.len() + main1.len() >= max_size && in1.len() > 0 && (in1.len() > max_size_in
        || (in1.len() == max_size_in && !promoted));
    let in2 = if evict {
        in1.drop_last()
    } else {
        in1
    };
    (in2, main1, if evict {
        seq![in1.last()]
    } else {
        Seq::empty()
    })
}

/// A segmented LRU cache of at most `max_size` entries.
#[verifier::reject_recursive_types(K)]
#[verifier::reject_recursive_types(V)]
#[verifier::reject_recursive_types(S)]
pub struct Cache<K, V, S = RandomState> {
    max_size: usize,
    max_size_in: usize,
    max_size_main: usize,
    hit_count: usize,
    miss_count: usize,
    callback: Callback<K, V>,
    in_: LinkedHashMap<K, V, S>,
    main: LinkedHashMap<K, V, S>,
}

impl<K: Copy + Hash + Eq, V> Cache<K, V, RandomState> {
    /// An empty cache of `size` entries (at least two), three quarters of
    /// them protected.
    pub fn new(size: usize) -> (r: Self)
        requires
            obeys_key_model::<K>(),
        ensures
            r.wf(),
            r.probation() == Seq::<(K, V)>::empty(),
            r.protected() == Seq::<(K, V)>::empty(),
            r.max() == if size < 2 { 2 } else { size },
            r.max_in() == r.max() / 4,
            r.max_main() == r.max() * 3 / 4,
            r.hits() == 0 && r.misses() == 0,
            r.evicted() == Seq::<(K, V)>::empty() && !r.listening(),
    {
        Cache::with_hasher(size, RandomState::new())
    }
}

impl<K: Copy + Hash + Eq, V, S: BuildHasher + Clone> Cache<K, V, S> {
    pub closed spec fn max(&self) -> nat {
        self.max_size as nat
    }

    /// The probationary segment's bound.
    pub closed spec fn max_in(&self) -> nat {
        self.max_size_in as nat
    }

    /// The protected segment's bound.
    pub closed spec fn max_main(&self) -> nat {
        self.max_size_main as nat
    }

    /// The probationary entries, most recent first.
    pub closed spec fn probation(&self) -> Seq<(K, V)> {
        self.in_@
    }

    /// The protected entries, most recent first.
    pub closed spec fn protected(&self) -> Seq<(K, V)> {
        self.main@
    }

    pub closed spec fn hits(&self) -> usize {
        self.hit_count
    }

    pub closed spec fn misses(&self) -> usize {
        self.miss_count
    }

    /// Every entry dropped to make room, oldest first; each was handed to
    /// the eviction listener installed at the time, if any.
    pub closed spec fn evicted(&self) -> Seq<(K, V)> {
        self.callback.handed()
    }

    /// Whether an eviction listener is installed.
    pub closed spec fn listening(&self) -> bool {
        self.callback.installed()
    }

    /// Slots that entries left and that the segments still hold for reuse.
    pub closed spec fn free_slots(&self) -> nat {
        self.in_.free_len() + self.main.free_len()
    }

    /// Both segments are well formed and share no key, and the limits are
    /// kept.
    pub closed spec fn wf(&self) -> bool {
        &&& self.in_.wf()
        &&& self.main.wf()
        &&& disjoint(self.in_@, self.main@)
        &&& sound_limits(self.max(), self.max_in(), self.max_main())
        &&& self.in_@.len() + self.main@.len() <= self.max_size
        &&& self.main@.len() <= main_room(self.max_main())
    }

    /// An empty cache of `size` entries (at least two), three quarters of
    /// them protected, that hashes with `hash_builder`.
    pub fn with_hasher(size: usize, hash_builder: S) -> (r: Self)
        requires
            obeys_key_model::<K>(),
            builds_valid_hashers::<S>(),
        ensures
            r.wf(),
            r.probation() == Seq::<(K, V)>::empty(),
            r.protected() == Seq::<(K, V)>::empty(),
            r.max() == if size < 2 { 2 } else { size },
            r.max_in() == r.max() / 4,
            r.max_main() == r.max() * 3 / 4,
            r.hits() == 0 && r.misses() == 0,
            r.evicted() == Seq::<(K, V)>::empty() && !r.listening(),
    {
        let max_size: usize = if size < 2 { 2 } else { size };
        let max_size_in: usize = max_size / 4;
        let max_size_main: usize = max_size / 4 * 3 + max_size % 4 * 3 / 4;
        assert(max_size_main == max_size * 3 / 4) by (nonlinear_arith)
            requires
                max_size_main == max_size / 4 * 3 + max_size % 4 * 3 / 4,
        ;
        Cache::with_limits_and_hasher(max_size, max_size_in, max_size_main, hash_builder)
    }

    /// An empty cache with the given bounds on the whole and on each
    /// segment.
    pub fn with_limits_and_hasher(
        max_size: usize,
        max_size_in: usize,
        max_size_main: usize,
        hash_builder: S,
    ) -> (r: Self)
        requires
            obeys_key_model::<K>(),
            builds_valid_hashers::<S>(),
            sound_limits(max_size as nat, max_size_in as nat, max_size_main as nat),
        ensures
            r.wf(),
            r.probation() == Seq::<(K, V)>::empty(),
            r.protected() == Seq::<(K, V)>::empty(),
            r.max() == max_size,
            r.max_in() == max_size_in,
            r.max_main() == max_size_main,
            r.hits() == 0 && r.misses() == 0,
            r.evicted() == Seq::<(K, V)>::empty() && !r.listening(),
    {
        Cache {
            max_size,
            max_size_in,
            max_size_main,
            hit_count: 0,
            miss_count: 0,
            callback: Callback::none(),
            in_: LinkedHashMap::with_capacity_and_hasher(max_size_in, hash_builder.clone()),
            main: LinkedHashMap::with_capacity_and_hasher(max_size_main, hash_builder),
        }
    }
}

impl<K: Copy + Hash + Eq, V, S: BuildHasher + Clone> Cache<K, V, S> {
    /// The segments' maps are well formed and share no key.
    closed spec fn parts_ok(&self) -> bool {
        &&& self.in_.wf()
        &&& self.main.wf()
        &&& disjoint(self.in_@, self.main@)
        &&& sound_limits(self.max(), self.max_in(), self.max_main())
    }

    /// Makes room for one entry, demoting and evicting as `make_room` says.
    fn ensure_space(&mut self, promoted: bool)
        requires
            old(self).parts_ok(),
            old(self).in_@.len() + old(self).main@.len() + (if promoted {
                1int
            } else {
                0int
            }) <= old(self).max_size,
            old(self).main@.len() <= main_room(old(self).max_main()),
        ensures
            final(self).parts_ok(),
            (final(self).in_@, final(self).main@, make_room(
                old(self).in_@,
                old(self).main@,
                old(self).max(),
                old(self).max_in(),
                old(self).max_main(),
                promoted,
            ).2) == make_room(
                old(self).in_@,
                old(self).main@,
                old(self).max(),
                old(self).max_in(),
                old(self).max_main(),
                promoted,
            ),
            final(self).callback.handed() == old(self).callback.handed() + make_room(
                old(self).in_@,
                old(self).main@,
                old(self).max(),
                old(self).max_in(),
                old(self).max_main(),
                promoted,
            ).2,
            final(self).callback.installed() == old(self).callback.installed(),
            final(self).in_@.len() + final(self).main@.len() < final(self).max_size,
            final(self).main@.len() + (if promoted {
                1int
            } else {
                0int
            }) <= main_room(final(self).max_main()),
            forall|k: K|
                has_key(final(self).in_@, k) || has_key(final(self).main@, k) ==> #[trigger] has_key(
                    old(self).in_@,
                    k,
                ) || #[trigger] has_key(old(self).main@, k),
            final(self).max_size == old(self).max_size,
            final(self).max_size_in == old(self).max_size_in,
            final(self).max_size_main == old(self).max_size_main,
            final(self).hit_count == old(self).hit_count,
            final(self).miss_count == old(self).miss_count,
    {
        let ghost in0 = self.in_@;
        let ghost main0 = self.main@;
        proof {
            self.in_.lemma_keys_unique();
            self.main.lemma_keys_unique();
        }
        if promoted && self.main.len() >= self.max_size_main {
            match self.main.pop_back() {
                Some((k, v)) => {
                    proof {
                        lemma_drop_last_keys(main0);
                        assert(has_key(main0, k)) by {
                            assert(main0[main0.len() - 1].0 == k);
                        }
                        lemma_put_front_len(in0, k, v);
                        lemma_cons_keys((k, v), in0);
                    }
                    self.in_.push_front(k, v);
                },
                None => {},
            }
        }
        let ghost in1 = self.in_@;
        let ghost main1 = self.main@;
        let in_len = self.in_.len();
        let main_len = self.main.len();
        if in_len + main_len < self.max_size {
            return ;
        }
        if in_len > 0 && (in_len > self.max_size_in || (in_len == self.max_size_in && !promoted)) {
            match self.in_.pop_back() {
                Some((k, v)) => {
                    self.callback.fire(k, v);
                },
                None => {},
            }
            proof {
                lemma_drop_last_keys(in1);
            }
        }
    }

    /// Whether `key` is cached, in either segment.
    pub fn contains_key(&self, key: &K) -> (r: bool)
        requires
            self.wf(),
        ensures
            r == (has_key(self.protected(), *key) || has_key(self.probation(), *key)),
    {
        self.main.contains_key(key) || self.in_.contains_key(key)
    }

    /// Installs the listener for entries evicted to make room, replacing
    /// any earlier one.
    pub fn set_eviction_callback<C: Fn(K, V) + 'static>(&mut self, cb: C)
        requires
            old(self).wf(),
        ensures
            final(self).wf(),
            final(self).probation() == old(self).probation(),
            final(self).protected() == old(self).protected(),
            final(self).max() == old(self).max(),
            final(self).listening(),
            final(self).max_in() == old(self).max_in(),
            final(self).max_main() == old(self).max_main(),
            final(self).hits() == old(self).hits(),
            final(self).misses() == old(self).misses(),
            final(self).evicted() == old(self).evicted(),
    {
        self.callback.set(cb);
    }

    /// Stores `value` under `key`. A protected key is updated and moved to
    /// the front, returning the old value; a probationary key is promoted
    /// to the front of the protected segment; a new key enters probation.
    /// Both of the latter make room first and return `None`.
    pub fn add(&mut self, key: K, value: V) -> (r: Option<V>)
        requires
            old(self).wf(),
        ensures
            final(self).wf(),
            has_key(old(self).protected(), key) ==> r == value_of(old(self).protected(), key)
                && final(self).protected() == put_front(old(self).protected(), key, value)
                && final(self).probation() == old(self).probation() && final(self).evicted() == old(self).evicted(),
            !has_key(old(self).protected(), key) ==> r is None,
            !has_key(old(self).protected(), key) && has_key(old(self).probation(), key) ==> ({
                let room = make_room(
                    without_key(old(self).probation(), key),
                    old(self).protected(),
                    old(self).max(),
                    old(self).max_in(),
                    old(self).max_main(),
                    true,
                );
                &&& final(self).probation() == room.0
                &&& final(self).protected() == seq![(key, value)] + room.1
                &&& final(self).evicted() == old(self).evicted() + room.2
            }),
            !has_key(old(self).protected(), key) && !has_key(old(self).probation(), key) ==> ({
                let room = make_room(
                    old(self).probation(),
                    old(self).protected(),
                    old(self).max(),
                    old(self).max_in(),
                    old(self).max_main(),
                    false,
                );
                &&& final(self).probation() == seq![(key, value)] + room.0
                &&& final(self).protected() == room.1
                &&& final(self).evicted() == old(self).evicted() + room.2
            }),
            final(self).max() == old(self).max(),
            final(self).listening() == old(self).listening(),
            final(self).max_in() == old(self).max_in(),
            final(self).max_main() == old(self).max_main(),
            final(self).hits() == old(self).hits(),
            final(self).misses() == old(self).misses(),
    {
        proof {
            self.in_.lemma_keys_unique();
            self.main.lemma_keys_unique();
        }
        if self.main.contains_key(&key) {
            proof {
                lemma_put_front_len(self.main@, key, value);
                lemma_without_keys(self.main@, key);
                lemma_cons_keys((key, value), without_key(self.main@, key));
            }
            return self.main.push_front(key, value);
        }
        match self.in_.remove(&key) {
            Some(_) => {
                proof {
                    lemma_without_key_len(old(self).in_@, key);
                    lemma_without_keys(old(self).in_@, key);
                    lemma_without_key_absent(old(self).in_@, key);
                }
                self.ensure_space(true);
                proof {
                    assert(!has_key(self.main@, key));
                    assert(!has_key(self.in_@, key));
                    lemma_put_front_len(self.main@, key, value);
                    lemma_cons_keys((key, value), self.main@);
                }
                self.main.push_front(key, value);
                None
            },
            None => {
                self.ensure_space(false);
                proof {
                    assert(!has_key(self.main@, key));
                    assert(!has_key(self.in_@, key));
                    lemma_put_front_len(self.in_@, key, value);
                    lemma_cons_keys((key, value), self.in_@);
                }
                self.in_.push_front(key, value);
                None
            },
        }
    }
}

impl<K: Copy + Hash + Eq, V, S: BuildHasher + Clone> Cache<K, V, S> {
    /// The value under `key`, counted as a hit or a miss. A protected hit
    /// moves to the front; a probationary hit is promoted to the front of
    /// the protected segment after room is made.
    pub fn get(&mut self, key: &K) -> (r: Option<&V>)
        requires
            old(self).wf(),
        ensures
            final(self).wf(),
            r.is_some() == (has_key(old(self).protected(), *key) || has_key(
                old(self).probation(),
                *key,
            )),
            has_key(old(self).protected(), *key) ==> Some(*r.unwrap()) == value_of(
                old(self).protected(),
                *key,
            ) && final(self).protected() == put_front(
                old(self).protected(),
                *key,
                value_of(old(self).protected(), *key).unwrap(),
            ) && final(self).probation() == old(self).probation() && final(self).evicted() == old(self).evicted(),
            !has_key(old(self).protected(), *key) && has_key(old(self).probation(), *key) ==> ({
                let room = make_room(
                    without_key(old(self).probation(), *key),
                    old(self).protected(),
                    old(self).max(),
                    old(self).max_in(),
                    old(self).max_main(),
                    true,
                );
                let v = value_of(old(self).probation(), *key).unwrap();
                &&& *r.unwrap() == v
                &&& final(self).probation() == room.0
                &&& final(self).protected() == seq![(*key, v)] + room.1
                &&& final(self).evicted() == old(self).evicted() + room.2
            }),
            r.is_none() ==> final(self).probation() == old(self).probation() && final(
                self).protected() == old(self).protected() && final(self).evicted() == old(self).evicted(),
            r.is_some() ==> final(self).hits() == bumped(old(self).hits()) && final(self).misses()
                == old(self).misses(),
            r.is_none() ==> final(self).misses() == bumped(old(self).misses()) && final(
                self).hits() == old(self).hits(),
            final(self).max() == old(self).max(),
            final(self).listening() == old(self).listening(),
            final(self).max_in() == old(self).max_in(),
            final(self).max_main() == old(self).max_main(),
    {
        proof {
            self.in_.lemma_keys_unique();
            self.main.lemma_keys_unique();
        }
        if self.main.move_to_front(key) {
            self.hit_count = self.hit_count.saturating_add(1);
            proof {
                let v = value_of(old(self).main@, *key).unwrap();
                lemma_put_front_len(old(self).main@, *key, v);
                lemma_value_of_put_front(old(self).main@, *key, v);
                lemma_without_keys(old(self).main@, *key);
                lemma_cons_keys((*key, v), without_key(old(self).main@, *key));
            }
            return self.main.get(key);
        }
        match self.in_.remove_entry(key) {
            Some((k, v)) => {
                self.hit_count = self.hit_count.saturating_add(1);
                proof {
                    lemma_without_key_len(old(self).in_@, *key);
                    lemma_without_keys(old(self).in_@, *key);
                    lemma_without_key_absent(old(self).in_@, *key);
                }
                self.ensure_space(true);
                proof {
                    assert(!has_key(self.main@, k));
                    assert(!has_key(self.in_@, k));
                    lemma_put_front_len(self.main@, k, v);
                    lemma_cons_keys((k, v), self.main@);
                    self.main.lemma_keys_unique();
                    lemma_value_of_put_front(self.main@, k, v);
                }
                self.main.push_front(k, v);
                self.main.get(key)
            },
            None => {
                self.miss_count = self.miss_count.saturating_add(1);
                None
            },
        }
    }

    /// Drops the entry of `key` from whichever segment holds it; no
    /// listener is told.
    pub fn remove(&mut self, key: &K) -> (r: bool)
        requires
            old(self).wf(),
        ensures
            final(self).wf(),
            r == (has_key(old(self).protected(), *key) || has_key(old(self).probation(), *key)),
            final(self).protected() == without_key(old(self).protected(), *key),
            final(self).probation() == if has_key(old(self).protected(), *key) {
                old(self).probation()
            } else {
                without_key(old(self).probation(), *key)
            },
            final(self).max() == old(self).max(),
            final(self).listening() == old(self).listening(),
            final(self).max_in() == old(self).max_in(),
            final(self).max_main() == old(self).max_main(),
            final(self).hits() == old(self).hits(),
            final(self).misses() == old(self).misses(),
            final(self).evicted() == old(self).evicted(),
    {
        proof {
            lemma_without_key_len(old(self).main@, *key);
            lemma_without_keys(old(self).main@, *key);
            lemma_without_key_len(old(self).in_@, *key);
            lemma_without_keys(old(self).in_@, *key);
        }
        match self.main.remove(key) {
            Some(_) => true,
            None => self.in_.remove(key).is_some(),
        }
    }

    /// Drops every entry; no listener is told.
    pub fn purge(&mut self)
        requires
            old(self).wf(),
        ensures
            final(self).wf(),
            final(self).probation() == Seq::<(K, V)>::empty(),
            final(self).protected() == Seq::<(K, V)>::empty(),
            final(self).max() == old(self).max(),
            final(self).listening() == old(self).listening(),
            final(self).max_in() == old(self).max_in(),
            final(self).max_main() == old(self).max_main(),
            final(self).hits() == old(self).hits(),
            final(self).misses() == old(self).misses(),
            final(self).evicted() == old(self).evicted(),
    {
        self.main.clear();
        self.in_.clear();
    }

    /// The number of cached entries, in both segments.
    pub fn len(&self) -> (r: usize)
        requires
            self.wf(),
        ensures
            r == self.probation().len() + self.protected().len(),
    {
        self.main.len() + self.in_.len()
    }

    /// Whether the cache holds no entry.
    pub fn is_empty(&self) -> (r: bool)
        requires
            self.wf(),
        ensures
            r == (self.probation().len() + self.protected().len() == 0),
    {
        self.main.is_empty() && self.in_.is_empty()
    }

    /// The value under `key`, with no effect on order or counters.
    pub fn peek(&self, key: &K) -> (r: Option<&V>)
        requires
            self.wf(),
        ensures
            r.is_some() == (has_key(self.protected(), *key) || has_key(self.probation(), *key)),
            has_key(self.protected(), *key) ==> Some(*r.unwrap()) == value_of(
                self.protected(),
                *key,
            ),
            !has_key(self.protected(), *key) && has_key(self.probation(), *key) ==> Some(
                *r.unwrap(),
            ) == value_of(self.probation(), *key),
    {
        match self.main.get(key) {
            Some(v) => Some(v),
            None => self.in_.get(key),
        }
    }

    /// Releases memory held for entries that have left.
    pub fn shrink_to_fit(&mut self)
        requires
            old(self).wf(),
        ensures
            final(self).wf(),
            final(self).probation() == old(self).probation(),
            final(self).protected() == old(self).protected(),
            final(self).max() == old(self).max(),
            final(self).listening() == old(self).listening(),
            final(self).max_in() == old(self).max_in(),
            final(self).max_main() == old(self).max_main(),
            final(self).hits() == old(self).hits(),
            final(self).misses() == old(self).misses(),
            final(self).evicted() == old(self).evicted(),
            final(self).free_slots() == 0,
    {
        self.in_.shrink_to_fit();
        self.main.shrink_to_fit();
    }

    /// The hit and miss counters.
    pub fn stat(&self) -> (r: Info)
        ensures
            r.hit_count == self.hits(),
            r.miss_count == self.misses(),
    {
        Info { hit_count: self.hit_count, miss_count: self.miss_count }
    }

    /// The number of probationary entries.
    pub fn probation_len(&self) -> (r: usize)
        requires
            self.wf(),
        ensures
            r == self.probation().len(),
    {
        self.in_.len()
    }

    /// The number of protected entries.
    pub fn protected_len(&self) -> (r: usize)
        requires
            self.wf(),
        ensures
            r == self.protected().len(),
    {
        self.main.len()
    }

    /// The most recent probationary entry.
    pub fn probation_front(&self) -> (r: Option<(&K, &V)>)
        requires
            self.wf(),
        ensures
            r.is_some() == (self.probation().len() > 0),
            r.is_some() ==> (*r.unwrap().0, *r.unwrap().1) == self.probation()[0],
    {
        self.in_.front()
    }

    /// The most recent protected entry.
    pub fn protected_front(&self) -> (r: Option<(&K, &V)>)
        requires
            self.wf(),
        ensures
            r.is_some() == (self.protected().len() > 0),
            r.is_some() ==> (*r.unwrap().0, *r.unwrap().1) == self.protected()[0],
    {
        self.main.front()
    }

    /// The least recent protected entry.
    pub fn protected_back(&self) -> (r: Option<(&K, &V)>)
        requires
            self.wf(),
        ensures
            r.is_some() == (self.protected().len() > 0),
            r.is_some() ==> (*r.unwrap().0, *r.unwrap().1) == self.protected().last(),
    {
        self.main.back()
    }
}

/// A cache that is well formed holds at most `max_size` entries over both
/// segments, and so in each; every operation keeps it well formed.
pub proof fn law_bounded<K: Copy + Hash + Eq, V, S: BuildHasher + Clone>(c: &Cache<K, V, S>)
    requires
        c.wf(),
    ensures
        c.probation().len() + c.protected().len() <= c.max(),
        c.probation().len() <= c.max(),
        c.protected().len() <= c.max(),
        c.protected().len() <= main_room(c.max_main()),
{
}

/// The segments of a well-formed cache have distinct keys each, and share
/// none.
pub proof fn law_keys_unique<K: Copy + Hash + Eq, V, S: BuildHasher + Clone>(c: &Cache<K, V, S>)
    requires
        c.wf(),
    ensures
        unique_keys(c.probation()),
        unique_keys(c.protected()),
        disjoint(c.probation(), c.protected()),
{
    c.in_.lemma_keys_unique();
    c.main.lemma_keys_unique();
}

} // verus!
