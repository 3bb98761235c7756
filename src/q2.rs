//! A 2Q cache: new entries wait in an admission queue, a second touch moves
//! them to the main queue, and a bounded ghost list remembers fingerprints
//! of entries evicted from admission, so that such a key, added again, goes
//! straight to the main queue.
use std::collections::hash_map::RandomState;
use std::hash::{BuildHasher, Hash};
use vstd::prelude::*;
use vstd::std_specs::hash::{builds_valid_hashers, obeys_key_model};

use crate::evict::Callback;
use crate::fifo::bumped;
pub use crate::fifo::Info;
use crate::map::{
    has_key, unique_keys, lemma_cons_keys, lemma_drop_last_keys, lemma_put_front_len, lemma_value_of_put_front,
    lemma_without_key_absent, lemma_without_key_len, lemma_without_keys, put_front, value_of,
    without_key, LinkedHashMap,
};
use crate::slru::disjoint;

verus! {

broadcast use vstd::std_specs::hash::group_hash_axioms;

/// Relies on `BuildHasher::hash_one`: the 64-bit hash of `key`. Nothing is
/// stated of it, since a builder may seed its hashers afresh in each process.
#[verifier::external_body]
fn fingerprint<K: Hash, S: BuildHasher>(hash_builder: &S, key: &K) -> (r: u64) {
    hash_builder.hash_one(key)
}

/// The ghost list after `fp` is put in front, dropping its back entry first
/// when it is full.
pub open spec fn remember(out: Seq<(u64, ())>, max_size_out: nat, fp: u64) -> Seq<(u64, ())> {
    let out1 = if out.len() + 1 > max_size_out && out.len() > 0 {
        out.drop_last()
    } else {
        out
    };
    put_front(out1, fp, ())
}

/// The entry `o` holds, as a list of none or one.
pub open spec fn opt_seq<K, V>(o: Option<(K, V)>) -> Seq<(K, V)> {
    if o is Some {
        seq![o.unwrap()]
    } else {
        Seq::empty()
    }
}

/// The queues after making room for one entry (`recent`: one whose key was
/// found on the ghost list), the entries evicted, and whether the eviction
/// came from admission. When the cache is full, admission evicts its back
/// entry if it is over its bound, or at it and the entry is not a recent
/// eviction; else the main queue evicts its back entry.
pub open spec fn make_room<K, V>(
    admission: Seq<(K, V)>,
    main: Seq<(K, V)>,
    max_size: nat,
    max_size_in: nat,
    recent: bool,
) -> (Seq<(K, V)>, Seq<(K, V)>, Seq<(K, V)>, bool) {
    if admission.len() + main.len() < max_size {
        (admission, main, Seq::empty(), false)
    } else if admission.len() > 0 && (admission.len() > max_size_in || (admission.len()
        == max_size_in && !recent)) {
        (admission.drop_last(), main, seq![admission.last()], true)
    } else if main.len() > 0 {
        (admission, main.drop_last(), seq![main.last()], false)
    } else {
        (admission, main, Seq::empty(), false)
    }
}

/// The queues and ghost list after a key found in neither queue, with
/// fingerprint `fp`, is inserted; then the entries evicted, and whether
/// they came from admission. A key whose fingerprint is on the ghost list
/// leaves it and goes to the front of the main queue; any other key goes to
/// the front of admission. Room is made first either way.
pub open spec fn insert_outcome<K, V>(
    admission: Seq<(K, V)>,
    main: Seq<(K, V)>,
    out: Seq<(u64, ())>,
    max_size: nat,
    max_size_in: nat,
    key: K,
    value: V,
    fp: u64,
) -> (Seq<(K, V)>, Seq<(K, V)>, Seq<(u64, ())>, Seq<(K, V)>, bool) {
    let hit = has_key(out, fp);
    let room = make_room(admission, main, max_size, max_size_in, hit);
    if hit {
        (room.0, seq![(key, value)] + room.1, without_key(out, fp), room.2, room.3)
    } else {
        (seq![(key, value)] + room.0, room.1, without_key(out, fp), room.2, room.3)
    }
}

/// As `insert_outcome`, with the fingerprint `efp` of an entry evicted from
/// admission remembered on the ghost list: the queues, the ghost list and
/// the entries evicted.
pub open spec fn add_outcome<K, V>(
    admission: Seq<(K, V)>,
    main: Seq<(K, V)>,
    out: Seq<(u64, ())>,
    max_size: nat,
    max_size_in: nat,
    max_size_out: nat,
    key: K,
    value: V,
    fp: u64,
    efp: u64,
) -> (Seq<(K, V)>, Seq<(K, V)>, Seq<(u64, ())>, Seq<(K, V)>) {
    let o = insert_outcome(admission, main, out, max_size, max_size_in, key, value, fp);
    (o.0, o.1, if o.4 {
        remember(o.2, max_size_out, efp)
    } else {
        o.2
    }, o.3)
}

/// A 2Q cache of at most `max_size` entries.
#[verifier::reject_recursive_types(K)]
#[verifier::reject_recursive_types(V)]
#[verifier::reject_recursive_types(S)]
pub struct Cache<K, V, S = RandomState> {
    max_size: usize,
    max_size_in: usize,
    max_size_out: usize,
    hit_count: usize,
    miss_count: usize,
    hash_builder: S,
    callback: Callback<K, V>,
    in_: LinkedHashMap<K, V, S>,
    out: LinkedHashMap<u64, (), S>,
    main: LinkedHashMap<K, V, S>,
}

impl<K: Copy + Hash + Eq, V> Cache<K, V, RandomState> {
    /// An empty cache of `size` entries (at least two): a quarter for
    /// admission, and a ghost list of half as many fingerprints.
    pub fn new(size: usize) -> (r: Self)
        requires
            obeys_key_model::<K>(),
        ensures
            r.wf(),
            r.admission() == Seq::<(K, V)>::empty(),
            r.main_queue() == Seq::<(K, V)>::empty(),
            r.ghosts() == Seq::<(u64, ())>::empty(),
            r.max() == if size < 2 { 2 } else { size },
            r.max_in() == r.max() / 4,
            r.max_out() == r.max() / 2,
            r.hits() == 0 && r.misses() == 0,
            r.evicted() == Seq::<(K, V)>::empty() && !r.listening(),
    {
        Cache::with_hasher(size, RandomState::new())
    }
}

impl<K: Copy + Hash + Eq, V, S: BuildHasher + Clone> Cache<K, V, S> {
    pub closed spec fn max(&self) -> nat {
        self.max_size as nat
    }

    /// The admission queue's bound.
    pub closed spec fn max_in(&self) -> nat {
        self.max_size_in as nat
    }

    /// The ghost list's bound.
    pub closed spec fn max_out(&self) -> nat {
        self.max_size_out as nat
    }

    /// The admission queue, most recent first.
    pub closed spec fn admission(&self) -> Seq<(K, V)> {
        self.in_@
    }

    /// The main queue, most recent first.
    pub closed spec fn main_queue(&self) -> Seq<(K, V)> {
        self.main@
    }

    /// The fingerprints of recent evictions, most recent first.
    pub closed spec fn ghosts(&self) -> Seq<(u64, ())> {
        self.out@
    }

    pub closed spec fn hits(&self) -> usize {
        self.hit_count
    }

    pub closed spec fn misses(&self) -> usize {
        self.miss_count
    }

    /// Every entry dropped to make room, oldest first; each was handed to
    /// the eviction listener installed at the time, if any.
    pub closed spec fn evicted(&self) -> Seq<(K, V)> {
        self.callback.handed()
    }

    /// Whether an eviction listener is installed.
    pub closed spec fn listening(&self) -> bool {
        self.callback.installed()
    }

    /// Slots that entries left and that the three maps still hold for reuse.
    pub closed spec fn free_slots(&self) -> nat {
        self.in_.free_len() + self.main.free_len() + self.out.free_len()
    }

    /// The three maps are well formed, the queues share no key, and the
    /// cache holds at most `max_size` entries.
    pub closed spec fn wf(&self) -> bool {
        &&& self.in_.wf()
        &&& self.main.wf()
        &&& self.out.wf()
        &&& disjoint(self.in_@, self.main@)
        &&& self.max_size >= 2
        &&& self.max_size_in < self.max_size
        &&& self.in_@.len() + self.main@.len() <= self.max_size
    }

    /// An empty cache of `size` entries (at least two) that hashes with
    /// `hash_builder`: a quarter for admission, and a ghost list of half as
    /// many fingerprints.
    pub fn with_hasher(size: usize, hash_builder: S) -> (r: Self)
        requires
            obeys_key_model::<K>(),
            builds_valid_hashers::<S>(),
        ensures
            r.wf(),
            r.admission() == Seq::<(K, V)>::empty(),
            r.main_queue() == Seq::<(K, V)>::empty(),
            r.ghosts() == Seq::<(u64, ())>::empty(),
            r.max() == if size < 2 { 2 } else { size },
            r.max_in() == r.max() / 4,
            r.max_out() == r.max() / 2,
            r.hits() == 0 && r.misses() == 0,
            r.evicted() == Seq::<(K, V)>::empty() && !r.listening(),
    {
        let max_size: usize = if size < 2 { 2 } else { size };
        let max_size_main: usize = max_size / 4 * 3 + max_size % 4 * 3 / 4;
        Cache::with_limits_and_hasher(
            max_size,
            max_size / 4,
            max_size_main,
            max_size / 2,
            hash_builder,
        )
    }

    /// An empty cache with the given bounds on the whole, on admission and
    /// on the ghost list; `max_size_main` sizes the main queue's index.
    pub fn with_limits_and_hasher(
        max_size: usize,
        max_size_in: usize,
        max_size_main: usize,
        max_size_out: usize,
        hash_builder: S,
    ) -> (r: Self)
        requires
            obeys_key_model::<K>(),
            builds_valid_hashers::<S>(),
            max_size >= 2,
            max_size_in < max_size,
        ensures
            r.wf(),
            r.admission() == Seq::<(K, V)>::empty(),
            r.main_queue() == Seq::<(K, V)>::empty(),
            r.ghosts() == Seq::<(u64, ())>::empty(),
            r.max() == max_size,
            r.max_in() == max_size_in,
            r.max_out() == max_size_out,
            r.hits() == 0 && r.misses() == 0,
            r.evicted() == Seq::<(K, V)>::empty() && !r.listening(),
    {
        Cache {
            max_size,
            max_size_in,
            max_size_out,
            hit_count: 0,
            miss_count: 0,
            hash_builder: hash_builder.clone(),
            callback: Callback::none(),
            in_: LinkedHashMap::with_capacity_and_hasher(max_size_in, hash_builder.clone()),
            out: LinkedHashMap::with_capacity_and_hasher(max_size_out, hash_builder.clone()),
            main: LinkedHashMap::with_capacity_and_hasher(max_size_main, hash_builder),
        }
    }
}

impl<K: Copy + Hash + Eq, V, S: BuildHasher + Clone> Cache<K, V, S> {
    /// Makes room for one entry as `make_room` says, handing back the entry
    /// evicted, if any, and whether it came from admission.
    fn make_space(&mut self, recent: bool) -> (r: (Option<(K, V)>, bool))
        requires
            old(self).wf(),
        ensures
            final(self).in_.wf(),
            final(self).main.wf(),
            disjoint(final(self).in_@, final(self).main@),
            final(self).in_@.len() + final(self).main@.len() < final(self).max_size,
            ({
                let room = make_room(
                    old(self).in_@,
                    old(self).main@,
                    old(self).max(),
                    old(self).max_in(),
                    recent,
                );
                &&& final(self).in_@ == room.0
                &&& final(self).main@ == room.1
                &&& opt_seq(r.0) == room.2
                &&& r.1 == room.3
            }),
            forall|k: K|
                has_key(final(self).in_@, k) || has_key(final(self).main@, k) ==> #[trigger] has_key(
                    old(self).in_@,
                    k,
                ) || #[trigger] has_key(old(self).main@, k),
            final(self).out == old(self).out,
            final(self).callback == old(self).callback,
            final(self).max_size == old(self).max_size,
            final(self).max_size_in == old(self).max_size_in,
            final(self).max_size_out == old(self).max_size_out,
            final(self).hit_count == old(self).hit_count,
            final(self).miss_count == old(self).miss_count,
    {
        proof {
            self.in_.lemma_keys_unique();
            self.main.lemma_keys_unique();
            if self.in_@.len() > 0 {
                lemma_drop_last_keys(self.in_@);
            }
            if self.main@.len() > 0 {
                lemma_drop_last_keys(self.main@);
            }
        }
        let in_len = self.in_.len();
        let main_len = self.main.len();
        if in_len + main_len < self.max_size {
            return (None, false);
        }
        if in_len > 0 && (in_len > self.max_size_in || (in_len == self.max_size_in && !recent)) {
            let e = self.in_.pop_back();
            (e, true)
        } else {
            let e = self.main.pop_back();
            (e, false)
        }
    }

    /// Puts `efp` at the front of the ghost list, first dropping its back
    /// entry when the list is full.
    pub fn remember(&mut self, efp: u64)
        requires
            old(self).wf(),
        ensures
            final(self).wf(),
            final(self).ghosts() == remember(old(self).ghosts(), old(self).max_out(), efp),
            final(self).admission() == old(self).admission(),
            final(self).main_queue() == old(self).main_queue(),
            final(self).evicted() == old(self).evicted(),
            final(self).max() == old(self).max(),
            final(self).listening() == old(self).listening(),
            final(self).max_in() == old(self).max_in(),
            final(self).max_out() == old(self).max_out(),
            final(self).hits() == old(self).hits(),
            final(self).misses() == old(self).misses(),
    {
        if self.out.len() >= self.max_size_out {
            let _ = self.out.pop_back();
        }
        let _ = self.out.push_front(efp, ());
    }

    /// Stores `value` under `key`, given `fp`, the fingerprint of `key`. A
    /// key in the main queue is updated and moved to its front; a key in
    /// admission moves to the front of the main queue; both return the value
    /// they held. Any other key is placed as `insert_outcome` says, and `None`
    /// is returned. The entry evicted to make room, if any, is handed back
    /// with whether it left admission, and is not yet passed to the listener.
    pub fn insert_hashed(&mut self, key: K, value: V, fp: u64) -> (r: (
        Option<V>,
        Option<(K, V)>,
        bool,
    ))
        requires
            old(self).wf(),
        ensures
            final(self).wf(),
            has_key(old(self).main_queue(), key) ==> r.0 == value_of(old(self).main_queue(), key)
                && r.1 is None && final(self).main_queue() == put_front(
                old(self).main_queue(),
                key,
                value,
            ) && final(self).admission() == old(self).admission() && final(self).ghosts()
                == old(self).ghosts(),
            !has_key(old(self).main_queue(), key) && has_key(old(self).admission(), key) ==> r.0
                == value_of(old(self).admission(), key) && r.1 is None && final(self).main_queue()
                == seq![(key, value)] + old(self).main_queue() && final(self).admission()
                == without_key(old(self).admission(), key) && final(self).ghosts() == old(
                self).ghosts(),
            !has_key(old(self).main_queue(), key) && !has_key(old(self).admission(), key) ==> ({
                let o = insert_outcome(
                    old(self).admission(),
                    old(self).main_queue(),
                    old(self).ghosts(),
                    old(self).max(),
                    old(self).max_in(),
                    key,
                    value,
                    fp,
                );
                &&& r.0 is None
                &&& final(self).admission() == o.0
                &&& final(self).main_queue() == o.1
                &&& final(self).ghosts() == o.2
                &&& opt_seq(r.1) == o.3
                &&& r.2 == o.4
            }),
            final(self).evicted() == old(self).evicted(),
            final(self).max() == old(self).max(),
            final(self).listening() == old(self).listening(),
            final(self).max_in() == old(self).max_in(),
            final(self).max_out() == old(self).max_out(),
            final(self).hits() == old(self).hits(),
            final(self).misses() == old(self).misses(),
    {
        proof {
            self.in_.lemma_keys_unique();
            self.main.lemma_keys_unique();
        }
        if self.main.contains_key(&key) {
            proof {
                lemma_put_front_len(self.main@, key, value);
                lemma_without_keys(self.main@, key);
                lemma_cons_keys((key, value), without_key(self.main@, key));
            }
            let r = self.main.push_front(key, value);
            return (r, None, false);
        }
        match self.in_.remove(&key) {
            Some(v) => {
                proof {
                    lemma_without_key_len(old(self).in_@, key);
                    lemma_without_keys(old(self).in_@, key);
                    lemma_without_key_absent(old(self).in_@, key);
                    lemma_put_front_len(self.main@, key, value);
                    lemma_cons_keys((key, value), self.main@);
                }
                self.main.push_front(key, value);
                return (Some(v), None, false);
            },
            None => {},
        }
        let hit = self.out.remove(&fp).is_some();
        let (ev, from_admission) = self.make_space(hit);
        proof {
            assert(!has_key(self.main@, key));
            assert(!has_key(self.in_@, key));
        }
        if hit {
            proof {
                lemma_put_front_len(self.main@, key, value);
                lemma_cons_keys((key, value), self.main@);
            }
            self.main.push_front(key, value);
        } else {
            proof {
                lemma_put_front_len(self.in_@, key, value);
                lemma_cons_keys((key, value), self.in_@);
            }
            self.in_.push_front(key, value);
        }
        (None, ev, from_admission)
    }

    /// Stores `value` under `key` as `insert_hashed` does with `key`'s
    /// fingerprint, remembers the fingerprint of an entry evicted from
    /// admission, and hands the evicted entry to the listener. For a key in
    /// neither queue, the outcome is `add_outcome` for some fingerprints: the
    /// hasher may be seeded afresh in each process, so they are not named.
    pub fn add(&mut self, key: K, value: V) -> (r: Option<V>)
        requires
            old(self).wf(),
        ensures
            final(self).wf(),
            has_key(old(self).main_queue(), key) ==> r == value_of(old(self).main_queue(), key)
                && final(self).main_queue() == put_front(old(self).main_queue(), key, value)
                && final(self).admission() == old(self).admission() && final(self).ghosts()
                == old(self).ghosts() && final(self).evicted() == old(self).evicted(),
            !has_key(old(self).main_queue(), key) && has_key(old(self).admission(), key) ==> r
                == value_of(old(self).admission(), key) && final(self).main_queue() == seq![
                (key, value)] + old(self).main_queue() && final(self).admission() == without_key(
                old(self).admission(),
                key,
            ) && final(self).ghosts() == old(self).ghosts() && final(self).evicted() == old(
                self).evicted(),
            !has_key(old(self).main_queue(), key) && !has_key(old(self).admission(), key) ==> r
                is None && exists|fp: u64, efp: u64|
                {
                    let o = #[trigger] add_outcome(
                        old(self).admission(),
                        old(self).main_queue(),
                        old(self).ghosts(),
                        old(self).max(),
                        old(self).max_in(),
                        old(self).max_out(),
                        key,
                        value,
                        fp,
                        efp,
                    );
                    &&& final(self).admission() == o.0
                    &&& final(self).main_queue() == o.1
                    &&& final(self).ghosts() == o.2
                    &&& final(self).evicted() == old(self).evicted() + o.3
                },
            final(self).max() == old(self).max(),
            final(self).listening() == old(self).listening(),
            final(self).max_in() == old(self).max_in(),
            final(self).max_out() == old(self).max_out(),
            final(self).hits() == old(self).hits(),
            final(self).misses() == old(self).misses(),
    {
        let fp = fingerprint(&self.hash_builder, &key);
        let (r, ev, from_admission) = self.insert_hashed(key, value, fp);
        let ghost mut efp: u64 = 0;
        match ev {
            Some((k, v)) => {
                if from_admission {
                    let e = fingerprint(&self.hash_builder, &k);
                    proof {
                        efp = e;
                    }
                    self.remember(e);
                }
                self.callback.fire(k, v);
            },
            None => {},
        }
        proof {
            if !has_key(old(self).main_queue(), key) && !has_key(old(self).admission(), key) {
                let o = add_outcome(
                    old(self).admission(),
                    old(self).main_queue(),
                    old(self).ghosts(),
                    old(self).max(),
                    old(self).max_in(),
                    old(self).max_out(),
                    key,
                    value,
                    fp,
                    efp,
                );
                assert(self.admission() == o.0 && self.main_queue() == o.1 && self.ghosts() == o.2
                    && self.evicted() == old(self).evicted() + o.3);
            } else {
                assert(self.evicted() =~= old(self).evicted());
            }
        }
        r
    }

    /// The value under `key`, counted as a hit or a miss. A hit in the main
    /// queue moves to its front; a hit in admission moves to the front of
    /// the main queue.
    pub fn get(&mut self, key: &K) -> (r: Option<&V>)
        requires
            old(self).wf(),
        ensures
            final(self).wf(),
            r.is_some() == (has_key(old(self).main_queue(), *key) || has_key(
                old(self).admission(),
                *key,
            )),
            has_key(old(self).main_queue(), *key) ==> Some(*r.unwrap()) == value_of(
                old(self).main_queue(),
                *key,
            ) && final(self).main_queue() == put_front(
                old(self).main_queue(),
                *key,
                value_of(old(self).main_queue(), *key).unwrap(),
            ) && final(self).admission() == old(self).admission(),
            !has_key(old(self).main_queue(), *key) && has_key(old(self).admission(), *key) ==> Some(
                *r.unwrap(),
            ) == value_of(old(self).admission(), *key) && final(self).main_queue() == seq![
                (*key, value_of(old(self).admission(), *key).unwrap())] + old(self).main_queue()
                && final(self).admission() == without_key(old(self).admission(), *key),
            r.is_none() ==> final(self).admission() == old(self).admission() && final(
                self).main_queue() == old(self).main_queue(),
            final(self).ghosts() == old(self).ghosts(),
            r.is_some() ==> final(self).hits() == bumped(old(self).hits()) && final(self).misses()
                == old(self).misses(),
            r.is_none() ==> final(self).misses() == bumped(old(self).misses()) && final(
                self).hits() == old(self).hits(),
            final(self).evicted() == old(self).evicted(),
            final(self).max() == old(self).max(),
            final(self).listening() == old(self).listening(),
            final(self).max_in() == old(self).max_in(),
            final(self).max_out() == old(self).max_out(),
    {
        proof {
            self.in_.lemma_keys_unique();
            self.main.lemma_keys_unique();
        }
        if self.main.move_to_front(key) {
            self.hit_count = self.hit_count.saturating_add(1);
            proof {
                let v = value_of(old(self).main@, *key).unwrap();
                lemma_put_front_len(old(self).main@, *key, v);
                lemma_value_of_put_front(old(self).main@, *key, v);
                lemma_without_keys(old(self).main@, *key);
                lemma_cons_keys((*key, v), without_key(old(self).main@, *key));
            }
            return self.main.get(key);
        }
        match self.in_.remove_entry(key) {
            Some((k, v)) => {
                self.hit_count = self.hit_count.saturating_add(1);
                proof {
                    lemma_without_key_len(old(self).in_@, *key);
                    lemma_without_keys(old(self).in_@, *key);
                    lemma_without_key_absent(old(self).in_@, *key);
                    lemma_put_front_len(self.main@, k, v);
                    lemma_cons_keys((k, v), self.main@);
                    lemma_value_of_put_front(self.main@, k, v);
                }
                self.main.push_front(k, v);
                self.main.get(key)
            },
            None => {
                self.miss_count = self.miss_count.saturating_add(1);
                None
            },
        }
    }

    /// Drops `fp` from the ghost list, and `key`'s entry from whichever
    /// queue holds it, returning the value; no listener is told.
    pub fn remove_hashed(&mut self, key: &K, fp: u64) -> (r: Option<V>)
        requires
            old(self).wf(),
        ensures
            final(self).wf(),
            final(self).ghosts() == without_key(old(self).ghosts(), fp),
            final(self).main_queue() == without_key(old(self).main_queue(), *key),
            final(self).admission() == if has_key(old(self).main_queue(), *key) {
                old(self).admission()
            } else {
                without_key(old(self).admission(), *key)
            },
            r == if has_key(old(self).main_queue(), *key) {
                value_of(old(self).main_queue(), *key)
            } else {
                value_of(old(self).admission(), *key)
            },
            final(self).evicted() == old(self).evicted(),
            final(self).max() == old(self).max(),
            final(self).listening() == old(self).listening(),
            final(self).max_in() == old(self).max_in(),
            final(self).max_out() == old(self).max_out(),
            final(self).hits() == old(self).hits(),
            final(self).misses() == old(self).misses(),
    {
        proof {
            lemma_without_key_len(old(self).main@, *key);
            lemma_without_keys(old(self).main@, *key);
            lemma_without_key_len(old(self).in_@, *key);
            lemma_without_keys(old(self).in_@, *key);
        }
        let _ = self.out.remove(&fp);
        match self.main.remove(key) {
            Some(v) => Some(v),
            None => self.in_.remove(key),
        }
    }

    /// As `remove_hashed` with `key`'s fingerprint, which is not named: the
    /// ghost list loses some fingerprint.
    pub fn remove(&mut self, key: &K) -> (r: Option<V>)
        requires
            old(self).wf(),
        ensures
            final(self).wf(),
            exists|fp: u64| final(self).ghosts() == #[trigger] without_key(old(self).ghosts(), fp),
            final(self).main_queue() == without_key(old(self).main_queue(), *key),
            final(self).admission() == if has_key(old(self).main_queue(), *key) {
                old(self).admission()
            } else {
                without_key(old(self).admission(), *key)
            },
            r == if has_key(old(self).main_queue(), *key) {
                value_of(old(self).main_queue(), *key)
            } else {
                value_of(old(self).admission(), *key)
            },
            final(self).evicted() == old(self).evicted(),
            final(self).max() == old(self).max(),
            final(self).listening() == old(self).listening(),
            final(self).max_in() == old(self).max_in(),
            final(self).max_out() == old(self).max_out(),
            final(self).hits() == old(self).hits(),
            final(self).misses() == old(self).misses(),
    {
        let fp = fingerprint(&self.hash_builder, key);
        self.remove_hashed(key, fp)
    }
}

impl<K: Copy + Hash + Eq, V, S: BuildHasher + Clone> Cache<K, V, S> {
    /// Whether `key` is cached, in either queue.
    pub fn contains_key(&self, key: &K) -> (r: bool)
        requires
            self.wf(),
        ensures
            r == (has_key(self.main_queue(), *key) || has_key(self.admission(), *key)),
    {
        self.main.contains_key(key) || self.in_.contains_key(key)
    }

    /// Installs the listener for entries evicted to make room, replacing
    /// any earlier one.
    pub fn set_eviction_callback<C: Fn(K, V) + 'static>(&mut self, cb: C)
        requires
            old(self).wf(),
        ensures
            final(self).wf(),
            final(self).admission() == old(self).admission(),
            final(self).main_queue() == old(self).main_queue(),
            final(self).ghosts() == old(self).ghosts(),
            final(self).max() == old(self).max(),
            final(self).listening(),
            final(self).max_in() == old(self).max_in(),
            final(self).max_out() == old(self).max_out(),
            final(self).hits() == old(self).hits(),
            final(self).misses() == old(self).misses(),
            final(self).evicted() == old(self).evicted(),
    {
        self.callback.set(cb);
    }

    /// Drops every entry and every remembered fingerprint; no listener is
    /// told.
    pub fn purge(&mut self)
        requires
            old(self).wf(),
        ensures
            final(self).wf(),
            final(self).admission() == Seq::<(K, V)>::empty(),
            final(self).main_queue() == Seq::<(K, V)>::empty(),
            final(self).ghosts() == Seq::<(u64, ())>::empty(),
            final(self).max() == old(self).max(),
            final(self).listening() == old(self).listening(),
            final(self).max_in() == old(self).max_in(),
            final(self).max_out() == old(self).max_out(),
            final(self).hits() == old(self).hits(),
            final(self).misses() == old(self).misses(),
            final(self).evicted() == old(self).evicted(),
    {
        self.main.clear();
        self.in_.clear();
        self.out.clear();
    }

    /// The number of cached entries, in both queues.
    pub fn len(&self) -> (r: usize)
        requires
            self.wf(),
        ensures
            r == self.admission().len() + self.main_queue().len(),
    {
        self.main.len() + self.in_.len()
    }

    /// Whether the cache holds no entry.
    pub fn is_empty(&self) -> (r: bool)
        requires
            self.wf(),
        ensures
            r == (self.admission().len() + self.main_queue().len() == 0),
    {
        self.main.is_empty() && self.in_.is_empty()
    }

    /// The value under `key`, with no effect on order or counters.
    pub fn peek(&self, key: &K) -> (r: Option<&V>)
        requires
            self.wf(),
        ensures
            r.is_some() == (has_key(self.main_queue(), *key) || has_key(self.admission(), *key)),
            has_key(self.main_queue(), *key) ==> Some(*r.unwrap()) == value_of(
                self.main_queue(),
                *key,
            ),
            !has_key(self.main_queue(), *key) && has_key(self.admission(), *key) ==> Some(
                *r.unwrap(),
            ) == value_of(self.admission(), *key),
    {
        match self.main.get(key) {
            Some(v) => Some(v),
            None => self.in_.get(key),
        }
    }

    /// Releases memory held for entries that have left.
    pub fn shrink_to_fit(&mut self)
        requires
            old(self).wf(),
        ensures
            final(self).wf(),
            final(self).admission() == old(self).admission(),
            final(self).main_queue() == old(self).main_queue(),
            final(self).ghosts() == old(self).ghosts(),
            final(self).max() == old(self).max(),
            final(self).listening() == old(self).listening(),
            final(self).max_in() == old(self).max_in(),
            final(self).max_out() == old(self).max_out(),
            final(self).hits() == old(self).hits(),
            final(self).misses() == old(self).misses(),
            final(self).evicted() == old(self).evicted(),
            final(self).free_slots() == 0,
    {
        self.in_.shrink_to_fit();
        self.out.shrink_to_fit();
        self.main.shrink_to_fit();
    }

    /// The hit and miss counters.
    pub fn stat(&self) -> (r: Info)
        ensures
            r.hit_count == self.hits(),
            r.miss_count == self.misses(),
    {
        Info { hit_count: self.hit_count, miss_count: self.miss_count }
    }

    /// The number of entries in admission.
    pub fn admission_len(&self) -> (r: usize)
        requires
            self.wf(),
        ensures
            r == self.admission().len(),
    {
        self.in_.len()
    }

    /// The number of entries in the main queue.
    pub fn main_len(&self) -> (r: usize)
        requires
            self.wf(),
        ensures
            r == self.main_queue().len(),
    {
        self.main.len()
    }

    /// The number of remembered fingerprints.
    pub fn ghost_len(&self) -> (r: usize)
        requires
            self.wf(),
        ensures
            r == self.ghosts().len(),
    {
        self.out.len()
    }
}

/// A cache that is well formed holds at most `max_size` entries over both
/// segments, and so in each; every operation keeps it well formed.
pub proof fn law_bounded<K: Copy + Hash + Eq, V, S: BuildHasher + Clone>(c: &Cache<K, V, S>)
    requires
        c.wf(),
    ensures
        c.admission().len() + c.main_queue().len() <= c.max(),
        c.admission().len() <= c.max(),
        c.main_queue().len() <= c.max(),
{
}

/// The queues of a well-formed cache have distinct keys each, and share
/// none.
pub proof fn law_keys_unique<K: Copy + Hash + Eq, V, S: BuildHasher + Clone>(c: &Cache<K, V, S>)
    requires
        c.wf(),
    ensures
        unique_keys(c.admission()),
        unique_keys(c.main_queue()),
        disjoint(c.admission(), c.main_queue()),
{
    c.in_.lemma_keys_unique();
    c.main.lemma_keys_unique();
}

} // verus!
