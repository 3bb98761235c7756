//! An order-preserving hash map: a doubly linked list of entries laid out in
//! an arena of slots, with a hash index from each key to its slot. Slots that
//! entries leave are kept on a freelist and reused by later insertions.
use std::collections::hash_map::RandomState;
use std::collections::HashMap;
use std::hash::{BuildHasher, Hash};
use vstd::prelude::*;
use vstd::std_specs::hash::{builds_valid_hashers, obeys_key_model};

verus! {

broadcast use vstd::std_specs::hash::group_hash_axioms;

/// Relies on `HashMap::with_capacity_and_hasher`: the index it makes is empty.
#[verifier::external_body]
fn empty_index<K, V, S>(capacity: usize, hash_builder: S) -> (r: HashMap<K, V, S>)
    ensures
        r@.is_empty(),
{
    HashMap::with_capacity_and_hasher(capacity, hash_builder)
}

/// Relies on `RandomState::new`, which draws fresh keys: nothing is stated.
pub assume_specification[ RandomState::new ]() -> RandomState;

/// Relies on `HashMap::capacity`; what the allocator granted is not stated.
#[verifier::external_body]
fn index_capacity<K, V, S>(m: &HashMap<K, V, S>) -> (r: usize) {
    m.capacity()
}

/// Relies on `HashMap::shrink_to_fit`, which keeps every entry.
#[verifier::external_body]
fn shrink_index<K: Hash + Eq, V, S: BuildHasher>(m: &mut HashMap<K, V, S>)
    ensures
        final(m)@ == old(m)@,
{
    m.shrink_to_fit()
}

/// Relies on `HashMap::hasher`, which hands out the map's hash builder.
#[verifier::external_body]
fn index_hasher<K, V, S>(m: &HashMap<K, V, S>) -> (r: &S) {
    m.hasher()
}

/// `Some(s[i])` when `i` indexes `s`, else `None`: the neighbour links that
/// a slot at position `i` of a list must carry.
pub open spec fn link_at(s: Seq<usize>, i: int) -> Option<usize> {
    if 0 <= i < s.len() {
        Some(s[i])
    } else {
        None
    }
}

/// Whether some entry of `s` has key `k`.
pub open spec fn has_key<K, V>(s: Seq<(K, V)>, k: K) -> bool {
    exists|i: int| 0 <= i < s.len() && (#[trigger] s[i]).0 == k
}

/// The position of the entry with key `k` in `s` (meaningful when `has_key`).
pub open spec fn index_of<K, V>(s: Seq<(K, V)>, k: K) -> int {
    choose|i: int| 0 <= i < s.len() && (#[trigger] s[i]).0 == k
}

/// No two entries of `s` share a key.
pub open spec fn unique_keys<K, V>(s: Seq<(K, V)>) -> bool {
    forall|i: int, j: int|
        0 <= i < s.len() && 0 <= j < s.len() && (#[trigger] s[i]).0 == (#[trigger] s[j]).0 ==> i
            == j
}

/// The value stored under `k` in `s`, if any.
pub open spec fn value_of<K, V>(s: Seq<(K, V)>, k: K) -> Option<V> {
    if has_key(s, k) {
        Some(s[index_of(s, k)].1)
    } else {
        None
    }
}

/// `s` with the entry of key `k` taken out, if there is one.
pub open spec fn without_key<K, V>(s: Seq<(K, V)>, k: K) -> Seq<(K, V)> {
    if has_key(s, k) {
        s.remove(index_of(s, k))
    } else {
        s
    }
}

/// `s` after the entry of `k` is set to `v` and placed first.
pub open spec fn put_front<K, V>(s: Seq<(K, V)>, k: K, v: V) -> Seq<(K, V)> {
    seq![(k, v)] + without_key(s, k)
}

/// `s` after the entry of `k` is set to `v` and placed last.
pub open spec fn put_back<K, V>(s: Seq<(K, V)>, k: K, v: V) -> Seq<(K, V)> {
    without_key(s, k).push((k, v))
}

/// `s` with the entry of key `k` set to `v`, in place.
pub open spec fn with_value<K, V>(s: Seq<(K, V)>, k: K, v: V) -> Seq<(K, V)> {
    if has_key(s, k) {
        s.update(index_of(s, k), (k, v))
    } else {
        s
    }
}

/// Taking a key out removes at most one entry.
pub proof fn lemma_without_key_len<K, V>(s: Seq<(K, V)>, k: K)
    ensures
        has_key(s, k) ==> without_key(s, k).len() == s.len() - 1,
        !has_key(s, k) ==> without_key(s, k) == s,
        without_key(s, k).len() <= s.len(),
{
}

/// Putting a key in front adds an entry only when the key is new.
pub proof fn lemma_put_front_len<K, V>(s: Seq<(K, V)>, k: K, v: V)
    ensures
        has_key(s, k) ==> put_front(s, k, v).len() == s.len(),
        !has_key(s, k) ==> put_front(s, k, v) == seq![(k, v)] + s,
        put_front(s, k, v)[0] == (k, v),
{
    lemma_without_key_len(s, k);
}

/// With unique keys, taking `k` out leaves no entry of key `k`.
pub proof fn lemma_without_key_absent<K, V>(s: Seq<(K, V)>, k: K)
    requires
        unique_keys(s),
    ensures
        !has_key(without_key(s, k), k),
        unique_keys(without_key(s, k)),
{
    let w = without_key(s, k);
    if has_key(s, k) {
        let x = index_of(s, k);
        assert forall|j: int| 0 <= j < w.len() implies (#[trigger] w[j]).0 != k by {
            if j < x {
                assert(w[j] == s[j]);
            } else {
                assert(w[j] == s[j + 1]);
            }
        }
        assert forall|i: int, j: int|
            0 <= i < w.len() && 0 <= j < w.len() && (#[trigger] w[i]).0 == (#[trigger] w[j]).0
            implies i == j by {
            let a = if i < x { i } else { i + 1 };
            let b = if j < x { j } else { j + 1 };
            assert(w[i] == s[a]);
            assert(w[j] == s[b]);
        }
    }
}

/// With unique keys, the entry put in front is what `k` then maps to.
pub proof fn lemma_value_of_put_front<K, V>(s: Seq<(K, V)>, k: K, v: V)
    requires
        unique_keys(s),
    ensures
        unique_keys(put_front(s, k, v)),
        has_key(put_front(s, k, v), k),
        value_of(put_front(s, k, v), k) == Some(v),
{
    lemma_without_key_absent(s, k);
    let p = put_front(s, k, v);
    let w = without_key(s, k);
    assert(p[0].0 == k);
    assert forall|i: int, j: int|
        0 <= i < p.len() && 0 <= j < p.len() && (#[trigger] p[i]).0 == (#[trigger] p[j]).0
        implies i == j by {
        if i > 0 {
            assert(p[i] == w[i - 1]);
        }
        if j > 0 {
            assert(p[j] == w[j - 1]);
        }
    }
}

/// Dropping the last entry keeps only keys that were there, and with
/// unique keys the last key leaves.
pub proof fn lemma_drop_last_keys<K, V>(s: Seq<(K, V)>)
    requires
        s.len() > 0,
    ensures
        forall|k: K| #[trigger] has_key(s.drop_last(), k) ==> has_key(s, k),
        unique_keys(s) ==> !has_key(s.drop_last(), s.last().0),
        unique_keys(s) ==> unique_keys(s.drop_last()),
{
    let d = s.drop_last();
    assert forall|k: K| #[trigger] has_key(d, k) implies has_key(s, k) by {
        let j = choose|j: int| 0 <= j < d.len() && (#[trigger] d[j]).0 == k;
        assert(s[j] == d[j]);
    }
    if unique_keys(s) && has_key(d, s.last().0) {
        let j = choose|j: int| 0 <= j < d.len() && (#[trigger] d[j]).0 == s.last().0;
        assert(s[j] == d[j]);
    }
    assert forall|i: int, j: int|
        unique_keys(s) && 0 <= i < d.len() && 0 <= j < d.len() && (#[trigger] d[i]).0 == (
        #[trigger] d[j]).0 implies i == j by {
        assert(s[i] == d[i] && s[j] == d[j]);
    }
}

/// The keys of `seq![e] + s` are `e`'s and those of `s`.
pub proof fn lemma_cons_keys<K, V>(e: (K, V), s: Seq<(K, V)>)
    ensures
        forall|k: K| #[trigger] has_key(seq![e] + s, k) <==> (e.0 == k || has_key(s, k)),
        unique_keys(s) && !has_key(s, e.0) ==> unique_keys(seq![e] + s),
{
    let c = seq![e] + s;
    assert forall|k: K| #[trigger] has_key(c, k) <==> (e.0 == k || has_key(s, k)) by {
        if has_key(c, k) {
            let j = choose|j: int| 0 <= j < c.len() && (#[trigger] c[j]).0 == k;
            if j > 0 {
                assert(c[j] == s[j - 1]);
            }
        }
        if e.0 == k {
            assert(c[0].0 == k);
        }
        if has_key(s, k) {
            let j = choose|j: int| 0 <= j < s.len() && (#[trigger] s[j]).0 == k;
            assert(c[j + 1] == s[j]);
        }
    }
    if unique_keys(s) && !has_key(s, e.0) {
        assert forall|i: int, j: int|
            0 <= i < c.len() && 0 <= j < c.len() && (#[trigger] c[i]).0 == (#[trigger] c[j]).0
            implies i == j by {
            if i > 0 {
                assert(c[i] == s[i - 1]);
            }
            if j > 0 {
                assert(c[j] == s[j - 1]);
            }
        }
    }
}

/// Taking a key out keeps only keys that were there.
pub proof fn lemma_without_keys<K, V>(s: Seq<(K, V)>, k0: K)
    ensures
        forall|k: K| #[trigger] has_key(without_key(s, k0), k) ==> has_key(s, k),
{
    let w = without_key(s, k0);
    if has_key(s, k0) {
        let x = index_of(s, k0);
        assert forall|k: K| #[trigger] has_key(w, k) implies has_key(s, k) by {
            let j = choose|j: int| 0 <= j < w.len() && (#[trigger] w[j]).0 == k;
            if j < x {
                assert(w[j] == s[j]);
            } else {
                assert(w[j] == s[j + 1]);
            }
        }
    }
}

/// Removing a key twice: the second removal finds nothing.
pub proof fn law_remove_twice<K, V>(s: Seq<(K, V)>, k: K)
    requires
        unique_keys(s),
    ensures
        value_of(without_key(s, k), k) is None,
        without_key(without_key(s, k), k) == without_key(s, k),
{
    lemma_without_key_absent(s, k);
}

/// After `push_front(k, v)`, a lookup of `k` gives `v`, and the entry is
/// first, so it is what `pop_back` returns once the other entries have
/// been popped.
pub proof fn law_push_front_round_trip<K, V>(s: Seq<(K, V)>, k: K, v: V)
    requires
        unique_keys(s),
    ensures
        value_of(put_front(s, k, v), k) == Some(v),
        put_front(s, k, v)[0] == (k, v),
{
    lemma_value_of_put_front(s, k, v);
    lemma_put_front_len(s, k, v);
}

/// Moving the last entry of a list of two or more to the front takes it
/// off the back.
pub proof fn law_front_move_leaves_back<K, V>(s: Seq<(K, V)>)
    requires
        unique_keys(s),
        s.len() > 1,
    ensures
        put_front(s, s.last().0, s.last().1).last().0 != s.last().0,
{
    let k = s.last().0;
    assert(s[s.len() - 1].0 == k);
    lemma_without_key_absent(s, k);
    lemma_without_key_len(s, k);
    let w = without_key(s, k);
    let p = put_front(s, k, s.last().1);
    assert(p.last() == w.last());
    assert(w[w.len() - 1].0 != k);
}

/// A hash map whose entries also form a list that can be reordered and
/// consumed from both ends.
#[verifier::reject_recursive_types(K)]
#[verifier::reject_recursive_types(V)]
#[verifier::reject_recursive_types(S)]
pub struct LinkedHashMap<K, V, S = RandomState> {
    keys: Vec<K>,
    values: Vec<Option<V>>,
    prevs: Vec<Option<usize>>,
    nexts: Vec<Option<usize>>,
    head: Option<usize>,
    tail: Option<usize>,
    empty: Option<usize>,
    empty_len: usize,
    index: HashMap<K, usize, S>,
    order: Ghost<Seq<usize>>,
    free: Ghost<Seq<usize>>,
}

impl<K, V, S> View for LinkedHashMap<K, V, S> {
    type V = Seq<(K, V)>;

    /// The entries from front to back.
    closed spec fn view(&self) -> Seq<(K, V)> {
        self.order@.map_values(|s: usize| (self.keys@[s as int], self.values@[s as int].unwrap()))
    }
}

impl<K: Copy, V, S> LinkedHashMap<K, V, S> {
    /// The number of recycled slots waiting to be reused.
    pub closed spec fn free_len(&self) -> nat {
        self.free@.len()
    }

    /// The slots, their links, the freelist and the ends agree.
    #[verifier::opaque]
    closed spec fn list_ok(&self) -> bool {
        let ord = self.order@;
        let fr = self.free@;
        let n = self.keys@.len();
        &&& self.values@.len() == n
        &&& self.prevs@.len() == n
        &&& self.nexts@.len() == n
        &&& ord.no_duplicates()
        &&& fr.no_duplicates()
        &&& forall|i: int|
            #![trigger ord[i]]
            0 <= i < ord.len() ==> {
                &&& ord[i] < n
                &&& self.values@[ord[i] as int] is Some
                &&& self.prevs@[ord[i] as int] == link_at(ord, i - 1)
                &&& self.nexts@[ord[i] as int] == link_at(ord, i + 1)
            }
        &&& self.head == link_at(ord, 0)
        &&& self.tail == link_at(ord, ord.len() - 1)
        &&& forall|i: int|
            #![trigger fr[i]]
            0 <= i < fr.len() ==> {
                &&& fr[i] < n
                &&& self.values@[fr[i] as int] is None
                &&& self.nexts@[fr[i] as int] == link_at(fr, i + 1)
            }
        &&& self.empty == link_at(fr, 0)
        &&& self.empty_len == fr.len()
    }

    /// The hash index maps exactly the listed keys to their slots.
    closed spec fn index_ok(&self) -> bool {
        let ord = self.order@;
        &&& forall|i: int|
            #![trigger ord[i]]
            0 <= i < ord.len() ==> {
                &&& self.index@.contains_key(self.keys@[ord[i] as int])
                &&& self.index@[self.keys@[ord[i] as int]] == ord[i]
            }
        &&& forall|k: K| #[trigger]
            self.index@.contains_key(k) ==> ord.contains(self.index@[k]) && self.keys@[self.index@[
                k] as int] == k
        &&& self.index@.dom().finite()
        &&& self.index@.len() == ord.len()
    }

    /// The map is well formed.
    pub closed spec fn wf(&self) -> bool {
        &&& obeys_key_model::<K>()
        &&& builds_valid_hashers::<S>()
        &&& self.list_ok()
        &&& self.index_ok()
        &&& self.order@.len() + self.free@.len() == self.keys@.len()
    }

    /// Puts the unlisted slot `s` at the front of the list.
    fn link_front(&mut self, s: usize)
        requires
            old(self).list_ok(),
            s < old(self).keys@.len(),
            old(self).values@[s as int] is Some,
            !old(self).order@.contains(s),
        ensures
            final(self).list_ok(),
            final(self).order@ == seq![s] + old(self).order@,
            final(self).free@ == old(self).free@,
            final(self).keys@ == old(self).keys@,
            final(self).values@ == old(self).values@,
            final(self).index@ == old(self).index@,
    {
        proof {
            reveal(LinkedHashMap::list_ok);
        }
        let ghost ord = self.order@;
        self.prevs.set(s, None);
        self.nexts.set(s, self.head);
        match self.head {
            None => {
                self.tail = Some(s);
            },
            Some(h) => {
                self.prevs.set(h, Some(s));
            },
        }
        self.head = Some(s);
        self.order = Ghost(seq![s] + ord);
        proof {
            let nord = self.order@;
            assert forall|i: int| 0 <= i < nord.len() implies {
                &&& nord[i] < self.keys@.len()
                &&& self.values@[nord[i] as int] is Some
                &&& self.prevs@[nord[i] as int] == link_at(nord, i - 1)
                &&& self.nexts@[nord[i] as int] == link_at(nord, i + 1)
            } by {
                if i > 0 {
                    assert(nord[i] == ord[i - 1]);
                    assert(ord[i - 1] != s);
                }
            }
            assert forall|i: int| 0 <= i < self.free@.len() implies self.nexts@[self.free@[i] as int]
                == link_at(self.free@, i + 1) by {
                assert(self.free@[i] != s);
            }
            assert(nord.no_duplicates());
        }
    }

    /// Puts the unlisted slot `s` at the back of the list.
    fn link_back(&mut self, s: usize)
        requires
            old(self).list_ok(),
            s < old(self).keys@.len(),
            old(self).values@[s as int] is Some,
            !old(self).order@.contains(s),
        ensures
            final(self).list_ok(),
            final(self).order@ == old(self).order@.push(s),
            final(self).free@ == old(self).free@,
            final(self).keys@ == old(self).keys@,
            final(self).values@ == old(self).values@,
            final(self).index@ == old(self).index@,
    {
        proof {
            reveal(LinkedHashMap::list_ok);
        }
        let ghost ord = self.order@;
        self.nexts.set(s, None);
        self.prevs.set(s, self.tail);
        match self.tail {
            None => {
                self.head = Some(s);
            },
            Some(t) => {
                self.nexts.set(t, Some(s));
            },
        }
        self.tail = Some(s);
        self.order = Ghost(ord.push(s));
        proof {
            let nord = self.order@;
            assert forall|i: int| 0 <= i < nord.len() implies {
                &&& nord[i] < self.keys@.len()
                &&& self.values@[nord[i] as int] is Some
                &&& self.prevs@[nord[i] as int] == link_at(nord, i - 1)
                &&& self.nexts@[nord[i] as int] == link_at(nord, i + 1)
            } by {
                if i < ord.len() {
                    assert(nord[i] == ord[i]);
                    assert(ord[i] != s);
                }
            }
            assert forall|i: int| 0 <= i < self.free@.len() implies self.nexts@[self.free@[i] as int]
                == link_at(self.free@, i + 1) by {
                assert(self.free@[i] != s);
            }
            assert(nord.no_duplicates());
        }
    }

    /// Takes the slot at position `i` of the list out of it.
    #[verifier::rlimit(50)]
    fn unlink(&mut self, s: usize, Ghost(i): Ghost<int>)
        requires
            old(self).list_ok(),
            0 <= i < old(self).order@.len(),
            old(self).order@[i] == s,
        ensures
            final(self).list_ok(),
            final(self).order@ == old(self).order@.remove(i),
            final(self).free@ == old(self).free@,
            final(self).keys@ == old(self).keys@,
            final(self).values@ == old(self).values@,
            final(self).index@ == old(self).index@,
    {
        proof {
            reveal(LinkedHashMap::list_ok);
        }
        let ghost ord = self.order@;
        let ghost prevs0 = self.prevs@;
        let ghost nexts0 = self.nexts@;
        let p = self.prevs[s];
        let q = self.nexts[s];
        assert(p == link_at(ord, i - 1));
        assert(q == link_at(ord, i + 1));
        match p {
            Some(p) => {
                self.nexts.set(p, q);
            },
            None => {
                self.head = q;
            },
        }
        match q {
            Some(q) => {
                self.prevs.set(q, p);
            },
            None => {
                self.tail = p;
            },
        }
        self.order = Ghost(ord.remove(i));
        proof {
            let nord = self.order@;
            assert forall|t: int|
                0 <= t < self.keys@.len() && t != s && link_at(ord, i - 1) != Some(
                    t as usize,
                ) implies self.nexts@[t] == nexts0[t] by {}
            assert forall|t: int|
                0 <= t < self.keys@.len() && t != s && link_at(ord, i + 1) != Some(
                    t as usize,
                ) implies self.prevs@[t] == prevs0[t] by {}
            assert forall|j: int| 0 <= j < nord.len() implies {
                &&& nord[j] < self.keys@.len()
                &&& self.values@[nord[j] as int] is Some
                &&& self.prevs@[nord[j] as int] == link_at(nord, j - 1)
                &&& self.nexts@[nord[j] as int] == link_at(nord, j + 1)
            } by {
                if j < i - 1 {
                    assert(nord[j] == ord[j]);
                    assert(ord[j] != ord[i - 1]);
                    assert(ord[j] != ord[i]);
                    if i + 1 < ord.len() {
                        assert(ord[j] != ord[i + 1]);
                    }
                } else if j == i - 1 {
                    assert(nord[j] == ord[j]);
                    if i + 1 < ord.len() {
                        assert(ord[j] != ord[i + 1]);
                    }
                } else if j == i {
                    assert(nord[j] == ord[j + 1]);
                    if i > 0 {
                        assert(ord[j + 1] != ord[i - 1]);
                    }
                } else {
                    assert(nord[j] == ord[j + 1]);
                    assert(ord[j + 1] != ord[i + 1]);
                    assert(ord[j + 1] != ord[i]);
                    if i > 0 {
                        assert(ord[j + 1] != ord[i - 1]);
                    }
                }
            }
            assert forall|j: int| 0 <= j < self.free@.len() implies self.nexts@[self.free@[j] as int]
                == link_at(self.free@, j + 1) by {
                if i > 0 {
                    assert(self.free@[j] != ord[i - 1]);
                }
            }
            assert(nord.no_duplicates());
        }
    }

    /// Stores `(k, v)` in a slot that is on no list: the first free one if
    /// there is one, else a new one.
    fn acquire(&mut self, k: K, v: V) -> (s: usize)
        requires
            old(self).list_ok(),
        ensures
            final(self).list_ok(),
            final(self).order@ == old(self).order@,
            final(self).index@ == old(self).index@,
            s < final(self).keys@.len(),
            !old(self).order@.contains(s),
            !final(self).free@.contains(s),
            final(self).keys@[s as int] == k,
            final(self).values@[s as int] == Some(v),
            old(self).free@.len() > 0 ==> final(self).free@ == old(self).free@.drop_first()
                && final(self).keys@.len() == old(self).keys@.len(),
            old(self).free@.len() == 0 ==> final(self).free@ == old(self).free@
                && final(self).keys@.len() == old(self).keys@.len() + 1,
            forall|t: int|
                0 <= t < old(self).keys@.len() && t != s ==> final(self).keys@[t]
                    == old(self).keys@[t] && final(self).values@[t] == old(self).values@[t],
    {
        proof {
            reveal(LinkedHashMap::list_ok);
        }
        let ghost fr = self.free@;
        let ghost ord = self.order@;
        match self.empty {
            Some(e) => {
                let nx = self.nexts[e];
                self.empty = nx;
                self.empty_len = self.empty_len - 1;
                self.keys.set(e, k);
                self.values.set(e, Some(v));
                self.free = Ghost(fr.drop_first());
                proof {
                    assert(fr[0] == e);
                    assert forall|i: int| 0 <= i < ord.len() implies ord[i] != e by {
                        assert(old(self).values@[ord[i] as int] is Some);
                    }
                    let nfr = self.free@;
                    assert forall|i: int| 0 <= i < nfr.len() implies {
                        &&& nfr[i] < self.keys@.len()
                        &&& self.values@[nfr[i] as int] is None
                        &&& self.nexts@[nfr[i] as int] == link_at(nfr, i + 1)
                    } by {
                        assert(nfr[i] == fr[i + 1]);
                        assert(fr[i + 1] != fr[0]);
                    }
                    assert(nfr.no_duplicates());
                }
                e
            },
            None => {
                let s = self.keys.len();
                self.keys.push(k);
                self.values.push(Some(v));
                self.prevs.push(None);
                self.nexts.push(None);
                proof {
                    assert forall|i: int| 0 <= i < ord.len() implies ord[i] != s by {}
                }
                s
            },
        }
    }

    /// Moves the entry out of the unlisted slot `s` and puts the slot on
    /// the freelist.
    fn release(&mut self, s: usize) -> (r: (K, V))
        requires
            old(self).list_ok(),
            s < old(self).keys@.len(),
            old(self).values@[s as int] is Some,
            !old(self).order@.contains(s),
            old(self).order@.len() + old(self).free@.len() < old(self).keys@.len(),
        ensures
            final(self).list_ok(),
            final(self).order@ == old(self).order@,
            final(self).index@ == old(self).index@,
            final(self).free@ == seq![s] + old(self).free@,
            final(self).keys@ == old(self).keys@,
            final(self).values@ == old(self).values@.update(s as int, None),
            r == (old(self).keys@[s as int], old(self).values@[s as int].unwrap()),
    {
        proof {
            reveal(LinkedHashMap::list_ok);
        }
        let ghost fr = self.free@;
        let ghost ord = self.order@;
        let mut v: Option<V> = None;
        self.values.set_and_swap(s, &mut v);
        self.nexts.set(s, self.empty);
        self.prevs.set(s, None);
        let n: usize = self.keys.len();
        assert(self.empty_len < n);
        self.empty = Some(s);
        self.empty_len = self.empty_len + 1;
        self.free = Ghost(seq![s] + fr);
        proof {
            assert forall|i: int| 0 <= i < fr.len() implies fr[i] != s by {}
            let nfr = self.free@;
            assert forall|i: int| 0 <= i < nfr.len() implies {
                &&& nfr[i] < self.keys@.len()
                &&& self.values@[nfr[i] as int] is None
                &&& self.nexts@[nfr[i] as int] == link_at(nfr, i + 1)
            } by {
                if i > 0 {
                    assert(nfr[i] == fr[i - 1]);
                }
            }
            assert(nfr.no_duplicates());
            assert forall|i: int| 0 <= i < ord.len() implies ord[i] != s by {}
        }
        (self.keys[s], v.unwrap())
    }
}

impl<K: Copy, V, S> LinkedHashMap<K, V, S> {
    /// The number of keys in the hash index.
    pub closed spec fn index_len(&self) -> nat {
        self.index@.len()
    }

    /// The list and the hash index always agree in size, and `len` reports
    /// that size; every operation keeps the map well formed.
    pub proof fn law_len_agrees(&self)
        requires
            self.wf(),
        ensures
            self.index_len() == self@.len(),
    {
        self.lemma_view();
    }

    /// No two entries share a key.
    pub proof fn lemma_keys_unique(&self)
        requires
            self.wf(),
        ensures
            unique_keys(self@),
    {
        self.lemma_view();
    }

    /// What the slots and the index say of the entries.
    proof fn lemma_view(&self)
        requires
            self.wf(),
        ensures
            self@.len() == self.order@.len(),
            unique_keys(self@),
            forall|k: K| #[trigger] has_key(self@, k) <==> self.index@.contains_key(k),
            forall|k: K|
                #[trigger] self.index@.contains_key(k) ==> {
                    &&& 0 <= index_of(self@, k) < self@.len()
                    &&& self.order@[index_of(self@, k)] == self.index@[k]
                    &&& self@[index_of(self@, k)].0 == k
                },
            self.order@.no_duplicates(),
            forall|i: int|
                0 <= i < self.order@.len() ==> (#[trigger] self.order@[i]) < self.keys@.len()
                    && self.values@[self.order@[i] as int] is Some,
            self.keys@.len() == self.values@.len(),
            self.head == link_at(self.order@, 0),
            self.tail == link_at(self.order@, self.order@.len() - 1),
    {
        reveal(LinkedHashMap::list_ok);
        let v = self@;
        let ord = self.order@;
        assert forall|i: int, j: int|
            0 <= i < v.len() && 0 <= j < v.len() && (#[trigger] v[i]).0 == (#[trigger] v[j]).0
            implies i == j by {
            assert(self.index@[self.keys@[ord[i] as int]] == ord[i]);
            assert(self.index@[self.keys@[ord[j] as int]] == ord[j]);
        }
        assert forall|k: K| #[trigger] has_key(v, k) <==> self.index@.contains_key(k) by {
            if has_key(v, k) {
                let i = choose|i: int| 0 <= i < v.len() && (#[trigger] v[i]).0 == k;
                assert(self.index@.contains_key(self.keys@[ord[i] as int]));
            }
            if self.index@.contains_key(k) {
                let i = choose|i: int| 0 <= i < ord.len() && ord[i] == self.index@[k];
                assert(v[i].0 == k);
            }
        }
        assert forall|k: K| #[trigger] self.index@.contains_key(k) implies {
            &&& 0 <= index_of(v, k) < v.len()
            &&& ord[index_of(v, k)] == self.index@[k]
            &&& v[index_of(v, k)].0 == k
        } by {
            assert(has_key(v, k));
            let j = index_of(v, k);
            assert(self.index@[self.keys@[ord[j] as int]] == ord[j]);
        }
    }

    /// Replaces the value in the listed or detached slot `s`.
    fn store(&mut self, s: usize, v: V) -> (r: V)
        requires
            old(self).list_ok(),
            s < old(self).keys@.len(),
            old(self).values@[s as int] is Some,
        ensures
            final(self).list_ok(),
            final(self).order@ == old(self).order@,
            final(self).free@ == old(self).free@,
            final(self).keys@ == old(self).keys@,
            final(self).values@ == old(self).values@.update(s as int, Some(v)),
            final(self).index@ == old(self).index@,
            r == old(self).values@[s as int].unwrap(),
    {
        proof {
            reveal(LinkedHashMap::list_ok);
        }
        let mut out = Some(v);
        self.values.set_and_swap(s, &mut out);
        proof {
            assert forall|i: int| 0 <= i < self.free@.len() implies self.free@[i] != s by {}
        }
        out.unwrap()
    }
}

impl<K: Copy + Hash + Eq, V, S: BuildHasher> LinkedHashMap<K, V, S> {
    /// Stores `(k, v)` in a fresh or recycled slot, indexed but not listed.
    fn occupy(&mut self, k: K, v: V) -> (s: usize)
        requires
            old(self).list_ok(),
            obeys_key_model::<K>(),
            builds_valid_hashers::<S>(),
            !old(self).index@.contains_key(k),
        ensures
            final(self).list_ok(),
            final(self).order@ == old(self).order@,
            final(self).index@ == old(self).index@.insert(k, s),
            s < final(self).keys@.len(),
            !old(self).order@.contains(s),
            final(self).keys@[s as int] == k,
            final(self).values@[s as int] == Some(v),
            old(self).free@.len() > 0 ==> final(self).free@ == old(self).free@.drop_first()
                && final(self).keys@.len() == old(self).keys@.len(),
            old(self).free@.len() == 0 ==> final(self).free@ == old(self).free@
                && final(self).keys@.len() == old(self).keys@.len() + 1,
            forall|t: int|
                0 <= t < old(self).keys@.len() && t != s ==> final(self).keys@[t]
                    == old(self).keys@[t] && final(self).values@[t] == old(self).values@[t],
    {
        proof {
            reveal(LinkedHashMap::list_ok);
        }
        let s = self.acquire(k, v);
        self.index.insert(k, s);
        s
    }

    /// Moves the listed slot `s`, at position `i`, to the front (or back).
    fn relink(&mut self, s: usize, Ghost(i): Ghost<int>, front: bool)
        requires
            old(self).list_ok(),
            0 <= i < old(self).order@.len(),
            old(self).order@[i] == s,
        ensures
            final(self).list_ok(),
            front ==> final(self).order@ == seq![s] + old(self).order@.remove(i),
            !front ==> final(self).order@ == old(self).order@.remove(i).push(s),
            final(self).free@ == old(self).free@,
            final(self).keys@ == old(self).keys@,
            final(self).values@ == old(self).values@,
            final(self).index@ == old(self).index@,
    {
        proof {
            reveal(LinkedHashMap::list_ok);
            let ord = self.order@;
            assert forall|j: int| 0 <= j < ord.remove(i).len() implies ord.remove(i)[j] != s by {
                if j < i {
                    assert(ord.remove(i)[j] == ord[j]);
                } else {
                    assert(ord.remove(i)[j] == ord[j + 1]);
                }
            }
        }
        self.unlink(s, Ghost(i));
        if front {
            self.link_front(s);
        } else {
            self.link_back(s);
        }
    }
}

impl<K: Copy + Hash + Eq, V, S: BuildHasher> LinkedHashMap<K, V, S> {
    /// Moves the entry of the present key `k`, held in slot `s`, to one end.
    fn shift(&mut self, s: usize, k: K, front: bool)
        requires
            old(self).wf(),
            old(self).index@.contains_key(k),
            old(self).index@[k] == s,
        ensures
            final(self).wf(),
            front ==> final(self)@ == put_front(old(self)@, k, value_of(old(self)@, k).unwrap()),
            !front ==> final(self)@ == put_back(old(self)@, k, value_of(old(self)@, k).unwrap()),
            final(self).free_len() == old(self).free_len(),
            final(self).keys@ == old(self).keys@,
            final(self).order@.len() == old(self).order@.len(),
            front ==> final(self).order@[0] == s,
            !front ==> final(self).order@.last() == s,
    {
        proof {
            self.lemma_view();
        }
        let ghost old_view = self@;
        let ghost ord = self.order@;
        let ghost i = index_of(old_view, k);
        let ghost v = old_view[i].1;
        self.relink(s, Ghost(i), front);
        proof {
            let nord = self.order@;
            let rest = ord.remove(i);
            assert forall|t: usize| ord.contains(t) implies nord.contains(t) by {
                let j = choose|j: int| 0 <= j < ord.len() && ord[j] == t;
                if j == i {
                    if front {
                        assert(nord[0] == t);
                    } else {
                        assert(nord[nord.len() - 1] == t);
                    }
                } else {
                    let m = if j < i { j } else { j - 1 };
                    assert(rest[m] == t);
                    if front {
                        assert(nord[m + 1] == t);
                    } else {
                        assert(nord[m] == t);
                    }
                }
            }
            assert forall|j: int| 0 <= j < nord.len() implies {
                &&& self.index@.contains_key(self.keys@[nord[j] as int])
                &&& self.index@[self.keys@[nord[j] as int]] == nord[j]
            } by {
                let m = if front { j - 1 } else { j };
                if 0 <= m < rest.len() {
                    assert(nord[j] == rest[m]);
                    if m < i {
                        assert(rest[m] == ord[m]);
                    } else {
                        assert(rest[m] == ord[m + 1]);
                    }
                }
            }
            let nv = self@;
            let expect = if front {
                put_front(old_view, k, v)
            } else {
                put_back(old_view, k, v)
            };
            assert(nv.len() == expect.len());
            assert forall|j: int| 0 <= j < nv.len() implies nv[j] == expect[j] by {
                let m = if front { j - 1 } else { j };
                if 0 <= m < rest.len() {
                    assert(nord[j] == rest[m]);
                    let o = if m < i { m } else { m + 1 };
                    assert(rest[m] == ord[o]);
                    assert(ord[o] != s);
                }
            }
            assert(nv =~= expect);
        }
    }

    /// Stores the absent key `k` with `v` at one end.
    fn place_absent(&mut self, k: K, v: V, front: bool)
        requires
            old(self).wf(),
            !old(self).index@.contains_key(k),
        ensures
            final(self).wf(),
            front ==> final(self)@ == put_front(old(self)@, k, v),
            !front ==> final(self)@ == put_back(old(self)@, k, v),
            old(self).free_len() > 0 ==> final(self).free_len() == old(self).free_len() - 1,
            old(self).free_len() == 0 ==> final(self).free_len() == 0,
    {
        proof {
            self.lemma_view();
        }
        let ghost old_view = self@;
        let ghost ord = self.order@;
        let s = self.occupy(k, v);
        if front {
            self.link_front(s);
        } else {
            self.link_back(s);
        }
        proof {
            let nord = self.order@;
            assert forall|j: int| 0 <= j < nord.len() implies {
                &&& self.index@.contains_key(self.keys@[nord[j] as int])
                &&& self.index@[self.keys@[nord[j] as int]] == nord[j]
            } by {
                let m = if front { j - 1 } else { j };
                if 0 <= m < ord.len() {
                    assert(ord[m] == nord[j]);
                    assert(ord[m] != s);
                }
            }
            assert forall|q: K| #[trigger] self.index@.contains_key(q) implies nord.contains(
                self.index@[q],
            ) && self.keys@[self.index@[q] as int] == q by {
                if q != k {
                    let t = old(self).index@[q];
                    let m = choose|m: int| 0 <= m < ord.len() && ord[m] == t;
                    if front {
                        assert(nord[m + 1] == t);
                    } else {
                        assert(nord[m] == t);
                    }
                } else {
                    if front {
                        assert(nord[0] == s);
                    } else {
                        assert(nord[nord.len() - 1] == s);
                    }
                }
            }
            assert(self.index@.dom() =~= old(self).index@.dom().insert(k));
            assert(self.index@.len() == nord.len());
            assert(nord.len() + self.free@.len() == self.keys@.len());
            let nv = self@;
            let expect = if front {
                put_front(old_view, k, v)
            } else {
                put_back(old_view, k, v)
            };
            assert(nv.len() == expect.len());
            assert forall|j: int| 0 <= j < nv.len() implies nv[j] == expect[j] by {
                let m = if front { j - 1 } else { j };
                if 0 <= m < ord.len() {
                    assert(ord[m] == nord[j]);
                    assert(ord[m] != s);
                }
            }
            assert(nv =~= expect);
        }
    }
}

impl<K: Copy + Hash + Eq, V, S: BuildHasher> LinkedHashMap<K, V, S> {
    /// Frees the unlisted slot `s` and drops its key from the index.
    fn release_unindexed(&mut self, s: usize) -> (r: (K, V))
        requires
            old(self).list_ok(),
            obeys_key_model::<K>(),
            builds_valid_hashers::<S>(),
            s < old(self).keys@.len(),
            old(self).values@[s as int] is Some,
            !old(self).order@.contains(s),
            old(self).order@.len() + old(self).free@.len() < old(self).keys@.len(),
        ensures
            final(self).list_ok(),
            final(self).order@ == old(self).order@,
            final(self).index@ == old(self).index@.remove(old(self).keys@[s as int]),
            final(self).free@ == seq![s] + old(self).free@,
            final(self).keys@ == old(self).keys@,
            final(self).values@ == old(self).values@.update(s as int, None),
            r == (old(self).keys@[s as int], old(self).values@[s as int].unwrap()),
    {
        proof {
            reveal(LinkedHashMap::list_ok);
        }
        let (k, v) = self.release(s);
        let _ = self.index.remove(&k);
        (k, v)
    }

    /// Takes the entry at position `i`, held in slot `s`, out of the map.
    fn take_out(&mut self, s: usize, Ghost(i): Ghost<int>) -> (r: (K, V))
        requires
            old(self).wf(),
            0 <= i < old(self).order@.len(),
            old(self).order@[i] == s,
        ensures
            final(self).wf(),
            final(self)@ == old(self)@.remove(i),
            r == old(self)@[i],
            final(self).free_len() == old(self).free_len() + 1,
    {
        proof {
            self.lemma_view();
        }
        let ghost old_view = self@;
        let ghost ord = self.order@;
        let ghost k0 = self.keys@[s as int];
        self.unlink(s, Ghost(i));
        proof {
            assert(!self.order@.contains(s)) by {
                if self.order@.contains(s) {
                    let j = choose|j: int| 0 <= j < self.order@.len() && self.order@[j] == s;
                    if j < i {
                        assert(ord[j] == s);
                    } else {
                        assert(ord[j + 1] == s);
                    }
                }
            }
        }
        let (k, v) = self.release_unindexed(s);
        proof {
            let nord = self.order@;
            assert(k == k0);
            assert forall|j: int| 0 <= j < nord.len() implies {
                &&& self.index@.contains_key(self.keys@[nord[j] as int])
                &&& self.index@[self.keys@[nord[j] as int]] == nord[j]
            } by {
                let o = if j < i { j } else { j + 1 };
                assert(nord[j] == ord[o]);
                assert(ord[o] != s);
                assert(old(self).index@[self.keys@[ord[o] as int]] == ord[o]);
            }
            assert forall|q: K| #[trigger] self.index@.contains_key(q) implies nord.contains(
                self.index@[q],
            ) && self.keys@[self.index@[q] as int] == q by {
                let t = old(self).index@[q];
                let m = choose|m: int| 0 <= m < ord.len() && ord[m] == t;
                assert(m != i);
                if m < i {
                    assert(nord[m] == t);
                } else {
                    assert(nord[m - 1] == t);
                }
            }
            assert(self.index@.dom() =~= old(self).index@.dom().remove(k));
            let nv = self@;
            let expect = old_view.remove(i);
            assert(nv.len() == expect.len());
            assert forall|j: int| 0 <= j < nv.len() implies nv[j] == expect[j] by {
                let o = if j < i { j } else { j + 1 };
                assert(nord[j] == ord[o]);
                assert(ord[o] != s);
            }
            assert(nv =~= expect);
        }
        (k, v)
    }
}

impl<K: Copy + Hash + Eq, V> LinkedHashMap<K, V, RandomState> {
    /// An empty map with the default hasher.
    pub fn new() -> (r: Self)
        requires
            obeys_key_model::<K>(),
        ensures
            r.wf(),
            r@ == Seq::<(K, V)>::empty(),
            r.free_len() == 0,
    {
        LinkedHashMap::from_index(HashMap::new())
    }

    /// An empty map with room for `capacity` keys in its index.
    pub fn with_capacity(capacity: usize) -> (r: Self)
        requires
            obeys_key_model::<K>(),
        ensures
            r.wf(),
            r@ == Seq::<(K, V)>::empty(),
            r.free_len() == 0,
    {
        LinkedHashMap::from_index(HashMap::with_capacity(capacity))
    }
}

impl<K: Copy + Hash + Eq, V, S: BuildHasher> LinkedHashMap<K, V, S> {
    fn from_index(index: HashMap<K, usize, S>) -> (r: Self)
        requires
            obeys_key_model::<K>(),
            builds_valid_hashers::<S>(),
            index@.is_empty(),
        ensures
            r.wf(),
            r@ == Seq::<(K, V)>::empty(),
            r.free_len() == 0,
    {
        let r = LinkedHashMap {
            keys: Vec::new(),
            values: Vec::new(),
            prevs: Vec::new(),
            nexts: Vec::new(),
            head: None,
            tail: None,
            empty: None,
            empty_len: 0,
            index,
            order: Ghost(Seq::empty()),
            free: Ghost(Seq::empty()),
        };
        proof {
            reveal(LinkedHashMap::list_ok);
            assert(r.index@.dom() =~= Set::empty());
            assert(r@ =~= Seq::<(K, V)>::empty());
        }
        r
    }

    /// An empty map that hashes with `hash_builder`.
    pub fn with_hasher(hash_builder: S) -> (r: Self)
        requires
            obeys_key_model::<K>(),
            builds_valid_hashers::<S>(),
        ensures
            r.wf(),
            r@ == Seq::<(K, V)>::empty(),
            r.free_len() == 0,
    {
        LinkedHashMap::from_index(empty_index(0, hash_builder))
    }

    /// An empty map that hashes with `hash_builder`, with room for
    /// `capacity` keys in its index.
    pub fn with_capacity_and_hasher(capacity: usize, hash_builder: S) -> (r: Self)
        requires
            obeys_key_model::<K>(),
            builds_valid_hashers::<S>(),
        ensures
            r.wf(),
            r@ == Seq::<(K, V)>::empty(),
            r.free_len() == 0,
    {
        LinkedHashMap::from_index(empty_index(capacity, hash_builder))
    }

    /// The hash builder of the index.
    pub fn hasher(&self) -> (r: &S) {
        index_hasher(&self.index)
    }

    /// How many keys the index holds without growing.
    pub fn capacity(&self) -> (r: usize) {
        index_capacity(&self.index)
    }

    /// The number of entries.
    pub fn len(&self) -> (r: usize)
        requires
            self.wf(),
        ensures
            r == self@.len(),
    {
        proof {
            self.lemma_view();
        }
        self.index.len()
    }

    /// Whether there are no entries.
    pub fn is_empty(&self) -> (r: bool)
        requires
            self.wf(),
        ensures
            r == (self@.len() == 0),
    {
        proof {
            self.lemma_view();
        }
        self.head.is_none()
    }

    /// The number of recycled slots waiting to be reused.
    pub fn empty_len(&self) -> (r: usize)
        requires
            self.wf(),
        ensures
            r == self.free_len(),
    {
        proof {
            reveal(LinkedHashMap::list_ok);
        }
        self.empty_len
    }

    /// Whether some entry has key `k`.
    pub fn contains_key(&self, k: &K) -> (r: bool)
        requires
            self.wf(),
        ensures
            r == has_key(self@, *k),
    {
        proof {
            self.lemma_view();
        }
        self.index.contains_key(k)
    }

    /// The value under `k`; the order is left as it is.
    pub fn get(&self, k: &K) -> (r: Option<&V>)
        requires
            self.wf(),
        ensures
            r.is_some() == has_key(self@, *k),
            r.is_some() ==> Some(*r.unwrap()) == value_of(self@, *k),
    {
        proof {
            self.lemma_view();
        }
        match self.index.get(k) {
            None => None,
            Some(slot) => self.values[*slot].as_ref(),
        }
    }

    /// The stored key and the value under `k`.
    pub fn get_key_value(&self, k: &K) -> (r: Option<(&K, &V)>)
        requires
            self.wf(),
        ensures
            r.is_some() == has_key(self@, *k),
            r.is_some() ==> *r.unwrap().0 == *k && Some(*r.unwrap().1) == value_of(self@, *k),
    {
        proof {
            self.lemma_view();
        }
        match self.index.get(k) {
            None => None,
            Some(slot) => {
                let s = *slot;
                match self.values[s].as_ref() {
                    Some(v) => Some((&self.keys[s], v)),
                    None => None,
                }
            },
        }
    }

    /// The entry of slot `s`, when it holds one.
    fn entry_at(&self, s: Option<usize>) -> (r: Option<(&K, &V)>)
        requires
            s is Some ==> s.unwrap() < self.keys@.len() && self.keys@.len() == self.values@.len()
                && self.values@[s.unwrap() as int] is Some,
        ensures
            r.is_some() == s.is_some(),
            r.is_some() ==> (*r.unwrap().0, *r.unwrap().1) == (
                self.keys@[s.unwrap() as int],
                self.values@[s.unwrap() as int].unwrap(),
            ),
    {
        match s {
            None => None,
            Some(s) => match self.values[s].as_ref() {
                Some(v) => Some((&self.keys[s], v)),
                None => None,
            },
        }
    }

    /// The first entry, if any.
    pub fn front(&self) -> (r: Option<(&K, &V)>)
        requires
            self.wf(),
        ensures
            r.is_some() == (self@.len() > 0),
            r.is_some() ==> (*r.unwrap().0, *r.unwrap().1) == self@[0],
    {
        proof {
            self.lemma_view();
        }
        self.entry_at(self.head)
    }

    /// The last entry, if any.
    pub fn back(&self) -> (r: Option<(&K, &V)>)
        requires
            self.wf(),
        ensures
            r.is_some() == (self@.len() > 0),
            r.is_some() ==> (*r.unwrap().0, *r.unwrap().1) == self@[self@.len() - 1],
    {
        proof {
            self.lemma_view();
        }
        self.entry_at(self.tail)
    }

    /// Takes the first entry out.
    pub fn pop_front(&mut self) -> (r: Option<(K, V)>)
        requires
            old(self).wf(),
        ensures
            final(self).wf(),
            old(self)@.len() == 0 ==> r is None && final(self)@ == old(self)@ && final(self).free_len() == old(self).free_len(),
            old(self)@.len() > 0 ==> r == Some(old(self)@[0]) && final(self)@ == old(self)@.remove(0) && final(self).free_len() == old(self).free_len() + 1,
    {
        proof {
            self.lemma_view();
        }
        match self.head {
            None => None,
            Some(s) => Some(self.take_out(s, Ghost(0))),
        }
    }

    /// Takes the last entry out.
    pub fn pop_back(&mut self) -> (r: Option<(K, V)>)
        requires
            old(self).wf(),
        ensures
            final(self).wf(),
            old(self)@.len() == 0 ==> r is None && final(self)@ == old(self)@ && final(self).free_len() == old(self).free_len(),
            old(self)@.len() > 0 ==> r == Some(old(self)@.last()) && final(self)@ == old(self)@.drop_last() && final(self).free_len() == old(self).free_len() + 1,
    {
        proof {
            self.lemma_view();
        }
        match self.tail {
            None => None,
            Some(s) => {
                let r = self.take_out(s, Ghost(self.order@.len() - 1));
                assert(old(self)@.remove(old(self)@.len() - 1) =~= old(self)@.drop_last());
                Some(r)
            },
        }
    }

    /// Takes the entry of key `k` out, returning its key and value.
    pub fn remove_entry(&mut self, k: &K) -> (r: Option<(K, V)>)
        requires
            old(self).wf(),
        ensures
            final(self).wf(),
            final(self)@ == without_key(old(self)@, *k),
            r.is_some() == has_key(old(self)@, *k),
            r.is_some() ==> r.unwrap() == (*k, value_of(old(self)@, *k).unwrap()),
            r.is_some() ==> final(self).free_len() == old(self).free_len() + 1,
            r.is_none() ==> final(self).free_len() == old(self).free_len(),
    {
        proof {
            self.lemma_view();
        }
        match self.index.get(k) {
            None => None,
            Some(slot) => {
                let s = *slot;
                Some(self.take_out(s, Ghost(index_of(self@, *k))))
            },
        }
    }

    /// Takes the entry of key `k` out, returning its value.
    pub fn remove(&mut self, k: &K) -> (r: Option<V>)
        requires
            old(self).wf(),
        ensures
            final(self).wf(),
            final(self)@ == without_key(old(self)@, *k),
            r == value_of(old(self)@, *k),
            r.is_some() ==> final(self).free_len() == old(self).free_len() + 1,
            r.is_none() ==> final(self).free_len() == old(self).free_len(),
    {
        match self.remove_entry(k) {
            None => None,
            Some((_, v)) => Some(v),
        }
    }

    /// Moves the entry of key `k` to the front; `false` when there is none.
    pub fn move_to_front(&mut self, k: &K) -> (r: bool)
        requires
            old(self).wf(),
        ensures
            final(self).wf(),
            r == has_key(old(self)@, *k),
            r ==> final(self)@ == put_front(old(self)@, *k, value_of(old(self)@, *k).unwrap()),
            !r ==> final(self)@ == old(self)@,
            final(self).free_len() == old(self).free_len(),
    {
        proof {
            self.lemma_view();
        }
        match self.index.get(k) {
            None => false,
            Some(slot) => {
                let s = *slot;
                self.shift(s, *k, true);
                true
            },
        }
    }
}

impl<K: Copy + Hash + Eq, V, S: BuildHasher> LinkedHashMap<K, V, S> {
    /// Sets the value of the entry at position `i`, held in slot `s`.
    fn set_value(&mut self, s: usize, Ghost(i): Ghost<int>, v: V) -> (r: V)
        requires
            old(self).wf(),
            0 <= i < old(self).order@.len(),
            old(self).order@[i] == s,
        ensures
            final(self).wf(),
            final(self)@ == old(self)@.update(i, (old(self)@[i].0, v)),
            r == old(self)@[i].1,
            final(self).free_len() == old(self).free_len(),
    {
        proof {
            self.lemma_view();
        }
        let ghost ord = self.order@;
        let r = self.store(s, v);
        proof {
            assert forall|j: int| 0 <= j < ord.len() && j != i implies ord[j] != s by {}
            assert(self@ =~= old(self)@.update(i, (old(self)@[i].0, v)));
        }
        r
    }

    /// Moves the entry of key `k` to the back; `false` when there is none.
    pub fn move_to_back(&mut self, k: &K) -> (r: bool)
        requires
            old(self).wf(),
        ensures
            final(self).wf(),
            r == has_key(old(self)@, *k),
            r ==> final(self)@ == put_back(old(self)@, *k, value_of(old(self)@, *k).unwrap()),
            !r ==> final(self)@ == old(self)@,
            final(self).free_len() == old(self).free_len(),
    {
        proof {
            self.lemma_view();
        }
        match self.index.get(k) {
            None => false,
            Some(slot) => {
                let s = *slot;
                self.shift(s, *k, false);
                true
            },
        }
    }

    /// Sets `k` to `v` and puts its entry first, whether or not it was
    /// present; returns the value it replaced.
    pub fn push_front(&mut self, k: K, v: V) -> (r: Option<V>)
        requires
            old(self).wf(),
        ensures
            final(self).wf(),
            final(self)@ == put_front(old(self)@, k, v),
            r == value_of(old(self)@, k),
            has_key(old(self)@, k) ==> final(self).free_len() == old(self).free_len(),
            !has_key(old(self)@, k) && old(self).free_len() > 0 ==> final(self).free_len()
                == old(self).free_len() - 1,
            !has_key(old(self)@, k) && old(self).free_len() == 0 ==> final(self).free_len() == 0,
    {
        proof {
            self.lemma_view();
        }
        match self.index.get(&k) {
            Some(slot) => {
                let s = *slot;
                self.shift(s, k, true);
                let ov = self.set_value(s, Ghost(0), v);
                proof {
                    assert(final(self)@ =~= put_front(old(self)@, k, v));
                }
                Some(ov)
            },
            None => {
                self.place_absent(k, v, true);
                None
            },
        }
    }

    /// Sets `k` to `v` and puts its entry last, whether or not it was
    /// present; returns the value it replaced.
    pub fn push_back(&mut self, k: K, v: V) -> (r: Option<V>)
        requires
            old(self).wf(),
        ensures
            final(self).wf(),
            final(self)@ == put_back(old(self)@, k, v),
            r == value_of(old(self)@, k),
            has_key(old(self)@, k) ==> final(self).free_len() == old(self).free_len(),
            !has_key(old(self)@, k) && old(self).free_len() > 0 ==> final(self).free_len()
                == old(self).free_len() - 1,
            !has_key(old(self)@, k) && old(self).free_len() == 0 ==> final(self).free_len() == 0,
    {
        proof {
            self.lemma_view();
        }
        match self.index.get(&k) {
            Some(slot) => {
                let s = *slot;
                self.shift(s, k, false);
                let ghost last = self.order@.len() - 1;
                let ov = self.set_value(s, Ghost(last), v);
                proof {
                    assert(final(self)@ =~= put_back(old(self)@, k, v));
                }
                Some(ov)
            },
            None => {
                self.place_absent(k, v, false);
                None
            },
        }
    }

    /// Removes every entry and releases the recycled slots.
    pub fn clear(&mut self)
        requires
            old(self).wf(),
        ensures
            final(self).wf(),
            final(self)@ == Seq::<(K, V)>::empty(),
            final(self).free_len() == 0,
    {
        self.keys = Vec::new();
        self.values = Vec::new();
        self.prevs = Vec::new();
        self.nexts = Vec::new();
        self.head = None;
        self.tail = None;
        self.empty = None;
        self.empty_len = 0;
        self.index.clear();
        self.order = Ghost(Seq::empty());
        self.free = Ghost(Seq::empty());
        proof {
            reveal(LinkedHashMap::list_ok);
            assert(self.index@.dom() =~= Set::empty());
            assert(self@ =~= Seq::<(K, V)>::empty());
        }
    }

    /// Lets the index hold `additional` more keys without growing.
    pub fn reserve(&mut self, additional: usize)
        requires
            old(self).wf(),
        ensures
            final(self).wf(),
            final(self)@ == old(self)@,
            final(self).free_len() == old(self).free_len(),
    {
        proof {
            reveal(LinkedHashMap::list_ok);
        }
        self.index.reserve(additional);
    }

    /// The value under `k`, to be changed in place; the order is left as
    /// it is.
    pub fn get_mut(&mut self, k: &K) -> (r: Option<&mut V>)
        requires
            old(self).wf(),
        ensures
            final(self).wf(),
            r.is_some() == has_key(old(self)@, *k),
            r.is_some() ==> Some(*r.unwrap()) == value_of(old(self)@, *k) && final(self)@
                == with_value(old(self)@, *k, *final(r.unwrap())),
            r.is_none() ==> final(self)@ == old(self)@,
            final(self).free_len() == old(self).free_len(),
    {
        proof {
            self.lemma_view();
            reveal(LinkedHashMap::list_ok);
        }
        match self.index.get(k) {
            None => None,
            Some(slot) => {
                let s = *slot;
                self.values[s].as_mut()
            },
        }
    }
}

impl<K: Copy + Hash + Eq, V, S: BuildHasher> LinkedHashMap<K, V, S> {
    /// The value of the entry in slot `s`, to be changed in place.
    fn value_mut_at(&mut self, s: Option<usize>, Ghost(i): Ghost<int>) -> (r: Option<&mut V>)
        requires
            old(self).wf(),
            s is Some ==> 0 <= i < old(self).order@.len() && old(self).order@[i] == s.unwrap(),
        ensures
            final(self).wf(),
            r.is_some() == s.is_some(),
            r.is_some() ==> *r.unwrap() == old(self)@[i].1 && final(self)@ == old(self)@.update(
                i,
                (old(self)@[i].0, *final(r.unwrap())),
            ),
            r.is_none() ==> final(self)@ == old(self)@,
            final(self).free_len() == old(self).free_len(),
    {
        proof {
            self.lemma_view();
            reveal(LinkedHashMap::list_ok);
        }
        match s {
            None => None,
            Some(s) => self.values[s].as_mut(),
        }
    }

    /// The value of the first entry, to be changed in place.
    pub fn front_mut(&mut self) -> (r: Option<&mut V>)
        requires
            old(self).wf(),
        ensures
            final(self).wf(),
            r.is_some() == (old(self)@.len() > 0),
            r.is_some() ==> *r.unwrap() == old(self)@[0].1 && final(self)@ == old(self)@.update(
                0,
                (old(self)@[0].0, *final(r.unwrap())),
            ),
            r.is_none() ==> final(self)@ == old(self)@,
            final(self).free_len() == old(self).free_len(),
    {
        proof {
            self.lemma_view();
        }
        let h = self.head;
        self.value_mut_at(h, Ghost(0))
    }

    /// The value of the last entry, to be changed in place.
    pub fn back_mut(&mut self) -> (r: Option<&mut V>)
        requires
            old(self).wf(),
        ensures
            final(self).wf(),
            r.is_some() == (old(self)@.len() > 0),
            r.is_some() ==> *r.unwrap() == old(self)@.last().1 && final(self)@ == old(
                self)@.update(old(self)@.len() - 1, (old(self)@.last().0, *final(r.unwrap()))),
            r.is_none() ==> final(self)@ == old(self)@,
            final(self).free_len() == old(self).free_len(),
    {
        proof {
            self.lemma_view();
        }
        let t = self.tail;
        let ghost last = self.order@.len() - 1;
        self.value_mut_at(t, Ghost(last))
    }

    /// Rebuilds the map without its recycled slots, keeping the entries
    /// and their order, and shrinks the index.
    pub fn shrink_to_fit(&mut self)
        requires
            old(self).wf(),
        ensures
            final(self).wf(),
            final(self)@ == old(self)@,
            final(self).free_len() == 0,
    {
        proof {
            self.lemma_view();
        }
        let ghost all = self@;
        let mut items: Vec<(K, V)> = Vec::new();
        while !self.is_empty()
            invariant
                self.wf(),
                items@ + self@ == all,
            decreases self@.len(),
        {
            let e = self.pop_front().unwrap();
            proof {
                assert(items@.push(e) + self@ =~= all);
            }
            items.push(e);
        }
        assert(items@ =~= all);
        self.clear();
        while items.len() > 0
            invariant
                self.wf(),
                self.free_len() == 0,
                unique_keys(all),
                items@.len() <= all.len(),
                items@ == all.subrange(0, items@.len() as int),
                self@ == all.subrange(items@.len() as int, all.len() as int),
            decreases items@.len(),
        {
            let (k, v) = items.pop().unwrap();
            proof {
                let n = items@.len() as int;
                assert(all[n] == (k, v));
                if has_key(self@, k) {
                    let j = choose|j: int| 0 <= j < self@.len() && (#[trigger] self@[j]).0 == k;
                    assert(all[n + 1 + j].0 == k);
                }
            }
            self.push_front(k, v);
            proof {
                let n = items@.len() as int;
                assert(self@ =~= all.subrange(n, all.len() as int));
                assert(items@ =~= all.subrange(0, n));
            }
        }
        self.shrink_own_index();
    }

    fn shrink_own_index(&mut self)
        requires
            old(self).wf(),
        ensures
            final(self).wf(),
            final(self)@ == old(self)@,
            final(self).free_len() == old(self).free_len(),
    {
        proof {
            reveal(LinkedHashMap::list_ok);
        }
        shrink_index(&mut self.index);
    }
}

} // verus!
