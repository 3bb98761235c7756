//! Eviction listeners shared by every cache.
use vstd::prelude::*;

verus! {

/// Receives each entry that a cache drops because it ran out of room.
pub trait EvictionListener<K, V> {
    fn on_evict(&self, k: K, v: V);
}

/// Relies on the caller's closure `f`: it is run on the evicted pair, and
/// nothing is assumed of what it does.
#[verifier::external_body]
fn run_listener<K, V, F: Fn(K, V)>(f: &F, k: K, v: V) {
    f(k, v)
}

impl<K, V, F: Fn(K, V)> EvictionListener<K, V> for F {
    fn on_evict(&self, k: K, v: V) {
        run_listener(self, k, v)
    }
}

/// The optional listener that a cache hands its evicted entries to, with a
/// record of every entry handed over.
#[verifier::reject_recursive_types(K)]
#[verifier::reject_recursive_types(V)]
pub struct Callback<K, V> {
    listener: Option<Box<dyn EvictionListener<K, V>>>,
    handed: Ghost<Seq<(K, V)>>,
}

impl<K, V> Callback<K, V> {
    /// Whether a listener is installed.
    pub closed spec fn installed(&self) -> bool {
        self.listener is Some
    }

    /// Every entry handed over for the listener, oldest first; each one
    /// reaches the listener installed at the time, if any.
    pub closed spec fn handed(&self) -> Seq<(K, V)> {
        self.handed@
    }

    pub fn none() -> (r: Callback<K, V>)
        ensures
            !r.installed(),
            r.handed() == Seq::<(K, V)>::empty(),
    {
        Callback { listener: None, handed: Ghost(Seq::empty()) }
    }

    /// Installs `c`, replacing any earlier listener.
    pub fn set<C: Fn(K, V) + 'static>(&mut self, c: C)
        ensures
            final(self).installed(),
            final(self).handed() == old(self).handed(),
    {
        self.listener = Some(Box::new(c));
    }

    /// Hands `(k, v)` to the listener, if one is installed.
    pub fn fire(&mut self, k: K, v: V)
        ensures
            final(self).handed() == old(self).handed().push((k, v)),
            final(self).installed() == old(self).installed(),
    {
        let ghost pair = (k, v);
        self.handed = Ghost(self.handed@.push(pair));
        match &self.listener {
            Some(f) => f.on_evict(k, v),
            None => {},
        }
    }
}

} // verus!
