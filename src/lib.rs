//! In-memory key/value caches built on an order-preserving hash map.
//!
//! [`map::LinkedHashMap`] keeps its entries in a doubly linked list threaded
//! through an arena of slots, with a hash index from each key to its slot.
//! The caches in [`fifo`], [`lru`], [`slru`] and [`q2`] are eviction policies
//! layered over one or more of those maps.
use vstd::prelude::*;

pub mod map;
pub mod evict;
pub mod fifo;
pub mod lru;
pub mod slru;
pub mod q2;
