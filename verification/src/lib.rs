//! A string-interning pool.
//!
//! Every distinct text content is stored exactly once in a pool, and callers
//! hold lightweight handles ([`pool::Atom`]) that compare and hash in constant
//! time.  Each pooled entry carries a live-reference counter; an entry is
//! removed from the pool exactly when its last handle is released.  A
//! secondary, non-owning hash index allows a live handle to be retrieved from
//! a precomputed hash alone, and is cleaned by an explicit sweep.

pub mod hashing;
pub mod model;

pub mod laws;
pub mod pool;

pub use hashing::str_hash;
pub use pool::{Atom, AtomPool, AtomError, collect, get_by_hash, store_weak_by_hash};
