//! A most-recently-used history: an ordered, deduplicated and size-bounded
//! store of identities, its versioned byte format, and the per-invocation
//! decisions of the cache manager that loads, mutates and saves it.
use vstd::prelude::*;

pub mod entry;
pub mod history;
pub mod replay;
pub mod codec;
pub mod manager;
pub mod workspace;

verus! {

} // verus!
