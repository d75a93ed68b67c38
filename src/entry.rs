use vstd::prelude::*;
use vstd::slice::slice_to_vec;

verus! {

/// What the contracts know of one tracked item.
pub struct EntryModel {
    pub identity: Seq<u8>,
    pub last_used_at: u64,
    pub use_count: u64,
}

/// One tracked item: a normalized identity and its last-use metadata.
#[derive(Debug, Clone, PartialEq, Eq)]
pub struct Entry {
    pub identity: Vec<u8>,
    pub last_used_at: u64,
    pub use_count: u64,
}

impl View for Entry {
    type V = EntryModel;

    open spec fn view(&self) -> EntryModel {
        EntryModel {
            identity: self.identity@,
            last_used_at: self.last_used_at,
            use_count: self.use_count,
        }
    }
}

impl Entry {
    pub fn new(identity: Vec<u8>, last_used_at: u64, use_count: u64) -> (r: Entry)
        ensures
            r.identity@ == identity@,
            r.last_used_at == last_used_at,
            r.use_count == use_count,
    {
        Entry { identity, last_used_at, use_count }
    }

    /// A copy with the same identity bytes and metadata.
    pub fn duplicate(&self) -> (r: Entry)
        ensures
            r@ == self@,
    {
        let identity = slice_to_vec(self.identity.as_slice());
        Entry { identity, last_used_at: self.last_used_at, use_count: self.use_count }
    }
}

/// Whether two identities are the same byte string.
pub fn same_identity(a: &[u8], b: &[u8]) -> (r: bool)
    ensures
        r == (a@ == b@),
{
    if a.len() != b.len() {
        return false;
    }
    let mut i: usize = 0;
    while i < a.len()
        invariant
            a@.len() == b@.len(),
            i <= a@.len(),
            forall|k: int| 0 <= k < i ==> a@[k] == b@[k],
        decreases a@.len() - i,
    {
        if a[i] != b[i] {
            return false;
        }
        i = i + 1;
    }
    assert(a@ =~= b@);
    true
}

} // verus!
