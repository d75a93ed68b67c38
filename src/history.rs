use vstd::prelude::*;
use crate::entry::{Entry, EntryModel, same_identity};

verus! {

/// The models of a run of entries.
pub open spec fn models(s: Seq<Entry>) -> Seq<EntryModel> {
    s.map_values(|e: Entry| e@)
}

/// Whether some entry of `s` has identity `id`.
pub open spec fn holds_identity(s: Seq<EntryModel>, id: Seq<u8>) -> bool {
    exists|i: int| 0 <= i < s.len() && s[i].identity == id
}

/// The index of the entry of `s` with identity `id`, or -1 if there is none.
pub open spec fn position(s: Seq<EntryModel>, id: Seq<u8>) -> int {
    if holds_identity(s, id) {
        choose|i: int| 0 <= i < s.len() && s[i].identity == id
    } else {
        -1
    }
}

/// `s` without the entry of identity `id`, the others in their order.
pub open spec fn without(s: Seq<EntryModel>, id: Seq<u8>) -> Seq<EntryModel> {
    let p = position(s, id);
    if p >= 0 {
        s.remove(p)
    } else {
        s
    }
}

/// The first `n` entries of `s` (all of them when there are fewer).
pub open spec fn keep_first(s: Seq<EntryModel>, n: nat) -> Seq<EntryModel> {
    if s.len() <= n {
        s
    } else {
        s.take(n as int)
    }
}

/// No two entries share an identity.
pub open spec fn identities_unique(s: Seq<EntryModel>) -> bool {
    forall|i: int, j: int|
        0 <= i < s.len() && 0 <= j < s.len() && i != j ==> s[i].identity != s[j].identity
}

/// Timestamps never increase from the front to the back, and none passes `clock`.
pub open spec fn stamps_ordered(s: Seq<EntryModel>, clock: u64) -> bool {
    &&& forall|i: int, j: int| 0 <= i <= j < s.len() ==> s[j].last_used_at <= s[i].last_used_at
    &&& forall|i: int| 0 <= i < s.len() ==> s[i].last_used_at <= clock
}

/// Every identity is short enough to be held in memory.
pub open spec fn identities_fit(s: Seq<EntryModel>) -> bool {
    forall|i: int| 0 <= i < s.len() ==> s[i].identity.len() <= usize::MAX
}

/// The timestamp a use at time `now` receives on a store whose clock is `clock`.
pub open spec fn stamp_after(clock: u64, now: u64) -> u64 {
    if now > clock {
        now
    } else {
        clock
    }
}

/// The use count an identity has after one more use.
pub open spec fn count_after(s: Seq<EntryModel>, id: Seq<u8>) -> u64 {
    let p = position(s, id);
    if p >= 0 {
        if s[p].use_count == u64::MAX {
            u64::MAX
        } else {
            (s[p].use_count + 1) as u64
        }
    } else {
        1
    }
}

/// What the contracts know of a history store.
pub struct StoreModel {
    pub entries: Seq<EntryModel>,
    pub capacity: nat,
    pub clock: u64,
}

impl StoreModel {
    /// The store's invariants: unique identities, the capacity bound, and
    /// timestamps that follow the recency order.
    pub open spec fn valid(self) -> bool {
        &&& identities_unique(self.entries)
        &&& self.entries.len() <= self.capacity
        &&& stamps_ordered(self.entries, self.clock)
        &&& identities_fit(self.entries)
    }

    /// The store after a use of `id` at time `now`.
    pub open spec fn touched(self, id: Seq<u8>, now: u64) -> StoreModel {
        let stamp = stamp_after(self.clock, now);
        let fresh = EntryModel {
            identity: id,
            last_used_at: stamp,
            use_count: count_after(self.entries, id),
        };
        StoreModel {
            entries: keep_first(seq![fresh] + without(self.entries, id), self.capacity),
            capacity: self.capacity,
            clock: stamp,
        }
    }

    /// The store without the entry of `id`.
    pub open spec fn removed(self, id: Seq<u8>) -> StoreModel {
        StoreModel { entries: without(self.entries, id), ..self }
    }

    /// The store with no entries.
    pub open spec fn cleared(self) -> StoreModel {
        StoreModel { entries: Seq::empty(), ..self }
    }

    /// The store under capacity `n`, evicted from the tail down to it.
    pub open spec fn resized(self, n: nat) -> StoreModel {
        StoreModel { entries: keep_first(self.entries, n), capacity: n, clock: self.clock }
    }

    /// The identities in recency order.
    pub open spec fn identities(self) -> Seq<Seq<u8>> {
        self.entries.map_values(|e: EntryModel| e.identity)
    }
}

pub proof fn lemma_position(s: Seq<EntryModel>, id: Seq<u8>)
    requires
        identities_unique(s),
    ensures
        holds_identity(s, id) ==> 0 <= position(s, id) < s.len() && s[position(s, id)].identity
            == id,
        !holds_identity(s, id) ==> position(s, id) == -1,
        forall|i: int| 0 <= i < s.len() && s[i].identity == id ==> position(s, id) == i,
{
}

pub proof fn lemma_without(s: Seq<EntryModel>, id: Seq<u8>)
    requires
        identities_unique(s),
    ensures
        identities_unique(without(s, id)),
        !holds_identity(without(s, id), id),
        holds_identity(s, id) ==> without(s, id).len() + 1 == s.len(),
        !holds_identity(s, id) ==> without(s, id) == s,
        forall|clock: u64| stamps_ordered(s, clock) ==> stamps_ordered(without(s, id), clock),
        identities_fit(s) ==> identities_fit(without(s, id)),
        forall|x: Seq<u8>| x != id && holds_identity(s, x) ==> holds_identity(without(s, id), x),
        forall|k: int|
            0 <= k < without(s, id).len() ==> #[trigger] without(s, id)[k] == if k < position(
                s,
                id,
            ) || position(s, id) < 0 {
                s[k]
            } else {
                s[k + 1]
            },
{
    lemma_position(s, id);
    let w = without(s, id);
    let p = position(s, id);
    if p >= 0 {
        assert forall|k: int| 0 <= k < w.len() implies w[k] == (if k < p {
            s[k]
        } else {
            s[k + 1]
        }) by {}
        assert forall|i: int, j: int|
            0 <= i < w.len() && 0 <= j < w.len() && i != j implies w[i].identity
            != w[j].identity by {
            let si = if i < p { i } else { i + 1 };
            let sj = if j < p { j } else { j + 1 };
            assert(w[i] == s[si] && w[j] == s[sj]);
        }
        if holds_identity(w, id) {
            let k = choose|k: int| 0 <= k < w.len() && w[k].identity == id;
            let sk = if k < p { k } else { k + 1 };
            assert(w[k] == s[sk]);
        }
        assert forall|clock: u64| stamps_ordered(s, clock) implies stamps_ordered(w, clock) by {
            assert forall|i: int, j: int| 0 <= i <= j < w.len() implies w[j].last_used_at
                <= w[i].last_used_at by {
                let si = if i < p { i } else { i + 1 };
                let sj = if j < p { j } else { j + 1 };
                assert(w[i] == s[si] && w[j] == s[sj]);
            }
            assert forall|i: int| 0 <= i < w.len() implies w[i].last_used_at <= clock by {
                let si = if i < p { i } else { i + 1 };
                assert(w[i] == s[si]);
            }
        }
        assert forall|x: Seq<u8>| x != id && holds_identity(s, x) implies holds_identity(w, x) by {
            let j = choose|j: int| 0 <= j < s.len() && s[j].identity == x;
            if j < p {
                assert(w[j] == s[j]);
            } else {
                assert(j != p);
                assert(w[j - 1] == s[j]);
            }
        }
        assert forall|i: int| identities_fit(s) && 0 <= i < w.len() implies w[i].identity.len()
            <= usize::MAX by {
            let si = if i < p { i } else { i + 1 };
            assert(w[i] == s[si]);
        }
    }
}

pub proof fn lemma_keep_first(s: Seq<EntryModel>, n: nat, clock: u64)
    requires
        identities_unique(s),
        stamps_ordered(s, clock),
        identities_fit(s),
    ensures
        identities_unique(keep_first(s, n)),
        identities_fit(keep_first(s, n)),
        stamps_ordered(keep_first(s, n), clock),
        keep_first(s, n).len() <= n,
        keep_first(s, n).len() <= s.len(),
        forall|k: int| 0 <= k < keep_first(s, n).len() ==> #[trigger] keep_first(s, n)[k] == s[k],
{
}

/// Using an identity keeps the store's invariants.
pub proof fn lemma_touched_valid(m: StoreModel, id: Seq<u8>, now: u64)
    requires
        m.valid(),
        id.len() <= usize::MAX,
    ensures
        m.touched(id, now).valid(),
{
    lemma_without(m.entries, id);
    let stamp = stamp_after(m.clock, now);
    let fresh = EntryModel {
        identity: id,
        last_used_at: stamp,
        use_count: count_after(m.entries, id),
    };
    let w = without(m.entries, id);
    let t = seq![fresh] + w;
    assert(stamps_ordered(w, m.clock));
    assert forall|i: int, j: int|
        0 <= i < t.len() && 0 <= j < t.len() && i != j implies t[i].identity != t[j].identity by {
        if i == 0 {
            assert(t[j] == w[j - 1]);
        } else if j == 0 {
            assert(t[i] == w[i - 1]);
        } else {
            assert(t[i] == w[i - 1] && t[j] == w[j - 1]);
        }
    }
    assert forall|i: int, j: int| 0 <= i <= j < t.len() implies t[j].last_used_at
        <= t[i].last_used_at by {
        if i > 0 {
            assert(t[i] == w[i - 1] && t[j] == w[j - 1]);
        } else if j > 0 {
            assert(t[j] == w[j - 1]);
        }
    }
    assert forall|i: int| 0 <= i < t.len() implies t[i].last_used_at <= stamp
        && t[i].identity.len() <= usize::MAX by {
        if i > 0 {
            assert(t[i] == w[i - 1]);
        }
    }
    lemma_keep_first(t, m.capacity, stamp);
}

/// Removing an identity keeps the store's invariants.
pub proof fn lemma_removed_valid(m: StoreModel, id: Seq<u8>)
    requires
        m.valid(),
    ensures
        m.removed(id).valid(),
{
    lemma_without(m.entries, id);
}

/// Changing the capacity keeps the store's invariants.
pub proof fn lemma_resized_valid(m: StoreModel, n: nat)
    requires
        m.valid(),
    ensures
        m.resized(n).valid(),
{
    lemma_keep_first(m.entries, n, m.clock);
}

/// An ordered, deduplicated and size-bounded history of identities, most
/// recently used first.
#[derive(Debug, Clone)]
pub struct HistoryStore {
    entries: Vec<Entry>,
    capacity: usize,
    clock: u64,
}

impl View for HistoryStore {
    type V = StoreModel;

    closed spec fn view(&self) -> StoreModel {
        StoreModel {
            entries: models(self.entries@),
            capacity: self.capacity as nat,
            clock: self.clock,
        }
    }
}

impl HistoryStore {
    pub open spec fn wf(&self) -> bool {
        self@.valid()
    }

    /// An empty store that holds at most `capacity` entries.
    pub fn new(capacity: usize) -> (r: HistoryStore)
        ensures
            r.wf(),
            r@.entries.len() == 0,
            r@.capacity == capacity,
            r@.clock == 0,
    {
        let r = HistoryStore { entries: Vec::new(), capacity, clock: 0 };
        assert(r@.entries =~= Seq::<EntryModel>::empty());
        r
    }

    /// A store made of the given entries, which must satisfy its invariants.
    pub fn from_parts(entries: Vec<Entry>, capacity: usize, clock: u64) -> (r: HistoryStore)
        requires
            (StoreModel { entries: models(entries@), capacity: capacity as nat, clock }).valid(),
        ensures
            r.wf(),
            r@ == (StoreModel { entries: models(entries@), capacity: capacity as nat, clock }),
    {
        HistoryStore { entries, capacity, clock }
    }

    pub fn capacity(&self) -> (r: usize)
        ensures
            r == self@.capacity,
    {
        self.capacity
    }

    /// The greatest timestamp this store has handed out.
    pub fn clock(&self) -> (r: u64)
        ensures
            r == self@.clock,
    {
        self.clock
    }

    pub fn len(&self) -> (r: usize)
        ensures
            r == self@.entries.len(),
    {
        self.entries.len()
    }

    /// The entries in recency order, most recently used first.
    pub fn list(&self) -> (r: &[Entry])
        ensures
            models(r@) == self@.entries,
    {
        self.entries.as_slice()
    }

    /// The index of the entry of `identity`, if there is one.
    pub fn find(&self, identity: &[u8]) -> (r: Option<usize>)
        requires
            self.wf(),
        ensures
            match r {
                Some(i) => i == position(self@.entries, identity@),
                None => position(self@.entries, identity@) == -1,
            },
    {
        proof {
            lemma_position(self@.entries, identity@);
        }
        let mut i: usize = 0;
        while i < self.entries.len()
            invariant
                self.wf(),
                i <= self.entries@.len(),
                forall|k: int| 0 <= k < i ==> self@.entries[k].identity != identity@,
            decreases self.entries@.len() - i,
        {
            if same_identity(self.entries[i].identity.as_slice(), identity) {
                assert(self@.entries[i as int] == self.entries@[i as int]@);
                return Some(i);
            }
            i = i + 1;
        }
        None
    }

    /// Whether an entry of `identity` is present.
    pub fn contains(&self, identity: &[u8]) -> (r: bool)
        requires
            self.wf(),
        ensures
            r == holds_identity(self@.entries, identity@),
    {
        proof {
            lemma_position(self@.entries, identity@);
        }
        self.find(identity).is_some()
    }

    /// Records a use of `identity` at time `now`: its entry moves to the front
    /// with a fresh timestamp, and the tail is evicted past the capacity.
    pub fn record_use(&mut self, identity: Vec<u8>, now: u64)
        requires
            old(self).wf(),
        ensures
            final(self).wf(),
            final(self)@ == old(self)@.touched(identity@, now),
    {
        let ghost m = self@;
        let id_len: usize = identity.len();
        assert(identity@.len() == id_len);
        proof {
            lemma_position(m.entries, identity@);
            lemma_touched_valid(m, identity@, now);
        }
        let pos = self.find(identity.as_slice());
        let stamp: u64 = if now > self.clock {
            now
        } else {
            self.clock
        };
        let count: u64 = match pos {
            Some(i) => {
                let gone = self.entries.remove(i);
                assert(gone@ == m.entries[i as int]);
                if gone.use_count == u64::MAX {
                    u64::MAX
                } else {
                    gone.use_count + 1
                }
            },
            None => 1,
        };
        assert(models(self.entries@) =~= without(m.entries, identity@));
        let fresh = Entry { identity, last_used_at: stamp, use_count: count };
        self.entries.insert(0, fresh);
        self.entries.truncate(self.capacity);
        self.clock = stamp;
        assert(self@.entries =~= m.touched(identity@, now).entries);
    }

    /// Removes the entry of `identity`; says whether there was one.
    pub fn remove(&mut self, identity: &[u8]) -> (r: bool)
        requires
            old(self).wf(),
        ensures
            final(self).wf(),
            r == holds_identity(old(self)@.entries, identity@),
            final(self)@ == old(self)@.removed(identity@),
    {
        let ghost m = self@;
        proof {
            lemma_position(m.entries, identity@);
            lemma_removed_valid(m, identity@);
        }
        match self.find(identity) {
            Some(i) => {
                self.entries.remove(i);
                assert(self@.entries =~= without(m.entries, identity@));
                true
            },
            None => false,
        }
    }

    /// Empties the store.
    pub fn clear(&mut self)
        requires
            old(self).wf(),
        ensures
            final(self).wf(),
            final(self)@ == old(self)@.cleared(),
    {
        self.entries.clear();
        assert(self@.entries =~= Seq::<EntryModel>::empty());
    }

    /// Sets the capacity, evicting from the tail down to it.
    pub fn set_capacity(&mut self, n: usize)
        requires
            old(self).wf(),
        ensures
            final(self).wf(),
            final(self)@ == old(self)@.resized(n as nat),
    {
        let ghost m = self@;
        proof {
            lemma_resized_valid(m, n as nat);
        }
        self.entries.truncate(n);
        self.capacity = n;
        assert(self@.entries =~= keep_first(m.entries, n as nat));
    }
}

} // verus!
