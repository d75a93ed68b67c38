use vstd::prelude::*;
use crate::entry::EntryModel;
use crate::history::{
    StoreModel, without, holds_identity, position, keep_first, stamp_after, count_after,
    lemma_without, lemma_touched_valid, lemma_removed_valid, lemma_resized_valid,
};

verus! {

/// One operation on a store, as the contracts see it.
pub enum Operation {
    Use(Seq<u8>, u64),
    Drop(Seq<u8>),
    Clear,
    Resize(nat),
}

pub open spec fn apply_op(m: StoreModel, op: Operation) -> StoreModel {
    match op {
        Operation::Use(id, now) => m.touched(id, now),
        Operation::Drop(id) => m.removed(id),
        Operation::Clear => m.cleared(),
        Operation::Resize(n) => m.resized(n),
    }
}

/// The store after the operations, in order.
pub open spec fn replay_ops(m: StoreModel, ops: Seq<Operation>) -> StoreModel
    decreases ops.len(),
{
    if ops.len() == 0 {
        m
    } else {
        apply_op(replay_ops(m, ops.drop_last()), ops.last())
    }
}

/// The store after uses of the identities, in order, each at its time.
pub open spec fn replay_uses(m: StoreModel, uses: Seq<(Seq<u8>, u64)>) -> StoreModel
    decreases uses.len(),
{
    if uses.len() == 0 {
        m
    } else {
        replay_uses(m, uses.drop_last()).touched(uses.last().0, uses.last().1)
    }
}

/// The index of the last use of `id`, or -1 if it was never used.
pub open spec fn last_use(uses: Seq<(Seq<u8>, u64)>, id: Seq<u8>) -> int
    decreases uses.len(),
{
    if uses.len() == 0 {
        -1
    } else if uses.last().0 == id {
        uses.len() - 1
    } else {
        last_use(uses.drop_last(), id)
    }
}

pub open spec fn op_fits(op: Operation) -> bool {
    match op {
        Operation::Use(id, _) => id.len() <= usize::MAX,
        Operation::Drop(_) => true,
        Operation::Clear => true,
        Operation::Resize(_) => true,
    }
}

pub open spec fn uses_fit(uses: Seq<(Seq<u8>, u64)>) -> bool {
    forall|i: int| 0 <= i < uses.len() ==> (#[trigger] uses[i]).0.len() <= usize::MAX
}

/// Whatever operations are applied to a valid store, no two of its entries
/// share an identity and it never holds more entries than its capacity.
pub proof fn lemma_operations_keep_invariants(m: StoreModel, ops: Seq<Operation>)
    requires
        m.valid(),
        forall|i: int| 0 <= i < ops.len() ==> op_fits(#[trigger] ops[i]),
    ensures
        replay_ops(m, ops).valid(),
        forall|i: int, j: int|
            0 <= i < replay_ops(m, ops).entries.len() && 0 <= j < replay_ops(m, ops).entries.len()
                && i != j ==> replay_ops(m, ops).entries[i].identity != replay_ops(
                m,
                ops,
            ).entries[j].identity,
        replay_ops(m, ops).entries.len() <= replay_ops(m, ops).capacity,
    decreases ops.len(),
{
    if ops.len() > 0 {
        lemma_operations_keep_invariants(m, ops.drop_last());
        let r = replay_ops(m, ops.drop_last());
        assert(op_fits(ops[ops.len() - 1]));
        match ops.last() {
            Operation::Use(id, now) => lemma_touched_valid(r, id, now),
            Operation::Drop(id) => lemma_removed_valid(r, id),
            Operation::Clear => {},
            Operation::Resize(n) => lemma_resized_valid(r, n),
        }
    }
}

proof fn lemma_last_use_bounds(uses: Seq<(Seq<u8>, u64)>, id: Seq<u8>)
    ensures
        -1 <= last_use(uses, id) < uses.len(),
        last_use(uses, id) >= 0 ==> uses[last_use(uses, id)].0 == id,
    decreases uses.len(),
{
    if uses.len() > 0 && uses.last().0 != id {
        lemma_last_use_bounds(uses.drop_last(), id);
    }
}

proof fn lemma_uses_valid(m: StoreModel, uses: Seq<(Seq<u8>, u64)>)
    requires
        m.valid(),
        uses_fit(uses),
    ensures
        replay_uses(m, uses).valid(),
        replay_uses(m, uses).capacity == m.capacity,
    decreases uses.len(),
{
    if uses.len() > 0 {
        assert(uses_fit(uses.drop_last())) by {
            assert forall|i: int| 0 <= i < uses.drop_last().len() implies (
            #[trigger] uses.drop_last()[i]).0.len() <= usize::MAX by {
                assert(uses.drop_last()[i] == uses[i]);
            }
        }
        lemma_uses_valid(m, uses.drop_last());
        assert(uses[uses.len() - 1].0.len() <= usize::MAX);
        lemma_touched_valid(replay_uses(m, uses.drop_last()), uses.last().0, uses.last().1);
    }
}

/// On a store that can hold at least one entry, after any run of uses the
/// most recently used identity is first, and the entries are ordered by the
/// time of their last use, most recent first: an entry used in the run is
/// behind only entries used later in it.
pub proof fn lemma_recency(m: StoreModel, uses: Seq<(Seq<u8>, u64)>)
    requires
        m.valid(),
        m.capacity >= 1,
        uses_fit(uses),
    ensures
        uses.len() > 0 ==> replay_uses(m, uses).entries.len() > 0 && replay_uses(
            m,
            uses,
        ).entries[0].identity == uses.last().0,
        forall|i: int, j: int|
            0 <= i < j < replay_uses(m, uses).entries.len() && last_use(
                uses,
                #[trigger] replay_uses(m, uses).entries[j].identity,
            ) >= 0 ==> last_use(uses, #[trigger] replay_uses(m, uses).entries[i].identity)
                > last_use(uses, replay_uses(m, uses).entries[j].identity),
    decreases uses.len(),
{
    if uses.len() > 0 {
        let prev = uses.drop_last();
        assert(uses_fit(prev)) by {
            assert forall|i: int| 0 <= i < prev.len() implies (#[trigger] prev[i]).0.len()
                <= usize::MAX by {
                assert(prev[i] == uses[i]);
            }
        }
        lemma_recency(m, prev);
        lemma_uses_valid(m, prev);
        let r = replay_uses(m, prev);
        let id = uses.last().0;
        let now = uses.last().1;
        let n = prev.len() as int;
        lemma_without(r.entries, id);
        let w = without(r.entries, id);
        let fresh = EntryModel {
            identity: id,
            last_used_at: stamp_after(r.clock, now),
            use_count: count_after(r.entries, id),
        };
        let t = seq![fresh] + w;
        let out = replay_uses(m, uses).entries;
        assert(out == keep_first(t, r.capacity));
        assert forall|x: Seq<u8>| x != id implies last_use(uses, x) == last_use(prev, x) by {}
        assert(last_use(uses, id) == n);
        assert forall|k: int| 0 <= k < w.len() implies #[trigger] last_use(uses, w[k].identity)
            == last_use(prev, w[k].identity) && last_use(prev, w[k].identity) < n by {
            assert(!holds_identity(w, id));
            assert(w[k].identity != id);
            let p = position(r.entries, id);
            let rk = if k < p || p < 0 {
                k
            } else {
                k + 1
            };
            assert(w[k] == r.entries[rk]);
            lemma_last_use_bounds(prev, w[k].identity);
        }
        assert forall|i: int, j: int|
            0 <= i < j < out.len() && last_use(uses, #[trigger] out[j].identity) >= 0 implies last_use(
            uses,
            #[trigger] out[i].identity,
        ) > last_use(uses, out[j].identity) by {
            assert(out[i] == t[i] && out[j] == t[j]);
            assert(t[j] == w[j - 1]);
            if i > 0 {
                assert(t[i] == w[i - 1]);
                let p = position(r.entries, id);
                let ri = if i - 1 < p || p < 0 {
                    i - 1
                } else {
                    i
                };
                let rj = if j - 1 < p || p < 0 {
                    j - 1
                } else {
                    j
                };
                assert(w[i - 1] == r.entries[ri] && w[j - 1] == r.entries[rj]);
                assert(ri < rj);
            }
        }
    }
}

/// Uses of identities on a store with room for all of them lose none: every
/// identity used and every identity the store held is present afterwards,
/// once, whatever the order of the uses.
pub proof fn lemma_no_lost_updates(m: StoreModel, uses: Seq<(Seq<u8>, u64)>)
    requires
        m.valid(),
        m.entries.len() + uses.len() <= m.capacity,
        uses_fit(uses),
    ensures
        replay_uses(m, uses).valid(),
        replay_uses(m, uses).entries.len() <= m.entries.len() + uses.len(),
        forall|i: int|
            0 <= i < uses.len() ==> holds_identity(
                replay_uses(m, uses).entries,
                (#[trigger] uses[i]).0,
            ),
        forall|x: Seq<u8>|
            holds_identity(m.entries, x) ==> #[trigger] holds_identity(
                replay_uses(m, uses).entries,
                x,
            ),
    decreases uses.len(),
{
    lemma_uses_valid(m, uses);
    if uses.len() > 0 {
        let prev = uses.drop_last();
        assert(uses_fit(prev)) by {
            assert forall|i: int| 0 <= i < prev.len() implies (#[trigger] prev[i]).0.len()
                <= usize::MAX by {
                assert(prev[i] == uses[i]);
            }
        }
        lemma_no_lost_updates(m, prev);
        let r = replay_uses(m, prev);
        let id = uses.last().0;
        let now = uses.last().1;
        lemma_without(r.entries, id);
        let w = without(r.entries, id);
        let fresh = EntryModel {
            identity: id,
            last_used_at: stamp_after(r.clock, now),
            use_count: count_after(r.entries, id),
        };
        let t = seq![fresh] + w;
        let out = replay_uses(m, uses).entries;
        assert(t.len() <= r.capacity);
        assert(out == t);
        assert(out[0].identity == id);
        assert forall|x: Seq<u8>| holds_identity(r.entries, x) implies holds_identity(out, x) by {
            if x != id {
                let k = choose|k: int| 0 <= k < w.len() && w[k].identity == x;
                assert(out[k + 1] == w[k]);
            }
        }
        assert forall|i: int| 0 <= i < uses.len() implies holds_identity(
            out,
            (#[trigger] uses[i]).0,
        ) by {
            if i < prev.len() {
                assert(prev[i] == uses[i]);
                assert(holds_identity(r.entries, prev[i].0));
            }
        }
    }
}

} // verus!
