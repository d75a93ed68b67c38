use vstd::prelude::*;
use vstd::bytes::{
    spec_u64_from_le_bytes, spec_u64_to_le_bytes, lemma_auto_spec_u64_to_from_le_bytes,
    u64_from_le_bytes, u64_to_le_bytes,
};
use vstd::slice::{slice_subrange, slice_to_vec};
use crate::entry::{Entry, EntryModel, same_identity};
use crate::history::{
    HistoryStore, StoreModel, models, identities_unique, stamps_ordered, identities_fit,
};

verus! {

/// Why persisted bytes could not be read back as a store.
#[derive(Debug, Clone, Copy, PartialEq, Eq, Structural)]
pub enum CorruptionError {
    /// The bytes end before the structure they describe.
    Truncated,
    /// The bytes do not start with the format's magic number.
    NotAHistory,
    /// The major version is not one this library reads.
    UnsupportedVersion,
    /// The structure is complete but breaks a store invariant.
    Malformed,
}

/// Major version of the format; a reader accepts every minor version of it.
pub const FORMAT_MAJOR: u8 = 1;

/// Minor version this library writes.
pub const FORMAT_MINOR: u8 = 0;

/// Length of the fixed part: magic, versions, capacity, clock and count.
pub const HEADER_LEN: usize = 30;

pub open spec fn magic() -> Seq<u8> {
    seq![0x4du8, 0x52u8, 0x55u8, 0x48u8]
}

pub open spec fn enc_u64(x: u64) -> Seq<u8> {
    spec_u64_to_le_bytes(x)
}

/// The little-endian `u64` stored at `pos`.
pub open spec fn u64_at(b: Seq<u8>, pos: int) -> u64 {
    spec_u64_from_le_bytes(b.subrange(pos, pos + 8))
}

/// One entry: identity length, identity bytes, timestamp and use count.
pub open spec fn enc_entry(e: EntryModel) -> Seq<u8> {
    enc_u64(e.identity.len() as u64) + e.identity + enc_u64(e.last_used_at) + enc_u64(
        e.use_count,
    )
}

/// The entries one after the other, in order.
pub open spec fn enc_entries(es: Seq<EntryModel>) -> Seq<u8>
    decreases es.len(),
{
    if es.len() == 0 {
        Seq::empty()
    } else {
        enc_entries(es.drop_last()) + enc_entry(es.last())
    }
}

/// The bytes that stand for a store.
pub open spec fn encoding(m: StoreModel) -> Seq<u8> {
    magic() + seq![FORMAT_MAJOR, FORMAT_MINOR] + enc_u64(m.capacity as u64) + enc_u64(m.clock)
        + enc_u64(m.entries.len() as u64) + enc_entries(m.entries)
}

/// The entry that starts at `pos`, and where the next one starts.
pub open spec fn parse_entry(b: Seq<u8>, pos: int) -> Option<(EntryModel, int)> {
    if pos + 8 > b.len() {
        None
    } else {
        let n = u64_at(b, pos) as int;
        if pos + 8 + n + 16 > b.len() {
            None
        } else {
            Some(
                (
                    EntryModel {
                        identity: b.subrange(pos + 8, pos + 8 + n),
                        last_used_at: u64_at(b, pos + 8 + n),
                        use_count: u64_at(b, pos + 16 + n),
                    },
                    pos + 24 + n,
                ),
            )
        }
    }
}

/// The first `k` entries from `pos` on, and where they end.
pub open spec fn parse_entries(b: Seq<u8>, pos: int, k: nat) -> Option<(Seq<EntryModel>, int)>
    decreases k,
{
    if k == 0 {
        Some((Seq::empty(), pos))
    } else {
        match parse_entries(b, pos, (k - 1) as nat) {
            None => None,
            Some((es, p)) => match parse_entry(b, p) {
                None => None,
                Some((e, q)) => Some((es.push(e), q)),
            },
        }
    }
}

/// What a decoder makes of `b`: bytes past the last entry are ignored.
pub open spec fn parse_store(b: Seq<u8>) -> Result<StoreModel, CorruptionError> {
    if b.len() < 6 {
        Err(CorruptionError::Truncated)
    } else if b.take(4) != magic() {
        Err(CorruptionError::NotAHistory)
    } else if b[4] != FORMAT_MAJOR {
        Err(CorruptionError::UnsupportedVersion)
    } else if b.len() < HEADER_LEN {
        Err(CorruptionError::Truncated)
    } else {
        let capacity = u64_at(b, 6);
        let clock = u64_at(b, 14);
        let count = u64_at(b, 22);
        if capacity > usize::MAX || count > capacity {
            Err(CorruptionError::Malformed)
        } else {
            match parse_entries(b, HEADER_LEN as int, count as nat) {
                None => Err(CorruptionError::Truncated),
                Some((es, _)) => {
                    let m = StoreModel { entries: es, capacity: capacity as nat, clock };
                    if m.valid() {
                        Ok(m)
                    } else {
                        Err(CorruptionError::Malformed)
                    }
                },
            }
        }
    }
}

proof fn lemma_enc_entries_take(es: Seq<EntryModel>, k: int)
    requires
        0 <= k < es.len(),
    ensures
        enc_entries(es.take(k + 1)) == enc_entries(es.take(k)) + enc_entry(es[k]),
{
    assert(es.take(k + 1).drop_last() =~= es.take(k));
}

proof fn lemma_enc_entries_prefix(es: Seq<EntryModel>, k: int)
    requires
        0 <= k <= es.len(),
    ensures
        enc_entries(es.take(k)).len() <= enc_entries(es).len(),
        enc_entries(es) .subrange(0, enc_entries(es.take(k)).len() as int) == enc_entries(
            es.take(k),
        ),
    decreases es.len(),
{
    if k == es.len() {
        assert(es.take(k) =~= es);
        assert(enc_entries(es).subrange(0, enc_entries(es).len() as int) =~= enc_entries(es));
    } else {
        let d = es.drop_last();
        assert(d.take(k) =~= es.take(k));
        lemma_enc_entries_prefix(d, k);
        let p = enc_entries(es.take(k));
        assert(enc_entries(es).subrange(0, p.len() as int) =~= enc_entries(d).subrange(
            0,
            p.len() as int,
        ));
    }
}

proof fn lemma_parse_one(b: Seq<u8>, pos: int, e: EntryModel)
    requires
        0 <= pos,
        pos + enc_entry(e).len() <= b.len(),
        b.subrange(pos, pos + enc_entry(e).len()) == enc_entry(e),
        e.identity.len() <= usize::MAX,
    ensures
        parse_entry(b, pos) == Some((e, pos + enc_entry(e).len())),
{
    lemma_auto_spec_u64_to_from_le_bytes();
    let n = e.identity.len() as int;
    let x = enc_entry(e);
    assert(enc_u64(n as u64).len() == 8);
    assert(x.len() == 24 + n);
    assert(b.subrange(pos, pos + 8) =~= x.subrange(0, 8));
    assert(x.subrange(0, 8) =~= enc_u64(n as u64));
    assert(u64_at(b, pos) == n as u64);
    assert(b.subrange(pos + 8, pos + 8 + n) =~= x.subrange(8, 8 + n));
    assert(x.subrange(8, 8 + n) =~= e.identity);
    assert(b.subrange(pos + 8 + n, pos + 16 + n) =~= x.subrange(8 + n, 16 + n));
    assert(x.subrange(8 + n, 16 + n) =~= enc_u64(e.last_used_at));
    assert(b.subrange(pos + 16 + n, pos + 24 + n) =~= x.subrange(16 + n, 24 + n));
    assert(x.subrange(16 + n, 24 + n) =~= enc_u64(e.use_count));
}

proof fn lemma_parse_entries_of(b: Seq<u8>, pos: int, es: Seq<EntryModel>, k: int)
    requires
        0 <= pos,
        0 <= k <= es.len(),
        identities_fit(es),
        pos + enc_entries(es).len() <= b.len(),
        b.subrange(pos, pos + enc_entries(es).len()) == enc_entries(es),
    ensures
        parse_entries(b, pos, k as nat) == Some((es.take(k), pos + enc_entries(es.take(k)).len())),
    decreases k,
{
    if k == 0 {
        assert(es.take(0) =~= Seq::<EntryModel>::empty());
    } else {
        lemma_parse_entries_of(b, pos, es, k - 1);
        lemma_enc_entries_take(es, k - 1);
        lemma_enc_entries_prefix(es, k);
        let p = pos + enc_entries(es.take(k - 1)).len();
        let x = enc_entry(es[k - 1]);
        let whole = enc_entries(es);
        let pre = enc_entries(es.take(k));
        assert(b.subrange(p, p + x.len()) =~= pre.subrange(p - pos, p - pos + x.len()));
        assert(pre.subrange(p - pos, p - pos + x.len()) =~= x);
        assert(b.subrange(p, p + x.len()) =~= whole.subrange(p - pos, p - pos + x.len()));
        lemma_parse_one(b, p, es[k - 1]);
        assert(es.take(k - 1).push(es[k - 1]) =~= es.take(k));
    }
}

proof fn lemma_parse_entries_stuck(b: Seq<u8>, pos: int, k: nat, j: nat)
    requires
        k <= j,
        parse_entries(b, pos, k) is None,
    ensures
        parse_entries(b, pos, j) is None,
    decreases j,
{
    if k < j {
        lemma_parse_entries_stuck(b, pos, k, (j - 1) as nat);
    }
}

/// Decoding what `encode` wrote gives back the same store, entries and order
/// included, whatever bytes follow.
pub proof fn lemma_round_trip(m: StoreModel, tail: Seq<u8>)
    requires
        m.valid(),
        m.capacity <= usize::MAX,
    ensures
        parse_store(encoding(m) + tail) == Ok::<StoreModel, CorruptionError>(m),
{
    lemma_auto_spec_u64_to_from_le_bytes();
    let b = encoding(m) + tail;
    let head = magic() + seq![FORMAT_MAJOR, FORMAT_MINOR] + enc_u64(m.capacity as u64) + enc_u64(
        m.clock,
    ) + enc_u64(m.entries.len() as u64);
    assert(head.len() == HEADER_LEN);
    assert(b.take(4) =~= magic());
    assert(b.subrange(6, 14) =~= enc_u64(m.capacity as u64));
    assert(b.subrange(14, 22) =~= enc_u64(m.clock));
    assert(b.subrange(22, 30) =~= enc_u64(m.entries.len() as u64));
    let body = enc_entries(m.entries);
    assert(b.subrange(30, 30 + body.len() as int) =~= body);
    lemma_parse_entries_of(b, 30, m.entries, m.entries.len() as int);
    assert(m.entries.take(m.entries.len() as int) =~= m.entries);
}

fn push_u64(out: &mut Vec<u8>, x: u64)
    ensures
        final(out)@ == old(out)@ + enc_u64(x),
{
    let mut bytes = u64_to_le_bytes(x);
    out.append(&mut bytes);
}

fn read_u64(b: &[u8], pos: usize) -> (r: u64)
    requires
        pos + 8 <= b@.len() <= usize::MAX,
    ensures
        r == u64_at(b@, pos as int),
{
    u64_from_le_bytes(slice_subrange(b, pos, pos + 8))
}

/// The bytes that stand for `store`; the same state always gives the same bytes.
pub fn encode(store: &HistoryStore) -> (r: Vec<u8>)
    requires
        store.wf(),
    ensures
        r@ == encoding(store@),
{
    let entries = store.list();
    let mut out: Vec<u8> = Vec::new();
    out.push(0x4du8);
    out.push(0x52u8);
    out.push(0x55u8);
    out.push(0x48u8);
    out.push(FORMAT_MAJOR);
    out.push(FORMAT_MINOR);
    push_u64(&mut out, store.capacity() as u64);
    push_u64(&mut out, store.clock());
    push_u64(&mut out, entries.len() as u64);
    let ghost head = out@;
    assert(head =~= magic() + seq![FORMAT_MAJOR, FORMAT_MINOR] + enc_u64(store@.capacity as u64)
        + enc_u64(store@.clock) + enc_u64(store@.entries.len() as u64));
    let ghost ms = store@.entries;
    let mut i: usize = 0;
    while i < entries.len()
        invariant
            models(entries@) == ms,
            i <= entries@.len(),
            out@ == head + enc_entries(ms.take(i as int)),
        decreases entries@.len() - i,
    {
        let e = &entries[i];
        assert(e@ == ms[i as int]);
        push_u64(&mut out, e.identity.len() as u64);
        let mut id = slice_to_vec(e.identity.as_slice());
        out.append(&mut id);
        push_u64(&mut out, e.last_used_at);
        push_u64(&mut out, e.use_count);
        proof {
            lemma_enc_entries_take(ms, i as int);
        }
        assert(out@ =~= head + enc_entries(ms.take(i + 1)));
        i = i + 1;
    }
    assert(ms.take(ms.len() as int) =~= ms);
    out
}

/// Whether the entries have unique identities and timestamps that follow
/// their order without passing `clock`.
fn entries_consistent(entries: &Vec<Entry>, clock: u64) -> (r: bool)
    ensures
        r == (identities_unique(models(entries@)) && stamps_ordered(models(entries@), clock)),
{
    let ghost ms = models(entries@);
    let mut j: usize = 0;
    while j < entries.len()
        invariant
            ms == models(entries@),
            j <= ms.len(),
            forall|a: int, c: int| 0 <= a < c < j ==> ms[a].identity != ms[c].identity,
            forall|a: int, c: int| 0 <= a <= c < j ==> ms[c].last_used_at <= ms[a].last_used_at,
            forall|a: int| 0 <= a < j ==> ms[a].last_used_at <= clock,
        decreases ms.len() - j,
    {
        assert(ms[j as int] == entries@[j as int]@);
        if entries[j].last_used_at > clock {
            return false;
        }
        if j > 0 {
            assert(ms[j - 1] == entries@[j - 1]@);
            if entries[j].last_used_at > entries[j - 1].last_used_at {
                return false;
            }
        }
        let mut i: usize = 0;
        while i < j
            invariant
                ms == models(entries@),
                i <= j < ms.len(),
                forall|a: int| 0 <= a < i ==> ms[a].identity != ms[j as int].identity,
            decreases j - i,
        {
            assert(ms[i as int] == entries@[i as int]@);
            assert(ms[j as int] == entries@[j as int]@);
            if same_identity(entries[i].identity.as_slice(), entries[j].identity.as_slice()) {
                return false;
            }
            i = i + 1;
        }
        j = j + 1;
    }
    assert forall|a: int, c: int|
        0 <= a < ms.len() && 0 <= c < ms.len() && a != c implies ms[a].identity
        != ms[c].identity by {
        if a > c {
            assert(ms[c].identity != ms[a].identity);
        }
    }
    true
}

/// Reads a store back from `bytes`, or says why it cannot.
pub fn decode(bytes: &[u8]) -> (r: Result<HistoryStore, CorruptionError>)
    ensures
        match r {
            Ok(s) => s.wf() && parse_store(bytes@) == Ok::<StoreModel, CorruptionError>(s@),
            Err(e) => parse_store(bytes@) == Err::<StoreModel, CorruptionError>(e),
        },
{
    let b = bytes;
    if b.len() < 6 {
        return Err(CorruptionError::Truncated);
    }
    if !(b[0] == 0x4du8 && b[1] == 0x52u8 && b[2] == 0x55u8 && b[3] == 0x48u8) {
        assert(b@.take(4) != magic()) by {
            if b@.take(4) == magic() {
                assert(b@.take(4)[0] == b@[0] && b@.take(4)[1] == b@[1]);
                assert(b@.take(4)[2] == b@[2] && b@.take(4)[3] == b@[3]);
            }
        }
        return Err(CorruptionError::NotAHistory);
    }
    assert(b@.take(4) =~= magic());
    if b[4] != FORMAT_MAJOR {
        return Err(CorruptionError::UnsupportedVersion);
    }
    if b.len() < HEADER_LEN {
        return Err(CorruptionError::Truncated);
    }
    let capacity = read_u64(b, 6);
    let clock = read_u64(b, 14);
    let count = read_u64(b, 22);
    if capacity > usize::MAX as u64 || count > capacity {
        return Err(CorruptionError::Malformed);
    }
    let mut entries: Vec<Entry> = Vec::new();
    let mut pos: usize = HEADER_LEN;
    let mut k: u64 = 0;
    while k < count
        invariant
            k <= count,
            HEADER_LEN <= pos <= b@.len(),
            b@.len() <= usize::MAX,
            b@ == bytes@,
            parse_entries(b@, HEADER_LEN as int, k as nat) == Some((models(entries@), pos as int)),
            identities_fit(models(entries@)),
            entries@.len() == k,
            parse_store(b@) == (match parse_entries(b@, HEADER_LEN as int, count as nat) {
                None => Err(CorruptionError::Truncated),
                Some((es, _)) => {
                    let m = StoreModel { entries: es, capacity: capacity as nat, clock };
                    if m.valid() {
                        Ok(m)
                    } else {
                        Err(CorruptionError::Malformed)
                    }
                },
            }),
        decreases count - k,
    {
        if b.len() - pos < 8 {
            assert(parse_entry(b@, pos as int) is None);
            assert(parse_entries(b@, HEADER_LEN as int, (k + 1) as nat) is None);
            proof {
                lemma_parse_entries_stuck(b@, HEADER_LEN as int, (k + 1) as nat, count as nat);
                assert(parse_entries(b@, HEADER_LEN as int, count as nat) is None);
            }
            assert(parse_store(b@) == Err::<StoreModel, CorruptionError>(
                CorruptionError::Truncated,
            ));
            return Err(CorruptionError::Truncated);
        }
        let n = read_u64(b, pos);
        if ((b.len() - pos - 8) as u64) < n || b.len() - pos - 8 - (n as usize) < 16 {
            assert(parse_entry(b@, pos as int) is None);
            assert(parse_entries(b@, HEADER_LEN as int, (k + 1) as nat) is None);
            proof {
                lemma_parse_entries_stuck(b@, HEADER_LEN as int, (k + 1) as nat, count as nat);
                assert(parse_entries(b@, HEADER_LEN as int, count as nat) is None);
            }
            assert(parse_store(b@) == Err::<StoreModel, CorruptionError>(
                CorruptionError::Truncated,
            ));
            return Err(CorruptionError::Truncated);
        }
        let n = n as usize;
        let identity = slice_to_vec(slice_subrange(b, pos + 8, pos + 8 + n));
        let last_used_at = read_u64(b, pos + 8 + n);
        let use_count = read_u64(b, pos + 16 + n);
        let ghost before = entries@;
        entries.push(Entry { identity, last_used_at, use_count });
        assert(models(entries@) =~= models(before).push(entries@.last()@));
        pos = pos + 24 + n;
        k = k + 1;
    }
    if !entries_consistent(&entries, clock) {
        return Err(CorruptionError::Malformed);
    }
    Ok(HistoryStore::from_parts(entries, capacity as usize, clock))
}

} // verus!
