use vstd::prelude::*;
use crate::entry::Entry;
use crate::history::{HistoryStore, StoreModel, models, holds_identity, keep_first};
use crate::codec::{CorruptionError, decode, encode, encoding, parse_store};

verus! {

/// The one operation an invocation applies to the history.
#[derive(Debug, Clone, PartialEq, Eq)]
pub enum Command {
    /// Record a use of an identity.
    Add(Vec<u8>),
    /// Read the entries, at most this many when a limit is given.
    List(Option<usize>),
    /// Drop the entry of an identity.
    Remove(Vec<u8>),
    /// Drop every entry.
    Clear,
}

/// Why an invocation failed.
#[derive(Debug, Clone, Copy, PartialEq, Eq, Structural)]
pub enum ManagerError {
    /// Another invocation held the lock past the configured wait.
    LockTimeout,
    /// Reading or replacing the persisted file failed.
    Io,
    /// The identity given is not one the history can hold.
    InvalidIdentity,
}

/// What a successful invocation reports.
#[derive(Debug, Clone, PartialEq, Eq)]
pub enum Outcome {
    Added,
    Listed(Vec<Entry>),
    /// Whether there was an entry to remove.
    Removed(bool),
    Cleared,
}

/// Where an invocation stands in its lifecycle.
#[derive(Debug, Clone, Copy, PartialEq, Eq, Structural)]
pub enum Phase {
    Idle,
    Locked,
    Loaded,
    Mutated,
    Persisted,
    Failed,
    Released,
}

/// What the surrounding program reports back after doing an action.
#[derive(Debug, Clone, PartialEq, Eq)]
pub enum Event {
    LockAcquired,
    LockTimedOut,
    /// The persisted bytes, or `None` when there is no file yet.
    StoreRead(Option<Vec<u8>>),
    ReadFailed,
    StoreWritten,
    WriteFailed,
    LockReleased,
}

/// What the surrounding program must do next.
#[derive(Debug, Clone, PartialEq, Eq)]
pub enum Action {
    AcquireLock,
    ReadStore,
    /// Replace the persisted file with these bytes, all at once.
    WriteStore(Vec<u8>),
    ReleaseLock,
    /// The invocation is over; its result is in the session.
    Finish,
    /// The event did not fit the phase; nothing changed.
    Nothing,
}

impl Command {
    /// Whether the command changes the persisted history.
    pub open spec fn spec_mutates(&self) -> bool {
        !(self is List)
    }

    pub fn mutates(&self) -> (r: bool)
        ensures
            r == self.spec_mutates(),
    {
        match self {
            Command::List(_) => false,
            _ => true,
        }
    }

    /// Whether the identity the command carries, if any, can be recorded.
    pub open spec fn spec_identity_ok(&self) -> bool {
        match self {
            Command::Add(id) => id@.len() > 0,
            Command::Remove(id) => id@.len() > 0,
            _ => true,
        }
    }
}

/// The store an invocation starts from: the decoded file, or an empty store of
/// the default capacity when there is no file or it does not decode.
pub open spec fn loaded_model(bytes: Option<Seq<u8>>, default_capacity: nat) -> StoreModel {
    let empty = StoreModel { entries: Seq::empty(), capacity: default_capacity, clock: 0 };
    match bytes {
        None => empty,
        Some(b) => match parse_store(b) {
            Ok(m) => m,
            Err(_) => empty,
        },
    }
}

/// The store after the command.
pub open spec fn applied(m: StoreModel, command: Command, now: u64) -> StoreModel {
    match command {
        Command::Add(id) => m.touched(id@, now),
        Command::Remove(id) => m.removed(id@),
        Command::Clear => m.cleared(),
        Command::List(_) => m,
    }
}

/// Whether `outcome` is what the command reports on store `m`.
pub open spec fn reports(m: StoreModel, command: Command, outcome: Outcome) -> bool {
    match command {
        Command::Add(_) => outcome is Added,
        Command::Remove(id) => outcome == Outcome::Removed(holds_identity(m.entries, id@)),
        Command::Clear => outcome is Cleared,
        Command::List(limit) => match outcome {
            Outcome::Listed(es) => models(es@) == match limit {
                Some(n) => keep_first(m.entries, n as nat),
                None => m.entries,
            },
            _ => false,
        },
    }
}

/// Reads the persisted bytes into a store; says which corruption, if any, was
/// recovered from by starting empty.
pub fn load_store(bytes: Option<&[u8]>, default_capacity: usize) -> (r: (
    HistoryStore,
    Option<CorruptionError>,
))
    ensures
        r.0.wf(),
        r.0@ == loaded_model(
            match bytes {
                Some(b) => Some(b@),
                None => None,
            },
            default_capacity as nat,
        ),
        r.1 == match bytes {
            Some(b) => match parse_store(b@) {
                Ok(_) => None,
                Err(e) => Some(e),
            },
            None => None,
        },
{
    match bytes {
        None => {
            let s = HistoryStore::new(default_capacity);
            assert(s@.entries =~= Seq::empty());
            (s, None)
        },
        Some(b) => match decode(b) {
            Ok(s) => (s, None),
            Err(e) => {
                let s = HistoryStore::new(default_capacity);
                assert(s@.entries =~= Seq::empty());
                (s, Some(e))
            },
        },
    }
}

/// The first `limit` entries of the store, or all of them.
pub fn list_entries(store: &HistoryStore, limit: Option<usize>) -> (r: Vec<Entry>)
    requires
        store.wf(),
    ensures
        models(r@) == match limit {
            Some(n) => keep_first(store@.entries, n as nat),
            None => store@.entries,
        },
{
    let all = store.list();
    let n = match limit {
        Some(n) => if n < all.len() {
            n
        } else {
            all.len()
        },
        None => all.len(),
    };
    let mut out: Vec<Entry> = Vec::new();
    let mut i: usize = 0;
    while i < n
        invariant
            models(all@) == store@.entries,
            n <= all@.len(),
            i <= n,
            models(out@) == models(all@).take(i as int),
        decreases n - i,
    {
        let e = all[i].duplicate();
        assert(e@ == models(all@)[i as int]);
        let ghost before = out@;
        out.push(e);
        assert(models(out@) =~= models(before).push(e@));
        assert(models(out@) =~= models(all@).take(i + 1));
        i = i + 1;
    }
    assert(models(out@) =~= match limit {
        Some(k) => keep_first(store@.entries, k as nat),
        None => store@.entries,
    });
    out
}

/// Applies the command to the store and says what it reports.
pub fn apply_command(store: &mut HistoryStore, command: &Command, now: u64) -> (r: Outcome)
    requires
        old(store).wf(),
    ensures
        final(store).wf(),
        final(store)@ == applied(old(store)@, *command, now),
        reports(old(store)@, *command, r),
{
    match command {
        Command::Add(id) => {
            let owned = duplicate_bytes(id);
            store.record_use(owned, now);
            Outcome::Added
        },
        Command::Remove(id) => Outcome::Removed(store.remove(id.as_slice())),
        Command::Clear => {
            store.clear();
            Outcome::Cleared
        },
        Command::List(limit) => Outcome::Listed(list_entries(store, *limit)),
    }
}

fn duplicate_bytes(b: &Vec<u8>) -> (r: Vec<u8>)
    ensures
        r@ == b@,
{
    vstd::slice::slice_to_vec(b.as_slice())
}

/// One invocation of the cache manager: the lock, load, mutate, save and
/// release cycle, driven by the events the surrounding program reports.
#[derive(Debug)]
pub struct Session {
    pub command: Command,
    pub now: u64,
    pub default_capacity: usize,
    pub phase: Phase,
    /// The store as loaded, then as changed by the command.
    pub store: HistoryStore,
    /// The corruption that loading recovered from, if any.
    pub recovered: Option<CorruptionError>,
    pub outcome: Option<Outcome>,
    pub error: Option<ManagerError>,
}

impl Session {
    pub open spec fn wf(&self) -> bool {
        self.store.wf()
    }

    /// Starts an invocation; a command with an invalid identity is refused
    /// before any lock is taken.
    pub fn start(command: Command, now: u64, default_capacity: usize) -> (r: Result<
        (Session, Action),
        ManagerError,
    >)
        ensures
            match r {
                Ok((s, a)) => {
                    &&& command.spec_identity_ok()
                    &&& s.wf()
                    &&& s.command == command
                    &&& s.now == now
                    &&& s.default_capacity == default_capacity
                    &&& s.phase == Phase::Idle
                    &&& s.outcome is None
                    &&& s.error is None
                    &&& s.recovered is None
                    &&& a is AcquireLock
                },
                Err(e) => !command.spec_identity_ok() && e == ManagerError::InvalidIdentity,
            },
    {
        let ok = match &command {
            Command::Add(id) => id.len() > 0,
            Command::Remove(id) => id.len() > 0,
            _ => true,
        };
        if !ok {
            return Err(ManagerError::InvalidIdentity);
        }
        let s = Session {
            command,
            now,
            default_capacity,
            phase: Phase::Idle,
            store: HistoryStore::new(default_capacity),
            recovered: None,
            outcome: None,
            error: None,
        };
        Ok((s, Action::AcquireLock))
    }

    /// Takes the next event and says what to do next.
    pub fn step(&mut self, event: Event) -> (a: Action)
        requires
            old(self).wf(),
        ensures
            final(self).wf(),
            final(self).command == old(self).command,
            final(self).now == old(self).now,
            final(self).default_capacity == old(self).default_capacity,
            match (old(self).phase, event) {
                (Phase::Idle, Event::LockAcquired) => {
                    &&& final(self).phase == Phase::Locked
                    &&& final(self).store@ == old(self).store@
                    &&& a is ReadStore
                },
                (Phase::Idle, Event::LockTimedOut) => {
                    &&& final(self).phase == Phase::Released
                    &&& final(self).error == Some(ManagerError::LockTimeout)
                    &&& a is Finish
                },
                (Phase::Locked, Event::StoreRead(bytes)) => {
                    let loaded = loaded_model(
                        match bytes {
                            Some(b) => Some(b@),
                            None => None,
                        },
                        old(self).default_capacity as nat,
                    );
                    &&& final(self).recovered == match bytes {
                        Some(b) => match parse_store(b@) {
                            Ok(_) => None,
                            Err(e) => Some(e),
                        },
                        None => None,
                    }
                    &&& final(self).store@ == applied(loaded, old(self).command, old(self).now)
                    &&& final(self).outcome matches Some(o) && reports(
                        loaded,
                        old(self).command,
                        o,
                    )
                    &&& if old(self).command.spec_mutates() {
                        &&& final(self).phase == Phase::Mutated
                        &&& a matches Action::WriteStore(w) && w@ == encoding(final(self).store@)
                    } else {
                        &&& final(self).phase == Phase::Loaded
                        &&& a is ReleaseLock
                    }
                },
                (Phase::Locked, Event::ReadFailed) => {
                    &&& final(self).phase == Phase::Failed
                    &&& final(self).error == Some(ManagerError::Io)
                    &&& a is ReleaseLock
                },
                (Phase::Mutated, Event::StoreWritten) => {
                    &&& final(self).phase == Phase::Persisted
                    &&& final(self).store@ == old(self).store@
                    &&& a is ReleaseLock
                },
                (Phase::Mutated, Event::WriteFailed) => {
                    &&& final(self).phase == Phase::Failed
                    &&& final(self).error == Some(ManagerError::Io)
                    &&& final(self).outcome is None
                    &&& a is ReleaseLock
                },
                (Phase::Loaded, Event::LockReleased) | (Phase::Persisted, Event::LockReleased) => {
                    &&& final(self).phase == Phase::Released
                    &&& final(self).store@ == old(self).store@
                    &&& a is Finish
                },
                (Phase::Failed, Event::LockReleased) => {
                    &&& final(self).phase == Phase::Released
                    &&& final(self).error == old(self).error
                    &&& a is Finish
                },
                _ => a is Nothing && final(self).phase == old(self).phase && final(self).store@
                    == old(self).store@,
            },
    {
        match (&self.phase, event) {
            (Phase::Idle, Event::LockAcquired) => {
                self.phase = Phase::Locked;
                Action::ReadStore
            },
            (Phase::Idle, Event::LockTimedOut) => {
                self.phase = Phase::Released;
                self.error = Some(ManagerError::LockTimeout);
                Action::Finish
            },
            (Phase::Locked, Event::StoreRead(bytes)) => {
                let (mut store, recovered) = match &bytes {
                    Some(b) => load_store(Some(b.as_slice()), self.default_capacity),
                    None => load_store(None, self.default_capacity),
                };
                let outcome = apply_command(&mut store, &self.command, self.now);
                self.recovered = recovered;
                self.outcome = Some(outcome);
                self.store = store;
                if self.command.mutates() {
                    self.phase = Phase::Mutated;
                    Action::WriteStore(encode(&self.store))
                } else {
                    self.phase = Phase::Loaded;
                    Action::ReleaseLock
                }
            },
            (Phase::Locked, Event::ReadFailed) => {
                self.phase = Phase::Failed;
                self.error = Some(ManagerError::Io);
                Action::ReleaseLock
            },
            (Phase::Mutated, Event::StoreWritten) => {
                self.phase = Phase::Persisted;
                Action::ReleaseLock
            },
            (Phase::Mutated, Event::WriteFailed) => {
                self.phase = Phase::Failed;
                self.error = Some(ManagerError::Io);
                self.outcome = None;
                Action::ReleaseLock
            },
            (Phase::Loaded, Event::LockReleased) | (Phase::Persisted, Event::LockReleased) => {
                self.phase = Phase::Released;
                Action::Finish
            },
            (Phase::Failed, Event::LockReleased) => {
                self.phase = Phase::Released;
                Action::Finish
            },
            _ => Action::Nothing,
        }
    }
}

} // verus!
