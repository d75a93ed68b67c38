use dm_tools::codec::{decode, encode, CorruptionError};
use dm_tools::history::HistoryStore;
use dm_tools::manager::{
    apply_command, list_entries, load_store, Action, Command, Event, ManagerError, Outcome, Phase,
    Session,
};

/// Runs one invocation against `file`, the persisted bytes; a write replaces
/// them only when `write_ok` holds.
fn invoke(file: &mut Option<Vec<u8>>, command: Command, now: u64, write_ok: bool) -> Session {
    let (mut s, mut action) = Session::start(command, now, 3).unwrap();
    loop {
        let event = match action {
            Action::AcquireLock => Event::LockAcquired,
            Action::ReadStore => Event::StoreRead(file.clone()),
            Action::WriteStore(bytes) => {
                if write_ok {
                    *file = Some(bytes);
                    Event::StoreWritten
                } else {
                    Event::WriteFailed
                }
            }
            Action::ReleaseLock => Event::LockReleased,
            Action::Finish => return s,
            Action::Nothing => panic!("event out of order"),
        };
        action = s.step(event);
    }
}

fn ids(file: &Option<Vec<u8>>) -> Vec<Vec<u8>> {
    let s = decode(file.as_ref().unwrap()).unwrap();
    s.list().iter().map(|e| e.identity.clone()).collect()
}

#[test]
fn invalid_identity_is_refused_before_locking() {
    let r = Session::start(Command::Add(Vec::new()), 1, 3);
    assert_eq!(r.unwrap_err(), ManagerError::InvalidIdentity);
    let r = Session::start(Command::Remove(Vec::new()), 1, 3);
    assert_eq!(r.unwrap_err(), ManagerError::InvalidIdentity);
    let (s, a) = Session::start(Command::Clear, 1, 3).unwrap();
    assert_eq!(a, Action::AcquireLock);
    assert_eq!(s.phase, Phase::Idle);
}

#[test]
fn add_runs_the_whole_cycle() {
    let mut file = None;
    let s = invoke(&mut file, Command::Add(b"/a".to_vec()), 5, true);
    assert_eq!(s.phase, Phase::Released);
    assert_eq!(s.outcome, Some(Outcome::Added));
    assert_eq!(s.error, None);
    assert_eq!(ids(&file), vec![b"/a".to_vec()]);
    assert_eq!(decode(file.as_ref().unwrap()).unwrap().capacity(), 3);
}

#[test]
fn list_reads_without_writing() {
    let mut file = None;
    invoke(&mut file, Command::Add(b"/a".to_vec()), 1, true);
    invoke(&mut file, Command::Add(b"/b".to_vec()), 2, true);
    let (mut s, a) = Session::start(Command::List(Some(1)), 3, 3).unwrap();
    assert_eq!(a, Action::AcquireLock);
    assert_eq!(s.step(Event::LockAcquired), Action::ReadStore);
    assert_eq!(s.step(Event::StoreRead(file.clone())), Action::ReleaseLock);
    assert_eq!(s.phase, Phase::Loaded);
    assert_eq!(s.step(Event::LockReleased), Action::Finish);
    match s.outcome {
        Some(Outcome::Listed(es)) => {
            assert_eq!(es.len(), 1);
            assert_eq!(es[0].identity, b"/b".to_vec());
        }
        other => panic!("unexpected outcome {:?}", other),
    }
}

#[test]
fn remove_and_clear_report() {
    let mut file = None;
    invoke(&mut file, Command::Add(b"/a".to_vec()), 1, true);
    let s = invoke(&mut file, Command::Remove(b"/a".to_vec()), 2, true);
    assert_eq!(s.outcome, Some(Outcome::Removed(true)));
    let s = invoke(&mut file, Command::Remove(b"/a".to_vec()), 3, true);
    assert_eq!(s.outcome, Some(Outcome::Removed(false)));
    invoke(&mut file, Command::Add(b"/b".to_vec()), 4, true);
    let s = invoke(&mut file, Command::Clear, 5, true);
    assert_eq!(s.outcome, Some(Outcome::Cleared));
    assert!(ids(&file).is_empty());
}

#[test]
fn lock_timeout_fails_without_reading() {
    let (mut s, _) = Session::start(Command::Add(b"/a".to_vec()), 1, 3).unwrap();
    assert_eq!(s.step(Event::LockTimedOut), Action::Finish);
    assert_eq!(s.error, Some(ManagerError::LockTimeout));
    assert_eq!(s.phase, Phase::Released);
}

#[test]
fn read_failure_releases_the_lock() {
    let (mut s, _) = Session::start(Command::Add(b"/a".to_vec()), 1, 3).unwrap();
    s.step(Event::LockAcquired);
    assert_eq!(s.step(Event::ReadFailed), Action::ReleaseLock);
    assert_eq!(s.phase, Phase::Failed);
    assert_eq!(s.error, Some(ManagerError::Io));
    assert_eq!(s.step(Event::LockReleased), Action::Finish);
    assert_eq!(s.phase, Phase::Released);
}

#[test]
fn failed_write_keeps_previous_state() {
    let mut file = None;
    invoke(&mut file, Command::Add(b"/a".to_vec()), 1, true);
    let before = file.clone();
    let s = invoke(&mut file, Command::Add(b"/b".to_vec()), 2, false);
    assert_eq!(s.error, Some(ManagerError::Io));
    assert_eq!(s.outcome, None);
    assert_eq!(file, before);
    assert_eq!(ids(&file), vec![b"/a".to_vec()]);
}

#[test]
fn corrupt_file_is_replaced_by_empty_store() {
    let mut file = Some(b"garbage!".to_vec());
    let s = invoke(&mut file, Command::Add(b"/a".to_vec()), 1, true);
    assert_eq!(s.recovered, Some(CorruptionError::NotAHistory));
    assert_eq!(s.outcome, Some(Outcome::Added));
    assert_eq!(ids(&file), vec![b"/a".to_vec()]);
}

#[test]
fn out_of_order_event_changes_nothing() {
    let (mut s, _) = Session::start(Command::Clear, 1, 3).unwrap();
    assert_eq!(s.step(Event::StoreWritten), Action::Nothing);
    assert_eq!(s.phase, Phase::Idle);
}

#[test]
fn serialized_invocations_lose_no_update() {
    let mut file = None;
    let names: Vec<Vec<u8>> = vec![b"/3".to_vec(), b"/1".to_vec(), b"/2".to_vec()];
    for (t, n) in names.iter().enumerate() {
        invoke(&mut file, Command::Add(n.clone()), t as u64, true);
    }
    let mut got = ids(&file);
    got.sort();
    assert_eq!(got, vec![b"/1".to_vec(), b"/2".to_vec(), b"/3".to_vec()]);
}

#[test]
fn load_store_falls_back_to_default() {
    let (s, e) = load_store(None, 4);
    assert_eq!((s.len(), s.capacity(), e), (0, 4, None));
    let (s, e) = load_store(Some(&[0x4d, 0x52]), 4);
    assert_eq!((s.len(), s.capacity(), e), (0, 4, Some(CorruptionError::Truncated)));
    let mut good = HistoryStore::new(2);
    good.record_use(b"x".to_vec(), 1);
    let (s, e) = load_store(Some(&encode(&good)), 4);
    assert_eq!((s.len(), s.capacity(), e), (1, 2, None));
}

#[test]
fn list_limit_and_apply() {
    let mut s = HistoryStore::new(5);
    for (t, n) in ["a", "b", "c"].iter().enumerate() {
        assert_eq!(apply_command(&mut s, &Command::Add(n.as_bytes().to_vec()), t as u64), Outcome::Added);
    }
    assert_eq!(list_entries(&s, Some(2)).len(), 2);
    assert_eq!(list_entries(&s, Some(10)).len(), 3);
    assert_eq!(list_entries(&s, None)[0].identity, b"c".to_vec());
    assert!(Command::Clear.mutates());
    assert!(!Command::List(None).mutates());
}
