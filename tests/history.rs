use dm_tools::entry::Entry;
use dm_tools::history::HistoryStore;

fn ids(store: &HistoryStore) -> Vec<Vec<u8>> {
    store.list().iter().map(|e: &Entry| e.identity.clone()).collect()
}

fn id(s: &str) -> Vec<u8> {
    s.as_bytes().to_vec()
}

#[test]
fn eviction_drops_least_recently_used() {
    let mut s = HistoryStore::new(2);
    s.record_use(id("A"), 1);
    s.record_use(id("B"), 2);
    s.record_use(id("C"), 3);
    assert_eq!(ids(&s), vec![id("C"), id("B")]);
}

#[test]
fn re_adding_moves_to_front_without_duplicate() {
    let mut s = HistoryStore::new(10);
    s.record_use(id("A"), 1);
    s.record_use(id("B"), 2);
    s.record_use(id("A"), 3);
    assert_eq!(ids(&s), vec![id("A"), id("B")]);
    assert_eq!(s.list()[0].use_count, 2);
    assert_eq!(s.list()[1].use_count, 1);
}

#[test]
fn most_recent_is_first_after_many_uses() {
    let mut s = HistoryStore::new(3);
    for (t, name) in ["a", "b", "c", "b", "d", "a"].iter().enumerate() {
        s.record_use(id(name), t as u64);
        assert_eq!(s.list()[0].identity, id(name));
        assert!(s.len() <= s.capacity());
    }
    assert_eq!(ids(&s), vec![id("a"), id("d"), id("b")]);
}

#[test]
fn identities_stay_unique() {
    let mut s = HistoryStore::new(5);
    for (t, name) in ["x", "y", "x", "x", "y", "z"].iter().enumerate() {
        s.record_use(id(name), t as u64);
    }
    let got = ids(&s);
    for i in 0..got.len() {
        for j in 0..got.len() {
            if i != j {
                assert_ne!(got[i], got[j]);
            }
        }
    }
    assert_eq!(got, vec![id("z"), id("y"), id("x")]);
}

#[test]
fn timestamps_never_go_back() {
    let mut s = HistoryStore::new(4);
    s.record_use(id("a"), 100);
    s.record_use(id("b"), 50);
    assert_eq!(s.list()[0].last_used_at, 100);
    assert_eq!(s.clock(), 100);
    s.record_use(id("c"), 120);
    assert_eq!(s.list()[0].last_used_at, 120);
    assert_eq!(s.clock(), 120);
}

#[test]
fn remove_reports_presence() {
    let mut s = HistoryStore::new(4);
    s.record_use(id("a"), 1);
    s.record_use(id("b"), 2);
    assert!(s.remove(b"a"));
    assert!(!s.remove(b"a"));
    assert!(!s.remove(b"zzz"));
    assert_eq!(ids(&s), vec![id("b")]);
    assert!(!s.contains(b"a"));
    assert!(s.contains(b"b"));
}

#[test]
fn clear_empties() {
    let mut s = HistoryStore::new(4);
    s.record_use(id("a"), 1);
    s.clear();
    assert_eq!(s.len(), 0);
    assert_eq!(s.capacity(), 4);
}

#[test]
fn shrinking_capacity_evicts_tail() {
    let mut s = HistoryStore::new(4);
    for (t, name) in ["a", "b", "c", "d"].iter().enumerate() {
        s.record_use(id(name), t as u64);
    }
    s.set_capacity(2);
    assert_eq!(ids(&s), vec![id("d"), id("c")]);
    s.set_capacity(5);
    assert_eq!(ids(&s), vec![id("d"), id("c")]);
    assert_eq!(s.capacity(), 5);
}

#[test]
fn zero_capacity_holds_nothing() {
    let mut s = HistoryStore::new(0);
    s.record_use(id("a"), 1);
    assert_eq!(s.len(), 0);
}

#[test]
fn find_gives_position() {
    let mut s = HistoryStore::new(4);
    s.record_use(id("a"), 1);
    s.record_use(id("b"), 2);
    assert_eq!(s.find(b"a"), Some(1));
    assert_eq!(s.find(b"b"), Some(0));
    assert_eq!(s.find(b"c"), None);
}

#[test]
fn use_count_saturates() {
    let mut v = Vec::new();
    v.push(Entry::new(id("a"), 5, u64::MAX));
    let mut s = HistoryStore::from_parts(v, 3, 5);
    s.record_use(id("a"), 6);
    assert_eq!(s.list()[0].use_count, u64::MAX);
}

#[test]
fn identity_comparison() {
    assert!(dm_tools::entry::same_identity(b"abc", b"abc"));
    assert!(!dm_tools::entry::same_identity(b"abc", b"abd"));
    assert!(!dm_tools::entry::same_identity(b"abc", b"ab"));
    assert!(dm_tools::entry::same_identity(b"", b""));
}
