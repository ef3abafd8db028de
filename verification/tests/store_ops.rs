use genie::fingerprint::{FileFingerprint, Fingerprint};
use genie::snapshot::Snapshot;
use genie::store::{extend, Commit, SnapshotStore, StoreError};

fn file(path: &str, size: u64, modified: u64) -> FileFingerprint {
    FileFingerprint { path: path.to_string(), fingerprint: Fingerprint::Metadata { size, modified } }
}

fn made(id: i64, timestamp: u64, message: &str) -> Commit {
    Commit { id, timestamp, message: message.to_string(), author: "local-user".to_string() }
}

fn paths(snapshot: &Snapshot) -> Vec<String> {
    let mut out = Vec::new();
    let mut i = 0;
    while i < snapshot.len() {
        out.push(snapshot.entry(i).path.clone());
        i += 1;
    }
    out
}

#[test]
fn a_new_store_has_no_commits() {
    let store = SnapshotStore::new();
    assert_eq!(store.len(), 0);
    assert_eq!(store.latest_commit_id(), None);
    assert_eq!(store.latest_snapshot(), None);
    assert!(store.all_commits().is_empty());
    assert_eq!(store.fingerprints_for(1), None);
}

#[test]
fn identifiers_start_at_one_and_ascend() {
    let mut store = SnapshotStore::new();
    assert_eq!(store.create_commit(10, "first", "me"), Ok(1));
    assert_eq!(store.create_commit(20, "second", "me"), Ok(2));
    assert_eq!(store.create_commit(20, "third", "me"), Ok(3));
    assert_eq!(store.latest_commit_id(), Some(3));
    assert_eq!(store.len(), 3);
}

#[test]
fn a_created_commit_holds_what_it_was_given() {
    let mut store = SnapshotStore::new();
    let id = store.create_commit(1234, "message", "author").unwrap();
    assert_eq!(
        store.all_commits(),
        &vec![Commit {
            id,
            timestamp: 1234,
            message: "message".to_string(),
            author: "author".to_string(),
        }]
    );
    assert_eq!(store.fingerprints_for(id).unwrap().len(), 0);
}

#[test]
fn commits_are_logged_in_ascending_order() {
    let mut store = SnapshotStore::new();
    store.create_commit(100, "one", "me").unwrap();
    store.create_commit(100, "two", "me").unwrap();
    store.create_commit(105, "three", "me").unwrap();
    let log = store.all_commits();
    assert_eq!(log.len(), 3);
    assert!(log[0].id < log[1].id && log[1].id < log[2].id);
    assert!(log[0].timestamp <= log[1].timestamp && log[1].timestamp <= log[2].timestamp);
    assert_eq!(log[0].message, "one");
    assert_eq!(log[2].message, "three");
}

#[test]
fn the_next_identifier_follows_the_latest() {
    let mut store = SnapshotStore::load(vec![made(3, 1, "a"), made(8, 2, "b")], &vec![vec![], vec![]])
        .unwrap();
    assert_eq!(store.create_commit(3, "c", "me"), Ok(9));
}

#[test]
fn no_commit_is_created_when_identifiers_are_used_up() {
    let mut store = SnapshotStore::load(vec![made(i64::MAX, 1, "last")], &vec![vec![]]).unwrap();
    assert_eq!(store.create_commit(2, "one more", "me"), Err(StoreError::WriteFailure));
    assert_eq!(store.len(), 1);
    assert_eq!(store.latest_commit_id(), Some(i64::MAX));
}

#[test]
fn fingerprints_are_written_for_their_commit() {
    let mut store = SnapshotStore::new();
    let first = store.create_commit(1, "a", "me").unwrap();
    let second = store.create_commit(2, "b", "me").unwrap();
    assert_eq!(store.write_fingerprints(first, &vec![file("y", 1, 1), file("x", 2, 2)]), Ok(()));
    assert_eq!(store.write_fingerprints(second, &vec![file("z", 3, 3)]), Ok(()));
    assert_eq!(paths(store.fingerprints_for(first).unwrap()), vec!["x", "y"]);
    assert_eq!(paths(store.fingerprints_for(second).unwrap()), vec!["z"]);
    assert_eq!(paths(store.latest_snapshot().unwrap()), vec!["z"]);
}

#[test]
fn a_write_with_a_repeated_path_writes_nothing() {
    let mut store = SnapshotStore::new();
    let id = store.create_commit(1, "a", "me").unwrap();
    assert_eq!(
        store.write_fingerprints(id, &vec![file("a", 1, 1), file("b", 2, 2), file("a", 3, 3)]),
        Err(StoreError::WriteFailure)
    );
    assert_eq!(store.fingerprints_for(id).unwrap().len(), 0);
}

#[test]
fn a_write_over_a_recorded_path_writes_nothing() {
    let mut store = SnapshotStore::new();
    let id = store.create_commit(1, "a", "me").unwrap();
    store.write_fingerprints(id, &vec![file("a", 1, 1)]).unwrap();
    assert_eq!(
        store.write_fingerprints(id, &vec![file("b", 2, 2), file("a", 3, 3)]),
        Err(StoreError::WriteFailure)
    );
    assert_eq!(paths(store.fingerprints_for(id).unwrap()), vec!["a"]);
    assert_eq!(
        store.fingerprints_for(id).unwrap().get("a"),
        Some(&Fingerprint::Metadata { size: 1, modified: 1 })
    );
}

#[test]
fn a_write_for_an_unknown_commit_fails() {
    let mut store = SnapshotStore::new();
    store.create_commit(1, "a", "me").unwrap();
    assert_eq!(store.write_fingerprints(7, &vec![file("a", 1, 1)]), Err(StoreError::WriteFailure));
}

#[test]
fn the_same_path_may_stand_in_two_commits() {
    let mut store = SnapshotStore::new();
    let first = store.create_commit(1, "a", "me").unwrap();
    let second = store.create_commit(2, "b", "me").unwrap();
    assert_eq!(store.write_fingerprints(first, &vec![file("a", 1, 1)]), Ok(()));
    assert_eq!(store.write_fingerprints(second, &vec![file("a", 2, 2)]), Ok(()));
}

#[test]
fn a_store_is_loaded_from_its_rows() {
    let store = SnapshotStore::load(
        vec![made(1, 10, "one"), made(2, 20, "two")],
        &vec![vec![file("b", 1, 1), file("a", 2, 2)], vec![file("c", 3, 3)]],
    )
    .unwrap();
    assert_eq!(store.len(), 2);
    assert_eq!(store.latest_commit_id(), Some(2));
    assert_eq!(paths(store.fingerprints_for(1).unwrap()), vec!["a", "b"]);
    assert_eq!(paths(store.fingerprints_for(2).unwrap()), vec!["c"]);
    assert_eq!(store.all_commits(), &vec![made(1, 10, "one"), made(2, 20, "two")]);
}

#[test]
fn rows_that_no_store_can_hold_are_refused() {
    let unordered = SnapshotStore::load(vec![made(2, 1, "a"), made(1, 2, "b")], &vec![vec![], vec![]]);
    assert_eq!(unordered, Err(StoreError::StoreUnavailable));
    let repeated = SnapshotStore::load(vec![made(1, 1, "a"), made(1, 2, "b")], &vec![vec![], vec![]]);
    assert_eq!(repeated, Err(StoreError::StoreUnavailable));
    let uneven = SnapshotStore::load(vec![made(1, 1, "a")], &vec![]);
    assert_eq!(uneven, Err(StoreError::StoreUnavailable));
    let twice = SnapshotStore::load(vec![made(1, 1, "a")], &vec![vec![file("a", 1, 1), file("a", 1, 1)]]);
    assert_eq!(twice, Err(StoreError::StoreUnavailable));
}

#[test]
fn extending_a_snapshot_leaves_the_base_alone() {
    let base = Snapshot::from_files(&vec![file("a", 1, 1)]).unwrap();
    let more = extend(&base, &vec![file("c", 3, 3), file("b", 2, 2)]).unwrap();
    assert_eq!(paths(&more), vec!["a", "b", "c"]);
    assert_eq!(paths(&base), vec!["a"]);
    assert_eq!(extend(&base, &vec![file("a", 9, 9)]), None);
}
