use genie::build_ignore_set;
use genie::engine::{commit, status};
use genie::fingerprint::{Fingerprint, Observed};
use genie::store::{SnapshotStore, StoreError};
use genie::{make_commit, show_log, show_status, Repository};

const ROOT: &str = "/work/project";

fn none() -> globset::GlobSet {
    build_ignore_set("")
}

fn seen(rel: &str, size: u64, modified: u64) -> Observed {
    Observed {
        path: format!("/work/project/{}", rel),
        state: Some(Fingerprint::Metadata { size, modified }),
    }
}

fn paths_of_latest(store: &SnapshotStore) -> Vec<String> {
    let snapshot = store.latest_snapshot().unwrap();
    let mut out = Vec::new();
    let mut i = 0;
    while i < snapshot.len() {
        out.push(snapshot.entry(i).path.clone());
        i += 1;
    }
    out
}

#[test]
fn a_commit_records_every_file_once() {
    let mut store = SnapshotStore::new();
    let observed = vec![seen("src/main.rs", 10, 1), seen("Cargo.toml", 20, 2), seen("README.md", 30, 3)];
    assert_eq!(commit(&mut store, 1000, "first", ROOT, &none(), &observed), Ok(1));
    assert_eq!(paths_of_latest(&store), vec!["Cargo.toml", "README.md", "src/main.rs"]);
    let log = store.all_commits();
    assert_eq!(log.len(), 1);
    assert_eq!(log[0].id, 1);
    assert_eq!(log[0].timestamp, 1000);
    assert_eq!(log[0].message, "first");
    assert_eq!(log[0].author, "local-user");
}

#[test]
fn a_commit_leaves_out_what_cannot_be_fingerprinted() {
    let mut store = SnapshotStore::new();
    let observed = vec![
        seen("a", 1, 1),
        Observed { path: "/work/project/b".to_string(), state: None },
        Observed {
            path: "/work/project/.genie/history.db".to_string(),
            state: Some(Fingerprint::Metadata { size: 1, modified: 1 }),
        },
        Observed {
            path: "/elsewhere/c".to_string(),
            state: Some(Fingerprint::Metadata { size: 1, modified: 1 }),
        },
    ];
    assert_eq!(commit(&mut store, 1, "m", ROOT, &none(), &observed), Ok(1));
    assert_eq!(paths_of_latest(&store), vec!["a"]);
}

#[test]
fn status_right_after_a_commit_is_clean() {
    let mut store = SnapshotStore::new();
    let observed = vec![seen("b", 2, 2), seen("a", 1, 1)];
    commit(&mut store, 5, "msg", ROOT, &none(), &observed).unwrap();
    let s = status(&store, ROOT, &none(), &observed);
    assert_eq!(s.commits, 1);
    assert!(s.report.untracked.is_empty());
    assert!(s.report.modified.is_empty());
    assert!(s.report.is_clean());
    assert_eq!(s.report.unchanged, vec!["a", "b"]);
}

#[test]
fn status_twice_gives_the_same_report() {
    let mut store = SnapshotStore::new();
    commit(&mut store, 5, "msg", ROOT, &none(), &vec![seen("a", 1, 1), seen("b", 2, 2)]).unwrap();
    let now = vec![seen("c", 3, 3), seen("b", 2, 9), seen("a", 1, 1)];
    let first = status(&store, ROOT, &none(), &now);
    let second = status(&store, ROOT, &none(), &now);
    assert_eq!(first, second);
    assert_eq!(first.report.untracked, vec!["c"]);
    assert_eq!(first.report.modified, vec!["b"]);
}

#[test]
fn status_does_not_change_the_store() {
    let mut store = SnapshotStore::new();
    commit(&mut store, 5, "msg", ROOT, &none(), &vec![seen("a", 1, 1)]).unwrap();
    let before = paths_of_latest(&store);
    status(&store, ROOT, &none(), &vec![seen("zzz", 1, 1)]);
    assert_eq!(store.len(), 1);
    assert_eq!(paths_of_latest(&store), before);
}

#[test]
fn a_rewritten_file_shows_as_modified_after_a_commit() {
    let t = 1_700_000_000;
    let mut store = SnapshotStore::new();
    commit(&mut store, t, "ten bytes", ROOT, &none(), &vec![seen("data.bin", 10, t)]).unwrap();
    let s = status(&store, ROOT, &none(), &vec![seen("data.bin", 12, t + 5)]);
    assert_eq!(s.report.modified, vec!["data.bin"]);
    assert!(s.report.untracked.is_empty());
}

#[test]
fn a_fresh_repository_shows_its_file_as_untracked() {
    let store = SnapshotStore::new();
    let s = status(&store, ROOT, &none(), &vec![seen("a.txt", 1, 1)]);
    assert_eq!(s.commits, 0);
    assert_eq!(s.report.untracked, vec!["a.txt"]);
    assert_eq!(s.report.modified.len(), 0);
}

#[test]
fn status_compares_against_the_latest_commit_only() {
    let mut store = SnapshotStore::new();
    commit(&mut store, 1, "one", ROOT, &none(), &vec![seen("old", 1, 1)]).unwrap();
    commit(&mut store, 2, "two", ROOT, &none(), &vec![seen("new", 2, 2)]).unwrap();
    let s = status(&store, ROOT, &none(), &vec![seen("old", 1, 1), seen("new", 2, 2)]);
    assert_eq!(s.commits, 2);
    assert_eq!(s.report.untracked, vec!["old"]);
    assert_eq!(s.report.unchanged, vec!["new"]);
}

#[test]
fn a_commit_with_a_repeated_path_leaves_no_trace() {
    let mut store = SnapshotStore::new();
    commit(&mut store, 1, "one", ROOT, &none(), &vec![seen("a", 1, 1)]).unwrap();
    let r = commit(&mut store, 2, "two", ROOT, &none(), &vec![seen("x", 1, 1), seen("y", 2, 2), seen("x", 3, 3)]);
    assert_eq!(r, Err(StoreError::WriteFailure));
    assert_eq!(store.len(), 1);
    assert_eq!(store.latest_commit_id(), Some(1));
    assert_eq!(paths_of_latest(&store), vec!["a"]);
    assert_eq!(commit(&mut store, 3, "three", ROOT, &none(), &vec![seen("x", 1, 1)]), Ok(2));
}

#[test]
fn three_commits_are_logged_in_order() {
    let mut repo = Repository::Open(SnapshotStore::new());
    assert_eq!(make_commit(&mut repo, 100, "one", ROOT, &none(), &vec![seen("a", 1, 1)]), Ok(1));
    assert_eq!(make_commit(&mut repo, 100, "two", ROOT, &none(), &vec![seen("a", 2, 2)]), Ok(2));
    assert_eq!(make_commit(&mut repo, 107, "three", ROOT, &none(), &vec![seen("a", 3, 3)]), Ok(3));
    let log = show_log(&repo).unwrap();
    let ids: Vec<i64> = log.iter().map(|c| c.id).collect();
    let times: Vec<u64> = log.iter().map(|c| c.timestamp).collect();
    assert_eq!(ids, vec![1, 2, 3]);
    assert_eq!(times, vec![100, 100, 107]);
}

#[test]
fn without_a_repository_every_operation_says_so() {
    let mut repo = Repository::NotInitialized;
    assert_eq!(show_status(&repo, ROOT, &none(), &vec![seen("a", 1, 1)]), Err(StoreError::NotInitialized));
    assert_eq!(make_commit(&mut repo, 1, "m", ROOT, &none(), &vec![seen("a", 1, 1)]), Err(StoreError::NotInitialized));
    assert_eq!(show_log(&repo), Err(StoreError::NotInitialized));
    assert_eq!(repo, Repository::NotInitialized);
}

#[test]
fn an_unreadable_store_is_reported_as_unavailable() {
    let mut repo = Repository::Unavailable;
    assert_eq!(show_status(&repo, ROOT, &none(), &vec![]), Err(StoreError::StoreUnavailable));
    assert_eq!(make_commit(&mut repo, 1, "m", ROOT, &none(), &vec![]), Err(StoreError::StoreUnavailable));
    assert_eq!(show_log(&repo), Err(StoreError::StoreUnavailable));
}

#[test]
fn an_open_repository_shows_its_status() {
    let mut repo = Repository::Open(SnapshotStore::new());
    make_commit(&mut repo, 1, "m", ROOT, &none(), &vec![seen("a", 1, 1)]).unwrap();
    let s = show_status(&repo, ROOT, &none(), &vec![seen("a", 1, 1), seen("b", 1, 1)]).unwrap();
    assert_eq!(s.commits, 1);
    assert_eq!(s.report.untracked, vec!["b"]);
    assert_eq!(s.report.unchanged, vec!["a"]);
}

#[test]
fn a_repository_is_what_was_found_at_the_root() {
    assert_eq!(genie::open_repository(false, None), Repository::NotInitialized);
    assert_eq!(genie::open_repository(false, Some(SnapshotStore::new())), Repository::NotInitialized);
    assert_eq!(genie::open_repository(true, None), Repository::Unavailable);
    assert_eq!(
        genie::open_repository(true, Some(SnapshotStore::new())),
        Repository::Open(SnapshotStore::new())
    );
}

#[test]
fn rows_are_paths_relative_to_the_root() {
    let mut store = SnapshotStore::new();
    let observed = vec![
        seen("src/deep/a.rs", 1, 1),
        Observed {
            path: "/work/project//odd".to_string(),
            state: Some(Fingerprint::Metadata { size: 1, modified: 1 }),
        },
        Observed {
            path: "/work/projects/b".to_string(),
            state: Some(Fingerprint::Metadata { size: 1, modified: 1 }),
        },
        Observed {
            path: "/work/project/x/.genie/y".to_string(),
            state: Some(Fingerprint::Metadata { size: 1, modified: 1 }),
        },
    ];
    assert_eq!(commit(&mut store, 1, "m", "/work/project/", &none(), &observed), Ok(1));
    assert_eq!(paths_of_latest(&store), vec!["src/deep/a.rs"]);
}

#[test]
fn a_commit_holds_no_file_that_the_ignore_set_excludes() {
    let mut store = SnapshotStore::new();
    let set = build_ignore_set("*.log\nbuild/\n");
    let observed = vec![seen("a.rs", 1, 1), seen("x/today.log", 2, 2), seen("build/out", 3, 3)];
    assert_eq!(commit(&mut store, 1, "m", ROOT, &set, &observed), Ok(1));
    assert_eq!(paths_of_latest(&store), vec!["a.rs"]);
    let s = status(&store, ROOT, &set, &observed);
    assert!(s.report.is_clean());
    assert_eq!(s.report.unchanged, vec!["a.rs"]);
}

#[test]
fn a_project_below_a_directory_named_like_the_control_directory_is_committed() {
    let root = "/work/.genie/project";
    let observed = vec![
        Observed {
            path: "/work/.genie/project/a.txt".to_string(),
            state: Some(Fingerprint::Metadata { size: 1, modified: 1 }),
        },
        Observed {
            path: "/work/.genie/project/src/b.rs".to_string(),
            state: Some(Fingerprint::Metadata { size: 2, modified: 2 }),
        },
        Observed {
            path: "/work/.genie/project/.genie/history.db".to_string(),
            state: Some(Fingerprint::Metadata { size: 3, modified: 3 }),
        },
    ];
    let mut store = SnapshotStore::new();
    let fresh = status(&store, root, &none(), &observed);
    assert_eq!(fresh.report.untracked, vec!["a.txt", "src/b.rs"]);
    assert_eq!(commit(&mut store, 1, "m", root, &none(), &observed), Ok(1));
    assert_eq!(paths_of_latest(&store), vec!["a.txt", "src/b.rs"]);
    assert!(status(&store, root, &none(), &observed).report.is_clean());
}

#[test]
fn a_project_at_a_root_named_like_the_control_directory_shows_its_files() {
    let mut repo = Repository::Open(SnapshotStore::new());
    let observed = vec![Observed {
        path: "/.genie/a.txt".to_string(),
        state: Some(Fingerprint::Metadata { size: 1, modified: 1 }),
    }];
    let s = show_status(&repo, "/.genie", &none(), &observed).unwrap();
    assert_eq!(s.report.untracked, vec!["a.txt"]);
    assert_eq!(make_commit(&mut repo, 1, "m", "/.genie", &none(), &observed), Ok(1));
    let after = show_status(&repo, "/.genie", &none(), &observed).unwrap();
    assert_eq!(after.report.unchanged, vec!["a.txt"]);
}
