use genie::detect::{classify, diff, Change};
use genie::fingerprint::{FileFingerprint, Fingerprint};
use genie::snapshot::Snapshot;

fn file(path: &str, size: u64, modified: u64) -> FileFingerprint {
    FileFingerprint { path: path.to_string(), fingerprint: Fingerprint::Metadata { size, modified } }
}

fn snapshot(files: Vec<FileFingerprint>) -> Snapshot {
    Snapshot::from_files(&files).unwrap()
}

#[test]
fn a_file_is_classified_against_the_snapshot() {
    let prior = snapshot(vec![file("a", 1, 1), file("b", 2, 2)]);
    assert_eq!(classify(&prior, &file("a", 1, 1)), Change::Unchanged);
    assert_eq!(classify(&prior, &file("b", 2, 3)), Change::Modified);
    assert_eq!(classify(&prior, &file("c", 2, 2)), Change::Untracked);
}

#[test]
fn a_rewritten_file_is_modified_not_untracked() {
    let t = 1_700_000_000;
    let prior = snapshot(vec![file("notes.txt", 10, t)]);
    let current = snapshot(vec![file("notes.txt", 12, t + 5)]);
    let report = diff(&prior, &current);
    assert_eq!(report.modified, vec!["notes.txt"]);
    assert!(report.untracked.is_empty());
    assert!(report.unchanged.is_empty());
    assert!(!report.is_clean());
}

#[test]
fn without_a_commit_every_file_is_untracked() {
    let prior = Snapshot::new();
    let current = snapshot(vec![file("a.txt", 3, 7)]);
    let report = diff(&prior, &current);
    assert_eq!(report.untracked, vec!["a.txt"]);
    assert_eq!(report.modified.len(), 0);
    assert_eq!(report.unchanged.len(), 0);
}

#[test]
fn a_touch_without_a_change_of_size_is_a_modification() {
    let prior = snapshot(vec![file("a", 10, 100)]);
    let current = snapshot(vec![file("a", 10, 101)]);
    assert_eq!(diff(&prior, &current).modified, vec!["a"]);
}

#[test]
fn a_deleted_file_is_not_reported() {
    let prior = snapshot(vec![file("gone", 1, 1), file("kept", 2, 2)]);
    let current = snapshot(vec![file("kept", 2, 2)]);
    let report = diff(&prior, &current);
    assert!(report.untracked.is_empty());
    assert!(report.modified.is_empty());
    assert_eq!(report.unchanged, vec!["kept"]);
    assert!(report.is_clean());
}

#[test]
fn the_three_lists_divide_the_files_in_order_of_their_paths() {
    let prior = snapshot(vec![file("b", 1, 1), file("d", 1, 1), file("e", 1, 1), file("f", 1, 1)]);
    let current = snapshot(vec![
        file("f", 1, 1),
        file("e", 2, 1),
        file("c", 1, 1),
        file("b", 1, 2),
        file("a", 1, 1),
        file("d", 1, 1),
    ]);
    let report = diff(&prior, &current);
    assert_eq!(report.untracked, vec!["a", "c"]);
    assert_eq!(report.modified, vec!["b", "e"]);
    assert_eq!(report.unchanged, vec!["d", "f"]);
    assert_eq!(report.untracked.len() + report.modified.len() + report.unchanged.len(), current.len());
}

#[test]
fn a_snapshot_compared_against_itself_is_clean() {
    let s = snapshot(vec![file("x", 1, 2), file("y/z", 3, 4)]);
    let report = diff(&s, &s);
    assert!(report.is_clean());
    assert_eq!(report.unchanged, vec!["x", "y/z"]);
}

#[test]
fn a_change_of_strategy_shows_as_a_modification() {
    let prior = snapshot(vec![file("a", 1, 1)]);
    let current = Snapshot::from_files(&vec![FileFingerprint {
        path: "a".to_string(),
        fingerprint: Fingerprint::from_digest("00ff"),
    }])
    .unwrap();
    assert_eq!(diff(&prior, &current).modified, vec!["a"]);
}
