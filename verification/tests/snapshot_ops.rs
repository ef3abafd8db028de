use genie::fingerprint::{FileFingerprint, Fingerprint};
use genie::snapshot::Snapshot;

fn file(path: &str, size: u64, modified: u64) -> FileFingerprint {
    FileFingerprint { path: path.to_string(), fingerprint: Fingerprint::Metadata { size, modified } }
}

fn paths(snapshot: &Snapshot) -> Vec<String> {
    let mut out = Vec::new();
    let mut i = 0;
    while i < snapshot.len() {
        out.push(snapshot.entry(i).path.clone());
        i += 1;
    }
    out
}

#[test]
fn a_new_snapshot_is_empty() {
    let s = Snapshot::new();
    assert_eq!(s.len(), 0);
    assert!(!s.contains("a"));
    assert_eq!(s.get("a"), None);
    assert_eq!(s.position("a"), (0, false));
}

#[test]
fn insert_keeps_the_paths_in_order() {
    let mut s = Snapshot::new();
    assert!(s.insert(file("m", 1, 1)));
    assert!(s.insert(file("a", 2, 2)));
    assert!(s.insert(file("z", 3, 3)));
    assert!(s.insert(file("b/c", 4, 4)));
    assert_eq!(paths(&s), vec!["a", "b/c", "m", "z"]);
    assert_eq!(s.position("b/c"), (1, true));
    assert_eq!(s.position("c"), (2, false));
    assert_eq!(s.position("zz"), (4, false));
}

#[test]
fn insert_refuses_a_path_that_is_taken() {
    let mut s = Snapshot::new();
    assert!(s.insert(file("a", 1, 1)));
    assert!(!s.insert(file("a", 9, 9)));
    assert_eq!(s.len(), 1);
    assert_eq!(s.get("a"), Some(&Fingerprint::Metadata { size: 1, modified: 1 }));
}

#[test]
fn replace_puts_the_later_file_in_place() {
    let mut s = Snapshot::new();
    s.replace(file("b", 1, 1));
    s.replace(file("a", 2, 2));
    s.replace(file("b", 3, 3));
    assert_eq!(paths(&s), vec!["a", "b"]);
    assert_eq!(s.get("b"), Some(&Fingerprint::Metadata { size: 3, modified: 3 }));
}

#[test]
fn from_files_needs_distinct_paths() {
    let good = vec![file("b", 1, 1), file("a", 2, 2)];
    let s = Snapshot::from_files(&good).unwrap();
    assert_eq!(paths(&s), vec!["a", "b"]);
    let bad = vec![file("b", 1, 1), file("a", 2, 2), file("b", 3, 3)];
    assert_eq!(Snapshot::from_files(&bad), None);
}

#[test]
fn overlay_lets_the_last_file_of_a_path_stay() {
    let files = vec![file("b", 1, 1), file("a", 2, 2), file("b", 3, 3)];
    let s = Snapshot::overlay(&files);
    assert_eq!(paths(&s), vec!["a", "b"]);
    assert_eq!(s.get("b"), Some(&Fingerprint::Metadata { size: 3, modified: 3 }));
    assert_eq!(s.get("a"), Some(&Fingerprint::Metadata { size: 2, modified: 2 }));
}

#[test]
fn a_copy_holds_the_same_files() {
    let s = Snapshot::from_files(&vec![file("x", 1, 2), file("y", 3, 4)]).unwrap();
    assert_eq!(s.duplicate(), s);
}

#[test]
fn lookups_find_every_file_of_a_large_snapshot() {
    let mut s = Snapshot::new();
    let mut i: u64 = 0;
    while i < 200 {
        let n = (i * 37) % 200;
        assert!(s.insert(file(&format!("dir{}/file{}", n % 7, n), n, n + 1)));
        i += 1;
    }
    assert_eq!(s.len(), 200);
    let listed = paths(&s);
    let mut sorted = listed.clone();
    sorted.sort();
    assert_eq!(listed, sorted);
    let mut n: u64 = 0;
    while n < 200 {
        let path = format!("dir{}/file{}", n % 7, n);
        assert_eq!(s.get(&path), Some(&Fingerprint::Metadata { size: n, modified: n + 1 }));
        n += 1;
    }
    assert!(!s.contains("dir0/file200"));
}
