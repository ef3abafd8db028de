use genie::fingerprint::{
    fingerprint, fingerprint_all, FileFingerprint, Fingerprint, Observed, Strategy,
};

fn none() -> globset::GlobSet {
    genie::build_ignore_set("")
}

fn seen(path: &str, state: Option<Fingerprint>) -> Observed {
    Observed { path: path.to_string(), state }
}

#[test]
fn metadata_fingerprint_holds_size_and_time() {
    assert_eq!(
        Fingerprint::from_metadata(10, Some(1700000000)),
        Fingerprint::Metadata { size: 10, modified: 1700000000 }
    );
}

#[test]
fn an_unknown_modification_time_counts_as_the_epoch() {
    assert_eq!(Fingerprint::from_metadata(10, None), Fingerprint::Metadata { size: 10, modified: 0 });
}

#[test]
fn content_fingerprint_holds_the_digest() {
    assert_eq!(
        Fingerprint::from_digest("ab12"),
        Fingerprint::ContentHash { digest: "ab12".to_string() }
    );
}

#[test]
fn a_fingerprint_knows_its_strategy() {
    assert_eq!(Fingerprint::from_metadata(1, Some(2)).strategy(), Strategy::Metadata);
    assert_eq!(Fingerprint::from_digest("00").strategy(), Strategy::ContentHash);
}

#[test]
fn metadata_fingerprints_differ_when_either_field_differs() {
    let a = Fingerprint::from_metadata(10, Some(5));
    assert!(a.same_as(&Fingerprint::from_metadata(10, Some(5))));
    assert!(!a.same_as(&Fingerprint::from_metadata(11, Some(5))));
    assert!(!a.same_as(&Fingerprint::from_metadata(10, Some(6))));
}

#[test]
fn content_fingerprints_match_exactly() {
    let a = Fingerprint::from_digest("abc");
    assert!(a.same_as(&Fingerprint::from_digest("abc")));
    assert!(!a.same_as(&Fingerprint::from_digest("abd")));
    assert!(!a.same_as(&Fingerprint::from_digest("ABC")));
}

#[test]
fn fingerprints_of_different_strategies_never_match() {
    let m = Fingerprint::from_metadata(0, Some(0));
    let h = Fingerprint::from_digest("");
    assert!(!m.same_as(&h));
    assert!(!h.same_as(&m));
}

#[test]
fn a_copy_is_the_same_fingerprint() {
    let h = Fingerprint::from_digest("abc");
    assert_eq!(h.duplicate(), h);
    let f = FileFingerprint { path: "a".to_string(), fingerprint: h };
    assert_eq!(f.duplicate(), f);
}

#[test]
fn a_readable_file_under_the_root_is_fingerprinted() {
    let o = seen("/p/src/a.rs", Some(Fingerprint::from_metadata(3, Some(4))));
    assert_eq!(
        fingerprint("/p", &none(), &o),
        Some(FileFingerprint {
            path: "src/a.rs".to_string(),
            fingerprint: Fingerprint::Metadata { size: 3, modified: 4 },
        })
    );
}

#[test]
fn a_file_that_cannot_be_read_is_skipped() {
    assert_eq!(fingerprint("/p", &none(), &seen("/p/a", None)), None);
}

#[test]
fn a_file_outside_the_root_is_skipped() {
    let state = || Some(Fingerprint::from_metadata(1, Some(1)));
    assert_eq!(fingerprint("/p", &none(), &seen("/q/a", state())), None);
    assert_eq!(fingerprint("/p", &none(), &seen("/pq/a", state())), None);
    assert_eq!(fingerprint("/p", &none(), &seen("/p", state())), None);
    assert_eq!(fingerprint("/p", &none(), &seen("/p/", state())), None);
    assert_eq!(fingerprint("/p", &none(), &seen("p/a", state())), None);
}

#[test]
fn a_file_inside_a_control_directory_is_skipped() {
    let state = || Some(Fingerprint::from_metadata(1, Some(1)));
    assert_eq!(fingerprint("/p", &none(), &seen("/p/.genie/history.db", state())), None);
    assert_eq!(fingerprint("/p", &none(), &seen("/p/sub/.genie/x", state())), None);
    assert_eq!(
        fingerprint("/home/.genie/p", &none(), &seen("/home/.genie/p/.genie/a", state())),
        None
    );
    assert!(fingerprint("/p", &none(), &seen("/p/.genie2/x", state())).is_some());
}

#[test]
fn fingerprints_come_in_the_order_of_the_scan() {
    let observed = vec![
        seen("/p/b", Some(Fingerprint::from_metadata(1, Some(1)))),
        seen("/p/gone", None),
        seen("/p/.genie/lock", Some(Fingerprint::from_metadata(0, Some(1)))),
        seen("/p/a", Some(Fingerprint::from_metadata(2, None))),
    ];
    let files = fingerprint_all("/p", &none(), &observed);
    assert_eq!(
        files,
        vec![
            FileFingerprint {
                path: "b".to_string(),
                fingerprint: Fingerprint::Metadata { size: 1, modified: 1 },
            },
            FileFingerprint {
                path: "a".to_string(),
                fingerprint: Fingerprint::Metadata { size: 2, modified: 0 },
            },
        ]
    );
}

#[test]
fn a_path_with_a_segment_without_a_name_is_skipped() {
    let state = || Some(Fingerprint::from_metadata(1, Some(1)));
    assert_eq!(fingerprint("/p", &none(), &seen("/p//a", state())), None);
    assert_eq!(fingerprint("/p", &none(), &seen("/p/a//b", state())), None);
    assert_eq!(fingerprint("/p", &none(), &seen("/p/a/", state())), None);
}

#[test]
fn the_root_may_end_in_a_slash() {
    let o = seen("/p/a/b", Some(Fingerprint::from_metadata(1, Some(1))));
    assert_eq!(fingerprint("/p/", &none(), &o).unwrap().path, "a/b");
    assert_eq!(fingerprint("/p", &none(), &o).unwrap().path, "a/b");
    let top = seen("/a", Some(Fingerprint::from_metadata(1, Some(1))));
    assert_eq!(fingerprint("/", &none(), &top).unwrap().path, "a");
}

#[test]
fn a_file_that_the_ignore_set_excludes_is_skipped() {
    let set = genie::build_ignore_set("*.o\n");
    let state = || Some(Fingerprint::from_metadata(1, Some(1)));
    assert_eq!(fingerprint("/p", &set, &seen("/p/a/b.o", state())), None);
    assert!(fingerprint("/p", &set, &seen("/p/a/b.c", state())).is_some());
}

#[test]
fn a_root_below_a_directory_named_like_the_control_directory_is_a_root_like_any() {
    let state = || Some(Fingerprint::from_metadata(7, Some(8)));
    assert_eq!(
        fingerprint("/home/.genie/p", &none(), &seen("/home/.genie/p/a", state())),
        Some(FileFingerprint {
            path: "a".to_string(),
            fingerprint: Fingerprint::Metadata { size: 7, modified: 8 },
        })
    );
    assert_eq!(
        fingerprint("/.genie", &none(), &seen("/.genie/src/a.txt", state())).unwrap().path,
        "src/a.txt"
    );
}
