use genie::registry::{add_to_registry, find_project, is_registered, RegistryEntry};

fn entry(name: &str, path: &str, created_at_unix: u64) -> RegistryEntry {
    RegistryEntry { name: name.to_string(), path: path.to_string(), created_at_unix }
}

#[test]
fn a_new_project_goes_to_the_end() {
    let mut entries = vec![entry("a", "/a", 1)];
    assert!(add_to_registry(&mut entries, "b", "/b", 2));
    assert_eq!(entries, vec![entry("a", "/a", 1), entry("b", "/b", 2)]);
}

#[test]
fn a_registered_root_is_not_added_again() {
    let mut entries = vec![entry("a", "/a", 1), entry("b", "/b", 2)];
    assert!(!add_to_registry(&mut entries, "renamed", "/a", 3));
    assert_eq!(entries, vec![entry("a", "/a", 1), entry("b", "/b", 2)]);
}

#[test]
fn the_first_project_enters_an_empty_registry() {
    let mut entries = Vec::new();
    assert!(add_to_registry(&mut entries, "p", "/home/u/p", 1700000000));
    assert_eq!(entries, vec![entry("p", "/home/u/p", 1700000000)]);
}

#[test]
fn two_projects_may_share_a_name() {
    let mut entries = vec![entry("p", "/a/p", 1)];
    assert!(add_to_registry(&mut entries, "p", "/b/p", 2));
    assert_eq!(entries.len(), 2);
}

#[test]
fn a_root_is_looked_up_by_its_whole_path() {
    let entries = vec![entry("a", "/a", 1)];
    assert!(is_registered(&entries, "/a"));
    assert!(!is_registered(&entries, "/a/"));
    assert!(!is_registered(&entries, "/A"));
    assert!(!is_registered(&Vec::new(), "/a"));
}

#[test]
fn a_project_is_found_by_name_the_first_of_that_name() {
    let entries = vec![entry("a", "/1", 1), entry("b", "/2", 2), entry("b", "/3", 3)];
    assert_eq!(find_project(&entries, "b"), Some(1));
    assert_eq!(find_project(&entries, "a"), Some(0));
    assert_eq!(find_project(&entries, "c"), None);
}
