use genie::paths::{compare_paths, Rank};

#[test]
fn paths_compare_byte_by_byte() {
    assert_eq!(compare_paths("a", "b"), Rank::Before);
    assert_eq!(compare_paths("b", "a"), Rank::After);
    assert_eq!(compare_paths("a/b", "a/b"), Rank::Same);
    assert_eq!(compare_paths("", ""), Rank::Same);
}

#[test]
fn a_path_comes_before_its_extensions() {
    assert_eq!(compare_paths("src", "src/main.rs"), Rank::Before);
    assert_eq!(compare_paths("src/main.rs", "src"), Rank::After);
    assert_eq!(compare_paths("", "a"), Rank::Before);
}

#[test]
fn the_order_of_paths_is_the_order_of_strings() {
    let samples = ["", "a", "A", "a/b", "a.b", "a b", "é", "z", "日本", "a/é", "\u{10000}", "~"];
    for x in samples {
        for y in samples {
            let expected = if x < y {
                Rank::Before
            } else if x == y {
                Rank::Same
            } else {
                Rank::After
            };
            assert_eq!(compare_paths(x, y), expected, "{:?} against {:?}", x, y);
        }
    }
}
