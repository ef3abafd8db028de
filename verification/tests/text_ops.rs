use genie::text::{
    chars_of, file_name, is_whitespace, path_has_segment, relative_path, same_text, split_str,
    strip_trailing_str, trim_str,
};

#[test]
fn chars_are_listed_in_order() {
    assert_eq!(chars_of("añb"), vec!['a', 'ñ', 'b']);
    assert!(chars_of("").is_empty());
}

#[test]
fn white_space_is_what_the_standard_library_calls_white_space() {
    let mut code: u32 = 0;
    while code <= 0x3100 {
        if let Some(c) = char::from_u32(code) {
            assert_eq!(is_whitespace(c), c.is_whitespace(), "code point {:#x}", code);
        }
        code += 1;
    }
}

#[test]
fn trim_removes_white_space_at_both_ends_only() {
    assert_eq!(trim_str("  a b \t\r\n"), "a b");
    assert_eq!(trim_str("\u{3000}x\u{a0}"), "x");
    assert_eq!(trim_str("   "), "");
    assert_eq!(trim_str(""), "");
    assert_eq!(trim_str("plain"), "plain");
}

#[test]
fn trim_agrees_with_the_standard_library() {
    for s in ["", " ", " a", "a ", "\ta\u{2003}b\u{2028}", "é \u{1680}", "\u{85}\u{85}"] {
        assert_eq!(trim_str(s), s.trim());
    }
}

#[test]
fn strip_trailing_removes_the_whole_run() {
    assert_eq!(strip_trailing_str("build/", '/'), "build");
    assert_eq!(strip_trailing_str("build///", '/'), "build");
    assert_eq!(strip_trailing_str("a/b", '/'), "a/b");
    assert_eq!(strip_trailing_str("///", '/'), "");
    assert_eq!(strip_trailing_str("", '/'), "");
}

#[test]
fn split_gives_one_piece_more_than_separators() {
    assert_eq!(split_str("a\nb", '\n'), vec!["a", "b"]);
    assert_eq!(split_str("a\n", '\n'), vec!["a", ""]);
    assert_eq!(split_str("\n\na", '\n'), vec!["", "", "a"]);
    assert_eq!(split_str("", '\n'), vec![""]);
    assert_eq!(split_str("no separator", '\n'), vec!["no separator"]);
}

#[test]
fn split_agrees_with_the_standard_library() {
    for s in ["", "/", "a/b/c", "//a//", "é/ü", "/home/u/.genie/x"] {
        let expected: Vec<String> = s.split('/').map(|p| p.to_string()).collect();
        assert_eq!(split_str(s, '/'), expected);
    }
}

#[test]
fn a_segment_is_a_whole_component() {
    assert!(path_has_segment("/home/u/p/.genie/history.db", ".genie"));
    assert!(path_has_segment(".genie", ".genie"));
    assert!(path_has_segment("a/.genie", ".genie"));
    assert!(!path_has_segment("a/.genie2/b", ".genie"));
    assert!(!path_has_segment("a/x.genie/b", ".genie"));
    assert!(!path_has_segment("", ".genie"));
}

#[test]
fn same_text_compares_character_by_character() {
    assert!(same_text("bash", "bash"));
    assert!(!same_text("bash", "Bash"));
    assert!(!same_text("bash", "bas"));
    assert!(same_text("", ""));
}

#[test]
fn a_path_is_made_relative_by_taking_off_the_root() {
    assert_eq!(relative_path("/home/u/p", "/home/u/p/src/main.rs"), Some("src/main.rs".to_string()));
    assert_eq!(relative_path("/home/u/p/", "/home/u/p/a"), Some("a".to_string()));
    assert_eq!(relative_path("/", "/a/b"), Some("a/b".to_string()));
    assert_eq!(relative_path("rel", "rel/é/x"), Some("é/x".to_string()));
}

#[test]
fn what_is_not_under_the_root_has_no_relative_path() {
    assert_eq!(relative_path("/home/u/p", "/home/u/p"), None);
    assert_eq!(relative_path("/home/u/p", "/home/u/p/"), None);
    assert_eq!(relative_path("/home/u/p", "/home/u/pq/a"), None);
    assert_eq!(relative_path("/home/u/p", "/home/u/q/a"), None);
    assert_eq!(relative_path("/home/u/p", "/home/u"), None);
    assert_eq!(relative_path("/home/u/p", "/home/u/p//a"), None);
    assert_eq!(relative_path("/home/u/p", "/home/u/p/a/"), None);
    assert_eq!(relative_path("/home/u/p", ""), None);
}

#[test]
fn the_name_of_a_file_is_the_last_segment_of_its_path() {
    assert_eq!(file_name("/p/src/main.rs"), "main.rs");
    assert_eq!(file_name("main.rs"), "main.rs");
    assert_eq!(file_name("/p/.genie"), ".genie");
    assert_eq!(file_name("/p/dir/"), "");
    assert_eq!(file_name(""), "");
}
