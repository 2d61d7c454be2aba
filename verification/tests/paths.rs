use handoff::path_list::PathList;
use handoff::paths::{components, is_absolute, join, parent};

#[test]
fn components_of_absolute_and_relative_paths() {
    assert_eq!(components("/a/b"), vec!["/", "a", "b"]);
    assert_eq!(components("a/b"), vec!["a", "b"]);
    assert_eq!(components("./a/b"), vec![".", "a", "b"]);
    assert_eq!(components("../a"), vec!["..", "a"]);
    assert_eq!(components("/"), vec!["/"]);
    assert_eq!(components("."), vec!["."]);
    assert!(components("").is_empty());
}

#[test]
fn components_skip_repeated_slashes_and_dots() {
    assert_eq!(components("/a//b/./c/"), vec!["/", "a", "b", "c"]);
    assert_eq!(components("//a"), vec!["/", "a"]);
    assert_eq!(components("/./a"), vec!["/", "a"]);
    assert_eq!(components("a/."), vec!["a"]);
    assert_eq!(components("./."), vec!["."]);
    assert_eq!(components("/.a/..b/..."), vec!["/", ".a", "..b", "..."]);
    assert_eq!(components("/\u{e9}t\u{e9}/x"), vec!["/", "\u{e9}t\u{e9}", "x"]);
}

#[test]
fn components_agree_with_the_standard_library() {
    for text in [
        "", "/", "//", ".", "./", "/.", "..", "/..", "a", "a/", "a/b", "a//b", "a/./b", "a/../b",
        "./a", ".//a", "././a", ".a", ".a/b", "/a", "/a/", "//a", "/a/b/c", "/a/./b/.", "/a/b/..",
        "/./a", "/.a", "/..a/.", "a/.", "a/./", "a/.b", "\u{e9}/\u{4e2d}", "C:\\r\\a.rs", "C:/r/a.rs",
        "\\\\server\\share\\a", "/a\\b/c",
    ] {
        let expected: Vec<String> = std::path::Path::new(text)
            .components()
            .map(|c| c.as_os_str().to_str().unwrap().to_string())
            .collect();
        assert_eq!(components(text), expected, "{text:?}");
        let expected = std::path::Path::new(text).parent().map(|p| p.to_str().unwrap());
        assert_eq!(parent(text), expected, "{text:?}");
        assert_eq!(is_absolute(text), std::path::Path::new(text).is_absolute(), "{text:?}");
        for rel in ["", "x", "./x", "/x", "x/", ".git", "C:\\r", "\\r"] {
            let expected = std::path::Path::new(text).join(rel);
            assert_eq!(join(text, rel), expected.to_str().unwrap(), "{text:?} {rel:?}");
        }
    }
}

#[test]
fn parent_is_the_shortest_start() {
    assert_eq!(parent("/a/b"), Some("/a"));
    assert_eq!(parent("/a//b/"), Some("/a"));
    assert_eq!(parent("/a/./b"), Some("/a"));
    assert_eq!(parent("/a"), Some("/"));
    assert_eq!(parent("//a"), Some("/"));
    assert_eq!(parent("./a"), Some("."));
    assert_eq!(parent("a"), Some(""));
    assert_eq!(parent("."), Some(""));
    assert_eq!(parent("/"), None);
    assert_eq!(parent(""), None);
}

#[test]
fn join_puts_one_slash_between() {
    assert_eq!(join("/w", "a"), "/w/a");
    assert_eq!(join("/w/", "a"), "/w/a");
    assert_eq!(join("", "a"), "a");
    assert_eq!(join("/w", "/a"), "/a");
    assert_eq!(join("/w", ""), "/w/");
}

#[test]
fn only_a_leading_slash_makes_a_path_absolute() {
    assert!(is_absolute("/"));
    assert!(is_absolute("/a"));
    assert!(!is_absolute(""));
    assert!(!is_absolute("a/b"));
    assert!(!is_absolute(" /a"));
    assert!(!is_absolute("~/a"));
}

#[test]
fn list_keeps_the_first_text_of_each_path() {
    let mut list = PathList::new();
    assert!(list.insert("/a/b".to_string()));
    assert!(list.insert("/a".to_string()));
    assert!(!list.insert("/a/b/".to_string()));
    assert!(!list.insert("/a//./b".to_string()));
    assert!(list.insert("a/b".to_string()));
    assert!(list.insert("/a/../a/b".to_string()));
    assert!(!list.insert("/a".to_string()));
    assert_eq!(list.into_paths(), vec!["/a/b", "/a", "a/b", "/a/../a/b"]);
}

#[test]
fn a_windows_text_is_a_relative_name() {
    assert!(!is_absolute("C:\\r\\a.rs"));
    assert_eq!(components("C:\\r\\a.rs"), vec!["C:\\r\\a.rs"]);
    assert_eq!(join("/w", "C:\\r\\a.rs"), "/w/C:\\r\\a.rs");
    assert_eq!(parent("C:\\r\\a.rs"), Some(""));
}
