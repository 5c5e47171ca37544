use yeth::order::sort_strings;
use yeth::order::str_eq;
use yeth::order::str_lex_le;
use yeth::paths::join_path;
use yeth::paths::last_component;
use yeth::paths::normalize;
use yeth::paths::path_covers_exec;
use yeth::paths::rel_of_exec;
use yeth::paths::split_path_exec;
use yeth::paths::str_starts_with;
use yeth::paths::strictly_under_exec;

#[test]
fn test_split_path() {
    assert_eq!(split_path_exec("/a/b/c"), vec!["", "a", "b", "c"]);
    assert_eq!(split_path_exec("plain"), vec!["plain"]);
    assert_eq!(split_path_exec(""), vec![""]);
    assert_eq!(split_path_exec("a//b"), vec!["a", "", "b"]);
    assert_eq!(split_path_exec("a/b/"), vec!["a", "b", ""]);
}

#[test]
fn test_join_path() {
    assert_eq!(join_path("/root/app", "src"), "/root/app/src");
    assert_eq!(join_path("/root/app", "../lib"), "/root/app/../lib");
    // an absolute declaration stands alone
    assert_eq!(join_path("/root/app", "/opt/lib"), "/opt/lib");
}

#[test]
fn test_normalize() {
    assert_eq!(normalize("/a/b/../c"), "/a/c");
    assert_eq!(normalize("/a/./b"), "/a/b");
    assert_eq!(normalize("/a/b/c"), "/a/b/c");
    assert_eq!(normalize("/a/../.."), "/");
    assert_eq!(normalize("/"), "/");
    assert_eq!(normalize("/a//b"), "/a/b");
}

#[test]
fn test_prefix_predicates() {
    assert!(str_starts_with("/a/bc", "/a/b"));
    assert!(!str_starts_with("/a/b", "/a/bc"));

    // directory containment is component-wise, not a raw string prefix
    assert!(strictly_under_exec("/a/b/c", "/a/b"));
    assert!(!strictly_under_exec("/a/bc", "/a/b"));
    assert!(!strictly_under_exec("/a/b", "/a/b"));

    assert!(path_covers_exec("/a/b", "/a/b"));
    assert!(path_covers_exec("/a/b", "/a/b/c"));
    assert!(!path_covers_exec("/a/b", "/a/bc"));

    assert_eq!(rel_of_exec("/a/b/c", "/a/b"), Some("c".to_string()));
    assert_eq!(rel_of_exec("/a/b", "/a/b"), Some("".to_string()));
    assert_eq!(rel_of_exec("/a/bc", "/a/b"), None);
}

#[test]
fn test_last_component() {
    assert_eq!(last_component("/a/b/c.txt"), "c.txt");
    assert_eq!(last_component("plain"), "plain");
    assert_eq!(last_component("/a/b/"), "");
}

#[test]
fn test_string_order() {
    assert!(str_lex_le("abc", "abd"));
    assert!(str_lex_le("ab", "abc"));
    assert!(str_lex_le("abc", "abc"));
    assert!(!str_lex_le("b", "abc"));

    assert!(str_eq("same", "same"));
    assert!(!str_eq("same", "sam"));

    let sorted = sort_strings(vec![
        "/d/b.txt".to_string(),
        "/d/a.txt".to_string(),
        "/d/a.txt".to_string(),
        "/d/c/x".to_string(),
    ]);
    assert_eq!(sorted, vec!["/d/a.txt", "/d/a.txt", "/d/b.txt", "/d/c/x"]);
}
