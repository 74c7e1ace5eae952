use repo_manager::paths::get_path;
use repo_manager::paths::parse_rel_path;
use repo_manager::paths::resolve_path;
use repo_manager::paths::seg_is_valid;
use repo_manager::paths::split_on;
use repo_manager::paths::str_eq;
use repo_manager::OpError;

#[test]
fn get_path_concatenates_under_root() {
    assert_eq!(get_path(Some("a/b.txt")), "data/repository/a/b.txt");
    assert_eq!(get_path(None), "data/repository/");
    assert_eq!(get_path(Some("")), "data/repository/");
}

#[test]
fn split_keeps_empty_pieces() {
    assert_eq!(split_on("a/b/c", '/'), vec!["a", "b", "c"]);
    assert_eq!(split_on("a//b", '/'), vec!["a", "", "b"]);
    assert_eq!(split_on("/a", '/'), vec!["", "a"]);
    assert_eq!(split_on("", '/'), vec![""]);
    assert_eq!(split_on("x.y.z", '.'), vec!["x", "y", "z"]);
}

#[test]
fn parse_accepts_plain_relative_paths() {
    assert_eq!(parse_rel_path("a/b").unwrap(), vec!["a", "b"]);
    assert_eq!(parse_rel_path("file.txt").unwrap(), vec!["file.txt"]);
    let root = parse_rel_path("").unwrap();
    assert!(root.is_empty());
}

#[test]
fn parse_rejects_traversal_and_empty_segments() {
    assert!(parse_rel_path("..").is_none());
    assert!(parse_rel_path("a/../b").is_none());
    assert!(parse_rel_path("./a").is_none());
    assert!(parse_rel_path("/a").is_none());
    assert!(parse_rel_path("a//b").is_none());
    assert!(parse_rel_path("a/").is_none());
}

#[test]
fn resolve_confines_to_repository_root() {
    assert_eq!(resolve_path("a/b").unwrap(), "data/repository/a/b");
    assert_eq!(resolve_path("").unwrap(), "data/repository/");
    assert_eq!(resolve_path("../etc/passwd"), Err(OpError::BadRequest));
    assert_eq!(resolve_path("a/../../x"), Err(OpError::BadRequest));
}

#[test]
fn segment_validity() {
    assert!(seg_is_valid("abc"));
    assert!(seg_is_valid("a.b"));
    assert!(!seg_is_valid(""));
    assert!(!seg_is_valid("."));
    assert!(!seg_is_valid(".."));
    assert!(!seg_is_valid("a/b"));
}

#[test]
fn string_comparison_is_by_characters() {
    assert!(str_eq("abc", "abc"));
    assert!(!str_eq("abc", "abd"));
    assert!(!str_eq("abc", "ab"));
    assert!(str_eq("", ""));
}
