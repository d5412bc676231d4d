use aspen::fs_action::unique_name;
use aspen::path_text::{collision_candidate, file_name, path_join, split_extension};
use std::collections::HashSet;

#[test]
fn collision_suffix() {
    let mut existing: HashSet<String> = HashSet::new();
    existing.insert("x.jpg".to_string());
    let dest = unique_name("x.jpg", |n: &str| existing.contains(n)).unwrap();
    assert!(dest.contains("(2)"));
    assert_eq!(dest, "x (2).jpg");
}

#[test]
fn free_names_are_kept() {
    assert_eq!(unique_name("a.jpg", |_: &str| false).unwrap(), "a.jpg");
}

#[test]
fn numbering_continues_past_taken_copies() {
    let existing: HashSet<&str> = ["x.jpg", "x (2).jpg", "x (3).jpg"].into_iter().collect();
    assert_eq!(unique_name("x.jpg", |n: &str| existing.contains(n)).unwrap(), "x (4).jpg");
}

#[test]
fn collision_names_keep_the_extension() {
    assert_eq!(collision_candidate("photo.tar.gz", 2), "photo.tar (2).gz");
    assert_eq!(collision_candidate("README", 3), "README (3)");
    assert_eq!(collision_candidate(".hidden", 2), ".hidden (2)");
    assert_eq!(collision_candidate("", 2), "file (2)");
}

#[test]
fn split_extension_like_path_methods() {
    assert_eq!(split_extension("a.jpg"), ("a".to_string(), Some("jpg".to_string())));
    assert_eq!(split_extension(".bashrc"), (".bashrc".to_string(), None));
    assert_eq!(split_extension("noext"), ("noext".to_string(), None));
    assert_eq!(split_extension("trailing."), ("trailing".to_string(), Some(String::new())));
}

#[test]
fn file_names_of_paths() {
    assert_eq!(file_name("/a/b/c.jpg"), Some("c.jpg".to_string()));
    assert_eq!(file_name("/a/b/"), Some("b".to_string()));
    assert_eq!(file_name("/a/b/."), Some("b".to_string()));
    assert_eq!(file_name("/a/.."), None);
    assert_eq!(file_name("/"), None);
}

#[test]
fn joining_paths() {
    assert_eq!(path_join("/a", "b"), "/a/b");
    assert_eq!(path_join("/a/", "b"), "/a/b");
    assert_eq!(path_join("", "b"), "b");
    assert_eq!(path_join("/a", "/b"), "/b");
}
