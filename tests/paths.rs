use cpx::paths::{file_name, join_all, join_path, path_parts_of, with_parents};

#[test]
fn parts_skip_separators_and_dots() {
    assert_eq!(path_parts_of("/a//b/./c/"), vec!["a", "b", "c"]);
    assert_eq!(path_parts_of("./x/../y"), vec!["x", "..", "y"]);
    assert!(path_parts_of("/").is_empty());
    assert!(path_parts_of("").is_empty());
}

#[test]
fn join_follows_path_join() {
    assert_eq!(join_path("a", "b"), "a/b");
    assert_eq!(join_path("a/", "b"), "a/b");
    assert_eq!(join_path("", "b"), "b");
    assert_eq!(join_path("a", "/b"), "/b");
}

#[test]
fn join_all_puts_separators_between() {
    let ps = vec!["x".to_string(), "y".to_string(), "z".to_string()];
    assert_eq!(join_all(&ps), "x/y/z");
    assert_eq!(join_all(&vec![]), "");
}

#[test]
fn file_name_of_paths() {
    assert_eq!(file_name("/a/b.txt"), Some("b.txt".to_string()));
    assert_eq!(file_name("dir/"), Some("dir".to_string()));
    assert_eq!(file_name("a/.."), None);
    assert_eq!(file_name("/"), None);
}

#[test]
fn with_parents_keeps_whole_source_path() {
    assert_eq!(with_parents("dest", "/usr/share/doc"), "dest/usr/share/doc");
    assert_eq!(with_parents("dest/", "rel/file"), "dest/rel/file");
}
