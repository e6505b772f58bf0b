use zed_workspace_dock::paths::{
    extension_of, file_name_of, file_stem_of, join_path, parent_of, path_is_absolute,
    path_is_simple, paths_equal,
};

#[test]
fn join_follows_path_buf_push() {
    assert_eq!(join_path("/a", "b"), "/a/b");
    assert_eq!(join_path("/a/", "b"), "/a/b");
    assert_eq!(join_path("", "b"), "b");
    assert_eq!(join_path("/a", "/b"), "/b");
}

#[test]
fn file_names_extensions_and_stems() {
    assert_eq!(file_name_of("/tmp/demo.code-workspace").as_deref(), Some("demo.code-workspace"));
    assert_eq!(file_name_of("foo.txt/.").as_deref(), Some("foo.txt"));
    assert_eq!(file_name_of("a/.."), None);
    assert_eq!(file_name_of("/"), None);
    assert_eq!(extension_of("/tmp/demo.code-workspace").as_deref(), Some("code-workspace"));
    assert_eq!(extension_of("/tmp/.code-workspace"), None);
    assert_eq!(extension_of("/tmp/a."), Some(String::new()));
    assert_eq!(file_stem_of("/tmp/a.b.c").as_deref(), Some("a.b"));
    assert_eq!(file_stem_of("/tmp/.hidden").as_deref(), Some(".hidden"));
}

#[test]
fn parents_follow_path_parent() {
    assert_eq!(parent_of("/a/b").as_deref(), Some("/a"));
    assert_eq!(parent_of("a/b/").as_deref(), Some("a"));
    assert_eq!(parent_of("a//b").as_deref(), Some("a"));
    assert_eq!(parent_of("a/./b").as_deref(), Some("a"));
    assert_eq!(parent_of("/a").as_deref(), Some("/"));
    assert_eq!(parent_of("demo.code-workspace").as_deref(), Some(""));
    assert_eq!(parent_of("./a").as_deref(), Some("."));
    assert_eq!(parent_of("/"), None);
    assert_eq!(parent_of(""), None);
}

#[test]
fn simple_and_absolute_paths() {
    assert!(path_is_simple("work"));
    assert!(path_is_simple("work/"));
    assert!(path_is_simple("."));
    assert!(!path_is_simple("./work"));
    assert!(!path_is_simple("a/b"));
    assert!(!path_is_simple("/work"));
    assert!(!path_is_simple(""));
    assert!(path_is_absolute("/x"));
    assert!(!path_is_absolute("x/y"));
}

#[test]
fn paths_compare_by_components() {
    assert!(paths_equal("/a/b", "/a//b/"));
    assert!(paths_equal("a/./b", "a/b"));
    assert!(!paths_equal("/a/b", "a/b"));
    assert!(!paths_equal("./a", "a"));
    assert!(!paths_equal("/a/b", "/a/c"));
}
