use sync_rs::paths::{ends_with_separator, file_name, final_component_start, join, parent,
    strip_prefix};

fn some(s: &str) -> Option<String> {
    Some(s.to_string())
}

#[test]
fn parent_drops_the_final_component() {
    assert_eq!(parent("/a/b/c/file.txt"), some("/a/b/c"));
    assert_eq!(parent("/a/b"), some("/a"));
    assert_eq!(parent("a/b"), some("a"));
}

#[test]
fn parent_of_a_top_level_path_is_the_root() {
    assert_eq!(parent("/a"), some("/"));
}

#[test]
fn parent_of_a_single_component_is_empty() {
    assert_eq!(parent("a"), some(""));
}

#[test]
fn root_and_empty_path_have_no_parent() {
    assert_eq!(parent("/"), None);
    assert_eq!(parent(""), None);
}

#[test]
fn parent_takes_the_text_as_written() {
    assert_eq!(parent("/a/b/"), some("/a/b"));
    assert_eq!(parent("a//b"), some("a/"));
    assert_eq!(parent("//"), some("/"));
}

#[test]
fn parent_counts_characters_not_bytes() {
    assert_eq!(parent("/dörfer/straße/ü.txt"), some("/dörfer/straße"));
    assert_eq!(file_name("/dörfer/straße/ü.txt"), some("ü.txt"));
}

#[test]
fn file_name_is_the_final_component() {
    assert_eq!(file_name("/sync"), some("sync"));
    assert_eq!(file_name("/a/b/c.txt"), some("c.txt"));
    assert_eq!(file_name("plain"), some("plain"));
}

#[test]
fn file_name_is_missing_without_a_final_component() {
    assert_eq!(file_name("/"), None);
    assert_eq!(file_name(""), None);
    assert_eq!(file_name("/a/"), None);
}

#[test]
fn final_component_start_is_behind_the_last_separator() {
    assert_eq!(final_component_start("/a/bc"), 3);
    assert_eq!(final_component_start("abc"), 0);
    assert_eq!(final_component_start("abc/"), 4);
    assert_eq!(final_component_start(""), 0);
}

#[test]
fn ends_with_separator_looks_at_the_last_character() {
    assert!(ends_with_separator("/"));
    assert!(ends_with_separator("a/"));
    assert!(!ends_with_separator("a"));
    assert!(!ends_with_separator(""));
}

#[test]
fn join_puts_one_separator_between() {
    assert_eq!(join("/sync", "a.txt"), "/sync/a.txt");
    assert_eq!(join("/a/b", "c/file.txt"), "/a/b/c/file.txt");
}

#[test]
fn join_adds_no_second_separator() {
    assert_eq!(join("/", "a.txt"), "/a.txt");
    assert_eq!(join("/sync/", "a.txt"), "/sync/a.txt");
}

#[test]
fn join_with_an_empty_side_keeps_the_other() {
    assert_eq!(join("/sync", ""), "/sync");
    assert_eq!(join("", "a.txt"), "a.txt");
    assert_eq!(join("", ""), "");
}

#[test]
fn join_does_not_treat_a_leading_separator_specially() {
    assert_eq!(join("/a", "/x"), "/a//x");
}

#[test]
fn strip_prefix_gives_the_relative_path() {
    assert_eq!(strip_prefix("/sync/a.txt", "/sync"), some("a.txt"));
    assert_eq!(strip_prefix("/a/b/c/file.txt", "/a/b"), some("c/file.txt"));
    assert_eq!(strip_prefix("/a.txt", "/"), some("a.txt"));
    assert_eq!(strip_prefix("a/b", ""), some("a/b"));
}

#[test]
fn strip_prefix_of_the_root_itself_is_empty() {
    assert_eq!(strip_prefix("/sync", "/sync"), some(""));
}

#[test]
fn strip_prefix_needs_a_component_boundary() {
    assert_eq!(strip_prefix("/sync2/a.txt", "/sync"), None);
    assert_eq!(strip_prefix("/other/a.txt", "/sync"), None);
    assert_eq!(strip_prefix("/syn", "/sync"), None);
    assert_eq!(strip_prefix("/sync/", "/sync"), None);
}

#[test]
fn strip_prefix_undoes_join() {
    for (root, rel) in [("/sync", "a.txt"), ("/", "x/y"), ("", "x"), ("/r/", "q"), ("/r", "")] {
        assert_eq!(strip_prefix(&join(root, rel), root), some(rel));
    }
}

#[test]
fn join_undoes_strip_prefix() {
    for (path, root) in [("/sync/a/b.txt", "/sync"), ("/x", "/"), ("rel/p", ""), ("/a//b", "/a")] {
        let rel = strip_prefix(path, root).unwrap();
        assert_eq!(join(root, &rel), path);
    }
}
