use meltos_wasm::path::{
    child_of, chars_of, first_names, join, names_start_with, parent, relative_to, resolve_in,
    same_names, split_segments, starts_with, str_eq, without_cur_dir,
};

fn names(v: &[&str]) -> Vec<String> {
    v.iter().map(|s| s.to_string()).collect()
}

#[test]
fn chars_of_gives_the_characters() {
    assert_eq!(chars_of("a/é"), vec!['a', '/', 'é']);
    assert_eq!(chars_of(""), Vec::<char>::new());
}

#[test]
fn str_eq_compares_characters() {
    assert!(str_eq("abc", "abc"));
    assert!(!str_eq("abc", "abd"));
    assert!(!str_eq("abc", "ab"));
    assert!(str_eq("", ""));
}

#[test]
fn starts_with_is_a_prefix_test() {
    assert!(starts_with("workspace/a", "workspace"));
    assert!(!starts_with("work", "workspace"));
    assert!(starts_with("anything", ""));
    assert!(!starts_with("xworkspace", "workspace"));
}

#[test]
fn join_puts_one_separator_between() {
    assert_eq!(join("a", "b"), "a/b");
    assert_eq!(join("", "b"), "/b");
    assert_eq!(join("a/", "b"), "a//b");
}

#[test]
fn split_segments_drops_empty_segments() {
    assert_eq!(split_segments("a/b/c.txt"), names(&["a", "b", "c.txt"]));
    assert_eq!(split_segments("a//b/c.txt"), names(&["a", "b", "c.txt"]));
    assert_eq!(split_segments("/a/b/"), names(&["a", "b"]));
    assert_eq!(split_segments(""), Vec::<String>::new());
    assert_eq!(split_segments("///"), Vec::<String>::new());
    assert_eq!(split_segments("./a"), names(&[".", "a"]));
}

#[test]
fn parent_drops_the_last_segment() {
    assert_eq!(parent("a/b/c.txt"), Some("a/b/".to_string()));
    assert_eq!(parent("a/b/"), Some("a/".to_string()));
    assert_eq!(parent("/a"), Some("/".to_string()));
    assert_eq!(parent("a"), Some("".to_string()));
    assert_eq!(parent(""), None);
    assert_eq!(parent("//"), None);
}

#[test]
fn without_cur_dir_strips_every_leading_cur_dir() {
    assert_eq!(without_cur_dir("./a"), "a");
    assert_eq!(without_cur_dir("././a/./b"), "a/./b");
    assert_eq!(without_cur_dir("a"), "a");
    assert_eq!(without_cur_dir("."), ".");
    assert_eq!(without_cur_dir("./"), "");
    assert_eq!(without_cur_dir(".a"), ".a");
}

#[test]
fn resolve_in_follows_the_three_rules() {
    assert_eq!(resolve_in("/root", "."), "/root");
    assert_eq!(resolve_in("/root", "./"), "/root");
    assert_eq!(resolve_in("/root", "/root/x"), "/root/x");
    assert_eq!(resolve_in("/root", "x"), "/root/x");
    assert_eq!(resolve_in("/root", "./x"), "/root/x");
    assert_eq!(resolve_in("/root", ""), "/root/");
}

#[test]
fn relative_to_strips_the_root() {
    assert_eq!(relative_to("/root", "/root"), "");
    assert_eq!(relative_to("/root", "/root/a/b"), "a/b");
    assert_eq!(relative_to("/root", "/rootless/a"), "/rootless/a");
    assert_eq!(relative_to("/root", "/other"), "/other");
}

#[test]
fn child_of_names_an_entry() {
    assert_eq!(child_of("", "a"), "a");
    assert_eq!(child_of("x", "a"), "x/a");
}

#[test]
fn names_are_compared_as_lists() {
    assert!(same_names(&names(&["a", "b"]), &names(&["a", "b"])));
    assert!(!same_names(&names(&["a", "b"]), &names(&["a"])));
    assert!(!same_names(&names(&["a", "b"]), &names(&["a", "c"])));
    assert!(names_start_with(&names(&["a", "b"]), &names(&["a"])));
    assert!(names_start_with(&names(&["a", "b"]), &names(&[])));
    assert!(!names_start_with(&names(&["a"]), &names(&["a", "b"])));
    assert!(!names_start_with(&names(&["a", "b"]), &names(&["b"])));
    assert_eq!(first_names(&names(&["a", "b", "c"]), 2), names(&["a", "b"]));
    assert_eq!(first_names(&names(&["a", "b", "c"]), 0), names(&[]));
    assert_eq!(first_names(&names(&["a", "b", "c"]), 9), names(&["a", "b", "c"]));
}
