use trash_cli::path::{
    push_path,
    basename, file_name, first_component, is_same_or_inside, join, normalize, parent, path_equal, path_less,
    relative_to, resolve, starts_with,
};

#[test]
fn normalizes_relative_segments() {
    let normalized = normalize("/opt/example/../project/./src/");
    assert_eq!(normalized, "/opt/project/src");
}

#[test]
fn computes_relative_paths() {
    assert_eq!(relative_to("/opt/project/src", "/opt"), Some("project/src".to_string()));
}

#[test]
fn normalize_edge_cases() {
    assert_eq!(normalize(""), "");
    assert_eq!(normalize("/"), "/");
    assert_eq!(normalize("/.."), "/");
    assert_eq!(normalize("a/../.."), "..");
    assert_eq!(normalize("./a//b/"), "a/b");
    assert_eq!(normalize("//a/./b/../c"), "/a/c");
}

#[test]
fn normalizing_twice_changes_nothing() {
    for p in ["/opt/example/../project/./src/", "../../a/./b//", "", "/..", "a/../..", "./x"] {
        let once = normalize(p);
        assert_eq!(normalize(&once), once);
    }
}

#[test]
fn relative_to_edge_cases() {
    assert_eq!(relative_to("/opt", "/opt"), Some(String::new()));
    assert_eq!(relative_to("/optical", "/opt"), None);
    assert_eq!(relative_to("/opt/a", "opt"), None);
    assert_eq!(relative_to("a/b", ""), Some("a/b".to_string()));
    assert!(is_same_or_inside("/opt/x/../y", "/opt"));
    assert!(!is_same_or_inside("/var/y", "/opt"));
    for p in ["/a/b", "", "rel/x/..", "/", "../up"] {
        assert!(is_same_or_inside(p, p));
    }
}

#[test]
fn resolve_and_join() {
    assert_eq!(resolve("/home/u", "docs/./a.txt"), "/home/u/docs/a.txt");
    assert_eq!(resolve("/home/u", "/etc/../tmp"), "/tmp");
    assert_eq!(join("/base", "../x"), "/x");
}

#[test]
fn names_and_parents() {
    assert_eq!(basename("/a/b.txt"), "b.txt");
    assert_eq!(basename("/"), "");
    assert_eq!(basename("/a/.."), "");
    assert_eq!(file_name("a/b/"), Some("b".to_string()));
    assert_eq!(parent("/a/b"), Some("/a".to_string()));
    assert_eq!(parent("/a"), Some("/".to_string()));
    assert_eq!(parent("/"), None);
    assert_eq!(parent("a"), Some(String::new()));
    assert_eq!(first_component("a/b"), Some("a".to_string()));
    assert_eq!(first_component("/a"), None);
    assert_eq!(first_component("../a"), None);
}

#[test]
fn paths_compare_by_components() {
    assert!(path_less("/a/b", "/a-b"));
    assert!(!path_less("/a-b", "/a/b"));
    assert!(path_equal("/a//b/", "/a/b"));
    assert!(!path_equal("/a/b", "/a/c"));
    assert!(path_less("/a", "a"));
    assert!(starts_with("/Users/me/docs", "/Users/me"));
    assert!(!starts_with("/Users/meow", "/Users/me"));
    assert!(starts_with("/a", ""));
}

#[test]
fn the_relative_part_joins_back() {
    for (p, b) in [("/opt/x/../a/b/", "/opt/"), ("/opt", "/opt/."), ("a/b", ""), ("/a", "/")] {
        let rel = relative_to(p, b).expect("inside");
        let nb = normalize(b);
        assert_eq!(normalize(&push_path(&nb, &rel)), normalize(p));
        assert_eq!(rel.is_empty(), normalize(p) == nb);
        if !rel.is_empty() {
            assert_eq!(push_path(&nb, &rel), normalize(p));
        }
    }
    assert_eq!(relative_to("/optx", "/opt"), None);
}
