use trash_cli::put::{candidate_name, missing_path, put_targets};

#[test]
fn names_in_the_trash_get_numeric_suffixes() {
    assert_eq!(candidate_name("demo.txt", 0), "demo.txt");
    assert_eq!(candidate_name("demo.txt", 1), "demo.txt_1");
    assert_eq!(candidate_name("demo.txt", 12), "demo.txt_12");
}

#[test]
fn put_needs_paths_and_resolves_them() {
    let err = put_targets("/cwd", &[]).expect_err("no paths");
    assert_eq!(err.text(), "put requires at least one path");
    let targets = put_targets("/cwd", &["a/../b".to_string(), "/abs/./c".to_string()]).expect("paths");
    assert_eq!(targets, vec!["/cwd/b".to_string(), "/abs/c".to_string()]);
    assert_eq!(missing_path("/cwd/x").text(), "path does not exist: /cwd/x");
}
