use trash_cli::args::{parse_from, usage, Command, SortMode};

fn args(list: &[&str]) -> Vec<String> {
    list.iter().map(|a| a.to_string()).collect()
}

#[test]
fn usage_uses_trash_binary_name() {
    let usage = usage("1.2.3");
    assert!(usage.starts_with("trash "));
    assert!(usage.starts_with("trash 1.2.3\n"));
    assert!(usage.contains("\n  trash put [OPTIONS] FILE...\n"));
    assert!(usage.contains("\n  trash rm PATTERN\n"));
    assert!(usage.contains("rm PATTERN:"));
    assert!(usage.contains("Supports * and ? wildcards."));
    assert!(!usage.contains("trash-cli-macos"));
    assert!(!usage.contains("trash-put"));
}

#[test]
fn no_args_defaults_to_help() {
    let cli = parse_from(Vec::new()).expect("empty args should parse");
    assert!(cli.help);
    match cli.command {
        Command::Restore { target_path, .. } => assert!(target_path.is_none()),
        other => panic!("unexpected command: {other:?}"),
    }
}

#[test]
fn bare_positional_is_not_treated_as_restore() {
    let err = parse_from(args(&["foo"])).expect_err("bare positional should be rejected");
    assert_eq!(err.text(), "unknown command: foo");
}

#[test]
fn rejects_removed_alias_commands() {
    for alias in ["trash-list", "trash-put", "trash-restore", "trash-empty", "trash-rm"] {
        let err = parse_from(args(&[alias])).expect_err("removed alias should be rejected");
        assert_eq!(err.text(), format!("unknown command: {alias}"));
    }
}

#[test]
fn list_takes_sort_target_and_trash_dir() {
    let cli = parse_from(args(&["--trash-dir", "/tmp/t", "list", "--sort", "path", "docs"])).expect("should parse");
    assert!(!cli.help && !cli.version);
    assert_eq!(cli.trash_dir.as_deref(), Some("/tmp/t"));
    assert_eq!(cli.sort(), SortMode::Path);
    assert_eq!(cli.target_path(), Some("docs"));
    assert!(!cli.overwrite());
    assert!(cli.put_paths().is_empty());
    assert_eq!(cli.empty_days(), None);
    assert_eq!(cli.rm_pattern(), None);
}

#[test]
fn restore_takes_overwrite_and_unsorted() {
    let cli = parse_from(args(&["--overwrite", "restore", "--sort", "none"])).expect("should parse");
    assert!(cli.overwrite());
    assert_eq!(cli.sort(), SortMode::Unsorted);
    assert_eq!(cli.target_path(), None);
}

#[test]
fn put_collects_every_path() {
    let cli = parse_from(args(&["put", "a.txt", "b", "restore"])).expect("should parse");
    assert_eq!(cli.put_paths(), &["a.txt".to_string(), "b".to_string(), "restore".to_string()][..]);
    assert_eq!(cli.sort(), SortMode::Date);
}

#[test]
fn empty_reads_days() {
    let cli = parse_from(args(&["empty", "30"])).expect("should parse");
    assert_eq!(cli.empty_days(), Some(30));
    let cli = parse_from(args(&["empty", "+7"])).expect("a leading plus is accepted");
    assert_eq!(cli.empty_days(), Some(7));
    let cli = parse_from(args(&["empty"])).expect("should parse");
    assert_eq!(cli.empty_days(), None);
    let err = parse_from(args(&["empty", "x"])).expect_err("not a number");
    assert_eq!(err.text(), "invalid days value: x");
    let err = parse_from(args(&["empty", "18446744073709551616"])).expect_err("too large");
    assert_eq!(err.text(), "invalid days value: 18446744073709551616");
    let err = parse_from(args(&["empty", "1", "2"])).expect_err("two values");
    assert_eq!(err.text(), "only one positional days value is supported");
}

#[test]
fn rm_needs_exactly_one_pattern() {
    let cli = parse_from(args(&["rm", "*.o"])).expect("should parse");
    assert_eq!(cli.rm_pattern(), Some("*.o"));
    let err = parse_from(args(&["rm"])).expect_err("no pattern");
    assert_eq!(err.text(), "rm requires a pattern");
    let err = parse_from(args(&["rm", "a", "b"])).expect_err("two patterns");
    assert_eq!(err.text(), "only one pattern is supported");
}

#[test]
fn option_values_are_required() {
    let err = parse_from(args(&["list", "--trash-dir"])).expect_err("missing dir");
    assert_eq!(err.text(), "--trash-dir requires a value");
    let err = parse_from(args(&["list", "--sort"])).expect_err("missing mode");
    assert_eq!(err.text(), "--sort requires a value");
    let err = parse_from(args(&["list", "--sort", "size"])).expect_err("bad mode");
    assert_eq!(err.text(), "invalid sort mode: size");
}

#[test]
fn unknown_flags_and_extra_paths_are_rejected() {
    let err = parse_from(args(&["list", "-x"])).expect_err("unknown flag");
    assert_eq!(err.text(), "unknown flag: -x");
    let err = parse_from(args(&["list", "a", "b"])).expect_err("two paths");
    assert_eq!(err.text(), "only one positional path is supported");
    let err = parse_from(args(&["restore", "a", "b"])).expect_err("two paths");
    assert_eq!(err.text(), "only one positional path is supported");
}

#[test]
fn help_and_version_stop_reading() {
    let cli = parse_from(args(&["--sort", "path", "-h", "bogus"])).expect("help wins");
    assert!(cli.help && !cli.version);
    assert_eq!(cli.sort(), SortMode::Path);
    let cli = parse_from(args(&["--version", "bogus"])).expect("version wins");
    assert!(cli.version && !cli.help);
    let cli = parse_from(args(&["--help"])).expect("help");
    assert!(cli.help);
}
