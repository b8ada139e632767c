use trash_cli::trash::ds_store::upsert_trash_entry;
use trash_cli::trash::model::TrashRoot;
use trash_cli::trash::scan::{build_macos_original_location, scan, ListedFile, RootListing};

fn root() -> TrashRoot {
    TrashRoot {
        trash_dir: "/Users/me/.Trash".to_string(),
        native_metadata_path: "/Users/me/.Trash/.DS_Store".to_string(),
    }
}

fn listed(name: &str, modified: Option<i128>) -> Result<ListedFile, String> {
    Ok(ListedFile {
        file_name: name.to_string(),
        path: format!("/Users/me/.Trash/{name}"),
        modified,
    })
}

#[test]
fn builds_macos_original_location_from_relative_parent() {
    let path = build_macos_original_location(Some("workspace/docs/"), Some("foo.txt"));
    assert_eq!(path, "/workspace/docs/foo.txt");
}

#[test]
fn keeps_absolute_parent_paths() {
    let path = build_macos_original_location(Some("/workspace/docs/"), Some("foo.txt"));
    assert_eq!(path, "/workspace/docs/foo.txt");
}

#[test]
fn original_location_edge_cases() {
    assert_eq!(build_macos_original_location(None, Some("a")), "/a");
    assert_eq!(build_macos_original_location(Some("/docs/a"), Some("a")), "/docs/a");
    assert_eq!(build_macos_original_location(Some("/docs"), None), "/docs");
    assert_eq!(build_macos_original_location(None, None), "/");
}

#[test]
fn scan_matches_files_with_their_records() {
    let meta = upsert_trash_entry(None, "demo.txt", "/work/demo.txt").expect("metadata");
    let listing = RootListing {
        root: root(),
        metadata: Ok(Some(meta)),
        entries: Ok(Some(vec![
            listed(".DS_Store", None),
            listed("demo.txt", Some(0)),
            listed("stray", None),
            Err("permission denied".to_string()),
        ])),
    };
    let report = scan(&vec![listing]);
    assert_eq!(report.files.len(), 1);
    let f = &report.files[0];
    assert_eq!(f.original_location, "/work/demo.txt");
    assert_eq!(f.modified_date.as_deref(), Some("1970-01-01 00:00:00"));
    assert_eq!(f.trashed_at, Some(0));
    assert_eq!(f.trash_path, "/Users/me/.Trash/demo.txt");
    assert_eq!(f.trash_root.trash_dir, "/Users/me/.Trash");
    assert_eq!(
        report.warnings,
        vec![
            "missing macOS trash metadata for file: /Users/me/.Trash/stray".to_string(),
            "failed to read an entry in /Users/me/.Trash: permission denied".to_string(),
        ]
    );
}

#[test]
fn scan_reports_unreadable_roots() {
    let listing = RootListing {
        root: root(),
        metadata: Err("denied".to_string()),
        entries: Err("gone".to_string()),
    };
    let report = scan(&vec![listing]);
    assert!(report.files.is_empty());
    assert_eq!(
        report.warnings,
        vec![
            "failed to read macOS trash metadata /Users/me/.Trash/.DS_Store: denied".to_string(),
            "failed to read trash dir /Users/me/.Trash: gone".to_string(),
        ]
    );
    let listing = RootListing { root: root(), metadata: Ok(Some(vec![1, 2, 3])), entries: Ok(None) };
    let report = scan(&vec![listing]);
    assert_eq!(
        report.warnings,
        vec!["failed to read macOS trash metadata /Users/me/.Trash/.DS_Store: truncated DS_Store".to_string()]
    );
}

#[test]
fn records_are_used_once() {
    let meta = upsert_trash_entry(None, "a", "/x/a").expect("metadata");
    let listing = RootListing {
        root: root(),
        metadata: Ok(Some(meta)),
        entries: Ok(Some(vec![listed("a", None), listed("a", None)])),
    };
    let report = scan(&vec![listing]);
    assert_eq!(report.files.len(), 1);
    assert_eq!(report.files[0].modified_date, None);
    assert_eq!(report.warnings, vec!["missing macOS trash metadata for file: /Users/me/.Trash/a".to_string()]);
}
