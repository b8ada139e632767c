use trash_cli::error::Error;
use trash_cli::restore::parse_indexes;
use trash_cli::restore::restorer::{restore_file, restore_outcome};
use trash_cli::restore::{nothing_found, prompt_text};
use trash_cli::trash::model::{TrashRoot, TrashedFile};

fn restorable() -> TrashedFile {
    TrashedFile {
        original_location: "/home/u/notes.txt".to_string(),
        modified_date: None,
        trashed_at: None,
        trash_path: "/home/u/.Trash/notes.txt_1".to_string(),
        trash_root: TrashRoot {
            trash_dir: "/home/u/.Trash".to_string(),
            native_metadata_path: "/home/u/.Trash/.DS_Store".to_string(),
        },
    }
}

#[test]
fn parses_ranges() {
    let indexes = parse_indexes("1,3-4", 6).expect("range should parse");
    assert_eq!(indexes, vec![1, 3, 4]);
}

#[test]
fn rejects_out_of_range_indexes() {
    assert!(parse_indexes("9", 2).is_err());
}

#[test]
fn selection_errors_say_why() {
    match parse_indexes("9", 2) {
        Err(Error::InvalidSelection(m)) => assert_eq!(m, "out of range 0..1: 9"),
        other => panic!("unexpected: {other:?}"),
    }
    match parse_indexes("x", 2) {
        Err(Error::InvalidSelection(m)) => assert_eq!(m, "not an index: x"),
        other => panic!("unexpected: {other:?}"),
    }
    match parse_indexes(" 3 - 1 ", 5) {
        Err(Error::InvalidSelection(m)) => assert_eq!(m, "invalid range: 3 - 1"),
        other => panic!("unexpected: {other:?}"),
    }
    match parse_indexes(" , ", 5) {
        Err(Error::InvalidSelection(m)) => assert_eq!(m, "empty selection"),
        other => panic!("unexpected: {other:?}"),
    }
}

#[test]
fn selections_keep_order_and_repeats() {
    assert_eq!(parse_indexes(" 0, 2-4 ,,2", 5).expect("should parse"), vec![0, 2, 3, 4, 2]);
    assert_eq!(parse_indexes("+1", 5).expect("plus sign"), vec![1]);
}

#[test]
fn prompt_and_empty_messages() {
    assert_eq!(prompt_text(3), "What file to restore [0..2]: ");
    assert_eq!(nothing_found(None), "No matching trashed files found");
    assert_eq!(nothing_found(Some("/tmp/x")), "No matching trashed files found for '/tmp/x'");
}

#[test]
fn restore_refuses_to_overwrite() {
    let err = restore_file(&restorable(), false, true).expect_err("should refuse");
    assert_eq!(err.text(), "refusing to overwrite existing file \"notes.txt\"");
    let plan = restore_file(&restorable(), true, true).expect("overwrite allowed");
    assert!(plan.remove_existing);
    assert_eq!(plan.entry_name, "notes.txt_1");
    let plan = restore_file(&restorable(), false, false).expect("nothing in the way");
    assert!(!plan.remove_existing);
}

#[test]
fn restore_reports_metadata_failures() {
    assert!(restore_outcome(&restorable(), None).metadata_warning.is_none());
    assert_eq!(
        restore_outcome(&restorable(), Some("denied")).metadata_warning,
        Some("restored /home/u/notes.txt, but failed to update metadata /home/u/.Trash/.DS_Store: denied".to_string())
    );
}

#[test]
fn cancelled_error_text() {
    assert_eq!(Error::Cancelled.text(), "No files were restored");
    assert_eq!(Error::message("boom").text(), "boom");
}
