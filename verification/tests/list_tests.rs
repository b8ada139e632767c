use trash_cli::args::SortMode;
use trash_cli::list::{candidates, format_indexed_item, format_item, sort_items};
use trash_cli::trash::model::{TrashRoot, TrashedFile};

fn listed_file(location: &str, date: Option<&str>) -> TrashedFile {
    TrashedFile {
        original_location: location.to_string(),
        modified_date: date.map(|d| d.to_string()),
        trashed_at: None,
        trash_path: "/t/x".to_string(),
        trash_root: TrashRoot { trash_dir: "/t".to_string(), native_metadata_path: "/t/.DS_Store".to_string() },
    }
}

fn locations(items: &[TrashedFile]) -> Vec<&str> {
    items.iter().map(|f| f.original_location.as_str()).collect()
}

#[test]
fn sorts_by_date_then_path() {
    let mut items = vec![
        listed_file("/b", Some("2024-01-02 00:00:00")),
        listed_file("/a-b", Some("2024-01-01 00:00:00")),
        listed_file("/a/b", Some("2024-01-01 00:00:00")),
        listed_file("/z", None),
    ];
    sort_items(&mut items, SortMode::Date);
    assert_eq!(locations(&items), vec!["/z", "/a/b", "/a-b", "/b"]);
}

#[test]
fn sorts_by_path_text_then_date() {
    let mut items = vec![
        listed_file("/a/b", Some("2")),
        listed_file("/a-b", None),
        listed_file("/a/b", Some("1")),
    ];
    sort_items(&mut items, SortMode::Path);
    assert_eq!(locations(&items), vec!["/a-b", "/a/b", "/a/b"]);
    assert_eq!(items[1].modified_date.as_deref(), Some("1"));
    let mut same = vec![listed_file("/b", None), listed_file("/a", None)];
    sort_items(&mut same, SortMode::Unsorted);
    assert_eq!(locations(&same), vec!["/b", "/a"]);
}

#[test]
fn equal_keys_keep_their_order() {
    let mut items = vec![listed_file("/x", Some("d")), listed_file("/x/", Some("d"))];
    items[0].trash_path = "/t/first".to_string();
    sort_items(&mut items, SortMode::Date);
    assert_eq!(items[0].trash_path, "/t/first");
}

#[test]
fn candidates_are_narrowed_to_the_target() {
    let files = vec![listed_file("/work/b.txt", Some("2")), listed_file("/other/c", Some("1")), listed_file("/work/a.txt", Some("3"))];
    let picked = candidates(files, Some("/work"), SortMode::Path);
    assert_eq!(locations(&picked), vec!["/work/a.txt", "/work/b.txt"]);
    let all = candidates(vec![listed_file("/b", None), listed_file("/a", None)], None, SortMode::Unsorted);
    assert_eq!(locations(&all), vec!["/b", "/a"]);
}

#[test]
fn items_are_shown_with_dates() {
    assert_eq!(format_item(&listed_file("/a", Some("2024-01-01 10:00:00"))), "2024-01-01 10:00:00 /a");
    assert_eq!(format_item(&listed_file("/a", None)), "- /a");
    assert_eq!(format_indexed_item(3, &listed_file("/a", None)), "   3 - /a");
    assert_eq!(format_indexed_item(12345, &listed_file("/a", Some("d"))), "12345 d /a");
}
