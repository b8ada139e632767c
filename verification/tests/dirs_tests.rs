use trash_cli::trash::dirs::{discover_roots, root_for_path};

fn dirs(roots: &[trash_cli::trash::model::TrashRoot]) -> Vec<&str> {
    roots.iter().map(|r| r.trash_dir.as_str()).collect()
}

#[test]
fn a_given_trash_dir_is_the_only_root() {
    let roots = discover_roots(Some("/tmp/t"), Some("/Users/me"), 501, &vec!["/Volumes/X".to_string()]);
    assert_eq!(dirs(&roots), vec!["/tmp/t"]);
    assert_eq!(roots[0].native_metadata_path, "/tmp/t/.DS_Store");
}

#[test]
fn roots_are_home_boot_volume_and_volumes_without_repeats() {
    let volumes = vec!["/Volumes/X".to_string(), "/Volumes/Y/".to_string(), "/Volumes/X".to_string()];
    let roots = discover_roots(None, Some("/Users/me"), 501, &volumes);
    assert_eq!(
        dirs(&roots),
        vec!["/Users/me/.Trash", "/.Trashes/501", "/Volumes/X/.Trashes/501", "/Volumes/Y/.Trashes/501"]
    );
    let roots = discover_roots(None, None, 0, &Vec::new());
    assert_eq!(dirs(&roots), vec!["/.Trashes/0"]);
}

#[test]
fn a_path_goes_to_the_trash_of_its_volume_or_home() {
    assert_eq!(root_for_path(Some("/t"), None, 1, "/x").trash_dir, "/t");
    assert_eq!(root_for_path(None, Some("/Users/me"), 501, "/Volumes/Disk/a/b").trash_dir, "/Volumes/Disk/.Trashes/501");
    assert_eq!(root_for_path(None, Some("/Users/me"), 501, "/Volumes").trash_dir, "/.Trashes/501");
    assert_eq!(root_for_path(None, Some("/Users/me"), 501, "/Users/me/a").trash_dir, "/Users/me/.Trash");
    assert_eq!(root_for_path(None, Some("/Users/me"), 501, "/Users/meow/a").trash_dir, "/.Trashes/501");
    assert_eq!(root_for_path(None, None, 501, "/Users/me/a").trash_dir, "/.Trashes/501");
}
