use trash_cli::rm::matches_original_location;

#[test]
fn matches_basename_patterns() {
    assert!(matches_original_location("*.o", "/tmp/file.o"));
    assert!(!matches_original_location("*.o", "/tmp/file.rs"));
}

#[test]
fn matches_absolute_patterns() {
    assert!(matches_original_location("/tmp/*", "/tmp/file.o"));
    assert!(!matches_original_location("/var/*", "/tmp/file.o"));
}

#[test]
fn question_mark_matches_one_byte() {
    assert!(matches_original_location("fil?.o", "/tmp/file.o"));
    assert!(!matches_original_location("fil?.o", "/tmp/fil.o"));
    assert!(matches_original_location("*a*b*", "/x/aXXbYY"));
    assert!(!matches_original_location("*a*b", "/x/aXXbYY"));
    assert!(matches_original_location("", "/x/"));
    assert!(matches_original_location("*", "/x/anything"));
}

#[test]
fn question_mark_matches_one_character() {
    assert!(matches_original_location("?.txt", "/tmp/é.txt"));
    assert!(!matches_original_location("??.txt", "/tmp/é.txt"));
    assert!(matches_original_location("/tmp/?.txt", "/tmp/é.txt"));
}

#[test]
fn star_matches_names_holding_a_star() {
    assert!(matches_original_location("*b", "/x/*ab"));
    assert!(matches_original_location("a*", "/x/a*b"));
    assert!(matches_original_location("*", "/x/*"));
    assert!(!matches_original_location("*c", "/x/*ab"));
}
