use bsv_language_server::utils::{get_line_content, is_bsv_file, normalize_path};

#[test]
fn backslashes_become_slashes() {
    assert_eq!(normalize_path("a\\b\\c.bsv"), "a/b/c.bsv");
    assert_eq!(normalize_path("/x/y"), "/x/y");
}

#[test]
fn line_content_by_index() {
    let text = "first\r\nsecond\nthird";
    assert_eq!(get_line_content(text, 0), Some("first"));
    assert_eq!(get_line_content(text, 1), Some("second"));
    assert_eq!(get_line_content(text, 2), Some("third"));
    assert_eq!(get_line_content(text, 3), None);
    assert_eq!(get_line_content("", 0), None);
}

#[test]
fn bsv_file_extensions() {
    assert!(is_bsv_file("top.bsv"));
    assert!(is_bsv_file("Lib.bs"));
    assert!(!is_bsv_file("top.v"));
    assert!(!is_bsv_file("bsv"));
}

#[test]
fn normalizing_twice_changes_nothing() {
    let once = normalize_path("C:\\work\\top.bsv");
    assert!(!once.contains('\\'));
    assert_eq!(normalize_path(&once), once);
}
