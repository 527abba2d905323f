use slink::errors::StoreError;
use slink::filename::sanitize_filename;

#[test]
fn accepts_ordinary_names() {
    assert_eq!(sanitize_filename("a.txt").unwrap(), "a.txt");
    assert_eq!(sanitize_filename("report final (2).pdf").unwrap(), "report final (2).pdf");
    assert_eq!(sanitize_filename("x").unwrap(), "x");
}

#[test]
fn trims_blanks_at_both_ends() {
    assert_eq!(sanitize_filename("  a.txt  ").unwrap(), "a.txt");
    assert_eq!(sanitize_filename("\tname\n").unwrap(), "name");
}

#[test]
fn rejects_path_separators() {
    assert_eq!(sanitize_filename("a/b"), Err(StoreError::InvalidFilename));
    assert_eq!(sanitize_filename("a\\b"), Err(StoreError::InvalidFilename));
    assert_eq!(sanitize_filename("/etc/passwd"), Err(StoreError::InvalidFilename));
}

#[test]
fn rejects_parent_directory_segments() {
    assert_eq!(sanitize_filename("a..b"), Err(StoreError::InvalidFilename));
    assert_eq!(sanitize_filename(".."), Err(StoreError::InvalidFilename));
    assert_eq!(sanitize_filename("..hidden"), Err(StoreError::InvalidFilename));
}

#[test]
fn rejects_control_characters() {
    assert_eq!(sanitize_filename("a\u{1}b"), Err(StoreError::InvalidFilename));
    assert_eq!(sanitize_filename("a\tb"), Err(StoreError::InvalidFilename));
    assert_eq!(sanitize_filename("a\u{7f}b"), Err(StoreError::InvalidFilename));
    assert_eq!(sanitize_filename("a\u{85}b"), Err(StoreError::InvalidFilename));
}

#[test]
fn rejects_hidden_file_names() {
    assert_eq!(sanitize_filename(".hidden"), Err(StoreError::InvalidFilename));
    assert_eq!(sanitize_filename("  .hidden"), Err(StoreError::InvalidFilename));
    assert_eq!(sanitize_filename("."), Err(StoreError::InvalidFilename));
}

#[test]
fn rejects_empty_and_blank_names() {
    assert_eq!(sanitize_filename(""), Err(StoreError::InvalidFilename));
    assert_eq!(sanitize_filename("   "), Err(StoreError::InvalidFilename));
    assert_eq!(sanitize_filename("\t\n"), Err(StoreError::InvalidFilename));
}

#[test]
fn rejects_shell_punctuation() {
    for name in ["a<b", "a>b", "a:b", "a\"b", "a|b", "a?b", "a*b"] {
        assert_eq!(sanitize_filename(name), Err(StoreError::InvalidFilename));
    }
}
