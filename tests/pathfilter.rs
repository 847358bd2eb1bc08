use picman::path::{PathExtensionFilter, PatternError};

const PATHS: [&str; 7] = ["a.jpeg", "b.jpg", "c.JpEG", "d.png", "e.PnG", "f.bmp", "f.BmP"];

#[test]
fn test_is_match() {
    let mut filter = PathExtensionFilter::new();

    assert!(filter.add_jpeg().is_ok());
    assert!(filter.add_png().is_ok());
    assert!(filter.add_bmp().is_ok());

    for p in PATHS.iter() {
        assert_eq!(filter.is_match(p), true);
    }
}

#[test]
fn test_not_match() {
    let mut filter = PathExtensionFilter::new();

    assert!(filter.add_extension_regex("txt".to_string(), r"^(?i)txt$".to_string()).is_ok());
    for p in PATHS.iter() {
        assert_eq!(filter.is_match(p), false);
    }
}

#[test]
fn test_bad_regex_error() {
    let mut filter = PathExtensionFilter::new();
    assert!(filter.add_extension_regex("bmp".to_string(), r"($".to_string()).is_err());
}

#[test]
fn bad_regex_names_the_pattern_and_changes_nothing() {
    let mut filter = PathExtensionFilter::new();
    assert!(filter.add_png().is_ok());
    let err = filter.add_extension_regex("png".to_string(), r"($".to_string()).unwrap_err();
    assert_eq!(err, PatternError { pattern: "($".to_string() });
    assert!(filter.is_match("x.png"));
}

#[test]
fn extension_is_taken_from_the_file_name() {
    let mut filter = PathExtensionFilter::new();
    assert!(filter.add_jpeg().is_ok());
    assert!(filter.is_match("dir.d/photo.JPG"));
    assert!(!filter.is_match("photo.jpg.txt"));
    assert!(!filter.is_match("jpeg/readme"));
    assert!(!filter.is_match(".jpg"));
}

#[test]
fn empty_filter_accepts_nothing() {
    let filter = PathExtensionFilter::new();
    assert!(!filter.is_match("a.jpeg"));
}

#[test]
fn same_name_replaces_pattern() {
    let mut filter = PathExtensionFilter::new();
    assert!(filter.add_extension_regex("img".to_string(), r"(?i)^png$".to_string()).is_ok());
    assert!(filter.add_extension_regex("img".to_string(), r"(?i)^gif$".to_string()).is_ok());
    assert!(!filter.is_match("a.png"));
    assert!(filter.is_match("a.gif"));
}

#[test]
fn add_many_stops_at_first_bad_pattern() {
    let mut filter = PathExtensionFilter::new();
    let err = filter
        .add_many_extension_regex(vec![
            ("png".to_string(), r"(?i)^png$".to_string()),
            ("bad".to_string(), r"[".to_string()),
            ("gif".to_string(), r"(?i)^gif$".to_string()),
        ])
        .unwrap_err();
    assert_eq!(err, PatternError { pattern: "[".to_string() });
    assert!(filter.is_match("a.png"));
    assert!(!filter.is_match("a.gif"));
}

#[test]
fn pattern_without_anchor_matches_empty_extension() {
    let mut filter = PathExtensionFilter::new();
    assert!(filter.add_extension_regex("any".to_string(), r".*".to_string()).is_ok());
    assert!(filter.is_match("README"));
}
