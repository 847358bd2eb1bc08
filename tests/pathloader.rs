use picman::path::{PathExtensionFilter, PathLoader};

#[test]
fn test_path_loader_add_path() {
    let mut loader = PathLoader::new();
    loader.add_many(vec!["/images/img.png".to_string(), "/path/text.txt".to_string()]);

    let expected = vec!["/images/img.png".to_string(), "/path/text.txt".to_string()];
    assert_eq!(loader.all(), &expected);
}

#[test]
fn pathloader_test_apply_filter() {
    let mut loader = PathLoader::new();
    let mut filter = PathExtensionFilter::new();

    assert!(filter.add_extension_regex("jpeg".to_string(), r"(?i)jpeg$".to_string()).is_ok());
    loader.add_many(vec![
        "a.txt".to_string(),
        "b.png".to_string(),
        "c.jpeg".to_string(),
        "d.JPEG".to_string(),
    ]);
    loader.apply_filter(&filter);

    let expected = vec!["c.jpeg".to_string(), "d.JPEG".to_string()];
    assert_eq!(loader.all(), &expected);
}
