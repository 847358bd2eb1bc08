use picman::path::{PathExtensionFilter, Paths};

fn create() -> Paths {
    let mut loader = Paths::new();
    loader.add_many(vec![
        "a.txt".to_string(),
        "b.png".to_string(),
        "c.jpeg".to_string(),
        "d.JPEG".to_string(),
    ]);
    loader
}

#[test]
fn test_path_loader_add_many() {
    let loader = create();
    let expected = vec![
        "a.txt".to_string(),
        "b.png".to_string(),
        "c.jpeg".to_string(),
        "d.JPEG".to_string(),
    ];
    assert_eq!(loader.all(), &expected);
}

#[test]
fn paths_test_apply_filter() {
    let mut loader = create();
    let mut filter = PathExtensionFilter::new();
    assert!(filter.add_jpeg().is_ok());
    loader.apply_filter(&filter);

    let expected = vec!["c.jpeg".to_string(), "d.JPEG".to_string()];
    assert_eq!(loader.all(), &expected);
}

#[test]
fn test_count() {
    let loader = create();
    assert_eq!(loader.count(), 4);
}

#[test]
fn add_appends_in_order() {
    let mut paths = Paths::new();
    assert_eq!(paths.count(), 0);
    paths.add("z".to_string());
    paths.add("a".to_string());
    assert_eq!(paths.all(), &vec!["z".to_string(), "a".to_string()]);
}
