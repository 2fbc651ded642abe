use file_database::ItemId;

fn seg(parts: &[&str]) -> Vec<String> {
    parts.iter().map(|p| p.to_string()).collect()
}

#[test]
fn item_id_constructors() {
    let first = ItemId::id("test_file.txt");
    let second = ItemId::with_index("test_file.txt", 1);
    let root = ItemId::database_id();

    assert_eq!(first.get_name(), "test_file.txt");
    assert_eq!(first.get_index(), 0);
    assert_eq!(second.get_name(), "test_file.txt");
    assert_eq!(second.get_index(), 1);
    assert_eq!(root.get_name(), "");
    assert_eq!(root.get_index(), 0);
    assert!(root.is_root());
    assert!(!first.is_root());
}

#[test]
fn item_id_string_accessors() {
    let id = ItemId::id("report.txt");
    assert_eq!(id.as_str(), "report.txt");
    assert_eq!(id.as_string(), "report.txt".to_string());
    let built = ItemId::from_parts("report.txt".to_string(), 3);
    assert_eq!(built.get_name(), "report.txt");
    assert_eq!(built.get_index(), 3);
}

#[test]
fn item_id_order() {
    let a0 = ItemId::id("a.txt");
    let a1 = ItemId::with_index("a.txt", 1);
    let b0 = ItemId::id("b.txt");
    assert!(a0.le(&a0));
    assert!(a0.le(&a1));
    assert!(!a1.le(&a0));
    assert!(a1.le(&b0));
    assert!(!b0.le(&a1));
}

#[test]
fn path_helpers() {
    assert!(file_database::paths::has_extension("a.txt"));
    assert!(file_database::paths::has_extension("archive.tar.gz"));
    assert!(!file_database::paths::has_extension("folder"));
    assert!(!file_database::paths::has_extension(".hidden"));
    assert!(!file_database::paths::has_extension(""));

    assert_eq!(file_database::paths::with_tmp_extension("a.txt"), "a.tmp");
    assert_eq!(
        file_database::paths::with_tmp_extension("archive.tar.gz"),
        "archive.tar.tmp"
    );
    assert_eq!(file_database::paths::with_tmp_extension("folder"), "folder.tmp");
    assert_eq!(file_database::paths::with_tmp_extension(".hidden"), ".hidden.tmp");
}

#[test]
fn truncate_path_steps() {
    let p = seg(&["a", "b", "c"]);
    assert_eq!(
        file_database::paths::truncate(p.clone(), 0).unwrap(),
        seg(&["a", "b", "c"])
    );
    assert_eq!(
        file_database::paths::truncate(p.clone(), 2).unwrap(),
        seg(&["a"])
    );
    assert_eq!(
        file_database::paths::truncate(p.clone(), -4).unwrap(),
        seg(&["a", "b", "c"])
    );
    match file_database::paths::truncate(p, 3) {
        Err(file_database::DatabaseError::PathStepOverflow(steps, len)) => {
            assert_eq!(steps, 3);
            assert_eq!(len, 3);
        }
        other => panic!("expected a step overflow, got {:?}", other),
    }
}
