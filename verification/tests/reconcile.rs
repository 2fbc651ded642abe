use file_database::{
    DatabaseError, DatabaseManager, ExternalChange, ItemId, ScanPolicy, ShouldSort,
};

fn seg(parts: &[&str]) -> Vec<String> {
    parts.iter().map(|p| p.to_string()).collect()
}

fn new_db() -> DatabaseManager {
    DatabaseManager::new(&seg(&["srv"]), &"db".to_string())
}

fn create(m: &mut DatabaseManager, name: &str, parent: &ItemId) {
    let id = ItemId::id(name);
    m.write_new(&id, parent).unwrap();
    m.apply_write_new(&id, parent).unwrap();
}

/// The relative paths the index currently resolves, as a disk listing would
/// discover them in a full recursive scan of the root.
fn on_disk(m: &DatabaseManager) -> Vec<Vec<String>> {
    m.get_all(ShouldSort::Sort)
        .iter()
        .map(|id| m.locate_relative(id).unwrap().clone())
        .collect()
}

#[test]
fn detect_only_scan_reports_and_drops_missing_entries() {
    let mut m = new_db();
    let root = ItemId::database_id();
    create(&mut m, "folder", &root);
    create(&mut m, "a.txt", &ItemId::id("folder"));
    create(&mut m, "b.txt", &root);

    // The listing is missing the nested file: it was removed out of band.
    let mut disk = on_disk(&m);
    disk.retain(|p| *p != seg(&["folder", "a.txt"]));

    let (report, to_remove) = m
        .scan_for_changes(&root, ScanPolicy::DetectOnly, true, disk.clone())
        .unwrap();
    assert_eq!(report.get_scan_from(), &root);
    assert_eq!(report.get_added().len(), 0);
    assert_eq!(report.get_removed().len(), 1);
    assert_eq!(report.get_unchanged_count(), 2);
    assert_eq!(report.get_total_changed_count(), 1);
    assert_eq!(to_remove.len(), 0);
    match &report.get_removed()[0] {
        ExternalChange::Removed { id, path } => {
            assert_eq!(id, &ItemId::id("a.txt"));
            assert_eq!(*path, seg(&["folder", "a.txt"]));
        }
        other => panic!("expected a removed change, got {:?}", other),
    }

    // A removed entry is dropped from the index unconditionally.
    assert!(matches!(
        m.locate_relative(&ItemId::id("a.txt")),
        Err(DatabaseError::NoMatchingID(_))
    ));

    // Second pass with the same disk contents: nothing changes any more.
    let (report, _) = m
        .scan_for_changes(&root, ScanPolicy::DetectOnly, true, disk)
        .unwrap();
    assert_eq!(report.get_added().len(), 0);
    assert_eq!(report.get_removed().len(), 0);
    assert_eq!(report.get_unchanged_count(), 2);
    assert_eq!(report.get_total_changed_count(), 0);
}

#[test]
fn add_policy_starts_tracking_discovered_paths() {
    let mut m = new_db();
    let root = ItemId::database_id();
    create(&mut m, "folder", &root);
    create(&mut m, "a.txt", &ItemId::id("folder"));

    // An untracked file sits on disk inside the scope.
    let mut disk = on_disk(&m);
    disk.push(seg(&["folder", "new.txt"]));

    let (report, to_remove) = m
        .scan_for_changes(&root, ScanPolicy::AddNew, true, disk)
        .unwrap();
    assert_eq!(report.get_removed().len(), 0);
    assert_eq!(report.get_added().len(), 1);
    assert_eq!(to_remove.len(), 0);
    match &report.get_added()[0] {
        ExternalChange::Added { id, path } => {
            assert_eq!(id, &ItemId::id("new.txt"));
            assert_eq!(*path, seg(&["folder", "new.txt"]));
        }
        other => panic!("expected an added change, got {:?}", other),
    }

    let all = m.get_all(ShouldSort::Sort);
    assert!(all.contains(&ItemId::id("new.txt")));
    assert_eq!(
        *m.locate_relative(&ItemId::id("new.txt")).unwrap(),
        seg(&["folder", "new.txt"])
    );
}

#[test]
fn remove_policy_returns_deletions_deepest_first() {
    let mut m = new_db();
    let root = ItemId::database_id();
    create(&mut m, "folder", &root);

    // Two untracked items: a directory with a file inside it.
    let mut disk = on_disk(&m);
    disk.push(seg(&["folder", "stray"]));
    disk.push(seg(&["folder", "stray", "tmp.txt"]));

    let (report, to_remove) = m
        .scan_for_changes(&root, ScanPolicy::RemoveNew, true, disk)
        .unwrap();
    assert_eq!(report.get_added().len(), 2);
    assert_eq!(report.get_removed().len(), 0);
    assert_eq!(report.get_total_changed_count(), 2);

    // Deeper paths come first, so a directory is deleted after its contents.
    assert_eq!(to_remove.len(), 2);
    assert_eq!(to_remove[0], seg(&["folder", "stray", "tmp.txt"]));
    assert_eq!(to_remove[1], seg(&["folder", "stray"]));

    // The untracked items never enter the index.
    assert!(matches!(
        m.locate_relative(&ItemId::id("tmp.txt")),
        Err(DatabaseError::NoMatchingID(_))
    ));
    assert!(matches!(
        m.locate_relative(&ItemId::id("stray")),
        Err(DatabaseError::NoMatchingID(_))
    ));
}

#[test]
fn added_positions_continue_each_names_list() {
    let mut m = new_db();
    let root = ItemId::database_id();
    create(&mut m, "folder", &root);
    create(&mut m, "a.txt", &root);

    // Two new files named like the tracked one, in different directories.
    let mut disk = on_disk(&m);
    disk.push(seg(&["folder", "a.txt"]));
    disk.push(seg(&["folder", "b.txt"]));

    let (report, _) = m
        .scan_for_changes(&root, ScanPolicy::AddNew, true, disk)
        .unwrap();
    assert_eq!(report.get_added().len(), 2);
    match &report.get_added()[0] {
        ExternalChange::Added { id, path } => {
            assert_eq!(id, &ItemId::with_index("a.txt", 1));
            assert_eq!(*path, seg(&["folder", "a.txt"]));
        }
        other => panic!("expected an added change, got {:?}", other),
    }
    match &report.get_added()[1] {
        ExternalChange::Added { id, path } => {
            assert_eq!(id, &ItemId::id("b.txt"));
            assert_eq!(*path, seg(&["folder", "b.txt"]));
        }
        other => panic!("expected an added change, got {:?}", other),
    }

    let ids = m.get_ids_from_shared_id(&ItemId::id("a.txt")).unwrap();
    assert_eq!(ids.len(), 2);
}

#[test]
fn scanning_a_subtree_leaves_outside_entries_alone() {
    let mut m = new_db();
    let root = ItemId::database_id();
    create(&mut m, "folder", &root);
    create(&mut m, "inside.txt", &ItemId::id("folder"));
    create(&mut m, "outside.txt", &root);

    // Scan only the folder; its file is gone from disk.
    let disk: Vec<Vec<String>> = Vec::new();
    let (report, _) = m
        .scan_for_changes(&ItemId::id("folder"), ScanPolicy::DetectOnly, true, disk)
        .unwrap();
    assert_eq!(report.get_removed().len(), 1);
    assert_eq!(report.get_unchanged_count(), 0);

    assert!(m.locate_relative(&ItemId::id("outside.txt")).is_ok());
    assert!(m.locate_relative(&ItemId::id("folder")).is_ok());
    assert!(matches!(
        m.locate_relative(&ItemId::id("inside.txt")),
        Err(DatabaseError::NoMatchingID(_))
    ));

    match m.scan_for_changes(&ItemId::id("outside.txt"), ScanPolicy::DetectOnly, true, Vec::new())
    {
        Err(DatabaseError::NotADirectory(path)) => {
            assert_eq!(path, seg(&["srv", "db", "outside.txt"]))
        }
        other => panic!("expected a non-directory scope, got {:?}", other),
    }
}

#[test]
fn non_recursive_scan_sees_only_immediate_children() {
    let mut m = new_db();
    let root = ItemId::database_id();
    create(&mut m, "folder", &root);
    create(&mut m, "deep.txt", &ItemId::id("folder"));
    create(&mut m, "top.txt", &root);

    // A top-level listing: the nested file is out of scope and untouched.
    let disk = vec![seg(&["folder"]), seg(&["top.txt"])];
    let (report, _) = m
        .scan_for_changes(&root, ScanPolicy::DetectOnly, false, disk)
        .unwrap();
    assert_eq!(report.get_removed().len(), 0);
    assert_eq!(report.get_added().len(), 0);
    assert_eq!(report.get_unchanged_count(), 2);
    assert!(m.locate_relative(&ItemId::id("deep.txt")).is_ok());
}
