use file_database::{DatabaseError, DatabaseManager, ItemId, ItemKind, ShouldSort};

fn seg(parts: &[&str]) -> Vec<String> {
    parts.iter().map(|p| p.to_string()).collect()
}

fn new_db() -> DatabaseManager {
    DatabaseManager::new(&seg(&["srv"]), &"db".to_string())
}

fn create(m: &mut DatabaseManager, name: &str, parent: &ItemId) {
    let id = ItemId::id(name);
    m.write_new(&id, parent).unwrap();
    m.apply_write_new(&id, parent).unwrap();
}

#[test]
fn migrate_item_moves_within_the_tree() {
    let mut m = new_db();
    let root = ItemId::database_id();
    create(&mut m, "folder", &root);
    create(&mut m, "a.txt", &root);

    let plan = m.migrate_item(&ItemId::id("a.txt"), &ItemId::id("folder")).unwrap();
    assert_eq!(plan.source, seg(&["srv", "db", "a.txt"]));
    assert_eq!(plan.destination, seg(&["srv", "db", "folder", "a.txt"]));
    assert_eq!(plan.kind, ItemKind::File);
    m.apply_migrate_item(&ItemId::id("a.txt"), &ItemId::id("folder")).unwrap();

    assert_eq!(
        *m.locate_relative(&ItemId::id("a.txt")).unwrap(),
        seg(&["folder", "a.txt"])
    );

    match m.migrate_item(&ItemId::id("a.txt"), &ItemId::id("folder")) {
        Err(DatabaseError::IdenticalSourceDestination(path)) => {
            assert_eq!(path, seg(&["srv", "db", "folder", "a.txt"]))
        }
        other => panic!("expected coinciding paths, got {:?}", other),
    }
}

#[test]
fn migrate_item_overwrites_a_tracked_destination() {
    let mut m = new_db();
    let root = ItemId::database_id();
    create(&mut m, "folder", &root);
    create(&mut m, "a.txt", &root);
    create(&mut m, "a.txt", &ItemId::id("folder"));

    // Moving the top-level item onto the nested one overwrites it: one
    // tracked path remains under the shared name.
    m.apply_migrate_item(&ItemId::id("a.txt"), &ItemId::id("folder")).unwrap();
    let ids = m.get_ids_from_shared_id(&ItemId::id("a.txt")).unwrap();
    assert_eq!(ids.len(), 1);
    assert_eq!(
        *m.locate_relative(&ItemId::id("a.txt")).unwrap(),
        seg(&["folder", "a.txt"])
    );
}

#[test]
fn export_copy_keeps_the_entry_and_move_drops_it() {
    let mut m = new_db();
    let root = ItemId::database_id();
    create(&mut m, "a.txt", &root);

    let plan = m.export_item(&ItemId::id("a.txt"), &seg(&["tmp", "out"])).unwrap();
    assert_eq!(plan.source, seg(&["srv", "db", "a.txt"]));
    assert_eq!(plan.destination, seg(&["tmp", "out", "a.txt"]));

    // A copy records nothing; the entry stays.
    assert!(m.locate_relative(&ItemId::id("a.txt")).is_ok());

    // A move drops the entry after the transfer.
    m.apply_export_move(&ItemId::id("a.txt"), &seg(&["tmp", "out"])).unwrap();
    assert!(matches!(
        m.locate_relative(&ItemId::id("a.txt")),
        Err(DatabaseError::NoMatchingID(_))
    ));
}

#[test]
fn export_inside_the_database_is_refused() {
    let mut m = new_db();
    let root = ItemId::database_id();
    create(&mut m, "folder", &root);
    create(&mut m, "a.txt", &root);

    let before = m.get_all(ShouldSort::Sort);
    match m.export_item(&ItemId::id("a.txt"), &seg(&["srv", "db", "folder"])) {
        Err(DatabaseError::ExportDestinationInsideDatabase(path)) => {
            assert_eq!(path, seg(&["srv", "db", "folder"]))
        }
        other => panic!("expected a containment violation, got {:?}", other),
    }
    match m.apply_export_move(&ItemId::id("a.txt"), &seg(&["srv", "db", "folder"])) {
        Err(DatabaseError::ExportDestinationInsideDatabase(_)) => {}
        other => panic!("expected a containment violation, got {:?}", other),
    }
    assert_eq!(m.get_all(ShouldSort::Sort), before);
}

#[test]
fn import_tracks_the_new_entry() {
    let mut m = new_db();
    let root = ItemId::database_id();
    create(&mut m, "imports", &root);

    let from = seg(&["home", "user", "example.txt"]);
    let plan = m
        .import_item(&from, &ItemId::id("imports"), Some(ItemKind::File), false)
        .unwrap();
    assert_eq!(plan.source, from);
    assert_eq!(plan.destination, seg(&["srv", "db", "imports", "example.txt"]));
    m.apply_import_item(&from, &ItemId::id("imports"), Some(ItemKind::File), false).unwrap();
    assert_eq!(
        *m.locate_relative(&ItemId::id("example.txt")).unwrap(),
        seg(&["imports", "example.txt"])
    );

    match m.import_item(&seg(&["srv", "db", "x.txt"]), &root, Some(ItemKind::File), false) {
        Err(DatabaseError::ImportSourceInsideDatabase(path)) => {
            assert_eq!(path, seg(&["srv", "db", "x.txt"]))
        }
        other => panic!("expected a containment violation, got {:?}", other),
    }
    match m.import_item(&from, &ItemId::id("imports"), Some(ItemKind::File), false) {
        Err(DatabaseError::IdAlreadyExists(name)) => assert_eq!(name, "example.txt"),
        other => panic!("expected a collision, got {:?}", other),
    }
    match m.import_item(&seg(&["home", "gone.txt"]), &root, None, false) {
        Err(DatabaseError::NoMatchingID(name)) => assert_eq!(name, "gone.txt"),
        other => panic!("expected a missing source, got {:?}", other),
    }
    match m.import_item(&seg(&["home", "busy.txt"]), &root, Some(ItemKind::File), true) {
        Err(DatabaseError::IdAlreadyExists(name)) => assert_eq!(name, "busy.txt"),
        other => panic!("expected an occupied destination, got {:?}", other),
    }
}

#[test]
fn duplicate_adds_one_entry_and_keeps_the_source() {
    let mut m = new_db();
    let root = ItemId::database_id();
    create(&mut m, "a.txt", &root);

    let plan = m.duplicate_item(&ItemId::id("a.txt"), &root, "copy.txt", false).unwrap();
    assert_eq!(plan.source, seg(&["srv", "db", "a.txt"]));
    assert_eq!(plan.destination, seg(&["srv", "db", "copy.txt"]));
    assert_eq!(plan.kind, ItemKind::File);
    m.apply_duplicate_item(&ItemId::id("a.txt"), &root, "copy.txt", false).unwrap();

    assert!(m.locate_relative(&ItemId::id("a.txt")).is_ok());
    assert_eq!(*m.locate_relative(&ItemId::id("copy.txt")).unwrap(), seg(&["copy.txt"]));

    match m.duplicate_item(&ItemId::id("a.txt"), &root, "copy.txt", false) {
        Err(DatabaseError::IdAlreadyExists(name)) => assert_eq!(name, "copy.txt"),
        other => panic!("expected a collision, got {:?}", other),
    }
    match m.duplicate_item(&ItemId::id("a.txt"), &ItemId::id("copy.txt"), "d.txt", false) {
        Err(DatabaseError::NotADirectory(path)) => {
            assert_eq!(path, seg(&["srv", "db", "copy.txt"]))
        }
        other => panic!("expected a non-directory parent, got {:?}", other),
    }
}

#[test]
fn migrate_database_changes_only_the_root() {
    let mut m = new_db();
    let root = ItemId::database_id();
    create(&mut m, "a.txt", &root);

    let plan = m.migrate_database(&seg(&["backup"])).unwrap();
    assert_eq!(plan.source, seg(&["srv", "db"]));
    assert_eq!(plan.destination, seg(&["backup", "db"]));
    m.apply_migrate_database(&seg(&["backup"])).unwrap();

    assert_eq!(m.locate_absolute(&root).unwrap(), seg(&["backup", "db"]));
    assert_eq!(
        m.locate_absolute(&ItemId::id("a.txt")).unwrap(),
        seg(&["backup", "db", "a.txt"])
    );
}
