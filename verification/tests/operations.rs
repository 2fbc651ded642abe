use file_database::{
    DatabaseError, DatabaseManager, DeletePlan, ForceDeletion, ItemId, ItemKind, ShouldSort,
};

fn seg(parts: &[&str]) -> Vec<String> {
    parts.iter().map(|p| p.to_string()).collect()
}

fn new_db() -> DatabaseManager {
    DatabaseManager::new(&seg(&["srv"]), &"db".to_string())
}

fn create(m: &mut DatabaseManager, name: &str, parent: &ItemId) {
    let id = ItemId::id(name);
    m.write_new(&id, parent).unwrap();
    m.apply_write_new(&id, parent).unwrap();
}

#[test]
fn create_plans_and_resolves() {
    let mut m = new_db();
    let root = ItemId::database_id();
    let folder = ItemId::id("folder");

    let plan = m.write_new(&folder, &root).unwrap();
    assert_eq!(plan.kind, ItemKind::Directory);
    assert_eq!(plan.relative, seg(&["folder"]));
    assert_eq!(plan.absolute, seg(&["srv", "db", "folder"]));
    m.apply_write_new(&folder, &root).unwrap();

    let file = ItemId::id("note.txt");
    let plan = m.write_new(&file, &folder).unwrap();
    assert_eq!(plan.kind, ItemKind::File);
    assert_eq!(plan.relative, seg(&["folder", "note.txt"]));
    m.apply_write_new(&file, &folder).unwrap();

    assert_eq!(*m.locate_relative(&file).unwrap(), seg(&["folder", "note.txt"]));
    assert_eq!(m.locate_absolute(&file).unwrap(), seg(&["srv", "db", "folder", "note.txt"]));
    assert_eq!(m.locate_absolute(&root).unwrap(), seg(&["srv", "db"]));
}

#[test]
fn create_rejects_duplicates_and_root() {
    let mut m = new_db();
    let root = ItemId::database_id();
    create(&mut m, "a.txt", &root);

    match m.write_new(&ItemId::id("a.txt"), &root) {
        Err(DatabaseError::IdAlreadyExists(name)) => assert_eq!(name, "a.txt"),
        other => panic!("expected a collision, got {:?}", other),
    }
    match m.apply_write_new(&ItemId::database_id(), &root) {
        Err(DatabaseError::RootIdUnsupported) => {}
        other => panic!("expected the root to be refused, got {:?}", other),
    }
    match m.write_new(&ItemId::id("b.txt"), &ItemId::id("missing")) {
        Err(DatabaseError::NoMatchingID(name)) => assert_eq!(name, "missing"),
        other => panic!("expected an unknown parent, got {:?}", other),
    }
}

#[test]
fn shared_names_get_positions() {
    let mut m = new_db();
    let root = ItemId::database_id();
    create(&mut m, "folder_a", &root);
    create(&mut m, "folder_b", &root);
    create(&mut m, "a.txt", &ItemId::id("folder_a"));
    create(&mut m, "a.txt", &ItemId::id("folder_b"));

    let ids = m.get_ids_from_shared_id(&ItemId::id("a.txt")).unwrap();
    assert_eq!(ids.len(), 2);
    assert_eq!(ids[0].get_index(), 0);
    assert_eq!(ids[1].get_index(), 1);

    let first = m.locate_relative(&ids[0]).unwrap().clone();
    let second = m.locate_relative(&ids[1]).unwrap().clone();
    assert_eq!(first, seg(&["folder_a", "a.txt"]));
    assert_eq!(second, seg(&["folder_b", "a.txt"]));

    let paths = m.get_paths_for_id(&ItemId::id("a.txt")).unwrap();
    assert_eq!(paths.len(), 2);

    match m.locate_relative(&ItemId::with_index("a.txt", 2)) {
        Err(DatabaseError::IndexOutOfBounds { id, index, len }) => {
            assert_eq!(id, "a.txt");
            assert_eq!(index, 2);
            assert_eq!(len, 2);
        }
        other => panic!("expected an out-of-range position, got {:?}", other),
    }
}

#[test]
fn rename_moves_the_entry_to_the_new_name() {
    let mut m = new_db();
    let root = ItemId::database_id();
    create(&mut m, "folder", &root);
    create(&mut m, "note.txt", &ItemId::id("folder"));

    let plan = m.rename(&ItemId::id("note.txt"), "renamed.txt").unwrap();
    assert_eq!(plan.source, seg(&["srv", "db", "folder", "note.txt"]));
    assert_eq!(plan.destination, seg(&["srv", "db", "folder", "renamed.txt"]));
    m.apply_rename(&ItemId::id("note.txt"), "renamed.txt").unwrap();

    match m.locate_relative(&ItemId::id("note.txt")) {
        Err(DatabaseError::NoMatchingID(name)) => assert_eq!(name, "note.txt"),
        other => panic!("expected the old name to be gone, got {:?}", other),
    }
    assert_eq!(
        *m.locate_relative(&ItemId::id("renamed.txt")).unwrap(),
        seg(&["folder", "renamed.txt"])
    );

    match m.rename(&ItemId::database_id(), "anything") {
        Err(DatabaseError::RootIdUnsupported) => {}
        other => panic!("expected the root to be refused, got {:?}", other),
    }
}

#[test]
fn delete_plans_and_updates_index() {
    let mut m = new_db();
    let root = ItemId::database_id();
    create(&mut m, "folder", &root);
    create(&mut m, "a.txt", &root);

    match m.delete(&ItemId::id("a.txt"), ForceDeletion::NoForce).unwrap() {
        DeletePlan::File { path } => assert_eq!(path, seg(&["srv", "db", "a.txt"])),
        other => panic!("expected a file deletion, got {:?}", other),
    }
    m.apply_delete(&ItemId::id("a.txt")).unwrap();
    assert!(matches!(
        m.locate_relative(&ItemId::id("a.txt")),
        Err(DatabaseError::NoMatchingID(_))
    ));

    match m.delete(&ItemId::id("folder"), ForceDeletion::Force).unwrap() {
        DeletePlan::Directory { path, forced } => {
            assert_eq!(path, seg(&["srv", "db", "folder"]));
            assert!(forced);
        }
        other => panic!("expected a directory deletion, got {:?}", other),
    }

    match m.delete(&root, ForceDeletion::Force).unwrap() {
        DeletePlan::Root { path, forced } => {
            assert_eq!(path, seg(&["srv", "db"]));
            assert!(forced);
        }
        other => panic!("expected a root deletion, got {:?}", other),
    }
    m.apply_delete(&root).unwrap();
    assert_eq!(m.get_all(ShouldSort::NoSort).len(), 0);
    assert_eq!(m.locate_absolute(&root).unwrap(), seg(&[]));
}

#[test]
fn deleting_a_sibling_keeps_positions_valid() {
    let mut m = new_db();
    let root = ItemId::database_id();
    create(&mut m, "folder_a", &root);
    create(&mut m, "folder_b", &root);
    create(&mut m, "a.txt", &ItemId::id("folder_a"));
    create(&mut m, "a.txt", &ItemId::id("folder_b"));

    m.apply_delete(&ItemId::id("a.txt")).unwrap();
    let survivor = m.locate_relative(&ItemId::id("a.txt")).unwrap().clone();
    assert_eq!(survivor, seg(&["folder_b", "a.txt"]));
    assert!(matches!(
        m.locate_relative(&ItemId::with_index("a.txt", 1)),
        Err(DatabaseError::IndexOutOfBounds { .. })
    ));
}

#[test]
fn end_to_end_scenario() {
    let mut m = new_db();
    let root = ItemId::database_id();
    create(&mut m, "folder", &root);
    create(&mut m, "note.txt", &ItemId::id("folder"));
    create(&mut m, "note.txt", &root);

    let root_note = ItemId::with_index("note.txt", 1);
    assert_eq!(*m.locate_relative(&root_note).unwrap(), seg(&["note.txt"]));

    m.apply_rename(&root_note, "renamed.txt").unwrap();

    let all = m.get_all(ShouldSort::Sort);
    assert_eq!(all.len(), 3);
    assert_eq!(all[0], ItemId::id("folder"));
    assert_eq!(all[1], ItemId::id("note.txt"));
    assert_eq!(all[2], ItemId::id("renamed.txt"));

    assert_eq!(
        *m.locate_relative(&ItemId::id("note.txt")).unwrap(),
        seg(&["folder", "note.txt"])
    );
    assert!(matches!(
        m.locate_relative(&ItemId::with_index("note.txt", 1)),
        Err(DatabaseError::IndexOutOfBounds { .. })
    ));
    assert_eq!(
        *m.locate_relative(&ItemId::id("renamed.txt")).unwrap(),
        seg(&["renamed.txt"])
    );
    assert_eq!(
        m.get_parent(&ItemId::id("note.txt")).unwrap(),
        ItemId::id("folder")
    );
    assert_eq!(m.get_parent(&ItemId::id("renamed.txt")).unwrap(), root);
}

#[test]
fn children_listing_and_kind_checks() {
    let mut m = new_db();
    let root = ItemId::database_id();
    create(&mut m, "folder", &root);
    create(&mut m, "a.txt", &ItemId::id("folder"));
    create(&mut m, "b.txt", &ItemId::id("folder"));
    create(&mut m, "c.txt", &root);

    let top = m.get_by_parent(&root, ShouldSort::Sort).unwrap();
    assert_eq!(top, vec![ItemId::id("c.txt"), ItemId::id("folder")]);

    let nested = m.get_by_parent(&ItemId::id("folder"), ShouldSort::Sort).unwrap();
    assert_eq!(nested, vec![ItemId::id("a.txt"), ItemId::id("b.txt")]);

    match m.get_by_parent(&ItemId::id("c.txt"), ShouldSort::Sort) {
        Err(DatabaseError::NotADirectory(path)) => {
            assert_eq!(path, seg(&["srv", "db", "c.txt"]))
        }
        other => panic!("expected a non-directory parent, got {:?}", other),
    }
}

#[test]
fn atomic_write_plan_names_the_temporary() {
    let mut m = new_db();
    let root = ItemId::database_id();
    create(&mut m, "folder", &root);
    create(&mut m, "blob.bin", &ItemId::id("folder"));

    let plan = m.overwrite_existing(&ItemId::id("blob.bin")).unwrap();
    assert_eq!(plan.target, seg(&["srv", "db", "folder", "blob.bin"]));
    assert_eq!(plan.temporary, seg(&["srv", "db", "folder", "blob.tmp"]));

    match m.overwrite_existing(&ItemId::id("folder")) {
        Err(DatabaseError::NotAFile(path)) => assert_eq!(path, seg(&["srv", "db", "folder"])),
        other => panic!("expected a non-file target, got {:?}", other),
    }
    match m.resolve_file(&root) {
        Err(DatabaseError::NotAFile(path)) => assert_eq!(path, seg(&["srv", "db"])),
        other => panic!("expected the root to be refused, got {:?}", other),
    }
}
