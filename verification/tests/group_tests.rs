//! Group lifecycle: create, rename, move, reorder, delete, and the
//! protections of the root.

use credstore::data::GroupData;
use credstore::errors::DatabaseError;
use credstore::model::Database;

fn names_of(g: &GroupData) -> Vec<String> {
    g.children.iter().map(|c| c.name.clone()).collect()
}

#[test]
fn create_and_rename_groups() {
    let mut db = Database::create("vault".to_string());
    db.create_group("alpha".to_string(), None, Some(3)).unwrap();
    let root = db.get_root_group();
    assert_eq!(root.children.len(), 1);
    assert_eq!(root.children[0].name, "alpha");
    assert_eq!(root.children[0].icon_id, Some(3));
    assert_eq!(root.children[0].parent_uuid.as_deref(), Some(root.uuid.as_str()));

    let alpha = root.children[0].uuid.clone();
    db.rename_group(&alpha, "omega".to_string(), None).unwrap();
    let root2 = db.get_root_group();
    assert_eq!(root2.children[0].name, "omega");
    // The icon stays when none is supplied.
    assert_eq!(root2.children[0].icon_id, Some(3));

    // Nested creation under a named parent.
    db.create_group("inner".to_string(), Some(alpha.clone()), None).unwrap();
    let root3 = db.get_root_group();
    assert_eq!(root3.children[0].children.len(), 1);
    assert_eq!(root3.children[0].children[0].name, "inner");
}

#[test]
fn move_group_into_descendant_fails_and_tree_is_unchanged() {
    let mut db = Database::create("vault".to_string());
    db.create_group("a".to_string(), None, None).unwrap();
    let a = db.get_root_group().children[0].uuid.clone();
    db.create_group("b".to_string(), Some(a.clone()), None).unwrap();
    let b = db.get_root_group().children[0].children[0].uuid.clone();

    let before = db.get_root_group();
    // Into its own child.
    assert!(matches!(db.move_group(&a, &b), Err(DatabaseError::GroupNotFound)));
    // Into itself.
    assert!(matches!(db.move_group(&a, &a), Err(DatabaseError::GroupNotFound)));
    let after = db.get_root_group();
    assert_eq!(before.children.len(), after.children.len());
    assert_eq!(before.children[0].uuid, after.children[0].uuid);
    assert_eq!(before.children[0].children.len(), after.children[0].children.len());
    assert_eq!(before.children[0].children[0].uuid, after.children[0].children[0].uuid);
}

#[test]
fn move_group_to_sibling() {
    let mut db = Database::create("vault".to_string());
    db.create_group("a".to_string(), None, None).unwrap();
    db.create_group("b".to_string(), None, None).unwrap();
    let root = db.get_root_group();
    let a = root.children[0].uuid.clone();
    let b = root.children[1].uuid.clone();
    db.move_group(&a, &b).unwrap();
    let root2 = db.get_root_group();
    assert_eq!(root2.children.len(), 1);
    assert_eq!(root2.children[0].uuid, b);
    assert_eq!(root2.children[0].children.len(), 1);
    assert_eq!(root2.children[0].children[0].uuid, a);
}

#[test]
fn reorder_clamps_a_forward_move_past_the_end() {
    let mut db = Database::create("vault".to_string());
    db.create_group("a".to_string(), None, None).unwrap();
    db.create_group("b".to_string(), None, None).unwrap();
    db.create_group("c".to_string(), None, None).unwrap();
    let a = db.get_root_group().children[0].uuid.clone();
    // Far beyond the last valid index: clamps to the end, no panic.
    db.reorder_group(&a, 99).unwrap();
    assert_eq!(names_of(&db.get_root_group()), vec!["b", "c", "a"]);
    // Backward move to the front.
    db.reorder_group(&a, 0).unwrap();
    assert_eq!(names_of(&db.get_root_group()), vec!["a", "b", "c"]);
    // Reorder to its own position changes nothing.
    db.reorder_group(&a, 0).unwrap();
    assert_eq!(names_of(&db.get_root_group()), vec!["a", "b", "c"]);
}

#[test]
fn root_is_protected() {
    let mut db = Database::create("vault".to_string());
    db.create_group("a".to_string(), None, None).unwrap();
    let root = db.get_root_group();
    let a = root.children[0].uuid.clone();

    assert!(matches!(db.delete_group(&root.uuid), Err(DatabaseError::GroupNotFound)));
    assert!(matches!(db.move_group(&root.uuid, &a), Err(DatabaseError::GroupNotFound)));
    assert!(matches!(db.reorder_group(&root.uuid, 0), Err(DatabaseError::GroupNotFound)));
    // Nothing moved.
    let after = db.get_root_group();
    assert_eq!(after.uuid, root.uuid);
    assert_eq!(after.children.len(), 1);
    assert_eq!(after.children[0].uuid, a);
}

#[test]
fn delete_group_removes_whole_subtree() {
    let mut db = Database::create("vault".to_string());
    db.create_group("a".to_string(), None, None).unwrap();
    let a = db.get_root_group().children[0].uuid.clone();
    db.create_group("b".to_string(), Some(a.clone()), None).unwrap();
    db.delete_group(&a).unwrap();
    assert!(db.get_root_group().children.is_empty());
    assert!(matches!(db.get_entries_in_group(&a), Err(DatabaseError::GroupNotFound)));
}

#[test]
fn group_errors() {
    let mut db = Database::create("vault".to_string());
    assert!(matches!(
        db.rename_group("junk", "x".to_string(), None),
        Err(DatabaseError::GroupNotFound)
    ));
    assert!(matches!(
        db.delete_group("44444444-4444-4444-4444-444444444444"),
        Err(DatabaseError::GroupNotFound)
    ));
    assert!(matches!(
        db.create_group("x".to_string(), Some("junk".to_string()), None),
        Err(DatabaseError::GroupNotFound)
    ));
    assert!(matches!(
        db.reorder_group("55555555-5555-5555-5555-555555555555", 0),
        Err(DatabaseError::GroupNotFound)
    ));
}
