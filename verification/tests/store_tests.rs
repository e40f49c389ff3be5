//! Entry lifecycle: create, fetch, update, history, delete, move.

use credstore::data::EntryData;
use credstore::errors::DatabaseError;
use credstore::model::{CustomField, Database};

fn blank_entry(uuid: &str, group_uuid: &str) -> EntryData {
    EntryData {
        uuid: uuid.to_string(),
        title: String::new(),
        username: String::new(),
        password: String::new(),
        url: String::new(),
        notes: String::new(),
        tags: String::new(),
        group_uuid: group_uuid.to_string(),
        icon_id: None,
        is_favorite: false,
        created: None,
        modified: None,
        last_accessed: None,
        expiry_time: None,
        expires: false,
        usage_count: 0,
        custom_fields: Vec::new(),
        history: Vec::new(),
    }
}

const E1: &str = "11111111-1111-1111-1111-111111111111";

#[test]
fn create_then_fetch_round_trip() {
    let mut db = Database::create("vault".to_string());
    let root = db.get_root_group();
    let mut data = blank_entry(E1, &root.uuid);
    data.title = "mail".to_string();
    data.username = "alice".to_string();
    data.password = "hunter2".to_string();
    data.url = "https://example.test".to_string();
    data.notes = "personal".to_string();
    data.tags = "a;b".to_string();
    data.is_favorite = true;
    data.icon_id = Some(7);
    data.custom_fields.push(CustomField {
        name: "PIN".to_string(),
        value: "1234".to_string(),
        protected: true,
    });
    db.create_entry(data).unwrap();

    let got = db.get_entry(E1).unwrap();
    assert_eq!(got.uuid, E1);
    assert_eq!(got.title, "mail");
    assert_eq!(got.username, "alice");
    assert_eq!(got.password, "hunter2");
    assert_eq!(got.url, "https://example.test");
    assert_eq!(got.notes, "personal");
    assert_eq!(got.tags, "a;b");
    assert_eq!(got.group_uuid, root.uuid);
    assert!(got.is_favorite);
    assert_eq!(got.icon_id, Some(7));
    assert_eq!(got.usage_count, 0);
    assert_eq!(got.custom_fields.len(), 1);
    assert_eq!(got.custom_fields[0].name, "PIN");
    assert_eq!(got.custom_fields[0].value, "1234");
    assert!(got.custom_fields[0].protected);
    assert!(got.history.is_empty());
    // Timestamps are set at creation and coincide.
    assert!(got.created.is_some());
    assert_eq!(got.created, got.modified);
    assert_eq!(got.created, got.last_accessed);
}

#[test]
fn fetch_by_other_spelling_of_same_identifier() {
    let mut db = Database::create("vault".to_string());
    let root = db.get_root_group();
    db.create_entry(blank_entry(E1, &root.uuid)).unwrap();
    // Uppercase and braced forms parse to the same identifier.
    let upper = E1.to_uppercase();
    assert_eq!(db.get_entry(&upper).unwrap().uuid, E1);
    let braced = format!("{{{}}}", E1);
    assert_eq!(db.get_entry(&braced).unwrap().uuid, E1);
}

#[test]
fn unchanged_update_keeps_history_changed_update_stacks_one() {
    let mut db = Database::create("vault".to_string());
    let root = db.get_root_group();
    let mut data = blank_entry(E1, &root.uuid);
    data.title = "mail".to_string();
    data.password = "old".to_string();
    db.create_entry(data).unwrap();
    let before = db.get_entry(E1).unwrap();
    let m1 = before.modified.unwrap();

    // Same semantic fields: history must not grow.
    let mut same = blank_entry(E1, &root.uuid);
    same.title = "mail".to_string();
    same.password = "old".to_string();
    db.update_entry(same).unwrap();
    let mid = db.get_entry(E1).unwrap();
    assert_eq!(mid.history.len(), 0);
    assert!(mid.modified.unwrap() >= m1);

    // One changed field: exactly one snapshot, stamped with the prior
    // modification time.
    let m2 = mid.modified.unwrap();
    let mut changed = blank_entry(E1, &root.uuid);
    changed.title = "mail".to_string();
    changed.password = "new".to_string();
    db.update_entry(changed).unwrap();
    let after = db.get_entry(E1).unwrap();
    assert_eq!(after.history.len(), 1);
    assert_eq!(after.history[0].timestamp, m2);
    assert_eq!(after.history[0].password, "old");
    assert_eq!(after.password, "new");
    assert!(after.modified.unwrap() >= m2);
}

#[test]
fn update_replaces_custom_fields_wholesale() {
    let mut db = Database::create("vault".to_string());
    let root = db.get_root_group();
    let mut data = blank_entry(E1, &root.uuid);
    data.custom_fields.push(CustomField {
        name: "one".to_string(),
        value: "1".to_string(),
        protected: false,
    });
    db.create_entry(data).unwrap();

    let mut upd = blank_entry(E1, &root.uuid);
    upd.custom_fields.push(CustomField {
        name: "two".to_string(),
        value: "2".to_string(),
        protected: false,
    });
    upd.custom_fields.push(CustomField {
        name: "two".to_string(),
        value: "3".to_string(),
        protected: false,
    });
    db.update_entry(upd).unwrap();
    let got = db.get_entry(E1).unwrap();
    // Duplicate names collapse onto the first slot, last value winning.
    assert_eq!(got.custom_fields.len(), 1);
    assert_eq!(got.custom_fields[0].name, "two");
    assert_eq!(got.custom_fields[0].value, "3");
}

#[test]
fn entry_errors() {
    let mut db = Database::create("vault".to_string());
    let root = db.get_root_group();
    assert!(matches!(db.get_entry("not-a-uuid"), Err(DatabaseError::EntryNotFound)));
    assert!(matches!(db.get_entry(E1), Err(DatabaseError::EntryNotFound)));
    assert!(matches!(
        db.update_entry(blank_entry(E1, &root.uuid)),
        Err(DatabaseError::EntryNotFound)
    ));
    assert!(matches!(db.delete_entry(E1), Err(DatabaseError::EntryNotFound)));
    // Malformed supplied identifier on creation.
    assert!(matches!(
        db.create_entry(blank_entry("zzz", &root.uuid)),
        Err(DatabaseError::InvalidUuid)
    ));
    // Unknown parent group.
    assert!(matches!(
        db.create_entry(blank_entry(E1, "22222222-2222-2222-2222-222222222222")),
        Err(DatabaseError::GroupNotFound)
    ));
    // A duplicate identifier is refused.
    db.create_entry(blank_entry(E1, &root.uuid)).unwrap();
    assert!(matches!(
        db.create_entry(blank_entry(E1, &root.uuid)),
        Err(DatabaseError::InvalidUuid)
    ));
}

#[test]
fn generated_identifier_when_none_supplied() {
    let mut db = Database::create("vault".to_string());
    let root = db.get_root_group();
    db.create_entry(blank_entry("", &root.uuid)).unwrap();
    let all = db.get_all_entries();
    assert_eq!(all.len(), 1);
    assert_eq!(all[0].uuid.len(), 36);
}

#[test]
fn delete_removes_only_that_entry() {
    let mut db = Database::create("vault".to_string());
    let root = db.get_root_group();
    db.create_entry(blank_entry(E1, &root.uuid)).unwrap();
    db.create_entry(blank_entry("22222222-2222-2222-2222-222222222222", &root.uuid)).unwrap();
    db.delete_entry(E1).unwrap();
    assert!(matches!(db.get_entry(E1), Err(DatabaseError::EntryNotFound)));
    let all = db.get_all_entries();
    assert_eq!(all.len(), 1);
    assert_eq!(all[0].uuid, "22222222-2222-2222-2222-222222222222");
}

#[test]
fn move_entry_to_other_group_and_no_op() {
    let mut db = Database::create("vault".to_string());
    let root = db.get_root_group();
    db.create_group("work".to_string(), None, None).unwrap();
    let work = &db.get_root_group().children[0].uuid.clone();
    db.create_entry(blank_entry(E1, &root.uuid)).unwrap();

    // Moving into the current group is a successful no-op.
    db.move_entry(E1, &root.uuid).unwrap();
    assert_eq!(db.get_entry(E1).unwrap().group_uuid, root.uuid);

    db.move_entry(E1, work).unwrap();
    assert_eq!(&db.get_entry(E1).unwrap().group_uuid, work);

    // Unknown target group fails.
    assert!(matches!(
        db.move_entry(E1, "33333333-3333-3333-3333-333333333333"),
        Err(DatabaseError::GroupNotFound)
    ));
}

#[test]
fn entries_in_group_lists_direct_entries_only() {
    let mut db = Database::create("vault".to_string());
    let root = db.get_root_group();
    db.create_group("sub".to_string(), None, None).unwrap();
    let sub = db.get_root_group().children[0].uuid.clone();
    db.create_entry(blank_entry(E1, &root.uuid)).unwrap();
    db.create_entry(blank_entry("22222222-2222-2222-2222-222222222222", &sub)).unwrap();
    let in_root = db.get_entries_in_group(&root.uuid).unwrap();
    assert_eq!(in_root.len(), 1);
    assert_eq!(in_root[0].uuid, E1);
    let in_sub = db.get_entries_in_group(&sub).unwrap();
    assert_eq!(in_sub.len(), 1);
    assert_eq!(in_sub[0].uuid, "22222222-2222-2222-2222-222222222222");
}
