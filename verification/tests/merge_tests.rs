//! The last-write-wins merge: idempotence on an unchanged re-read,
//! conflict resolution by modification time, adoption of new records,
//! and preservation of records present only in memory.

use credstore::kdf::strong_kdf;
use credstore::model::{Database, Entry, Group, Node};

fn mk_entry(uuid: u128, title: &str, password: &str, modified: u64) -> Entry {
    Entry {
        uuid,
        title: title.to_string(),
        username: String::new(),
        password: password.to_string(),
        url: String::new(),
        notes: String::new(),
        tags: String::new(),
        icon_id: None,
        is_favorite: false,
        created: 1000,
        modified,
        last_accessed: modified,
        expires: false,
        expiry_time: None,
        usage_count: 0,
        custom_fields: Vec::new(),
        history: Vec::new(),
        attachments: Vec::new(),
    }
}

fn mk_group(uuid: u128, name: &str, children: Vec<Node>) -> Group {
    Group { uuid, name: name.to_string(), icon_id: None, children }
}

fn sample_root() -> Group {
    mk_group(
        1,
        "root",
        vec![
            Node::Entry(mk_entry(10, "top", "pw-top", 2000)),
            Node::Group(mk_group(
                2,
                "folder",
                vec![Node::Entry(mk_entry(11, "inner", "pw-inner", 2100))],
            )),
        ],
    )
}

fn db_with(root: Group) -> Database {
    Database { root, attachment_table: Vec::new(), last_modified: None, kdf: strong_kdf() }
}

fn snapshot(db: &Database) -> Vec<(String, String, String, Option<u64>)> {
    db.get_all_entries()
        .into_iter()
        .map(|e| (e.uuid, e.title, e.group_uuid, e.modified))
        .collect()
}

#[test]
fn merging_an_unchanged_copy_changes_nothing() {
    let mut db = db_with(sample_root());
    let before_entries = snapshot(&db);
    let before_groups = db.get_root_group();
    db.merge_database(&sample_root(), Some(5000)).unwrap();
    assert_eq!(snapshot(&db), before_entries);
    let after_groups = db.get_root_group();
    assert_eq!(after_groups.uuid, before_groups.uuid);
    assert_eq!(after_groups.children.len(), before_groups.children.len());
    assert_eq!(after_groups.children[0].uuid, before_groups.children[0].uuid);
    assert_eq!(after_groups.children[0].name, before_groups.children[0].name);
    // The watermark was refreshed.
    assert_eq!(db.check_for_changes(Some(5000)).unwrap(), false);
    assert_eq!(db.check_for_changes(Some(5001)).unwrap(), true);
}

#[test]
fn conflict_resolves_to_the_later_modification() {
    // The re-read copy is newer: it wins.
    let mut db = db_with(mk_group(1, "root", vec![Node::Entry(mk_entry(10, "A", "p", 2000))]));
    let theirs = mk_group(1, "root", vec![Node::Entry(mk_entry(10, "B", "p", 3000))]);
    db.merge_database(&theirs, None).unwrap();
    let all = db.get_all_entries();
    assert_eq!(all.len(), 1);
    assert_eq!(all[0].title, "B");
    assert_eq!(all[0].modified, Some(3000));

    // The in-memory copy is newer: it stays.
    let mut db2 = db_with(mk_group(1, "root", vec![Node::Entry(mk_entry(10, "A", "p", 3000))]));
    let theirs2 = mk_group(1, "root", vec![Node::Entry(mk_entry(10, "B", "p", 2000))]);
    db2.merge_database(&theirs2, None).unwrap();
    let all2 = db2.get_all_entries();
    assert_eq!(all2.len(), 1);
    assert_eq!(all2[0].title, "A");

    // A tie keeps the in-memory copy.
    let mut db3 = db_with(mk_group(1, "root", vec![Node::Entry(mk_entry(10, "A", "p", 2000))]));
    let theirs3 = mk_group(1, "root", vec![Node::Entry(mk_entry(10, "B", "p", 2000))]);
    db3.merge_database(&theirs3, None).unwrap();
    assert_eq!(db3.get_all_entries()[0].title, "A");
}

#[test]
fn merge_adopts_new_records_and_keeps_memory_only_ones() {
    let mut db = db_with(mk_group(
        1,
        "root",
        vec![Node::Entry(mk_entry(10, "ours-only", "p", 2000))],
    ));
    let theirs = mk_group(
        1,
        "root",
        vec![
            Node::Entry(mk_entry(12, "new-entry", "q", 2500)),
            Node::Group(mk_group(3, "new-folder", vec![Node::Entry(mk_entry(13, "deep", "r", 2600))])),
        ],
    );
    db.merge_database(&theirs, None).unwrap();
    let all = snapshot(&db);
    assert_eq!(all.len(), 3);
    // Records present only in memory stay; nothing is deleted.
    assert!(all.iter().any(|(_, t, _, _)| t == "ours-only"));
    assert!(all.iter().any(|(_, t, _, _)| t == "new-entry"));
    assert!(all.iter().any(|(_, t, _, _)| t == "deep"));
    let root = db.get_root_group();
    assert_eq!(root.children.len(), 1);
    assert_eq!(root.children[0].name, "new-folder");
}

#[test]
fn merge_recurses_into_matching_subgroups() {
    let mut db = db_with(mk_group(
        1,
        "root",
        vec![Node::Group(mk_group(2, "folder", vec![Node::Entry(mk_entry(11, "old", "p", 2000))]))],
    ));
    let theirs = mk_group(
        1,
        "root",
        vec![Node::Group(mk_group(
            2,
            "folder-renamed-on-disk",
            vec![
                Node::Entry(mk_entry(11, "newer", "p", 2001)),
                Node::Entry(mk_entry(14, "added", "s", 2002)),
            ],
        ))],
    );
    db.merge_database(&theirs, None).unwrap();
    // The group keeps its in-memory name; its entries are reconciled.
    let root = db.get_root_group();
    assert_eq!(root.children.len(), 1);
    assert_eq!(root.children[0].name, "folder");
    let inner = db.get_entries_in_group(&root.children[0].uuid).unwrap();
    assert_eq!(inner.len(), 2);
    assert_eq!(inner[0].title, "newer");
    assert_eq!(inner[1].title, "added");
}

#[test]
fn check_for_changes_compares_against_the_watermark() {
    let mut db = db_with(sample_root());
    // No watermark yet: nothing to report.
    assert_eq!(db.check_for_changes(Some(10)).unwrap(), false);
    db.merge_database(&sample_root(), Some(100)).unwrap();
    assert_eq!(db.check_for_changes(Some(100)).unwrap(), false);
    assert_eq!(db.check_for_changes(Some(99)).unwrap(), false);
    assert_eq!(db.check_for_changes(Some(101)).unwrap(), true);
    assert_eq!(db.check_for_changes(None).unwrap(), false);
}
