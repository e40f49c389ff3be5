//! Dashboard statistics and search.

use credstore::kdf::strong_kdf;
use credstore::model::{Database, Entry, Group, Node};
use credstore::stats::password_entropy;

fn mk_entry(uuid: u128, title: &str, password: &str, modified: u64) -> Entry {
    Entry {
        uuid,
        title: title.to_string(),
        username: String::new(),
        password: password.to_string(),
        url: String::new(),
        notes: String::new(),
        tags: String::new(),
        icon_id: None,
        is_favorite: false,
        created: modified,
        modified,
        last_accessed: modified,
        expires: false,
        expiry_time: None,
        usage_count: 0,
        custom_fields: Vec::new(),
        history: Vec::new(),
        attachments: Vec::new(),
    }
}

fn db_with(children: Vec<Node>) -> Database {
    Database {
        root: Group { uuid: 1, name: "root".to_string(), icon_id: None, children },
        attachment_table: Vec::new(),
        last_modified: None,
        kdf: strong_kdf(),
    }
}

#[test]
fn entropy_estimates_are_exact() {
    // Four lowercase letters: 4 * log2(26) in thousandths of a bit.
    assert_eq!(password_entropy("aaaa"), 4 * 4700);
    // Mixed classes over eleven characters: 11 * log2(95).
    assert_eq!(password_entropy("Tr0ub4dor&3"), 11 * 6569);
    assert_eq!(password_entropy(""), 0);
    assert_eq!(password_entropy("0000"), 4 * 3321);
    assert_eq!(password_entropy("!!!"), 3 * 5044);
}

#[test]
fn weak_threshold_sits_exactly_at_forty_bits() {
    let now = 4_000_000_000u64;
    let db = db_with(vec![
        Node::Entry(mk_entry(10, "weak", "aaaa", now)),
        Node::Entry(mk_entry(11, "strong", "Tr0ub4dor&3", now)),
        // Eight lowercase letters: 8 * 4.7 = 37.6 bits, still weak.
        Node::Entry(mk_entry(12, "edge", "aaaaaaaa", now)),
        // Nine lowercase letters: 42.3 bits, no longer weak.
        Node::Entry(mk_entry(13, "edge2", "aaaaaaaaa", now)),
    ]);
    let stats = db.get_dashboard_stats();
    assert_eq!(stats.total_entries, 4);
    assert_eq!(stats.total_groups, 1);
    assert_eq!(stats.weak_passwords, 2);
}

#[test]
fn reuse_staleness_expiry_and_favorites() {
    let now_far_future = 1u64; // modified long ago relative to the real clock
    let mut e_fav = mk_entry(14, "fav", "shared-pw", now_far_future);
    e_fav.is_favorite = true;
    let mut e_exp = mk_entry(15, "exp", "shared-pw", now_far_future);
    e_exp.expires = true;
    e_exp.expiry_time = Some(2); // long past
    let mut e_not_exp = mk_entry(16, "future", "unique-pw", now_far_future);
    e_not_exp.expires = true;
    e_not_exp.expiry_time = Some(u64::MAX); // far future
    let e_empty = mk_entry(17, "empty", "", now_far_future);

    let db = db_with(vec![
        Node::Entry(e_fav),
        Node::Entry(e_exp),
        Node::Entry(e_not_exp),
        Node::Entry(e_empty),
    ]);
    let stats = db.get_dashboard_stats();
    assert_eq!(stats.total_entries, 4);
    // One shared password used twice: one reused group.  Empty passwords
    // never count.
    assert_eq!(stats.reused_passwords, 1);
    // All four were modified more than ninety days ago.
    assert_eq!(stats.old_passwords, 4);
    // Only the entry whose expiry already passed counts.
    assert_eq!(stats.expired_entries, 1);
    assert_eq!(stats.favorite_entries, 1);
    // The empty password contributes no entropy.
    let unique = password_entropy("unique-pw") as u128;
    let shared = password_entropy("shared-pw") as u128;
    let expect = ((shared * 2 + unique) / 4) as u64;
    assert_eq!(stats.average_password_strength, expect);
}

#[test]
fn stats_of_an_empty_database() {
    let db = db_with(Vec::new());
    let stats = db.get_dashboard_stats();
    assert_eq!(stats.total_entries, 0);
    assert_eq!(stats.total_groups, 1);
    assert_eq!(stats.weak_passwords, 0);
    assert_eq!(stats.reused_passwords, 0);
    assert_eq!(stats.average_password_strength, 0);
}

#[test]
fn search_is_case_insensitive_across_fields() {
    let mut e1 = mk_entry(10, "Email Account", "x", 10);
    e1.notes = "personal".to_string();
    let mut e2 = mk_entry(11, "bank", "x", 10);
    e2.username = "ALICE".to_string();
    let mut e3 = mk_entry(12, "other", "x", 10);
    e3.tags = "Shopping;fun".to_string();
    let db = db_with(vec![Node::Entry(e1), Node::Entry(e2), Node::Entry(e3)]);

    let r = db.search_entries("EMAIL");
    assert_eq!(r.len(), 1);
    assert_eq!(r[0].title, "Email Account");

    let r = db.search_entries("alice");
    assert_eq!(r.len(), 1);
    assert_eq!(r[0].title, "bank");

    let r = db.search_entries("shop");
    assert_eq!(r.len(), 1);
    assert_eq!(r[0].title, "other");

    // Passwords are not searched.
    assert!(db.search_entries("x").is_empty());
    // The empty query matches everything.
    assert_eq!(db.search_entries("").len(), 3);
}

#[test]
fn favorites_are_listed_in_order() {
    let mut e1 = mk_entry(10, "one", "x", 10);
    e1.is_favorite = true;
    let e2 = mk_entry(11, "two", "x", 10);
    let mut e3 = mk_entry(12, "three", "x", 10);
    e3.is_favorite = true;
    let db = db_with(vec![Node::Entry(e1), Node::Entry(e2), Node::Entry(e3)]);
    let favs = db.get_favorite_entries();
    assert_eq!(favs.len(), 2);
    assert_eq!(favs[0].title, "one");
    assert_eq!(favs[1].title, "three");
}

#[test]
fn scoped_search_stays_inside_the_subtree() {
    // root > a > b, with one matching entry at each level.
    let b = Group {
        uuid: 3,
        name: "b".to_string(),
        icon_id: None,
        children: vec![Node::Entry(mk_entry(12, "match deep", "x", 10))],
    };
    let a = Group {
        uuid: 2,
        name: "a".to_string(),
        icon_id: None,
        children: vec![Node::Entry(mk_entry(11, "match mid", "x", 10)), Node::Group(b)],
    };
    let db = db_with(vec![Node::Entry(mk_entry(10, "match top", "x", 10)), Node::Group(a)]);

    let root = db.get_root_group();
    let a_uuid = root.children[0].uuid.clone();
    let scoped = db.search_entries_in_group("match", &a_uuid);
    assert_eq!(scoped.len(), 2);
    assert!(scoped.iter().all(|e| e.title != "match top"));
    assert!(scoped.iter().any(|e| e.title == "match mid"));
    assert!(scoped.iter().any(|e| e.title == "match deep"));

    // Scoping to the whole tree from the root finds all three.
    assert_eq!(db.search_entries_in_group("match", &root.uuid).len(), 3);

    // An unknown scope yields nothing.
    assert!(db
        .search_entries_in_group("match", "99999999-9999-9999-9999-999999999999")
        .is_empty());
}
