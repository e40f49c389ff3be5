//! Attachments, key derivation, password generation, and breach-answer
//! parsing.

use credstore::data::EntryData;
use credstore::errors::DatabaseError;
use credstore::hibp::{breach_hash_parts, parse_hibp_response};
use credstore::kdf::KdfParams;
use credstore::model::Database;
use credstore::passgen::{generate_password, generate_recovery_key};

fn blank_entry(uuid: &str, group_uuid: &str) -> EntryData {
    EntryData {
        uuid: uuid.to_string(),
        title: String::new(),
        username: String::new(),
        password: String::new(),
        url: String::new(),
        notes: String::new(),
        tags: String::new(),
        group_uuid: group_uuid.to_string(),
        icon_id: None,
        is_favorite: false,
        created: None,
        modified: None,
        last_accessed: None,
        expiry_time: None,
        expires: false,
        usage_count: 0,
        custom_fields: Vec::new(),
        history: Vec::new(),
    }
}

const E1: &str = "11111111-1111-1111-1111-111111111111";
const E2: &str = "22222222-2222-2222-2222-222222222222";

#[test]
fn deleting_an_attachment_leaves_other_indices_valid() {
    let mut db = Database::create("vault".to_string());
    let root = db.get_root_group();
    db.create_entry(blank_entry(E1, &root.uuid)).unwrap();
    db.create_entry(blank_entry(E2, &root.uuid)).unwrap();

    db.add_entry_attachment(E1, "first".to_string(), vec![1, 2, 3]).unwrap();
    db.add_entry_attachment(E2, "second".to_string(), vec![4, 5]).unwrap();

    // Removing the first entry's reference must not disturb the second
    // entry's reference: its index is never renumbered.
    db.delete_entry_attachment(E1, "first").unwrap();
    assert!(db.get_entry_attachments(E1).unwrap().is_empty());
    let a2 = db.get_entry_attachments(E2).unwrap();
    assert_eq!(a2.len(), 1);
    assert_eq!(a2[0].key, "second");
    assert_eq!(a2[0].data, vec![4, 5]);

    // A later addition takes a fresh slot; the earlier one still reads
    // back intact.
    db.add_entry_attachment(E1, "third".to_string(), vec![9]).unwrap();
    let a1 = db.get_entry_attachments(E1).unwrap();
    assert_eq!(a1.len(), 1);
    assert_eq!(a1[0].key, "third");
    assert_eq!(a1[0].data, vec![9]);
    let a2 = db.get_entry_attachments(E2).unwrap();
    assert_eq!(a2[0].data, vec![4, 5]);
}

#[test]
fn replacing_an_attachment_under_the_same_key() {
    let mut db = Database::create("vault".to_string());
    let root = db.get_root_group();
    db.create_entry(blank_entry(E1, &root.uuid)).unwrap();
    db.add_entry_attachment(E1, "doc".to_string(), vec![1]).unwrap();
    db.add_entry_attachment(E1, "doc".to_string(), vec![2]).unwrap();
    let a = db.get_entry_attachments(E1).unwrap();
    assert_eq!(a.len(), 1);
    assert_eq!(a[0].data, vec![2]);
}

#[test]
fn attachment_errors() {
    let mut db = Database::create("vault".to_string());
    let root = db.get_root_group();
    db.create_entry(blank_entry(E1, &root.uuid)).unwrap();
    assert!(matches!(
        db.add_entry_attachment(E1, "".to_string(), vec![1]),
        Err(DatabaseError::InvalidUuid)
    ));
    assert!(matches!(
        db.add_entry_attachment(E1, "a.b".to_string(), vec![1]),
        Err(DatabaseError::InvalidUuid)
    ));
    assert!(matches!(
        db.add_entry_attachment(E2, "ok".to_string(), vec![1]),
        Err(DatabaseError::EntryNotFound)
    ));
    assert!(matches!(
        db.get_entry_attachments(E2),
        Err(DatabaseError::EntryNotFound)
    ));
    assert!(matches!(
        db.delete_entry_attachment(E2, "ok"),
        Err(DatabaseError::EntryNotFound)
    ));
    // Deleting an absent key from a live entry succeeds and changes
    // nothing.
    db.delete_entry_attachment(E1, "missing").unwrap();
}

#[test]
fn kdf_report_and_upgrade() {
    let mut db = Database::create("vault".to_string());
    let info = db.get_kdf_info();
    assert_eq!(info.kdf_type, "Argon2id");
    assert!(!info.is_weak);
    assert_eq!(info.iterations, Some(2));
    assert_eq!(info.memory, Some(64 * 1024 * 1024));
    assert_eq!(info.parallelism, Some(2));

    db.kdf = KdfParams::Aes { rounds: 1000 };
    let weak = db.get_kdf_info();
    assert_eq!(weak.kdf_type, "AES");
    assert!(weak.is_weak);
    assert_eq!(weak.memory, None);

    db.kdf = KdfParams::Argon2 { iterations: 1, memory: 64 * 1024 * 1024, parallelism: 2 };
    assert!(db.get_kdf_info().is_weak);
    db.kdf = KdfParams::Argon2 { iterations: 2, memory: 63 * 1024 * 1024, parallelism: 2 };
    assert!(db.get_kdf_info().is_weak);

    db.upgrade_kdf_parameters().unwrap();
    assert!(!db.get_kdf_info().is_weak);
    assert_eq!(db.get_kdf_info().kdf_type, "Argon2id");
}

#[test]
fn password_generation_draws_from_the_selected_sets() {
    assert!(generate_password(0, true, true, true, true).is_err());
    assert!(generate_password(257, true, true, true, true).is_err());
    assert!(generate_password(16, false, false, false, false).is_err());

    let p = generate_password(32, false, false, true, false).unwrap();
    assert_eq!(p.len(), 32);
    assert!(p.chars().all(|c| c.is_ascii_digit()));

    let p = generate_password(64, true, true, true, true).unwrap();
    assert_eq!(p.chars().count(), 64);
    let allowed = "ABCDEFGHIJKLMNOPQRSTUVWXYZabcdefghijklmnopqrstuvwxyz0123456789!@#$%^&*()_+-=[]{}|;:,.<>?";
    assert!(p.chars().all(|c| allowed.contains(c)));
}

#[test]
fn recovery_key_has_the_dashed_block_format() {
    let k = generate_recovery_key();
    assert_eq!(k.len(), 39);
    for (i, c) in k.chars().enumerate() {
        if i % 5 == 4 {
            assert_eq!(c, '-');
        } else {
            assert!(c.is_ascii_uppercase() || c.is_ascii_digit());
        }
    }
}

#[test]
fn hash_splitting_matches_the_known_digest() {
    // The SHA-1 digest of "password" is 5BAA61E4C9B93F3F0682250B6CF8331B7EE68FD8.
    let (prefix, suffix) = breach_hash_parts("password");
    assert_eq!(prefix, "5BAA6");
    assert_eq!(suffix, "1E4C9B93F3F0682250B6CF8331B7EE68FD8");
    let (p2, s2) = breach_hash_parts("");
    // The SHA-1 digest of the empty string is DA39A3EE5E6B4B0D3255BFEF95601890AFD80709.
    assert_eq!(p2, "DA39A");
    assert_eq!(s2, "3EE5E6B4B0D3255BFEF95601890AFD80709");
}

#[test]
fn breach_answers_are_parsed_line_by_line() {
    let body = "0018A45C4D1DEF81644B54AB7F969B88D65:1\r\n00D4F6E8FA6EECAD2A3AA415EEC418D38EC:2\r\nFAKE:  33  \r\n";
    assert_eq!(parse_hibp_response(body, "0018A45C4D1DEF81644B54AB7F969B88D65"), Some(1));
    assert_eq!(parse_hibp_response(body, "00D4F6E8FA6EECAD2A3AA415EEC418D38EC"), Some(2));
    // Counts are trimmed before parsing.
    assert_eq!(parse_hibp_response(body, "FAKE"), Some(33));
    assert_eq!(parse_hibp_response(body, "MISSING"), None);
    // Newlines without carriage returns work too.
    assert_eq!(parse_hibp_response("AB:7\nCD:8", "CD"), Some(8));
    // The first matching line decides.
    assert_eq!(parse_hibp_response("X:1\nX:2", "X"), Some(1));
    // A plus sign is accepted; junk and overflow are not.
    assert_eq!(parse_hibp_response("P:+7", "P"), Some(7));
    assert_eq!(parse_hibp_response("P:abc", "P"), None);
    assert_eq!(parse_hibp_response("P:99999999999", "P"), None);
    assert_eq!(parse_hibp_response("P:", "P"), None);
    assert_eq!(parse_hibp_response("", "P"), None);
    // A line without a colon is skipped.
    assert_eq!(parse_hibp_response("nonsense\nP:4", "P"), Some(4));
}
