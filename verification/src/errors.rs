//! The error kinds that every operation of the store reports.

use vstd::prelude::*;

verus! {

/// Errors returned by the credential store.  They are plain values: every
/// operation returns them, none panics.
#[derive(Debug)]
pub enum DatabaseError {
    /// The backing file could not be opened or decoded; carries the
    /// collaborator's message.
    OpenError(String),
    /// The backing file could not be written; carries the message.
    SaveError(String),
    /// No database is loaded in the hosting context.
    NotLoaded,
    /// The password or key file did not match.
    InvalidCredentials,
    /// The entry identifier is malformed or absent from the tree.
    EntryNotFound,
    /// The group identifier is malformed, absent, or names a group the
    /// operation must not touch (the root, or a descendant of the moved
    /// group).
    GroupNotFound,
    /// A supplied identifier could not be used for a new record.
    InvalidUuid,
}

impl DatabaseError {
    /// A short human-readable description, in place of `Display`.
    pub fn message(&self) -> String {
        match self {
            DatabaseError::OpenError(m) => {
                let mut s = String::from_str("Failed to open database: ");
                s.append(m.as_str());
                s
            },
            DatabaseError::SaveError(m) => {
                let mut s = String::from_str("Failed to save database: ");
                s.append(m.as_str());
                s
            },
            DatabaseError::NotLoaded => String::from_str("Database not loaded"),
            DatabaseError::InvalidCredentials => String::from_str("Invalid password or keyfile"),
            DatabaseError::EntryNotFound => String::from_str("Entry not found"),
            DatabaseError::GroupNotFound => String::from_str("Group not found"),
            DatabaseError::InvalidUuid => String::from_str("Invalid UUID format"),
        }
    }
}

} // verus!
