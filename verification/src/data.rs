//! The flat records handed across the store's boundary: plain values with
//! no internal pointers, safe to copy out of the lock scope.

use vstd::prelude::*;

use crate::ids::{uuid_format_spec, uuid_parse_spec};
use crate::model::{CustomField, HistoryEntry, EntryView, GroupView, views_of};

verus! {

/// A credential record as exchanged with the caller.  Identifiers are
/// hyphenated text; timestamps are whole seconds since the Unix epoch.
pub struct EntryData {
    pub uuid: String,
    pub title: String,
    pub username: String,
    pub password: String,
    pub url: String,
    pub notes: String,
    pub tags: String,
    pub group_uuid: String,
    pub icon_id: Option<usize>,
    pub is_favorite: bool,
    pub created: Option<u64>,
    pub modified: Option<u64>,
    pub last_accessed: Option<u64>,
    pub expiry_time: Option<u64>,
    pub expires: bool,
    pub usage_count: usize,
    pub custom_fields: Vec<CustomField>,
    pub history: Vec<HistoryEntry>,
}

/// A folder as exchanged with the caller: subgroups only, entries are
/// listed separately.
pub struct GroupData {
    pub uuid: String,
    pub name: String,
    pub parent_uuid: Option<String>,
    pub children: Vec<GroupData>,
    pub icon_id: Option<usize>,
}

/// One attachment handed out of the store: its name and its bytes.
pub struct EntryAttachment {
    pub key: String,
    pub data: Vec<u8>,
}

/// The key-derivation report for the backing file.
pub struct KdfInfo {
    pub kdf_type: String,
    pub is_weak: bool,
    pub iterations: Option<u64>,
    pub memory: Option<u64>,
    pub parallelism: Option<u32>,
}

/// The dashboard snapshot, recomputed from the live tree on demand.
/// Strengths are measured in thousandths of a bit of estimated entropy.
pub struct DashboardStats {
    pub total_entries: usize,
    pub total_groups: usize,
    pub weak_passwords: usize,
    pub reused_passwords: usize,
    pub old_passwords: usize,
    pub expired_entries: usize,
    pub favorite_entries: usize,
    pub average_password_strength: u64,
}

/// One entry reported by the breach check, with the count of known
/// breaches of its password.
pub struct BreachedEntry {
    pub uuid: String,
    pub title: String,
    pub username: String,
    pub breach_count: u32,
}

/// What creating a database hands back: its root folder and a freshly
/// drawn recovery key.
pub struct DatabaseCreationResult {
    pub root_group: GroupData,
    pub recovery_key: String,
}

/// Whether an exchanged record faithfully renders the entry `e` owned by
/// the group `owner`.
pub open spec fn entry_data_matches(d: EntryData, e: EntryView, owner: u128) -> bool {
    &&& d.uuid@ == uuid_format_spec(e.uuid)
    &&& uuid_parse_spec(d.uuid@) == Some(e.uuid)
    &&& uuid_parse_spec(d.group_uuid@) == Some(owner)
    &&& d.title@ == e.title
    &&& d.username@ == e.username
    &&& d.password@ == e.password
    &&& d.url@ == e.url
    &&& d.notes@ == e.notes
    &&& d.tags@ == e.tags
    &&& d.group_uuid@ == uuid_format_spec(owner)
    &&& d.icon_id == e.icon_id
    &&& d.is_favorite == e.is_favorite
    &&& d.created == Some(e.created)
    &&& d.modified == Some(e.modified)
    &&& d.last_accessed == Some(e.last_accessed)
    &&& d.expiry_time == e.expiry_time
    &&& d.expires == e.expires
    &&& d.usage_count == e.usage_count
    &&& views_of(d.custom_fields@) == e.custom_fields
    &&& views_of(d.history@) == e.history
}

/// Whether the records `ds` render, in order, the owner-and-entry rows
/// `ps`.
pub open spec fn entry_rows_match(ds: Seq<EntryData>, ps: Seq<(u128, EntryView)>) -> bool {
    &&& ds.len() == ps.len()
    &&& forall|i: int|
        0 <= i < ds.len() ==> #[trigger] entry_data_matches(ds[i], ps[i].1, ps[i].0)
}

/// Whether the records `ds` render, in order, the entries `es`, all owned
/// by the group `owner`.
pub open spec fn entry_list_matches(ds: Seq<EntryData>, es: Seq<EntryView>, owner: u128) -> bool {
    &&& ds.len() == es.len()
    &&& forall|i: int| 0 <= i < ds.len() ==> #[trigger] entry_data_matches(ds[i], es[i], owner)
}

/// Whether an exchanged folder record faithfully renders the subtree at
/// `g`, whose parent is `parent` (`None` for the root).
pub open spec fn group_data_matches(d: GroupData, g: GroupView, parent: Option<u128>) -> bool
    decreases g,
{
    &&& d.uuid@ == uuid_format_spec(g.uuid)
    &&& d.name@ == g.name
    &&& d.icon_id == g.icon_id
    &&& match parent {
        Some(p) => d.parent_uuid matches Some(s) && s@ == uuid_format_spec(p),
        None => d.parent_uuid is None,
    }
    &&& {
        proof {
            assert(decreases_to!(g => g.children));
        }
        group_children_match(d.children@, g.children, g.uuid)
    }
}

/// Whether the folder records `ds` render, in order, exactly the subgroups
/// among the child sequence `cs` (entries are skipped).
pub open spec fn group_children_match(
    ds: Seq<GroupData>,
    cs: Seq<crate::model::NodeView>,
    parent: u128,
) -> bool
    decreases cs,
{
    if cs.len() == 0 {
        ds.len() == 0
    } else {
        proof {
            assert(decreases_to!(cs => cs.subrange(0, cs.len() - 1)));
            assert(cs.drop_last() == cs.subrange(0, cs.len() - 1));
            assert(decreases_to!(cs => cs[cs.len() - 1]));
            assert(cs.last() == cs[cs.len() - 1]);
        }
        match cs.last() {
            crate::model::NodeView::Entry(_) => group_children_match(ds, cs.drop_last(), parent),
            crate::model::NodeView::Group(g) => {
                proof {
                    assert(decreases_to!(cs.last() => g));
                }
                ds.len() > 0 && group_data_matches(ds.last(), g, Some(parent))
                    && group_children_match(ds.drop_last(), cs.drop_last(), parent)
            },
        }
    }
}

} // verus!
