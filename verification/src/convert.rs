//! Rendering internal records as the flat records handed across the
//! boundary; every conversion is proved faithful to the view.

use vstd::prelude::*;

use crate::copy::{clone_custom_fields, clone_history};
use crate::data::{EntryData, GroupData, entry_data_matches, group_children_match, group_data_matches};
use crate::ids::format_uuid;
use crate::model::{Entry, Group, Node, NodeView, nodes_view, nodes_view_index, nodes_view_len};

verus! {

/// Renders one entry, owned by the group `owner`, as a boundary record.
pub fn entry_to_data(e: &Entry, owner: u128) -> (d: EntryData)
    ensures
        entry_data_matches(d, e@, owner),
{
    EntryData {
        uuid: format_uuid(e.uuid),
        title: e.title.clone(),
        username: e.username.clone(),
        password: e.password.clone(),
        url: e.url.clone(),
        notes: e.notes.clone(),
        tags: e.tags.clone(),
        group_uuid: format_uuid(owner),
        icon_id: e.icon_id,
        is_favorite: e.is_favorite,
        created: Some(e.created),
        modified: Some(e.modified),
        last_accessed: Some(e.last_accessed),
        expiry_time: e.expiry_time,
        expires: e.expires,
        usage_count: e.usage_count,
        custom_fields: clone_custom_fields(&e.custom_fields),
        history: clone_history(&e.history),
    }
}

/// Copies a boundary record, preserving every field.
pub fn clone_entry_data(d: &EntryData) -> (r: EntryData)
    ensures
        r.uuid@ == d.uuid@,
        r.title@ == d.title@,
        r.username@ == d.username@,
        r.password@ == d.password@,
        r.url@ == d.url@,
        r.notes@ == d.notes@,
        r.tags@ == d.tags@,
        r.group_uuid@ == d.group_uuid@,
        r.icon_id == d.icon_id,
        r.is_favorite == d.is_favorite,
        r.created == d.created,
        r.modified == d.modified,
        r.last_accessed == d.last_accessed,
        r.expiry_time == d.expiry_time,
        r.expires == d.expires,
        r.usage_count == d.usage_count,
        crate::model::views_of(r.custom_fields@) == crate::model::views_of(d.custom_fields@),
        crate::model::views_of(r.history@) == crate::model::views_of(d.history@),
{
    EntryData {
        uuid: d.uuid.clone(),
        title: d.title.clone(),
        username: d.username.clone(),
        password: d.password.clone(),
        url: d.url.clone(),
        notes: d.notes.clone(),
        tags: d.tags.clone(),
        group_uuid: d.group_uuid.clone(),
        icon_id: d.icon_id,
        is_favorite: d.is_favorite,
        created: d.created,
        modified: d.modified,
        last_accessed: d.last_accessed,
        expiry_time: d.expiry_time,
        expires: d.expires,
        usage_count: d.usage_count,
        custom_fields: clone_custom_fields(&d.custom_fields),
        history: clone_history(&d.history),
    }
}

/// Renders the subtree at `g`, whose parent is `parent`, as a boundary
/// record holding its subgroups recursively.
pub fn group_to_data(g: &Group, parent: Option<u128>) -> (d: GroupData)
    ensures
        group_data_matches(d, g@, parent),
    decreases *g, 0int,
{
    let uuid_s = format_uuid(g.uuid);
    let parent_s: Option<String> = match parent {
        Some(p) => Some(format_uuid(p)),
        None => None,
    };
    let mut children: Vec<GroupData> = Vec::new();
    let ghost cs = nodes_view(g.children@);
    proof {
        nodes_view_len(g.children@);
        assert(cs.take(0) =~= Seq::<NodeView>::empty());
    }
    let mut i: usize = 0;
    while i < g.children.len()
        invariant
            i <= g.children@.len(),
            cs == nodes_view(g.children@),
            cs.len() == g.children@.len(),
            group_children_match(children@, cs.take(i as int), g.uuid),
        decreases g.children@.len() - i,
    {
        proof {
            nodes_view_index(g.children@, i as int);
            assert(cs.take(i + 1).drop_last() =~= cs.take(i as int));
            assert(cs.take(i + 1).last() == cs[i as int]);
        }
        let ghost prev = children@;
        match &g.children[i] {
            Node::Entry(_) => {
                proof {
                    assert(group_children_match(children@, cs.take(i + 1), g.uuid));
                }
            },
            Node::Group(sub) => {
                proof {
                    assert(decreases_to!(g.children => g.children@));
                    assert(decreases_to!(g.children@ => g.children@[i as int]));
                }
                let dsub = group_to_data(sub, Some(g.uuid));
                children.push(dsub);
                proof {
                    assert(children@.drop_last() =~= prev);
                    assert(children@.last() == dsub);
                    assert(group_children_match(children@, cs.take(i + 1), g.uuid));
                }
            },
        }
        i = i + 1;
    }
    proof {
        assert(cs.take(cs.len() as int) =~= cs);
    }
    GroupData {
        uuid: uuid_s,
        name: g.name.clone(),
        parent_uuid: parent_s,
        children,
        icon_id: g.icon_id,
    }
}

} // verus!
