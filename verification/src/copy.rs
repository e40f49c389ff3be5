//! Deep copies of records and subtrees, each proved to preserve the view.
//!
//! Query results are owned copies, and the merge adopts subtrees from the
//! freshly read file; both need copies whose views provably equal the
//! source's.

use vstd::prelude::*;

use crate::model::{
    AttachmentRef, CustomField, Entry, Group, HistoryEntry, Node, nodes_view, nodes_view_index,
    nodes_view_len, views_of,
};

verus! {

/// Copies a byte vector.
pub fn clone_bytes(v: &Vec<u8>) -> (r: Vec<u8>)
    ensures
        r@ == v@,
{
    let mut r: Vec<u8> = Vec::new();
    let mut i: usize = 0;
    while i < v.len()
        invariant
            i <= v@.len(),
            r@ == v@.take(i as int),
        decreases v@.len() - i,
    {
        r.push(v[i]);
        proof {
            assert(r@ =~= v@.take(i + 1));
        }
        i = i + 1;
    }
    proof {
        assert(v@.take(v@.len() as int) =~= v@);
    }
    r
}

/// Copies a custom-field list, preserving the views in order.
pub fn clone_custom_fields(v: &Vec<CustomField>) -> (r: Vec<CustomField>)
    ensures
        views_of(r@) == views_of(v@),
{
    let mut r: Vec<CustomField> = Vec::new();
    let mut i: usize = 0;
    while i < v.len()
        invariant
            i <= v@.len(),
            r@.len() == i,
            forall|j: int| 0 <= j < i ==> r@[j]@ == v@[j]@,
        decreases v@.len() - i,
    {
        let f = &v[i];
        r.push(CustomField { name: f.name.clone(), value: f.value.clone(), protected: f.protected });
        i = i + 1;
    }
    proof {
        assert(views_of(r@) =~= views_of(v@));
    }
    r
}

/// Copies a history stack, preserving the views in order.
pub fn clone_history(v: &Vec<HistoryEntry>) -> (r: Vec<HistoryEntry>)
    ensures
        views_of(r@) == views_of(v@),
{
    let mut r: Vec<HistoryEntry> = Vec::new();
    let mut i: usize = 0;
    while i < v.len()
        invariant
            i <= v@.len(),
            r@.len() == i,
            forall|j: int| 0 <= j < i ==> r@[j]@ == v@[j]@,
        decreases v@.len() - i,
    {
        let h = &v[i];
        r.push(
            HistoryEntry {
                timestamp: h.timestamp,
                title: h.title.clone(),
                username: h.username.clone(),
                password: h.password.clone(),
                url: h.url.clone(),
                notes: h.notes.clone(),
            },
        );
        i = i + 1;
    }
    proof {
        assert(views_of(r@) =~= views_of(v@));
    }
    r
}

/// Copies an attachment-reference list, preserving the views in order.
pub fn clone_attachment_refs(v: &Vec<AttachmentRef>) -> (r: Vec<AttachmentRef>)
    ensures
        views_of(r@) == views_of(v@),
{
    let mut r: Vec<AttachmentRef> = Vec::new();
    let mut i: usize = 0;
    while i < v.len()
        invariant
            i <= v@.len(),
            r@.len() == i,
            forall|j: int| 0 <= j < i ==> r@[j]@ == v@[j]@,
        decreases v@.len() - i,
    {
        let a = &v[i];
        r.push(AttachmentRef { key: a.key.clone(), index: a.index });
        i = i + 1;
    }
    proof {
        assert(views_of(r@) =~= views_of(v@));
    }
    r
}

/// Copies one entry, preserving its view.
pub fn clone_entry(e: &Entry) -> (r: Entry)
    ensures
        r@ == e@,
{
    let r = Entry {
        uuid: e.uuid,
        title: e.title.clone(),
        username: e.username.clone(),
        password: e.password.clone(),
        url: e.url.clone(),
        notes: e.notes.clone(),
        tags: e.tags.clone(),
        icon_id: e.icon_id,
        is_favorite: e.is_favorite,
        created: e.created,
        modified: e.modified,
        last_accessed: e.last_accessed,
        expires: e.expires,
        expiry_time: e.expiry_time,
        usage_count: e.usage_count,
        custom_fields: clone_custom_fields(&e.custom_fields),
        history: clone_history(&e.history),
        attachments: clone_attachment_refs(&e.attachments),
    };
    proof {
        assert(r@ =~= e@);
    }
    r
}

/// Copies one subtree, preserving its view.
pub fn clone_group(g: &Group) -> (r: Group)
    ensures
        r@ == g@,
    decreases *g, 0int,
{
    let children = clone_nodes(&g.children);
    let r = Group { uuid: g.uuid, name: g.name.clone(), icon_id: g.icon_id, children };
    proof {
        assert(r@ =~= g@);
    }
    r
}

/// Copies one child node, preserving its view.
pub fn clone_node(n: &Node) -> (r: Node)
    ensures
        r@ == n@,
    decreases *n, 1int,
{
    match n {
        Node::Group(g) => Node::Group(clone_group(g)),
        Node::Entry(e) => Node::Entry(clone_entry(e)),
    }
}

/// Copies a child list, preserving the views in order.
pub fn clone_nodes(cs: &Vec<Node>) -> (r: Vec<Node>)
    ensures
        nodes_view(r@) == nodes_view(cs@),
    decreases *cs, 1int,
{
    let mut r: Vec<Node> = Vec::new();
    let mut i: usize = 0;
    while i < cs.len()
        invariant
            i <= cs@.len(),
            r@.len() == i,
            forall|j: int| 0 <= j < i ==> #[trigger] r@[j]@ == cs@[j]@,
        decreases cs@.len() - i,
    {
        proof {
            assert(decreases_to!(*cs => cs@[i as int]));
        }
        let n = clone_node(&cs[i]);
        r.push(n);
        i = i + 1;
    }
    proof {
        nodes_view_len(r@);
        nodes_view_len(cs@);
        assert forall|j: int| 0 <= j < cs@.len() implies nodes_view(r@)[j] == nodes_view(cs@)[j] by {
            nodes_view_index(r@, j);
            nodes_view_index(cs@, j);
            assert(r@[j]@ == cs@[j]@);
        }
        assert(nodes_view(r@) =~= nodes_view(cs@));
    }
    r
}

} // verus!
