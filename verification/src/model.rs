//! The in-memory credential tree: groups, entries, history, attachments.
//!
//! Exec types hold `String` and `Vec` data; each has a mathematical view
//! (`Seq`-based) that every contract speaks of.

use vstd::prelude::*;

use crate::kdf::KdfParams;

verus! {

// ---------------------------------------------------------------------------
// Views: the mathematical model of the tree.
// ---------------------------------------------------------------------------

/// View of one named custom field.
#[verifier::ext_equal]
pub struct FieldView {
    pub name: Seq<char>,
    pub value: Seq<char>,
    pub protected: bool,
}

/// View of one history snapshot: the semantic fields of an entry as they
/// stood before an update, stamped with the entry's modification time of
/// that moment.
#[verifier::ext_equal]
pub struct HistView {
    pub timestamp: u64,
    pub title: Seq<char>,
    pub username: Seq<char>,
    pub password: Seq<char>,
    pub url: Seq<char>,
    pub notes: Seq<char>,
}

/// View of one attachment reference: a name and a stable index into the
/// database-wide attachment table.
#[verifier::ext_equal]
pub struct AttachRefView {
    pub key: Seq<char>,
    pub index: usize,
}

/// View of one credential record.
#[verifier::ext_equal]
pub struct EntryView {
    pub uuid: u128,
    pub title: Seq<char>,
    pub username: Seq<char>,
    pub password: Seq<char>,
    pub url: Seq<char>,
    pub notes: Seq<char>,
    pub tags: Seq<char>,
    pub icon_id: Option<usize>,
    pub is_favorite: bool,
    pub created: u64,
    pub modified: u64,
    pub last_accessed: u64,
    pub expires: bool,
    pub expiry_time: Option<u64>,
    pub usage_count: usize,
    pub custom_fields: Seq<FieldView>,
    pub history: Seq<HistView>,
    pub attachments: Seq<AttachRefView>,
}

/// View of one folder node, with its ordered children.
#[verifier::ext_equal]
pub struct GroupView {
    pub uuid: u128,
    pub name: Seq<char>,
    pub icon_id: Option<usize>,
    pub children: Seq<NodeView>,
}

/// View of one child slot: a subgroup or an entry, in display order.
#[verifier::ext_equal]
pub enum NodeView {
    Group(GroupView),
    Entry(EntryView),
}

// ---------------------------------------------------------------------------
// Exec types.
// ---------------------------------------------------------------------------

/// A named custom field of an entry; `protected` marks values the hosting
/// application must keep in zero-on-drop storage once they leave the store.
pub struct CustomField {
    pub name: String,
    pub value: String,
    pub protected: bool,
}

/// A frozen prior version of an entry's semantic fields.
pub struct HistoryEntry {
    pub timestamp: u64,
    pub title: String,
    pub username: String,
    pub password: String,
    pub url: String,
    pub notes: String,
}

/// A named reference from an entry into the attachment table.
pub struct AttachmentRef {
    pub key: String,
    pub index: usize,
}

/// A single credential record.
pub struct Entry {
    pub uuid: u128,
    pub title: String,
    pub username: String,
    pub password: String,
    pub url: String,
    pub notes: String,
    pub tags: String,
    pub icon_id: Option<usize>,
    pub is_favorite: bool,
    pub created: u64,
    pub modified: u64,
    pub last_accessed: u64,
    pub expires: bool,
    pub expiry_time: Option<u64>,
    pub usage_count: usize,
    pub custom_fields: Vec<CustomField>,
    pub history: Vec<HistoryEntry>,
    pub attachments: Vec<AttachmentRef>,
}

/// A folder node of the tree.
pub struct Group {
    pub uuid: u128,
    pub name: String,
    pub icon_id: Option<usize>,
    pub children: Vec<Node>,
}

/// One child of a group.
pub enum Node {
    Group(Group),
    Entry(Entry),
}

impl View for CustomField {
    type V = FieldView;

    open spec fn view(&self) -> FieldView {
        FieldView { name: self.name@, value: self.value@, protected: self.protected }
    }
}

impl View for HistoryEntry {
    type V = HistView;

    open spec fn view(&self) -> HistView {
        HistView {
            timestamp: self.timestamp,
            title: self.title@,
            username: self.username@,
            password: self.password@,
            url: self.url@,
            notes: self.notes@,
        }
    }
}

impl View for AttachmentRef {
    type V = AttachRefView;

    open spec fn view(&self) -> AttachRefView {
        AttachRefView { key: self.key@, index: self.index }
    }
}

/// The views of a vector's elements, in order.
pub open spec fn views_of<T: View>(v: Seq<T>) -> Seq<T::V> {
    Seq::new(v.len(), |i: int| v[i]@)
}

impl View for Entry {
    type V = EntryView;

    open spec fn view(&self) -> EntryView {
        EntryView {
            uuid: self.uuid,
            title: self.title@,
            username: self.username@,
            password: self.password@,
            url: self.url@,
            notes: self.notes@,
            tags: self.tags@,
            icon_id: self.icon_id,
            is_favorite: self.is_favorite,
            created: self.created,
            modified: self.modified,
            last_accessed: self.last_accessed,
            expires: self.expires,
            expiry_time: self.expiry_time,
            usage_count: self.usage_count,
            custom_fields: views_of(self.custom_fields@),
            history: views_of(self.history@),
            attachments: views_of(self.attachments@),
        }
    }
}

/// The view of a group, computed recursively over the tree.
pub open spec fn group_view(g: Group) -> GroupView
    decreases g,
{
    proof {
        assert(decreases_to!(g => g.children));
        assert(decreases_to!(g.children => g.children@));
    }
    GroupView { uuid: g.uuid, name: g.name@, icon_id: g.icon_id, children: nodes_view(g.children@) }
}

/// The views of a child sequence, in order.
pub open spec fn nodes_view(cs: Seq<Node>) -> Seq<NodeView>
    decreases cs,
{
    if cs.len() == 0 {
        Seq::empty()
    } else {
        proof {
            assert(decreases_to!(cs => cs.subrange(0, cs.len() - 1)));
            assert(cs.drop_last() == cs.subrange(0, cs.len() - 1));
            assert(decreases_to!(cs => cs[cs.len() - 1]));
            assert(cs.last() == cs[cs.len() - 1]);
        }
        nodes_view(cs.drop_last()).push(node_view(cs.last()))
    }
}

/// The view of one child node.
pub open spec fn node_view(n: Node) -> NodeView
    decreases n,
{
    match n {
        Node::Group(g) => NodeView::Group(group_view(g)),
        Node::Entry(e) => NodeView::Entry(e@),
    }
}

/// `nodes_view` maps the sequence elementwise.
pub broadcast proof fn nodes_view_len(cs: Seq<Node>)
    ensures
        (#[trigger] nodes_view(cs)).len() == cs.len(),
    decreases cs.len(),
{
    if cs.len() > 0 {
        nodes_view_len(cs.drop_last());
    }
}

/// Indexing into `nodes_view` is the view of the indexed element.
pub broadcast proof fn nodes_view_index(cs: Seq<Node>, i: int)
    requires
        0 <= i < cs.len(),
    ensures
        #[trigger] nodes_view(cs)[i] == node_view(cs[i]),
    decreases cs.len(),
{
    nodes_view_len(cs);
    if cs.len() > 0 && i < cs.len() - 1 {
        nodes_view_index(cs.drop_last(), i);
    }
}

impl View for Group {
    type V = GroupView;

    open spec fn view(&self) -> GroupView {
        group_view(*self)
    }
}

impl View for Node {
    type V = NodeView;

    open spec fn view(&self) -> NodeView {
        node_view(*self)
    }
}

// ---------------------------------------------------------------------------
// The database.
// ---------------------------------------------------------------------------

/// View of the whole store.
#[verifier::ext_equal]
pub struct DbView {
    pub root: GroupView,
    pub attachment_table: Seq<Seq<u8>>,
    pub last_modified: Option<u64>,
    pub kdf: KdfParams,
}

/// The in-memory credential store: the tree, the append-only attachment
/// table, the watermark of the backing file's last observed modification
/// time, and the key-derivation parameters recorded for the file.
pub struct Database {
    pub root: Group,
    pub attachment_table: Vec<Vec<u8>>,
    pub last_modified: Option<u64>,
    pub kdf: KdfParams,
}

impl View for Database {
    type V = DbView;

    open spec fn view(&self) -> DbView {
        DbView {
            root: self.root@,
            attachment_table: Seq::new(
                self.attachment_table@.len(),
                |i: int| self.attachment_table@[i]@,
            ),
            last_modified: self.last_modified,
            kdf: self.kdf,
        }
    }
}

} // verus!
