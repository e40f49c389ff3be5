//! The mathematical semantics of every mutation of the tree: insertion,
//! update, removal, rename and reorder, each a total function on views.
//! Searches follow depth-first pre-order, matching the lookup functions.

use vstd::prelude::*;

use crate::model::{EntryView, FieldView, GroupView, HistView, NodeView};
use crate::tree::{find_entry_in, find_group, find_group_in};

verus! {

// ---------------------------------------------------------------------------
// Insertion: append a node to the first group with the given identifier.
// ---------------------------------------------------------------------------

/// Appends `n` to the children of the first group with identifier
/// `parent` in pre-order from `g`; the flag tells whether it was found.
pub open spec fn insert_node(g: GroupView, parent: u128, n: NodeView) -> (GroupView, bool)
    decreases g, 1int,
{
    if g.uuid == parent {
        (GroupView { children: g.children.push(n), ..g }, true)
    } else {
        proof {
            assert(decreases_to!(g => g.children));
        }
        let (cs, found) = insert_node_in(g.children, parent, n);
        (GroupView { children: cs, ..g }, found)
    }
}

/// Appends `n` under the first group with identifier `parent` among the
/// children `cs` and their subtrees.
pub open spec fn insert_node_in(cs: Seq<NodeView>, parent: u128, n: NodeView) -> (
    Seq<NodeView>,
    bool,
)
    decreases cs, 0int,
{
    if cs.len() == 0 {
        (cs, false)
    } else {
        proof {
            crate::tree::seq_first_decreases::<NodeView>(cs);
        }
        match cs.first() {
            NodeView::Entry(_) => {
                let (rest, found) = insert_node_in(cs.drop_first(), parent, n);
                (seq![cs.first()] + rest, found)
            },
            NodeView::Group(sub) => {
                proof {
                    assert(decreases_to!(cs.first() => sub));
                }
                let (sub2, found) = insert_node(sub, parent, n);
                if found {
                    (seq![NodeView::Group(sub2)] + cs.drop_first(), true)
                } else {
                    let (rest, found2) = insert_node_in(cs.drop_first(), parent, n);
                    (seq![cs.first()] + rest, found2)
                }
            },
        }
    }
}

/// Insertion finds its parent exactly when lookup does, and leaves the
/// tree unchanged when it does not.
pub proof fn lemma_insert_node(g: GroupView, parent: u128, n: NodeView)
    ensures
        insert_node(g, parent, n).1 == (find_group(g, parent) is Some),
        !insert_node(g, parent, n).1 ==> insert_node(g, parent, n).0 == g,
    decreases g, 1int,
{
    if g.uuid != parent {
        lemma_insert_node_in(g.children, parent, n);
        if !insert_node(g, parent, n).1 {
            assert(insert_node(g, parent, n).0 =~= g);
        }
    }
}

/// The children-level statement of `lemma_insert_node`.
pub proof fn lemma_insert_node_in(cs: Seq<NodeView>, parent: u128, n: NodeView)
    ensures
        insert_node_in(cs, parent, n).1 == (find_group_in(cs, parent) is Some),
        !insert_node_in(cs, parent, n).1 ==> insert_node_in(cs, parent, n).0 == cs,
    decreases cs, 0int,
{
    if cs.len() > 0 {
        match cs.first() {
            NodeView::Entry(_) => {
                lemma_insert_node_in(cs.drop_first(), parent, n);
            },
            NodeView::Group(sub) => {
                lemma_insert_node(sub, parent, n);
                lemma_insert_node_in(cs.drop_first(), parent, n);
            },
        }
        if !insert_node_in(cs, parent, n).1 {
            assert(insert_node_in(cs, parent, n).0 =~= cs);
        }
    }
}

// ---------------------------------------------------------------------------
// Entry update.
// ---------------------------------------------------------------------------

/// What an update carries: the six semantic fields, the metadata, and the
/// replacement custom-field set.
#[verifier::ext_equal]
pub struct EntryPatch {
    pub title: Seq<char>,
    pub username: Seq<char>,
    pub password: Seq<char>,
    pub url: Seq<char>,
    pub notes: Seq<char>,
    pub tags: Seq<char>,
    pub icon_id: Option<usize>,
    pub is_favorite: bool,
    pub expires: bool,
    pub expiry_time: Option<u64>,
    pub custom_fields: Seq<FieldView>,
}

/// Index of the first field named `name` in `fs`.
pub open spec fn field_index(fs: Seq<FieldView>, name: Seq<char>) -> Option<int>
    decreases fs.len(),
{
    if fs.len() == 0 {
        None
    } else if fs.first().name == name {
        Some(0)
    } else {
        match field_index(fs.drop_first(), name) {
            Some(i) => Some(i + 1),
            None => None,
        }
    }
}

/// One step of field collection: a field whose name is already present
/// overwrites that slot in place; a new name is appended.
pub open spec fn field_step(p: Seq<FieldView>, f: FieldView) -> Seq<FieldView> {
    match field_index(p, f.name) {
        Some(i) => p.update(i, f),
        None => p.push(f),
    }
}

/// The custom-field set declared by an input list, in insertion order
/// with duplicate names collapsed: the first occurrence keeps its
/// position, the last occurrence supplies the value.
pub open spec fn dedup_fields(fs: Seq<FieldView>) -> Seq<FieldView>
    decreases fs.len(),
{
    if fs.len() == 0 {
        fs
    } else {
        field_step(dedup_fields(fs.drop_last()), fs.last())
    }
}

/// The patch carried by a boundary record.
pub open spec fn patch_of_data(d: crate::data::EntryData) -> EntryPatch {
    EntryPatch {
        title: d.title@,
        username: d.username@,
        password: d.password@,
        url: d.url@,
        notes: d.notes@,
        tags: d.tags@,
        icon_id: d.icon_id,
        is_favorite: d.is_favorite,
        expires: d.expires,
        expiry_time: d.expiry_time,
        custom_fields: dedup_fields(crate::model::views_of(d.custom_fields@)),
    }
}

/// The entry created from a boundary record at time `now`: fresh
/// timestamps, empty history, no attachments, and an expiry time only
/// when expiry is switched on.
pub open spec fn entry_of_data(d: crate::data::EntryData, u: u128, now: u64) -> EntryView {
    EntryView {
        uuid: u,
        title: d.title@,
        username: d.username@,
        password: d.password@,
        url: d.url@,
        notes: d.notes@,
        tags: d.tags@,
        icon_id: d.icon_id,
        is_favorite: d.is_favorite,
        created: now,
        modified: now,
        last_accessed: now,
        expires: d.expires,
        expiry_time: if d.expires {
            d.expiry_time
        } else {
            None
        },
        usage_count: 0,
        custom_fields: dedup_fields(crate::model::views_of(d.custom_fields@)),
        history: Seq::empty(),
        attachments: Seq::empty(),
    }
}

/// Whether the patch changes any of the six semantic fields of `e`.
pub open spec fn patch_changes(e: EntryView, p: EntryPatch) -> bool {
    ||| e.title != p.title
    ||| e.username != p.username
    ||| e.password != p.password
    ||| e.url != p.url
    ||| e.notes != p.notes
    ||| e.tags != p.tags
}

/// The snapshot of `e` pushed onto history before an update, stamped with
/// `e`'s own modification time.
pub open spec fn snapshot_of(e: EntryView) -> HistView {
    HistView {
        timestamp: e.modified,
        title: e.title,
        username: e.username,
        password: e.password,
        url: e.url,
        notes: e.notes,
    }
}

/// The entry after applying the patch at time `now`: if any semantic
/// field changes, the prior snapshot is stacked first (newest first);
/// the custom-field set is replaced wholesale; the expiry time is taken
/// from the patch only when expiry is switched on with a time supplied;
/// modification and access times always move to `now`.
pub open spec fn apply_patch(e: EntryView, p: EntryPatch, now: u64) -> EntryView {
    EntryView {
        uuid: e.uuid,
        title: p.title,
        username: p.username,
        password: p.password,
        url: p.url,
        notes: p.notes,
        tags: p.tags,
        icon_id: p.icon_id,
        is_favorite: p.is_favorite,
        created: e.created,
        modified: now,
        last_accessed: now,
        expires: p.expires,
        expiry_time: if p.expires && p.expiry_time is Some {
            p.expiry_time
        } else {
            e.expiry_time
        },
        usage_count: e.usage_count,
        custom_fields: p.custom_fields,
        history: if patch_changes(e, p) {
            seq![snapshot_of(e)] + e.history
        } else {
            e.history
        },
        attachments: e.attachments,
    }
}

/// Applies the patch to the first entry with identifier `u` in pre-order
/// among the children `cs` and their subtrees.
pub open spec fn update_entry_in(cs: Seq<NodeView>, u: u128, p: EntryPatch, now: u64) -> (
    Seq<NodeView>,
    bool,
)
    decreases cs,
{
    if cs.len() == 0 {
        (cs, false)
    } else {
        proof {
            crate::tree::seq_first_decreases::<NodeView>(cs);
        }
        match cs.first() {
            NodeView::Entry(e) => {
                if e.uuid == u {
                    (seq![NodeView::Entry(apply_patch(e, p, now))] + cs.drop_first(), true)
                } else {
                    let (rest, found) = update_entry_in(cs.drop_first(), u, p, now);
                    (seq![cs.first()] + rest, found)
                }
            },
            NodeView::Group(sub) => {
                proof {
                    assert(decreases_to!(cs.first() => sub));
                    assert(decreases_to!(sub => sub.children));
                }
                let (inner, found) = update_entry_in(sub.children, u, p, now);
                if found {
                    (seq![NodeView::Group(GroupView { children: inner, ..sub })] + cs.drop_first(), true)
                } else {
                    let (rest, found2) = update_entry_in(cs.drop_first(), u, p, now);
                    (seq![cs.first()] + rest, found2)
                }
            },
        }
    }
}

/// Update finds its entry exactly when lookup does, and leaves the tree
/// unchanged when it does not.
pub proof fn lemma_update_entry_in(cs: Seq<NodeView>, u: u128, p: EntryPatch, now: u64)
    ensures
        update_entry_in(cs, u, p, now).1 == (find_entry_in(cs, u) is Some),
        !update_entry_in(cs, u, p, now).1 ==> update_entry_in(cs, u, p, now).0 == cs,
    decreases cs,
{
    if cs.len() > 0 {
        match cs.first() {
            NodeView::Entry(e) => {
                if e.uuid != u {
                    lemma_update_entry_in(cs.drop_first(), u, p, now);
                }
            },
            NodeView::Group(sub) => {
                lemma_update_entry_in(sub.children, u, p, now);
                lemma_update_entry_in(cs.drop_first(), u, p, now);
            },
        }
        if !update_entry_in(cs, u, p, now).1 {
            assert(update_entry_in(cs, u, p, now).0 =~= cs);
        }
    }
}

// ---------------------------------------------------------------------------
// Removal.
// ---------------------------------------------------------------------------

/// Removes the first entry with identifier `u` in pre-order among the
/// children `cs` and their subtrees, returning it.
pub open spec fn remove_entry_in(cs: Seq<NodeView>, u: u128) -> (Seq<NodeView>, Option<EntryView>)
    decreases cs,
{
    if cs.len() == 0 {
        (cs, None)
    } else {
        proof {
            crate::tree::seq_first_decreases::<NodeView>(cs);
        }
        match cs.first() {
            NodeView::Entry(e) => {
                if e.uuid == u {
                    (cs.drop_first(), Some(e))
                } else {
                    let (rest, r) = remove_entry_in(cs.drop_first(), u);
                    (seq![cs.first()] + rest, r)
                }
            },
            NodeView::Group(sub) => {
                proof {
                    assert(decreases_to!(cs.first() => sub));
                    assert(decreases_to!(sub => sub.children));
                }
                let (inner, r) = remove_entry_in(sub.children, u);
                if r is Some {
                    (seq![NodeView::Group(GroupView { children: inner, ..sub })] + cs.drop_first(), r)
                } else {
                    let (rest, r2) = remove_entry_in(cs.drop_first(), u);
                    (seq![cs.first()] + rest, r2)
                }
            },
        }
    }
}

/// Removal returns the entry that lookup finds, and leaves the tree
/// unchanged when there is none.
pub proof fn lemma_remove_entry_in(cs: Seq<NodeView>, u: u128)
    ensures
        remove_entry_in(cs, u).1 == find_entry_in(cs, u),
        remove_entry_in(cs, u).1 is None ==> remove_entry_in(cs, u).0 == cs,
    decreases cs,
{
    if cs.len() > 0 {
        match cs.first() {
            NodeView::Entry(e) => {
                if e.uuid != u {
                    lemma_remove_entry_in(cs.drop_first(), u);
                }
            },
            NodeView::Group(sub) => {
                lemma_remove_entry_in(sub.children, u);
                lemma_remove_entry_in(cs.drop_first(), u);
            },
        }
        if remove_entry_in(cs, u).1 is None {
            assert(remove_entry_in(cs, u).0 =~= cs);
        }
    }
}

/// Detaches the first group with identifier `u` in pre-order among the
/// children `cs` and their subtrees, returning the whole subtree.
pub open spec fn remove_group_in(cs: Seq<NodeView>, u: u128) -> (Seq<NodeView>, Option<GroupView>)
    decreases cs,
{
    if cs.len() == 0 {
        (cs, None)
    } else {
        proof {
            crate::tree::seq_first_decreases::<NodeView>(cs);
        }
        match cs.first() {
            NodeView::Entry(_) => {
                let (rest, r) = remove_group_in(cs.drop_first(), u);
                (seq![cs.first()] + rest, r)
            },
            NodeView::Group(sub) => {
                proof {
                    assert(decreases_to!(cs.first() => sub));
                    assert(decreases_to!(sub => sub.children));
                }
                if sub.uuid == u {
                    (cs.drop_first(), Some(sub))
                } else {
                    let (inner, r) = remove_group_in(sub.children, u);
                    if r is Some {
                        (
                            seq![NodeView::Group(GroupView { children: inner, ..sub })]
                                + cs.drop_first(),
                            r,
                        )
                    } else {
                        let (rest, r2) = remove_group_in(cs.drop_first(), u);
                        (seq![cs.first()] + rest, r2)
                    }
                }
            },
        }
    }
}

/// Whether a group with identifier `u` sits anywhere among the children
/// `cs` or their subtrees (the level's own group excluded).
pub open spec fn group_found_in(cs: Seq<NodeView>, u: u128) -> bool {
    find_group_in(cs, u) is Some
}

/// Group detachment succeeds exactly when lookup finds the group below
/// this level, returns that group, and leaves the tree unchanged when
/// there is none.
pub proof fn lemma_remove_group_in(cs: Seq<NodeView>, u: u128)
    ensures
        remove_group_in(cs, u).1 == find_group_in(cs, u),
        remove_group_in(cs, u).1 is None ==> remove_group_in(cs, u).0 == cs,
    decreases cs,
{
    if cs.len() > 0 {
        match cs.first() {
            NodeView::Entry(_) => {
                lemma_remove_group_in(cs.drop_first(), u);
            },
            NodeView::Group(sub) => {
                if sub.uuid != u {
                    lemma_remove_group_in(sub.children, u);
                    lemma_remove_group_in(cs.drop_first(), u);
                    assert(find_group(sub, u) == find_group_in(sub.children, u));
                }
            },
        }
        if remove_group_in(cs, u).1 is None {
            assert(remove_group_in(cs, u).0 =~= cs);
        }
    }
}

/// Removing an entry keeps every group findable, and adds none.
pub proof fn lemma_remove_entry_keeps_groups(cs: Seq<NodeView>, u: u128, t: u128)
    ensures
        (find_group_in(remove_entry_in(cs, u).0, t) is Some) == (find_group_in(cs, t) is Some),
    decreases cs,
{
    if cs.len() > 0 {
        match cs.first() {
            NodeView::Entry(e) => {
                if e.uuid == u {
                    // The entry is dropped; the groups are exactly those of the rest.
                } else {
                    lemma_remove_entry_keeps_groups(cs.drop_first(), u, t);
                    lemma_cons_find_group(cs.first(), remove_entry_in(cs.drop_first(), u).0, t);
                }
            },
            NodeView::Group(sub) => {
                let (inner, r) = remove_entry_in(sub.children, u);
                if r is Some {
                    lemma_remove_entry_keeps_groups(sub.children, u, t);
                    let sub2 = GroupView { children: inner, ..sub };
                    lemma_cons_find_group(NodeView::Group(sub2), cs.drop_first(), t);
                    lemma_cons_find_group(cs.first(), cs.drop_first(), t);
                } else {
                    lemma_remove_entry_keeps_groups(cs.drop_first(), u, t);
                    lemma_cons_find_group(cs.first(), remove_entry_in(cs.drop_first(), u).0, t);
                }
            },
        }
    }
}

/// Searching a list that starts with `n` finds a group exactly when `n`'s
/// subtree holds it or the rest does.
pub proof fn lemma_cons_find_group(n: NodeView, rest: Seq<NodeView>, t: u128)
    ensures
        (find_group_in(seq![n] + rest, t) is Some) == ((match n {
            NodeView::Group(g) => find_group(g, t) is Some,
            NodeView::Entry(_) => false,
        }) || find_group_in(rest, t) is Some),
{
    let cs = seq![n] + rest;
    assert(cs.first() == n);
    assert(cs.drop_first() =~= rest);
}

/// Detaching a group subtree that does not hold `t` keeps every other
/// group findable, and adds none.
pub proof fn lemma_remove_group_keeps_groups(cs: Seq<NodeView>, u: u128, t: u128)
    requires
        remove_group_in(cs, u).1 matches Some(det) && find_group(det, t) is None,
    ensures
        (find_group_in(remove_group_in(cs, u).0, t) is Some) == (find_group_in(cs, t) is Some),
    decreases cs,
{
    if cs.len() > 0 {
        match cs.first() {
            NodeView::Entry(_) => {
                lemma_remove_group_keeps_groups(cs.drop_first(), u, t);
                lemma_cons_find_group(cs.first(), remove_group_in(cs.drop_first(), u).0, t);
            },
            NodeView::Group(sub) => {
                if sub.uuid == u {
                    // The detached subtree does not hold `t`, so dropping it
                    // changes nothing about `t`.
                } else {
                    let (inner, r) = remove_group_in(sub.children, u);
                    if r is Some {
                        lemma_remove_group_keeps_groups(sub.children, u, t);
                        let sub2 = GroupView { children: inner, ..sub };
                        lemma_cons_find_group(NodeView::Group(sub2), cs.drop_first(), t);
                        lemma_cons_find_group(cs.first(), cs.drop_first(), t);
                    } else {
                        lemma_remove_group_keeps_groups(cs.drop_first(), u, t);
                        lemma_cons_find_group(
                            cs.first(),
                            remove_group_in(cs.drop_first(), u).0,
                            t,
                        );
                    }
                }
            },
        }
    }
}

// ---------------------------------------------------------------------------
// Rename.
// ---------------------------------------------------------------------------

/// Renames the first group with identifier `u` in pre-order from `g`,
/// updating the icon only when one is supplied.
pub open spec fn rename_group_tree(
    g: GroupView,
    u: u128,
    name: Seq<char>,
    icon: Option<usize>,
) -> (GroupView, bool)
    decreases g, 1int,
{
    if g.uuid == u {
        (
            GroupView {
                name,
                icon_id: if icon is Some {
                    icon
                } else {
                    g.icon_id
                },
                ..g
            },
            true,
        )
    } else {
        proof {
            assert(decreases_to!(g => g.children));
        }
        let (cs, found) = rename_group_in(g.children, u, name, icon);
        (GroupView { children: cs, ..g }, found)
    }
}

/// The children-level walk of `rename_group_tree`.
pub open spec fn rename_group_in(
    cs: Seq<NodeView>,
    u: u128,
    name: Seq<char>,
    icon: Option<usize>,
) -> (Seq<NodeView>, bool)
    decreases cs, 0int,
{
    if cs.len() == 0 {
        (cs, false)
    } else {
        proof {
            crate::tree::seq_first_decreases::<NodeView>(cs);
        }
        match cs.first() {
            NodeView::Entry(_) => {
                let (rest, found) = rename_group_in(cs.drop_first(), u, name, icon);
                (seq![cs.first()] + rest, found)
            },
            NodeView::Group(sub) => {
                proof {
                    assert(decreases_to!(cs.first() => sub));
                }
                let (sub2, found) = rename_group_tree(sub, u, name, icon);
                if found {
                    (seq![NodeView::Group(sub2)] + cs.drop_first(), true)
                } else {
                    let (rest, found2) = rename_group_in(cs.drop_first(), u, name, icon);
                    (seq![cs.first()] + rest, found2)
                }
            },
        }
    }
}

/// Rename finds its group exactly when lookup does, and leaves the tree
/// unchanged when it does not.
pub proof fn lemma_rename_group_tree(g: GroupView, u: u128, name: Seq<char>, icon: Option<usize>)
    ensures
        rename_group_tree(g, u, name, icon).1 == (find_group(g, u) is Some),
        !rename_group_tree(g, u, name, icon).1 ==> rename_group_tree(g, u, name, icon).0 == g,
    decreases g, 1int,
{
    if g.uuid != u {
        lemma_rename_group_in(g.children, u, name, icon);
        if !rename_group_tree(g, u, name, icon).1 {
            assert(rename_group_tree(g, u, name, icon).0 =~= g);
        }
    }
}

/// The children-level statement of `lemma_rename_group_tree`.
pub proof fn lemma_rename_group_in(cs: Seq<NodeView>, u: u128, name: Seq<char>, icon: Option<usize>)
    ensures
        rename_group_in(cs, u, name, icon).1 == (find_group_in(cs, u) is Some),
        !rename_group_in(cs, u, name, icon).1 ==> rename_group_in(cs, u, name, icon).0 == cs,
    decreases cs, 0int,
{
    if cs.len() > 0 {
        match cs.first() {
            NodeView::Entry(_) => {
                lemma_rename_group_in(cs.drop_first(), u, name, icon);
            },
            NodeView::Group(sub) => {
                lemma_rename_group_tree(sub, u, name, icon);
                lemma_rename_group_in(cs.drop_first(), u, name, icon);
            },
        }
        if !rename_group_in(cs, u, name, icon).1 {
            assert(rename_group_in(cs, u, name, icon).0 =~= cs);
        }
    }
}

// ---------------------------------------------------------------------------
// Reorder.
// ---------------------------------------------------------------------------

/// Index of the first direct child of `cs` that is a group with
/// identifier `u`.
pub open spec fn index_of_group(cs: Seq<NodeView>, u: u128) -> Option<int>
    decreases cs,
{
    if cs.len() == 0 {
        None
    } else {
        proof {
            crate::tree::seq_first_decreases::<NodeView>(cs);
        }
        if cs.first() matches NodeView::Group(sub) && sub.uuid == u {
            Some(0)
        } else {
            match index_of_group(cs.drop_first(), u) {
                Some(i) => Some(i + 1),
                None => None,
            }
        }
    }
}

/// The clamped destination index: moving forward is clamped to the last
/// valid position, moving backward is taken as given.
pub open spec fn reorder_target(cur: int, target: int, len: int) -> int {
    if target > cur {
        if target < len - 1 {
            target
        } else {
            len - 1
        }
    } else {
        target
    }
}

/// The children `cs` with the element at `i` moved to position `j`.
pub open spec fn spliced(cs: Seq<NodeView>, i: int, j: int) -> Seq<NodeView> {
    cs.remove(i).insert(j, cs[i])
}

/// Moves the group `u` to the clamped position `target` within its
/// parent's child list, searching parents in pre-order.
pub open spec fn reorder_rec(cs: Seq<NodeView>, u: u128, target: int) -> (Seq<NodeView>, bool)
    decreases cs, 1int,
{
    match index_of_group(cs, u) {
        Some(i) => {
            let j = reorder_target(i, target, cs.len() as int);
            (spliced(cs, i, j), true)
        },
        None => reorder_descend(cs, u, target),
    }
}

/// Descends into subgroups, in order, looking for the parent of `u`.
pub open spec fn reorder_descend(cs: Seq<NodeView>, u: u128, target: int) -> (Seq<NodeView>, bool)
    decreases cs, 0int,
{
    if cs.len() == 0 {
        (cs, false)
    } else {
        proof {
            crate::tree::seq_first_decreases::<NodeView>(cs);
        }
        match cs.first() {
            NodeView::Entry(_) => {
                let (rest, found) = reorder_descend(cs.drop_first(), u, target);
                (seq![cs.first()] + rest, found)
            },
            NodeView::Group(sub) => {
                proof {
                    assert(decreases_to!(cs.first() => sub));
                    assert(decreases_to!(sub => sub.children));
                }
                let (inner, found) = reorder_rec(sub.children, u, target);
                if found {
                    (seq![NodeView::Group(GroupView { children: inner, ..sub })] + cs.drop_first(), true)
                } else {
                    let (rest, found2) = reorder_descend(cs.drop_first(), u, target);
                    (seq![cs.first()] + rest, found2)
                }
            },
        }
    }
}

/// Reorder finds its group exactly when a parent lookup does, and leaves
/// the tree unchanged when it does not.
pub proof fn lemma_reorder_rec(cs: Seq<NodeView>, u: u128, target: int)
    ensures
        !reorder_rec(cs, u, target).1 ==> reorder_rec(cs, u, target).0 == cs,
    decreases cs, 1int,
{
    if index_of_group(cs, u) is None {
        lemma_reorder_descend(cs, u, target);
    }
}

/// The children-level statement of `lemma_reorder_rec`.
pub proof fn lemma_reorder_descend(cs: Seq<NodeView>, u: u128, target: int)
    ensures
        !reorder_descend(cs, u, target).1 ==> reorder_descend(cs, u, target).0 == cs,
    decreases cs, 0int,
{
    if cs.len() > 0 {
        match cs.first() {
            NodeView::Entry(_) => {
                lemma_reorder_descend(cs.drop_first(), u, target);
            },
            NodeView::Group(sub) => {
                lemma_reorder_rec(sub.children, u, target);
                lemma_reorder_descend(cs.drop_first(), u, target);
            },
        }
        if !reorder_descend(cs, u, target).1 {
            assert(reorder_descend(cs, u, target).0 =~= cs);
        }
    }
}

} // verus!
