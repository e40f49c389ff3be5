//! Cross-operation laws of the store, each proved from the mathematical
//! semantics the operation contracts are stated over.

use vstd::prelude::*;

use crate::model::{EntryView, GroupView, NodeView};
use vstd::seq_lib::lemma_multiset_commutative;

use crate::mutate::{
    EntryPatch, apply_patch, insert_node, insert_node_in, patch_changes, remove_entry_in,
    remove_group_in, rename_group_in, rename_group_tree, reorder_descend, reorder_rec,
    snapshot_of, spliced, update_entry_in,
};
use crate::tree::{
    all_entries, descendants_in, entries_in, entry_uuids, find_entry, find_entry_in, find_group,
    find_group_in, group_uuids, lemma_descendants_in_concat, lemma_entries_in_concat, tree_wf,
};

verus! {

/// Appending a fresh entry to a level makes it findable there.
proof fn lemma_find_entry_push(cs: Seq<NodeView>, e: EntryView)
    requires
        find_entry_in(cs, e.uuid) is None,
    ensures
        find_entry_in(cs.push(NodeView::Entry(e)), e.uuid) == Some(e),
    decreases cs,
{
    let u = e.uuid;
    let ext = cs.push(NodeView::Entry(e));
    if cs.len() == 0 {
        assert(ext.first() == NodeView::Entry(e));
    } else {
        assert(ext.first() == cs.first());
        assert(ext.drop_first() =~= cs.drop_first().push(NodeView::Entry(e)));
        match cs.first() {
            NodeView::Entry(e0) => {
                assert(e0.uuid != u);
                lemma_find_entry_push(cs.drop_first(), e);
            },
            NodeView::Group(sub) => {
                assert(find_entry_in(sub.children, u) is None);
                lemma_find_entry_push(cs.drop_first(), e);
            },
        }
    }
}

/// An entry created under an existing group and then fetched by its
/// identifier comes back exactly as it was inserted: the round trip over
/// the tree.  Freshness of the identifier is what creation guarantees.
pub proof fn lemma_create_then_find(g: GroupView, p: u128, e: EntryView)
    requires
        find_entry(g, e.uuid) is None,
        insert_node(g, p, NodeView::Entry(e)).1,
    ensures
        find_entry(insert_node(g, p, NodeView::Entry(e)).0, e.uuid) == Some(e),
    decreases g, 1int,
{
    if g.uuid == p {
        lemma_find_entry_push(g.children, e);
    } else {
        lemma_create_then_find_in(g.children, p, e);
    }
}

/// The children-level statement of `lemma_create_then_find`.
proof fn lemma_create_then_find_in(cs: Seq<NodeView>, p: u128, e: EntryView)
    requires
        find_entry_in(cs, e.uuid) is None,
        insert_node_in(cs, p, NodeView::Entry(e)).1,
    ensures
        find_entry_in(insert_node_in(cs, p, NodeView::Entry(e)).0, e.uuid) == Some(e),
    decreases cs, 0int,
{
    let u = e.uuid;
    let n = NodeView::Entry(e);
    let (res, found) = insert_node_in(cs, p, n);
    match cs.first() {
        NodeView::Entry(e0) => {
            assert(e0.uuid != u);
            let (rest, f2) = insert_node_in(cs.drop_first(), p, n);
            lemma_create_then_find_in(cs.drop_first(), p, e);
            assert(res.first() == cs.first());
            assert(res.drop_first() =~= rest);
        },
        NodeView::Group(sub) => {
            let (sub2, f) = insert_node(sub, p, n);
            assert(find_entry_in(sub.children, u) is None);
            if f {
                lemma_create_then_find(sub, p, e);
                assert(res.first() == NodeView::Group(sub2));
                assert(res.drop_first() =~= cs.drop_first());
                assert(find_entry_in(sub2.children, u) == Some(e)) by {
                    if sub.uuid == p {
                        lemma_find_entry_push(sub.children, e);
                    } else {
                        assert(find_entry(insert_node(sub, p, n).0, u) == Some(e));
                    }
                }
            } else {
                crate::mutate::lemma_insert_node(sub, p, n);
                assert(sub2 == sub);
                let (rest, f2) = insert_node_in(cs.drop_first(), p, n);
                lemma_create_then_find_in(cs.drop_first(), p, e);
                assert(res.first() == NodeView::Group(sub));
                assert(res.drop_first() =~= rest);
            }
        },
    }
}

/// What an update does to history and timestamps: leaving every semantic
/// field unchanged leaves the history stack alone; changing any one of
/// them stacks exactly one snapshot, stamped with the entry's prior
/// modification time, not the new one.  Modification and access times
/// always move to the update time, so they never decrease under a
/// non-decreasing clock.
pub proof fn lemma_update_history(e: EntryView, p: EntryPatch, now: u64)
    ensures
        !patch_changes(e, p) ==> apply_patch(e, p, now).history == e.history,
        patch_changes(e, p) ==> apply_patch(e, p, now).history.len() == e.history.len() + 1
            && apply_patch(e, p, now).history[0] == snapshot_of(e) && apply_patch(
            e,
            p,
            now,
        ).history[0].timestamp == e.modified,
        apply_patch(e, p, now).modified == now,
        apply_patch(e, p, now).last_accessed == now,
        now >= e.modified ==> apply_patch(e, p, now).modified >= e.modified,
        apply_patch(e, p, now).created == e.created,
        apply_patch(e, p, now).uuid == e.uuid,
{
    if patch_changes(e, p) {
        assert((seq![snapshot_of(e)] + e.history)[0] == snapshot_of(e));
    }
}


/// An update touches no other entry: every other identifier still finds
/// the same entry afterwards.
pub proof fn lemma_update_touches_only_its_entry(
    cs: Seq<NodeView>,
    u: u128,
    p: EntryPatch,
    now: u64,
    w: u128,
)
    requires
        w != u,
    ensures
        find_entry_in(update_entry_in(cs, u, p, now).0, w) == find_entry_in(cs, w),
    decreases cs,
{
    if cs.len() > 0 {
        let (res, found) = update_entry_in(cs, u, p, now);
        match cs.first() {
            NodeView::Entry(e) => {
                if e.uuid == u {
                    assert(res.first() == NodeView::Entry(apply_patch(e, p, now)));
                    assert(res.drop_first() =~= cs.drop_first());
                    assert(apply_patch(e, p, now).uuid == e.uuid);
                } else {
                    lemma_update_touches_only_its_entry(cs.drop_first(), u, p, now, w);
                    let (rest, _) = update_entry_in(cs.drop_first(), u, p, now);
                    assert((seq![cs.first()] + rest).first() == cs.first());
                    assert((seq![cs.first()] + rest).drop_first() =~= rest);
                }
            },
            NodeView::Group(sub) => {
                let (inner, found_inner) = update_entry_in(sub.children, u, p, now);
                lemma_update_touches_only_its_entry(sub.children, u, p, now, w);
                lemma_update_touches_only_its_entry(cs.drop_first(), u, p, now, w);
                if found_inner {
                    let sub2 = GroupView { children: inner, ..sub };
                    assert((seq![NodeView::Group(sub2)] + cs.drop_first()).first()
                        == NodeView::Group(sub2));
                    assert((seq![NodeView::Group(sub2)] + cs.drop_first()).drop_first()
                        =~= cs.drop_first());
                } else {
                    crate::mutate::lemma_update_entry_in(sub.children, u, p, now);
                    let (rest, _) = update_entry_in(cs.drop_first(), u, p, now);
                    assert((seq![cs.first()] + rest).first() == cs.first());
                    assert((seq![cs.first()] + rest).drop_first() =~= rest);
                }
            },
        }
    }
}

/// A deletion touches no other entry: every other identifier still finds
/// the same entry afterwards.
pub proof fn lemma_delete_touches_only_its_entry(cs: Seq<NodeView>, u: u128, w: u128)
    requires
        w != u,
    ensures
        find_entry_in(remove_entry_in(cs, u).0, w) == find_entry_in(cs, w),
    decreases cs,
{
    if cs.len() > 0 {
        let (res, removed) = remove_entry_in(cs, u);
        match cs.first() {
            NodeView::Entry(e) => {
                if e.uuid == u {
                    assert(res =~= cs.drop_first());
                } else {
                    lemma_delete_touches_only_its_entry(cs.drop_first(), u, w);
                    let (rest, _) = remove_entry_in(cs.drop_first(), u);
                    assert((seq![cs.first()] + rest).first() == cs.first());
                    assert((seq![cs.first()] + rest).drop_first() =~= rest);
                }
            },
            NodeView::Group(sub) => {
                let (inner, removed_inner) = remove_entry_in(sub.children, u);
                lemma_delete_touches_only_its_entry(sub.children, u, w);
                lemma_delete_touches_only_its_entry(cs.drop_first(), u, w);
                if removed_inner is Some {
                    let sub2 = GroupView { children: inner, ..sub };
                    assert((seq![NodeView::Group(sub2)] + cs.drop_first()).first()
                        == NodeView::Group(sub2));
                    assert((seq![NodeView::Group(sub2)] + cs.drop_first()).drop_first()
                        =~= cs.drop_first());
                } else {
                    crate::mutate::lemma_remove_entry_in(sub.children, u);
                    let (rest, _) = remove_entry_in(cs.drop_first(), u);
                    assert((seq![cs.first()] + rest).first() == cs.first());
                    assert((seq![cs.first()] + rest).drop_first() =~= rest);
                }
            },
        }
    }
}



// ---------------------------------------------------------------------------
// Identifier uniqueness is preserved by entry creation.
// ---------------------------------------------------------------------------

/// No two rows share an entry identifier.
pub open spec fn rows_unique(ps: Seq<(u128, EntryView)>) -> bool {
    forall|j: int, k: int| #![trigger ps[j], ps[k]]
        0 <= j < k < ps.len() ==> ps[j].1.uuid != ps[k].1.uuid
}

/// `new` is `old` with the row `v` spliced in somewhere.
pub open spec fn row_inserted(
    new: Seq<(u128, EntryView)>,
    old: Seq<(u128, EntryView)>,
    v: (u128, EntryView),
) -> bool {
    exists|i: int| 0 <= i <= old.len() && new == #[trigger] old.insert(i, v)
}

/// Splicing into the left part of a concatenation splices into the
/// whole.
proof fn lemma_insert_prefix<T>(a: Seq<T>, b: Seq<T>, i: int, v: T)
    requires
        0 <= i <= a.len(),
    ensures
        a.insert(i, v) + b == (a + b).insert(i, v),
{
    assert(a.insert(i, v) + b =~= (a + b).insert(i, v));
}

/// Splicing into the right part of a concatenation splices into the
/// whole, shifted by the left part's length.
proof fn lemma_insert_suffix<T>(a: Seq<T>, b: Seq<T>, i: int, v: T)
    requires
        0 <= i <= b.len(),
    ensures
        a + b.insert(i, v) == (a + b).insert(a.len() + i, v),
{
    assert(a + b.insert(i, v) =~= (a + b).insert(a.len() + i, v));
}

/// Inserting an entry splices exactly one row, owned by the named
/// parent, into the flattened rows of the tree.
pub proof fn lemma_insert_row(g: GroupView, p: u128, e: EntryView)
    requires
        insert_node(g, p, NodeView::Entry(e)).1,
    ensures
        row_inserted(
            all_entries(insert_node(g, p, NodeView::Entry(e)).0),
            all_entries(g),
            (p, e),
        ),
    decreases g, 1int,
{
    let n = NodeView::Entry(e);
    let g2 = insert_node(g, p, n).0;
    if g.uuid == p {
        assert(g.children.push(n) =~= g.children + seq![n]);
        lemma_entries_in_concat(g.children, seq![n], p);
        assert(seq![n].drop_first() =~= Seq::<NodeView>::empty());
        assert(entries_in(Seq::<NodeView>::empty(), p) =~= Seq::<(u128, EntryView)>::empty());
        assert(entries_in(seq![n], p) =~= seq![(p, e)]);
        assert(all_entries(g2) =~= all_entries(g).insert(all_entries(g).len() as int, (p, e)));
    } else {
        lemma_insert_row_in(g.children, g.uuid, p, e);
        let i = choose|i: int|
            0 <= i <= entries_in(g.children, g.uuid).len() && entries_in(
                insert_node_in(g.children, p, n).0,
                g.uuid,
            ) == #[trigger] entries_in(g.children, g.uuid).insert(i, (p, e));
        assert(all_entries(g2) == all_entries(g).insert(i, (p, e)));
    }
}

/// The children-level statement of `lemma_insert_row`.
proof fn lemma_insert_row_in(cs: Seq<NodeView>, owner: u128, p: u128, e: EntryView)
    requires
        insert_node_in(cs, p, NodeView::Entry(e)).1,
    ensures
        row_inserted(
            entries_in(insert_node_in(cs, p, NodeView::Entry(e)).0, owner),
            entries_in(cs, owner),
            (p, e),
        ),
    decreases cs, 0int,
{
    let n = NodeView::Entry(e);
    let (res, found) = insert_node_in(cs, p, n);
    match cs.first() {
        NodeView::Entry(fe) => {
            let (rest, f2) = insert_node_in(cs.drop_first(), p, n);
            lemma_insert_row_in(cs.drop_first(), owner, p, e);
            let i = choose|i: int|
                0 <= i <= entries_in(cs.drop_first(), owner).len() && entries_in(rest, owner)
                    == #[trigger] entries_in(cs.drop_first(), owner).insert(i, (p, e));
            assert(res.first() == cs.first());
            assert(res.drop_first() =~= rest);
            assert(entries_in(res, owner) == seq![(owner, fe)] + entries_in(rest, owner));
            lemma_insert_suffix(
                seq![(owner, fe)],
                entries_in(cs.drop_first(), owner),
                i,
                (p, e),
            );
            assert(entries_in(res, owner) == entries_in(cs, owner).insert(1 + i, (p, e)));
        },
        NodeView::Group(sub) => {
            let (sub2, f) = insert_node(sub, p, n);
            if f {
                lemma_insert_row(sub, p, e);
                let i = choose|i: int|
                    0 <= i <= all_entries(sub).len() && all_entries(sub2)
                        == #[trigger] all_entries(sub).insert(i, (p, e));
                assert(res.first() == NodeView::Group(sub2));
                assert(res.drop_first() =~= cs.drop_first());
                assert(sub2.uuid == sub.uuid);
                assert(entries_in(res, owner) == all_entries(sub2) + entries_in(
                    cs.drop_first(),
                    owner,
                ));
                lemma_insert_prefix(
                    all_entries(sub),
                    entries_in(cs.drop_first(), owner),
                    i,
                    (p, e),
                );
                assert(entries_in(res, owner) == entries_in(cs, owner).insert(i, (p, e)));
            } else {
                crate::mutate::lemma_insert_node(sub, p, n);
                assert(sub2 == sub);
                let (rest, f2) = insert_node_in(cs.drop_first(), p, n);
                lemma_insert_row_in(cs.drop_first(), owner, p, e);
                let i = choose|i: int|
                    0 <= i <= entries_in(cs.drop_first(), owner).len() && entries_in(rest, owner)
                        == #[trigger] entries_in(cs.drop_first(), owner).insert(i, (p, e));
                assert(res.first() == cs.first());
                assert(res.drop_first() =~= rest);
                assert(entries_in(res, owner) == all_entries(sub) + entries_in(rest, owner));
                lemma_insert_suffix(
                    all_entries(sub),
                    entries_in(cs.drop_first(), owner),
                    i,
                    (p, e),
                );
                assert(entries_in(res, owner) == entries_in(cs, owner).insert(
                    all_entries(sub).len() + i,
                    (p, e),
                ));
            }
        },
    }
}

/// An identifier no lookup finds occurs in no flattened row.
proof fn lemma_absent_rows(cs: Seq<NodeView>, owner: u128, u: u128)
    requires
        find_entry_in(cs, u) is None,
    ensures
        forall|k: int|
            0 <= k < entries_in(cs, owner).len() ==> (#[trigger] entries_in(cs, owner)[k]).1.uuid
                != u,
    decreases cs,
{
    if cs.len() > 0 {
        match cs.first() {
            NodeView::Entry(fe) => {
                assert(fe.uuid != u);
                lemma_absent_rows(cs.drop_first(), owner, u);
                assert forall|k: int| 0 <= k < entries_in(cs, owner).len() implies (
                #[trigger] entries_in(cs, owner)[k]).1.uuid != u by {
                    if k > 0 {
                        assert(entries_in(cs, owner)[k] == entries_in(cs.drop_first(), owner)[k
                            - 1]);
                    }
                }
            },
            NodeView::Group(sub) => {
                lemma_absent_rows(sub.children, sub.uuid, u);
                lemma_absent_rows(cs.drop_first(), owner, u);
                let head = all_entries(sub);
                assert forall|k: int| 0 <= k < entries_in(cs, owner).len() implies (
                #[trigger] entries_in(cs, owner)[k]).1.uuid != u by {
                    if k < head.len() {
                        assert(entries_in(cs, owner)[k] == head[k]);
                    } else {
                        assert(entries_in(cs, owner)[k] == entries_in(cs.drop_first(), owner)[k
                            - head.len()]);
                    }
                }
            },
        }
    }
}

/// Splicing a fresh identifier into unique rows keeps them unique.
proof fn lemma_unique_after_insert(s: Seq<(u128, EntryView)>, i: int, v: (u128, EntryView))
    requires
        rows_unique(s),
        forall|k: int| 0 <= k < s.len() ==> (#[trigger] s[k]).1.uuid != v.1.uuid,
        0 <= i <= s.len(),
    ensures
        rows_unique(s.insert(i, v)),
{
    let t = s.insert(i, v);
    assert forall|j: int, k: int| #![trigger t[j], t[k]]
        0 <= j < k < t.len() implies t[j].1.uuid != t[k].1.uuid by {
        if j < i {
            assert(t[j] == s[j]);
        } else if j > i {
            assert(t[j] == s[j - 1]);
        }
        if k < i {
            assert(t[k] == s[k]);
        } else if k > i {
            assert(t[k] == s[k - 1]);
        }
    }
}

/// Inserting an entry leaves every group where it was.
proof fn lemma_insert_entry_keeps_groups_flat(g: GroupView, p: u128, e: EntryView)
    ensures
        descendants_in(insert_node(g, p, NodeView::Entry(e)).0.children) == descendants_in(
            g.children,
        ),
        insert_node(g, p, NodeView::Entry(e)).0.uuid == g.uuid,
    decreases g, 1int,
{
    let n = NodeView::Entry(e);
    if g.uuid == p {
        assert(g.children.push(n) =~= g.children + seq![n]);
        lemma_descendants_in_concat(g.children, seq![n]);
        assert(seq![n].drop_first() =~= Seq::<NodeView>::empty());
        assert(descendants_in(Seq::<NodeView>::empty()) =~= Seq::<u128>::empty());
        assert(descendants_in(seq![n]) =~= Seq::<u128>::empty());
        assert(descendants_in(g.children) + Seq::<u128>::empty() =~= descendants_in(g.children));
    } else {
        lemma_insert_entry_keeps_groups_flat_in(g.children, p, e);
    }
}

/// The children-level statement of
/// `lemma_insert_entry_keeps_groups_flat`.
proof fn lemma_insert_entry_keeps_groups_flat_in(cs: Seq<NodeView>, p: u128, e: EntryView)
    ensures
        descendants_in(insert_node_in(cs, p, NodeView::Entry(e)).0) == descendants_in(cs),
    decreases cs, 0int,
{
    let n = NodeView::Entry(e);
    let (res, found) = insert_node_in(cs, p, n);
    if cs.len() > 0 {
        match cs.first() {
            NodeView::Entry(fe) => {
                let (rest, _) = insert_node_in(cs.drop_first(), p, n);
                lemma_insert_entry_keeps_groups_flat_in(cs.drop_first(), p, e);
                assert(res.first() == cs.first());
                assert(res.drop_first() =~= rest);
                assert(descendants_in(res) =~= descendants_in(cs));
            },
            NodeView::Group(sub) => {
                let (sub2, f) = insert_node(sub, p, n);
                if f {
                    lemma_insert_entry_keeps_groups_flat(sub, p, e);
                    assert(res.first() == NodeView::Group(sub2));
                    assert(res.drop_first() =~= cs.drop_first());
                    assert(descendants_in(res) =~= descendants_in(cs));
                } else {
                    crate::mutate::lemma_insert_node(sub, p, n);
                    let (rest, _) = insert_node_in(cs.drop_first(), p, n);
                    lemma_insert_entry_keeps_groups_flat_in(cs.drop_first(), p, e);
                    assert(res.first() == cs.first());
                    assert(res.drop_first() =~= rest);
                    assert(descendants_in(res) =~= descendants_in(cs));
                }
            },
        }
    }
}

/// Flattened uniqueness of rows is uniqueness of the entry identifiers.
proof fn lemma_rows_unique_bridge(g: GroupView)
    ensures
        rows_unique(all_entries(g)) == entry_uuids(g).no_duplicates(),
{
    let ps = all_entries(g);
    let us = entry_uuids(g);
    assert(us.len() == ps.len());
    assert forall|k: int| 0 <= k < ps.len() implies us[k] == (#[trigger] ps[k]).1.uuid by {}
    if rows_unique(ps) {
        assert forall|j: int, k: int|
            0 <= j < us.len() && 0 <= k < us.len() && j != k implies us[j] != us[k] by {
            if j < k {
                assert(ps[j].1.uuid != ps[k].1.uuid);
            } else {
                assert(ps[k].1.uuid != ps[j].1.uuid);
            }
        }
    }
    if us.no_duplicates() {
        assert forall|j: int, k: int| #![trigger ps[j], ps[k]]
            0 <= j < k < ps.len() implies ps[j].1.uuid != ps[k].1.uuid by {
            assert(us[j] != us[k]);
        }
    }
}

/// Creating an entry with a fresh identifier under an existing group
/// keeps the tree well-formed: no identifier comes to occur twice.
pub proof fn lemma_create_entry_preserves_wf(g: GroupView, p: u128, e: EntryView)
    requires
        tree_wf(g),
        find_entry(g, e.uuid) is None,
        insert_node(g, p, NodeView::Entry(e)).1,
    ensures
        tree_wf(insert_node(g, p, NodeView::Entry(e)).0),
{
    let g2 = insert_node(g, p, NodeView::Entry(e)).0;
    lemma_insert_entry_keeps_groups_flat(g, p, e);
    assert(group_uuids(g2) =~= group_uuids(g));
    lemma_insert_row(g, p, e);
    let i = choose|i: int|
        0 <= i <= all_entries(g).len() && all_entries(g2) == #[trigger] all_entries(g).insert(
            i,
            (p, e),
        );
    lemma_absent_rows(g.children, g.uuid, e.uuid);
    lemma_rows_unique_bridge(g);
    lemma_unique_after_insert(all_entries(g), i, (p, e));
    lemma_rows_unique_bridge(g2);
}



// ---------------------------------------------------------------------------
// Identifier uniqueness is preserved by group creation.
// ---------------------------------------------------------------------------

/// `new` is `old` with one identifier spliced in somewhere.
pub open spec fn uuid_inserted(new: Seq<u128>, old: Seq<u128>, v: u128) -> bool {
    exists|i: int| 0 <= i <= old.len() && new == #[trigger] old.insert(i, v)
}

/// Inserting an empty group splices exactly its identifier into the
/// flattened group identifiers, and leaves every entry where it was.
pub proof fn lemma_insert_group_row(g: GroupView, p: u128, ng: GroupView)
    requires
        ng.children == Seq::<NodeView>::empty(),
        insert_node(g, p, NodeView::Group(ng)).1,
    ensures
        uuid_inserted(
            descendants_in(insert_node(g, p, NodeView::Group(ng)).0.children),
            descendants_in(g.children),
            ng.uuid,
        ),
        all_entries(insert_node(g, p, NodeView::Group(ng)).0) == all_entries(g),
        insert_node(g, p, NodeView::Group(ng)).0.uuid == g.uuid,
    decreases g, 1int,
{
    let n = NodeView::Group(ng);
    let g2 = insert_node(g, p, n).0;
    if g.uuid == p {
        assert(g.children.push(n) =~= g.children + seq![n]);
        lemma_descendants_in_concat(g.children, seq![n]);
        lemma_entries_in_concat(g.children, seq![n], p);
        assert(seq![n].drop_first() =~= Seq::<NodeView>::empty());
        assert(descendants_in(Seq::<NodeView>::empty()) =~= Seq::<u128>::empty());
        assert(entries_in(Seq::<NodeView>::empty(), p) =~= Seq::<(u128, EntryView)>::empty());
        assert(entries_in(Seq::<NodeView>::empty(), ng.uuid) =~= Seq::<
            (u128, EntryView),
        >::empty());
        assert(descendants_in(seq![n]) =~= seq![ng.uuid]);
        assert(entries_in(seq![n], p) =~= Seq::<(u128, EntryView)>::empty());
        assert(descendants_in(g2.children) =~= descendants_in(g.children).insert(
            descendants_in(g.children).len() as int,
            ng.uuid,
        ));
        assert(all_entries(g2) =~= all_entries(g));
    } else {
        lemma_insert_group_row_in(g.children, g.uuid, p, ng);
    }
}

/// The children-level statement of `lemma_insert_group_row`.
proof fn lemma_insert_group_row_in(cs: Seq<NodeView>, owner: u128, p: u128, ng: GroupView)
    requires
        ng.children == Seq::<NodeView>::empty(),
        insert_node_in(cs, p, NodeView::Group(ng)).1,
    ensures
        uuid_inserted(
            descendants_in(insert_node_in(cs, p, NodeView::Group(ng)).0),
            descendants_in(cs),
            ng.uuid,
        ),
        entries_in(insert_node_in(cs, p, NodeView::Group(ng)).0, owner) == entries_in(cs, owner),
    decreases cs, 0int,
{
    let n = NodeView::Group(ng);
    let (res, found) = insert_node_in(cs, p, n);
    match cs.first() {
        NodeView::Entry(fe) => {
            let (rest, _) = insert_node_in(cs.drop_first(), p, n);
            lemma_insert_group_row_in(cs.drop_first(), owner, p, ng);
            let i = choose|i: int|
                0 <= i <= descendants_in(cs.drop_first()).len() && descendants_in(rest)
                    == #[trigger] descendants_in(cs.drop_first()).insert(i, ng.uuid);
            assert(res.first() == cs.first());
            assert(res.drop_first() =~= rest);
            assert(descendants_in(res) == Seq::<u128>::empty() + descendants_in(rest));
            assert(Seq::<u128>::empty() + descendants_in(rest) =~= descendants_in(rest));
            assert(descendants_in(cs) =~= descendants_in(cs.drop_first()));
            assert(descendants_in(res) == descendants_in(cs).insert(i, ng.uuid));
            assert(entries_in(res, owner) =~= entries_in(cs, owner));
        },
        NodeView::Group(sub) => {
            let (sub2, f) = insert_node(sub, p, n);
            if f {
                lemma_insert_group_row(sub, p, ng);
                let i = choose|i: int|
                    0 <= i <= descendants_in(sub.children).len() && descendants_in(sub2.children)
                        == #[trigger] descendants_in(sub.children).insert(i, ng.uuid);
                assert(res.first() == NodeView::Group(sub2));
                assert(res.drop_first() =~= cs.drop_first());
                assert(sub2.uuid == sub.uuid);
                assert(descendants_in(res) == (seq![sub.uuid] + descendants_in(sub2.children))
                    + descendants_in(cs.drop_first()));
                lemma_insert_suffix(seq![sub.uuid], descendants_in(sub.children), i, ng.uuid);
                lemma_insert_prefix(
                    seq![sub.uuid] + descendants_in(sub.children),
                    descendants_in(cs.drop_first()),
                    1 + i,
                    ng.uuid,
                );
                assert(descendants_in(res) == descendants_in(cs).insert(1 + i, ng.uuid));
                assert(entries_in(res, owner) =~= entries_in(cs, owner));
            } else {
                crate::mutate::lemma_insert_node(sub, p, n);
                assert(sub2 == sub);
                let (rest, _) = insert_node_in(cs.drop_first(), p, n);
                lemma_insert_group_row_in(cs.drop_first(), owner, p, ng);
                let i = choose|i: int|
                    0 <= i <= descendants_in(cs.drop_first()).len() && descendants_in(rest)
                        == #[trigger] descendants_in(cs.drop_first()).insert(i, ng.uuid);
                assert(res.first() == cs.first());
                assert(res.drop_first() =~= rest);
                assert(descendants_in(res) == (seq![sub.uuid] + descendants_in(sub.children))
                    + descendants_in(rest));
                lemma_insert_suffix(
                    seq![sub.uuid] + descendants_in(sub.children),
                    descendants_in(cs.drop_first()),
                    i,
                    ng.uuid,
                );
                assert(descendants_in(res) == descendants_in(cs).insert(
                    1 + descendants_in(sub.children).len() + i,
                    ng.uuid,
                ));
                assert(entries_in(res, owner) =~= entries_in(cs, owner));
            }
        },
    }
}

/// An identifier no group lookup finds occurs among no descendants.
proof fn lemma_absent_groups(cs: Seq<NodeView>, u: u128)
    requires
        find_group_in(cs, u) is None,
    ensures
        forall|k: int|
            0 <= k < descendants_in(cs).len() ==> #[trigger] descendants_in(cs)[k] != u,
    decreases cs,
{
    if cs.len() > 0 {
        match cs.first() {
            NodeView::Entry(_) => {
                lemma_absent_groups(cs.drop_first(), u);
                assert forall|k: int| 0 <= k < descendants_in(cs).len() implies
                    #[trigger] descendants_in(cs)[k] != u by {
                    assert(descendants_in(cs)[k] == (Seq::<u128>::empty() + descendants_in(
                        cs.drop_first(),
                    ))[k]);
                    assert(descendants_in(cs)[k] == descendants_in(cs.drop_first())[k]);
                }
            },
            NodeView::Group(sub) => {
                assert(find_group(sub, u) is None);
                assert(sub.uuid != u);
                assert(find_group_in(sub.children, u) is None);
                lemma_absent_groups(sub.children, u);
                lemma_absent_groups(cs.drop_first(), u);
                let head = seq![sub.uuid] + descendants_in(sub.children);
                assert forall|k: int| 0 <= k < descendants_in(cs).len() implies
                    #[trigger] descendants_in(cs)[k] != u by {
                    if k < head.len() {
                        assert(descendants_in(cs)[k] == head[k]);
                        if k > 0 {
                            assert(head[k] == descendants_in(sub.children)[k - 1]);
                        }
                    } else {
                        assert(descendants_in(cs)[k] == descendants_in(cs.drop_first())[k
                            - head.len()]);
                    }
                }
            },
        }
    }
}

/// Splicing a fresh identifier into distinct identifiers keeps them
/// distinct.
proof fn lemma_uuids_unique_after_insert(s: Seq<u128>, i: int, v: u128)
    requires
        s.no_duplicates(),
        !s.contains(v),
        0 <= i <= s.len(),
    ensures
        s.insert(i, v).no_duplicates(),
{
    let t = s.insert(i, v);
    assert forall|j: int, k: int|
        0 <= j < t.len() && 0 <= k < t.len() && j != k implies t[j] != t[k] by {
        if j < i {
            assert(t[j] == s[j]);
        } else if j > i {
            assert(t[j] == s[j - 1]);
        }
        if k < i {
            assert(t[k] == s[k]);
        } else if k > i {
            assert(t[k] == s[k - 1]);
        }
    }
}

/// Creating an empty group with a fresh identifier under an existing
/// parent keeps the tree well-formed: no identifier comes to occur
/// twice.
pub proof fn lemma_create_group_preserves_wf(g: GroupView, p: u128, ng: GroupView)
    requires
        tree_wf(g),
        ng.children == Seq::<NodeView>::empty(),
        find_group(g, ng.uuid) is None,
        insert_node(g, p, NodeView::Group(ng)).1,
    ensures
        tree_wf(insert_node(g, p, NodeView::Group(ng)).0),
{
    let g2 = insert_node(g, p, NodeView::Group(ng)).0;
    lemma_insert_group_row(g, p, ng);
    let i = choose|i: int|
        0 <= i <= descendants_in(g.children).len() && descendants_in(g2.children)
            == #[trigger] descendants_in(g.children).insert(i, ng.uuid);
    assert(g.uuid != ng.uuid);
    assert(find_group_in(g.children, ng.uuid) is None);
    lemma_absent_groups(g.children, ng.uuid);
    assert(!group_uuids(g).contains(ng.uuid)) by {
        if group_uuids(g).contains(ng.uuid) {
            let k = choose|k: int|
                0 <= k < group_uuids(g).len() && group_uuids(g)[k] == ng.uuid;
            if k > 0 {
                assert(group_uuids(g)[k] == descendants_in(g.children)[k - 1]);
            }
        }
    }
    lemma_insert_suffix(seq![g.uuid], descendants_in(g.children), i, ng.uuid);
    assert(group_uuids(g2) == group_uuids(g).insert(1 + i, ng.uuid));
    lemma_uuids_unique_after_insert(group_uuids(g), 1 + i, ng.uuid);
    // The entries are untouched, so their identifiers stay distinct.
    assert(entry_uuids(g2) =~= entry_uuids(g));
}



// ---------------------------------------------------------------------------
// Identifier uniqueness is preserved by update, deletion and rename.
// ---------------------------------------------------------------------------

/// Two row sequences with the same owners and entry identifiers,
/// position by position.
pub open spec fn same_skeleton(a: Seq<(u128, EntryView)>, b: Seq<(u128, EntryView)>) -> bool {
    &&& a.len() == b.len()
    &&& forall|k: int|
        0 <= k < a.len() ==> (#[trigger] a[k]).0 == b[k].0 && a[k].1.uuid == b[k].1.uuid
}

/// An update changes one entry in place: owners, identifiers and the
/// group structure all stay exactly where they were.
pub proof fn lemma_update_keeps_skeleton(
    cs: Seq<NodeView>,
    owner: u128,
    u: u128,
    p: EntryPatch,
    now: u64,
)
    ensures
        same_skeleton(entries_in(update_entry_in(cs, u, p, now).0, owner), entries_in(cs, owner)),
        descendants_in(update_entry_in(cs, u, p, now).0) == descendants_in(cs),
    decreases cs,
{
    if cs.len() > 0 {
        let (res, found) = update_entry_in(cs, u, p, now);
        match cs.first() {
            NodeView::Entry(e) => {
                if e.uuid == u {
                    let e2 = apply_patch(e, p, now);
                    assert(res.first() == NodeView::Entry(e2));
                    assert(res.drop_first() =~= cs.drop_first());
                    assert(entries_in(res, owner) == seq![(owner, e2)] + entries_in(
                        cs.drop_first(),
                        owner,
                    ));
                    assert(descendants_in(res) =~= descendants_in(cs));
                } else {
                    lemma_update_keeps_skeleton(cs.drop_first(), owner, u, p, now);
                    let (rest, _) = update_entry_in(cs.drop_first(), u, p, now);
                    assert(res.first() == cs.first());
                    assert(res.drop_first() =~= rest);
                    assert(descendants_in(res) =~= descendants_in(cs));
                }
            },
            NodeView::Group(sub) => {
                let (inner, found_inner) = update_entry_in(sub.children, u, p, now);
                lemma_update_keeps_skeleton(sub.children, sub.uuid, u, p, now);
                lemma_update_keeps_skeleton(cs.drop_first(), owner, u, p, now);
                if found_inner {
                    let sub2 = GroupView { children: inner, ..sub };
                    assert(res.first() == NodeView::Group(sub2));
                    assert(res.drop_first() =~= cs.drop_first());
                    assert(entries_in(res, owner) == entries_in(inner, sub.uuid) + entries_in(
                        cs.drop_first(),
                        owner,
                    ));
                    assert(descendants_in(res) =~= descendants_in(cs));
                } else {
                    crate::mutate::lemma_update_entry_in(sub.children, u, p, now);
                    let (rest, _) = update_entry_in(cs.drop_first(), u, p, now);
                    assert(res.first() == cs.first());
                    assert(res.drop_first() =~= rest);
                    assert(descendants_in(res) =~= descendants_in(cs));
                }
            },
        }
    }
}

/// Updating an entry keeps the tree well-formed.
pub proof fn lemma_update_preserves_wf(g: GroupView, u: u128, p: EntryPatch, now: u64)
    requires
        tree_wf(g),
    ensures
        tree_wf(
            GroupView { children: update_entry_in(g.children, u, p, now).0, ..g },
        ),
{
    let g2 = GroupView { children: update_entry_in(g.children, u, p, now).0, ..g };
    lemma_update_keeps_skeleton(g.children, g.uuid, u, p, now);
    assert(group_uuids(g2) =~= group_uuids(g));
    assert(entry_uuids(g2) =~= entry_uuids(g));
}

/// A deletion drops one row and leaves the rest, and the group
/// structure, exactly where they were.
pub proof fn lemma_delete_row(cs: Seq<NodeView>, owner: u128, u: u128)
    ensures
        descendants_in(remove_entry_in(cs, u).0) == descendants_in(cs),
        remove_entry_in(cs, u).1 is Some ==> exists|i: int|
            0 <= i < entries_in(cs, owner).len() && entries_in(cs, owner)[i].1.uuid == u
                && entries_in(remove_entry_in(cs, u).0, owner)
                == #[trigger] entries_in(cs, owner).remove(i),
        remove_entry_in(cs, u).1 is None ==> entries_in(remove_entry_in(cs, u).0, owner)
            == entries_in(cs, owner),
    decreases cs,
{
    if cs.len() > 0 {
        let (res, removed) = remove_entry_in(cs, u);
        match cs.first() {
            NodeView::Entry(e) => {
                if e.uuid == u {
                    assert(res =~= cs.drop_first());
                    assert(entries_in(res, owner) =~= entries_in(cs, owner).remove(0));
                } else {
                    lemma_delete_row(cs.drop_first(), owner, u);
                    let (rest, _) = remove_entry_in(cs.drop_first(), u);
                    assert(res.first() == cs.first());
                    assert(res.drop_first() =~= rest);
                    assert(descendants_in(res) =~= descendants_in(cs));
                    if removed is Some {
                        let i = choose|i: int|
                            0 <= i < entries_in(cs.drop_first(), owner).len() && entries_in(
                                cs.drop_first(),
                                owner,
                            )[i].1.uuid == u && entries_in(rest, owner)
                                == #[trigger] entries_in(cs.drop_first(), owner).remove(i);
                        assert(entries_in(cs, owner)[1 + i] == entries_in(cs.drop_first(), owner)[i]);
                        assert(entries_in(res, owner) =~= entries_in(cs, owner).remove(1 + i));
                    } else {
                        crate::mutate::lemma_remove_entry_in(cs.drop_first(), u);
                        assert(entries_in(res, owner) =~= entries_in(cs, owner));
                    }
                }
            },
            NodeView::Group(sub) => {
                let (inner, removed_inner) = remove_entry_in(sub.children, u);
                lemma_delete_row(sub.children, sub.uuid, u);
                lemma_delete_row(cs.drop_first(), owner, u);
                if removed_inner is Some {
                    let sub2 = GroupView { children: inner, ..sub };
                    assert(res.first() == NodeView::Group(sub2));
                    assert(res.drop_first() =~= cs.drop_first());
                    assert(descendants_in(res) =~= descendants_in(cs));
                    let i = choose|i: int|
                        0 <= i < entries_in(sub.children, sub.uuid).len() && entries_in(
                            sub.children,
                            sub.uuid,
                        )[i].1.uuid == u && entries_in(inner, sub.uuid)
                            == #[trigger] entries_in(sub.children, sub.uuid).remove(i);
                    assert(entries_in(res, owner) == entries_in(inner, sub.uuid) + entries_in(
                        cs.drop_first(),
                        owner,
                    ));
                    assert(entries_in(cs, owner)[i] == entries_in(sub.children, sub.uuid)[i]);
                    assert(entries_in(res, owner) =~= entries_in(cs, owner).remove(i));
                } else {
                    crate::mutate::lemma_remove_entry_in(sub.children, u);
                    let (rest, _) = remove_entry_in(cs.drop_first(), u);
                    assert(res.first() == cs.first());
                    assert(res.drop_first() =~= rest);
                    assert(descendants_in(res) =~= descendants_in(cs));
                    if removed is Some {
                        let i = choose|i: int|
                            0 <= i < entries_in(cs.drop_first(), owner).len() && entries_in(
                                cs.drop_first(),
                                owner,
                            )[i].1.uuid == u && entries_in(rest, owner)
                                == #[trigger] entries_in(cs.drop_first(), owner).remove(i);
                        assert(entries_in(cs, owner)[entries_in(sub.children, sub.uuid).len() + i]
                            == entries_in(cs.drop_first(), owner)[i]);
                        assert(entries_in(res, owner) =~= entries_in(cs, owner).remove(
                            entries_in(sub.children, sub.uuid).len() + i,
                        ));
                    } else {
                        crate::mutate::lemma_remove_entry_in(cs.drop_first(), u);
                        assert(entries_in(res, owner) =~= entries_in(cs, owner));
                    }
                }
            },
        }
    }
}

/// Dropping a position keeps distinct identifiers distinct.
proof fn lemma_unique_after_remove(s: Seq<(u128, EntryView)>, i: int)
    requires
        rows_unique(s),
        0 <= i < s.len(),
    ensures
        rows_unique(s.remove(i)),
{
    let t = s.remove(i);
    assert forall|j: int, k: int| #![trigger t[j], t[k]]
        0 <= j < k < t.len() implies t[j].1.uuid != t[k].1.uuid by {
        if j < i {
            assert(t[j] == s[j]);
        } else {
            assert(t[j] == s[j + 1]);
        }
        if k < i {
            assert(t[k] == s[k]);
        } else {
            assert(t[k] == s[k + 1]);
        }
    }
}

/// Deleting an entry keeps the tree well-formed.
pub proof fn lemma_delete_preserves_wf(g: GroupView, u: u128)
    requires
        tree_wf(g),
    ensures
        tree_wf(GroupView { children: remove_entry_in(g.children, u).0, ..g }),
{
    let g2 = GroupView { children: remove_entry_in(g.children, u).0, ..g };
    lemma_delete_row(g.children, g.uuid, u);
    assert(group_uuids(g2) =~= group_uuids(g));
    lemma_rows_unique_bridge(g);
    if remove_entry_in(g.children, u).1 is Some {
        let i = choose|i: int|
            0 <= i < all_entries(g).len() && all_entries(g2) == #[trigger] all_entries(g).remove(
                i,
            );
        lemma_unique_after_remove(all_entries(g), i);
        lemma_rows_unique_bridge(g2);
    } else {
        assert(entry_uuids(g2) =~= entry_uuids(g));
    }
}

/// A rename changes one group's name and icon: every identifier, and
/// every entry, stays exactly where it was.
pub proof fn lemma_rename_keeps_skeleton(
    cs: Seq<NodeView>,
    owner: u128,
    u: u128,
    name: Seq<char>,
    icon: Option<usize>,
)
    ensures
        entries_in(rename_group_in(cs, u, name, icon).0, owner) == entries_in(cs, owner),
        descendants_in(rename_group_in(cs, u, name, icon).0) == descendants_in(cs),
    decreases cs, 0int,
{
    if cs.len() > 0 {
        let (res, found) = rename_group_in(cs, u, name, icon);
        match cs.first() {
            NodeView::Entry(_) => {
                lemma_rename_keeps_skeleton(cs.drop_first(), owner, u, name, icon);
                let (rest, _) = rename_group_in(cs.drop_first(), u, name, icon);
                assert(res.first() == cs.first());
                assert(res.drop_first() =~= rest);
                assert(entries_in(res, owner) =~= entries_in(cs, owner));
                assert(descendants_in(res) =~= descendants_in(cs));
            },
            NodeView::Group(sub) => {
                let (sub2, f) = rename_group_tree(sub, u, name, icon);
                lemma_rename_keeps_skeleton_tree(sub, u, name, icon);
                lemma_rename_keeps_skeleton(cs.drop_first(), owner, u, name, icon);
                if f {
                    assert(res.first() == NodeView::Group(sub2));
                    assert(res.drop_first() =~= cs.drop_first());
                    assert(entries_in(res, owner) =~= entries_in(cs, owner));
                    assert(descendants_in(res) =~= descendants_in(cs));
                } else {
                    crate::mutate::lemma_rename_group_tree(sub, u, name, icon);
                    let (rest, _) = rename_group_in(cs.drop_first(), u, name, icon);
                    assert(res.first() == cs.first());
                    assert(res.drop_first() =~= rest);
                    assert(entries_in(res, owner) =~= entries_in(cs, owner));
                    assert(descendants_in(res) =~= descendants_in(cs));
                }
            },
        }
    }
}

/// The group-level statement of `lemma_rename_keeps_skeleton`.
pub proof fn lemma_rename_keeps_skeleton_tree(
    g: GroupView,
    u: u128,
    name: Seq<char>,
    icon: Option<usize>,
)
    ensures
        all_entries(rename_group_tree(g, u, name, icon).0) == all_entries(g),
        group_uuids(rename_group_tree(g, u, name, icon).0) == group_uuids(g),
    decreases g, 1int,
{
    let (g2, found) = rename_group_tree(g, u, name, icon);
    if g.uuid == u {
        assert(all_entries(g2) =~= all_entries(g));
        assert(group_uuids(g2) =~= group_uuids(g));
    } else {
        lemma_rename_keeps_skeleton(g.children, g.uuid, u, name, icon);
        assert(all_entries(g2) =~= all_entries(g));
        assert(group_uuids(g2) =~= group_uuids(g));
    }
}

/// Renaming a group keeps the tree well-formed.
pub proof fn lemma_rename_preserves_wf(g: GroupView, u: u128, name: Seq<char>, icon: Option<usize>)
    requires
        tree_wf(g),
    ensures
        tree_wf(rename_group_tree(g, u, name, icon).0),
{
    let g2 = rename_group_tree(g, u, name, icon).0;
    lemma_rename_keeps_skeleton_tree(g, u, name, icon);
    assert(entry_uuids(g2) =~= entry_uuids(g));
}



/// Moving an entry detaches it and reattaches it elsewhere: both halves
/// together keep the tree well-formed.
pub proof fn lemma_move_entry_preserves_wf(g: GroupView, u: u128, ng: u128)
    requires
        tree_wf(g),
        remove_entry_in(g.children, u).1 is Some,
        insert_node(
            GroupView { children: remove_entry_in(g.children, u).0, ..g },
            ng,
            NodeView::Entry(remove_entry_in(g.children, u).1.unwrap()),
        ).1,
    ensures
        tree_wf(
            insert_node(
                GroupView { children: remove_entry_in(g.children, u).0, ..g },
                ng,
                NodeView::Entry(remove_entry_in(g.children, u).1.unwrap()),
            ).0,
        ),
{
    let e = remove_entry_in(g.children, u).1.unwrap();
    let g1 = GroupView { children: remove_entry_in(g.children, u).0, ..g };
    let g2 = insert_node(g1, ng, NodeView::Entry(e)).0;
    crate::mutate::lemma_remove_entry_in(g.children, u);
    lemma_find_entry_uuid(g.children, u);
    assert(e.uuid == u);
    lemma_delete_row(g.children, g.uuid, u);
    let i = choose|i: int|
        0 <= i < all_entries(g).len() && all_entries(g)[i].1.uuid == u && all_entries(g1)
            == #[trigger] all_entries(g).remove(i);
    lemma_rows_unique_bridge(g);
    lemma_unique_after_remove(all_entries(g), i);
    assert(group_uuids(g1) =~= group_uuids(g));
    // After the detachment no row holds the identifier: the tree held it
    // only once.
    assert forall|k: int| 0 <= k < all_entries(g1).len() implies (
    #[trigger] all_entries(g1)[k]).1.uuid != u by {
        if k < i {
            assert(all_entries(g1)[k] == all_entries(g)[k]);
        } else {
            assert(all_entries(g1)[k] == all_entries(g)[k + 1]);
        }
    }
    lemma_insert_row(g1, ng, e);
    let j = choose|j: int|
        0 <= j <= all_entries(g1).len() && all_entries(g2) == #[trigger] all_entries(g1).insert(
            j,
            (ng, e),
        );
    lemma_unique_after_insert(all_entries(g1), j, (ng, e));
    lemma_insert_entry_keeps_groups_flat(g1, ng, e);
    assert(group_uuids(g2) =~= group_uuids(g1));
    lemma_rows_unique_bridge(g2);
}

/// A found entry carries the identifier it was found by.
proof fn lemma_find_entry_uuid(cs: Seq<NodeView>, u: u128)
    ensures
        find_entry_in(cs, u) matches Some(e) ==> e.uuid == u,
    decreases cs,
{
    if cs.len() > 0 {
        match cs.first() {
            NodeView::Entry(e) => {
                if e.uuid != u {
                    lemma_find_entry_uuid(cs.drop_first(), u);
                }
            },
            NodeView::Group(sub) => {
                lemma_find_entry_uuid(sub.children, u);
                lemma_find_entry_uuid(cs.drop_first(), u);
            },
        }
    }
}



// ---------------------------------------------------------------------------
// Identifier uniqueness is preserved by group deletion.
// ---------------------------------------------------------------------------

/// `old` is `new` with the block spliced in at position `i`.
pub open spec fn spliced_with<T>(old: Seq<T>, new: Seq<T>, block: Seq<T>, i: int) -> bool {
    &&& 0 <= i <= new.len()
    &&& old == new.take(i) + block + new.skip(i)
}

/// Detaching a group removes one contiguous block from the flattened
/// group identifiers — its own and its descendants' — and one from the
/// flattened rows — its entries — and moves nothing else.
pub proof fn lemma_remove_group_rows(cs: Seq<NodeView>, owner: u128, u: u128)
    ensures
        remove_group_in(cs, u).1 matches Some(det) ==> (exists|i: int| #[trigger] spliced_with(
            descendants_in(cs),
            descendants_in(remove_group_in(cs, u).0),
            seq![det.uuid] + descendants_in(det.children),
            i,
        )) && (exists|j: int| #[trigger] spliced_with(
            entries_in(cs, owner),
            entries_in(remove_group_in(cs, u).0, owner),
            all_entries(det),
            j,
        )),
        remove_group_in(cs, u).1 is None ==> descendants_in(remove_group_in(cs, u).0)
            == descendants_in(cs) && entries_in(remove_group_in(cs, u).0, owner) == entries_in(
            cs,
            owner,
        ),
    decreases cs,
{
    if cs.len() > 0 {
        let (res, removed) = remove_group_in(cs, u);
        match cs.first() {
            NodeView::Entry(fe) => {
                lemma_remove_group_rows(cs.drop_first(), owner, u);
                let (rest, _) = remove_group_in(cs.drop_first(), u);
                assert(res.first() == cs.first());
                assert(res.drop_first() =~= rest);
                match removed {
                    Some(det) => {
                        let i = choose|i: int| #[trigger] spliced_with(
                            descendants_in(cs.drop_first()),
                            descendants_in(rest),
                            seq![det.uuid] + descendants_in(det.children),
                            i,
                        );
                        assert(spliced_with(
                            descendants_in(cs),
                            descendants_in(res),
                            seq![det.uuid] + descendants_in(det.children),
                            i,
                        )) by {
                            assert(descendants_in(cs) =~= descendants_in(cs.drop_first()));
                            assert(descendants_in(res) =~= descendants_in(rest));
                        }
                        let j = choose|j: int| #[trigger] spliced_with(
                            entries_in(cs.drop_first(), owner),
                            entries_in(rest, owner),
                            all_entries(det),
                            j,
                        );
                        assert(spliced_with(
                            entries_in(cs, owner),
                            entries_in(res, owner),
                            all_entries(det),
                            1 + j,
                        )) by {
                            assert(entries_in(res, owner) =~= seq![(owner, fe)] + entries_in(
                                rest,
                                owner,
                            ));
                            assert(entries_in(res, owner).take(1 + j) =~= seq![(owner, fe)]
                                + entries_in(rest, owner).take(j));
                            assert(entries_in(res, owner).skip(1 + j) =~= entries_in(
                                rest,
                                owner,
                            ).skip(j));
                            assert(entries_in(cs, owner) =~= entries_in(res, owner).take(1 + j)
                                + all_entries(det) + entries_in(res, owner).skip(1 + j));
                        }
                    },
                    None => {
                        assert(descendants_in(res) =~= descendants_in(cs));
                        assert(entries_in(res, owner) =~= entries_in(cs, owner));
                    },
                }
            },
            NodeView::Group(sub) => {
                if sub.uuid == u {
                    let det = sub;
                    assert(res =~= cs.drop_first());
                    assert(spliced_with(
                        descendants_in(cs),
                        descendants_in(res),
                        seq![det.uuid] + descendants_in(det.children),
                        0,
                    )) by {
                        assert(descendants_in(cs) =~= (seq![det.uuid] + descendants_in(
                            det.children,
                        )) + descendants_in(cs.drop_first()));
                        assert(descendants_in(res).take(0) =~= Seq::<u128>::empty());
                        assert(descendants_in(res).skip(0) =~= descendants_in(res));
                        assert(descendants_in(cs) =~= descendants_in(res).take(0) + (seq![
                            det.uuid,
                        ] + descendants_in(det.children)) + descendants_in(res).skip(0));
                    }
                    assert(spliced_with(
                        entries_in(cs, owner),
                        entries_in(res, owner),
                        all_entries(det),
                        0,
                    )) by {
                        assert(entries_in(res, owner).take(0) =~= Seq::<
                            (u128, EntryView),
                        >::empty());
                        assert(entries_in(res, owner).skip(0) =~= entries_in(res, owner));
                        assert(entries_in(cs, owner) =~= entries_in(res, owner).take(0)
                            + all_entries(det) + entries_in(res, owner).skip(0));
                    }
                } else {
                    let (inner, removed_inner) = remove_group_in(sub.children, u);
                    lemma_remove_group_rows(sub.children, sub.uuid, u);
                    lemma_remove_group_rows(cs.drop_first(), owner, u);
                    match removed_inner {
                        Some(det) => {
                        let sub2 = GroupView { children: inner, ..sub };
                        assert(res.first() == NodeView::Group(sub2));
                        assert(res.drop_first() =~= cs.drop_first());
                        let i = choose|i: int| #[trigger] spliced_with(
                            descendants_in(sub.children),
                            descendants_in(inner),
                            seq![det.uuid] + descendants_in(det.children),
                            i,
                        );
                        assert(spliced_with(
                            descendants_in(cs),
                            descendants_in(res),
                            seq![det.uuid] + descendants_in(det.children),
                            1 + i,
                        )) by {
                            assert(descendants_in(res) =~= (seq![sub.uuid] + descendants_in(
                                inner,
                            )) + descendants_in(cs.drop_first()));
                            assert(descendants_in(res).take(1 + i) =~= seq![sub.uuid]
                                + descendants_in(inner).take(i));
                            assert(descendants_in(res).skip(1 + i) =~= descendants_in(
                                inner,
                            ).skip(i) + descendants_in(cs.drop_first()));
                            assert(descendants_in(cs) =~= descendants_in(res).take(1 + i) + (seq![
                                det.uuid,
                            ] + descendants_in(det.children)) + descendants_in(res).skip(1 + i));
                        }
                        let j = choose|j: int| #[trigger] spliced_with(
                            entries_in(sub.children, sub.uuid),
                            entries_in(inner, sub.uuid),
                            all_entries(det),
                            j,
                        );
                        assert(spliced_with(
                            entries_in(cs, owner),
                            entries_in(res, owner),
                            all_entries(det),
                            j,
                        )) by {
                            assert(entries_in(res, owner) =~= entries_in(inner, sub.uuid)
                                + entries_in(cs.drop_first(), owner));
                            assert(entries_in(res, owner).take(j) =~= entries_in(
                                inner,
                                sub.uuid,
                            ).take(j));
                            assert(entries_in(res, owner).skip(j) =~= entries_in(
                                inner,
                                sub.uuid,
                            ).skip(j) + entries_in(cs.drop_first(), owner));
                            assert(entries_in(cs, owner) =~= entries_in(res, owner).take(j)
                                + all_entries(det) + entries_in(res, owner).skip(j));
                        }
                        },
                        None => {
                        crate::mutate::lemma_remove_group_in(sub.children, u);
                        let (rest, _) = remove_group_in(cs.drop_first(), u);
                        assert(res.first() == cs.first());
                        assert(res.drop_first() =~= rest);
                        match removed {
                            Some(det) => {
                                let dlen = 1 + descendants_in(sub.children).len() as int;
                                let elen = entries_in(sub.children, sub.uuid).len() as int;
                                let i = choose|i: int| #[trigger] spliced_with(
                                    descendants_in(cs.drop_first()),
                                    descendants_in(rest),
                                    seq![det.uuid] + descendants_in(det.children),
                                    i,
                                );
                                assert(spliced_with(
                                    descendants_in(cs),
                                    descendants_in(res),
                                    seq![det.uuid] + descendants_in(det.children),
                                    dlen + i,
                                )) by {
                                    assert(descendants_in(res) =~= (seq![sub.uuid]
                                        + descendants_in(sub.children)) + descendants_in(rest));
                                    assert(descendants_in(res).take(dlen + i) =~= (seq![sub.uuid]
                                        + descendants_in(sub.children)) + descendants_in(
                                        rest,
                                    ).take(i));
                                    assert(descendants_in(res).skip(dlen + i) =~= descendants_in(
                                        rest,
                                    ).skip(i));
                                    assert(descendants_in(cs) =~= descendants_in(res).take(
                                        dlen + i,
                                    ) + (seq![det.uuid] + descendants_in(det.children))
                                        + descendants_in(res).skip(dlen + i));
                                }
                                let j = choose|j: int| #[trigger] spliced_with(
                                    entries_in(cs.drop_first(), owner),
                                    entries_in(rest, owner),
                                    all_entries(det),
                                    j,
                                );
                                assert(spliced_with(
                                    entries_in(cs, owner),
                                    entries_in(res, owner),
                                    all_entries(det),
                                    elen + j,
                                )) by {
                                    assert(entries_in(res, owner) =~= entries_in(
                                        sub.children,
                                        sub.uuid,
                                    ) + entries_in(rest, owner));
                                    assert(entries_in(res, owner).take(elen + j) =~= entries_in(
                                        sub.children,
                                        sub.uuid,
                                    ) + entries_in(rest, owner).take(j));
                                    assert(entries_in(res, owner).skip(elen + j) =~= entries_in(
                                        rest,
                                        owner,
                                    ).skip(j));
                                    assert(entries_in(cs, owner) =~= entries_in(res, owner).take(
                                        elen + j,
                                    ) + all_entries(det) + entries_in(res, owner).skip(elen + j));
                                }
                            },
                            None => {
                                assert(descendants_in(res) =~= descendants_in(cs));
                                assert(entries_in(res, owner) =~= entries_in(cs, owner));
                            },
                        }
                        },
                    }
                }
            },
        }
    }
}

/// What survives the removal of a spliced-in block is still free of
/// duplicates.
proof fn lemma_unique_minus_block<T>(old: Seq<T>, new: Seq<T>, block: Seq<T>, i: int)
    requires
        old.no_duplicates(),
        spliced_with(old, new, block, i),
    ensures
        new.no_duplicates(),
{
    assert forall|j: int, k: int|
        0 <= j < new.len() && 0 <= k < new.len() && j != k implies new[j] != new[k] by {
        let bl = block.len() as int;
        if j < i {
            assert(new[j] == old[j]);
        } else {
            assert(new[j] == old[j + bl]);
        }
        if k < i {
            assert(new[k] == old[k]);
        } else {
            assert(new[k] == old[k + bl]);
        }
    }
}

/// The row form of `lemma_unique_minus_block`.
proof fn lemma_rows_unique_minus_block(
    old: Seq<(u128, EntryView)>,
    new: Seq<(u128, EntryView)>,
    block: Seq<(u128, EntryView)>,
    i: int,
)
    requires
        rows_unique(old),
        spliced_with(old, new, block, i),
    ensures
        rows_unique(new),
{
    assert forall|j: int, k: int| #![trigger new[j], new[k]]
        0 <= j < k < new.len() implies new[j].1.uuid != new[k].1.uuid by {
        let bl = block.len() as int;
        if j < i {
            assert(new[j] == old[j]);
        } else {
            assert(new[j] == old[j + bl]);
        }
        if k < i {
            assert(new[k] == old[k]);
        } else {
            assert(new[k] == old[k + bl]);
        }
        if j < i && k < i {
            assert(old[j].1.uuid != old[k].1.uuid);
        } else if j < i {
            assert(old[j].1.uuid != old[k + bl].1.uuid);
        } else {
            assert(old[j + bl].1.uuid != old[k + bl].1.uuid);
        }
    }
}

/// Deleting a group, with its whole subtree, keeps the tree
/// well-formed.
pub proof fn lemma_delete_group_preserves_wf(g: GroupView, u: u128)
    requires
        tree_wf(g),
    ensures
        tree_wf(GroupView { children: remove_group_in(g.children, u).0, ..g }),
{
    let g2 = GroupView { children: remove_group_in(g.children, u).0, ..g };
    lemma_remove_group_rows(g.children, g.uuid, u);
    match remove_group_in(g.children, u).1 {
        Some(det) => {
            let block = seq![det.uuid] + descendants_in(det.children);
            let i = choose|i: int| #[trigger] spliced_with(
                descendants_in(g.children),
                descendants_in(g2.children),
                block,
                i,
            );
            assert(spliced_with(group_uuids(g), group_uuids(g2), block, 1 + i)) by {
                assert(group_uuids(g2).take(1 + i) =~= seq![g.uuid] + descendants_in(
                    g2.children,
                ).take(i));
                assert(group_uuids(g2).skip(1 + i) =~= descendants_in(g2.children).skip(i));
                assert(group_uuids(g) =~= group_uuids(g2).take(1 + i) + block + group_uuids(
                    g2,
                ).skip(1 + i));
            }
            lemma_unique_minus_block(group_uuids(g), group_uuids(g2), block, 1 + i);
            let j = choose|j: int| #[trigger] spliced_with(
                all_entries(g),
                all_entries(g2),
                all_entries(det),
                j,
            );
            lemma_rows_unique_bridge(g);
            lemma_rows_unique_minus_block(all_entries(g), all_entries(g2), all_entries(det), j);
            lemma_rows_unique_bridge(g2);
        },
        None => {
            crate::mutate::lemma_remove_group_in(g.children, u);
            assert(group_uuids(g2) =~= group_uuids(g));
            assert(entry_uuids(g2) =~= entry_uuids(g));
        },
    }
}



// ---------------------------------------------------------------------------
// Identifier uniqueness is preserved by moving a group.
// ---------------------------------------------------------------------------

/// Attaching a subtree splices one contiguous block into the flattened
/// group identifiers and one into the flattened rows, and moves nothing
/// else.
pub proof fn lemma_insert_group_blocks(g: GroupView, p: u128, ng: GroupView)
    requires
        insert_node(g, p, NodeView::Group(ng)).1,
    ensures
        exists|i: int| #[trigger] spliced_with(
            descendants_in(insert_node(g, p, NodeView::Group(ng)).0.children),
            descendants_in(g.children),
            seq![ng.uuid] + descendants_in(ng.children),
            i,
        ),
        exists|j: int| #[trigger] spliced_with(
            all_entries(insert_node(g, p, NodeView::Group(ng)).0),
            all_entries(g),
            all_entries(ng),
            j,
        ),
        insert_node(g, p, NodeView::Group(ng)).0.uuid == g.uuid,
    decreases g, 1int,
{
    let n = NodeView::Group(ng);
    let g2 = insert_node(g, p, n).0;
    let bd = seq![ng.uuid] + descendants_in(ng.children);
    let be = all_entries(ng);
    if g.uuid == p {
        assert(g.children.push(n) =~= g.children + seq![n]);
        lemma_descendants_in_concat(g.children, seq![n]);
        lemma_entries_in_concat(g.children, seq![n], p);
        assert(seq![n].drop_first() =~= Seq::<NodeView>::empty());
        assert(descendants_in(Seq::<NodeView>::empty()) =~= Seq::<u128>::empty());
        assert(entries_in(Seq::<NodeView>::empty(), p) =~= Seq::<(u128, EntryView)>::empty());
        assert(descendants_in(seq![n]) =~= bd);
        assert(entries_in(seq![n], p) =~= be);
        let dl = descendants_in(g.children).len() as int;
        assert(spliced_with(descendants_in(g2.children), descendants_in(g.children), bd, dl)) by {
            assert(descendants_in(g.children).take(dl) =~= descendants_in(g.children));
            assert(descendants_in(g.children).skip(dl) =~= Seq::<u128>::empty());
            assert(descendants_in(g2.children) =~= descendants_in(g.children).take(dl) + bd
                + descendants_in(g.children).skip(dl));
        }
        let el = all_entries(g).len() as int;
        assert(spliced_with(all_entries(g2), all_entries(g), be, el)) by {
            assert(all_entries(g).take(el) =~= all_entries(g));
            assert(all_entries(g).skip(el) =~= Seq::<(u128, EntryView)>::empty());
            assert(all_entries(g2) =~= all_entries(g).take(el) + be + all_entries(g).skip(el));
        }
    } else {
        lemma_insert_group_blocks_in(g.children, g.uuid, p, ng);
        let i = choose|i: int| #[trigger] spliced_with(
            descendants_in(insert_node_in(g.children, p, n).0),
            descendants_in(g.children),
            bd,
            i,
        );
        assert(g2.children == insert_node_in(g.children, p, n).0);
        assert(spliced_with(descendants_in(g2.children), descendants_in(g.children), bd, i));
        let j = choose|j: int| #[trigger] spliced_with(
            entries_in(insert_node_in(g.children, p, n).0, g.uuid),
            entries_in(g.children, g.uuid),
            be,
            j,
        );
        assert(spliced_with(all_entries(g2), all_entries(g), be, j));
    }
}

/// The children-level statement of `lemma_insert_group_blocks`.
proof fn lemma_insert_group_blocks_in(cs: Seq<NodeView>, owner: u128, p: u128, ng: GroupView)
    requires
        insert_node_in(cs, p, NodeView::Group(ng)).1,
    ensures
        exists|i: int| #[trigger] spliced_with(
            descendants_in(insert_node_in(cs, p, NodeView::Group(ng)).0),
            descendants_in(cs),
            seq![ng.uuid] + descendants_in(ng.children),
            i,
        ),
        exists|j: int| #[trigger] spliced_with(
            entries_in(insert_node_in(cs, p, NodeView::Group(ng)).0, owner),
            entries_in(cs, owner),
            all_entries(ng),
            j,
        ),
    decreases cs, 0int,
{
    let n = NodeView::Group(ng);
    let (res, found) = insert_node_in(cs, p, n);
    let bd = seq![ng.uuid] + descendants_in(ng.children);
    let be = all_entries(ng);
    match cs.first() {
        NodeView::Entry(fe) => {
            let (rest, _) = insert_node_in(cs.drop_first(), p, n);
            lemma_insert_group_blocks_in(cs.drop_first(), owner, p, ng);
            assert(res.first() == cs.first());
            assert(res.drop_first() =~= rest);
            let i = choose|i: int| #[trigger] spliced_with(
                descendants_in(rest),
                descendants_in(cs.drop_first()),
                bd,
                i,
            );
            assert(spliced_with(descendants_in(res), descendants_in(cs), bd, i)) by {
                assert(descendants_in(res) =~= descendants_in(rest));
                assert(descendants_in(cs) =~= descendants_in(cs.drop_first()));
            }
            let j = choose|j: int| #[trigger] spliced_with(
                entries_in(rest, owner),
                entries_in(cs.drop_first(), owner),
                be,
                j,
            );
            assert(spliced_with(entries_in(res, owner), entries_in(cs, owner), be, 1 + j)) by {
                assert(entries_in(res, owner) =~= seq![(owner, fe)] + entries_in(rest, owner));
                assert(entries_in(cs, owner).take(1 + j) =~= seq![(owner, fe)] + entries_in(
                    cs.drop_first(),
                    owner,
                ).take(j));
                assert(entries_in(cs, owner).skip(1 + j) =~= entries_in(
                    cs.drop_first(),
                    owner,
                ).skip(j));
                assert(entries_in(res, owner) =~= entries_in(cs, owner).take(1 + j) + be
                    + entries_in(cs, owner).skip(1 + j));
            }
        },
        NodeView::Group(sub) => {
            let (sub2, f) = insert_node(sub, p, n);
            if f {
                lemma_insert_group_blocks(sub, p, ng);
                assert(res.first() == NodeView::Group(sub2));
                assert(res.drop_first() =~= cs.drop_first());
                assert(sub2.uuid == sub.uuid);
                let i = choose|i: int| #[trigger] spliced_with(
                    descendants_in(sub2.children),
                    descendants_in(sub.children),
                    bd,
                    i,
                );
                assert(spliced_with(descendants_in(res), descendants_in(cs), bd, 1 + i)) by {
                    assert(descendants_in(res) =~= (seq![sub.uuid] + descendants_in(
                        sub2.children,
                    )) + descendants_in(cs.drop_first()));
                    assert(descendants_in(cs).take(1 + i) =~= seq![sub.uuid] + descendants_in(
                        sub.children,
                    ).take(i));
                    assert(descendants_in(cs).skip(1 + i) =~= descendants_in(sub.children).skip(
                        i,
                    ) + descendants_in(cs.drop_first()));
                    assert(descendants_in(res) =~= descendants_in(cs).take(1 + i) + bd
                        + descendants_in(cs).skip(1 + i));
                }
                let j = choose|j: int| #[trigger] spliced_with(
                    all_entries(sub2),
                    all_entries(sub),
                    be,
                    j,
                );
                assert(spliced_with(entries_in(res, owner), entries_in(cs, owner), be, j)) by {
                    assert(entries_in(res, owner) =~= all_entries(sub2) + entries_in(
                        cs.drop_first(),
                        owner,
                    ));
                    assert(entries_in(cs, owner).take(j) =~= all_entries(sub).take(j));
                    assert(entries_in(cs, owner).skip(j) =~= all_entries(sub).skip(j)
                        + entries_in(cs.drop_first(), owner));
                    assert(entries_in(res, owner) =~= entries_in(cs, owner).take(j) + be
                        + entries_in(cs, owner).skip(j));
                }
            } else {
                crate::mutate::lemma_insert_node(sub, p, n);
                assert(sub2 == sub);
                let (rest, _) = insert_node_in(cs.drop_first(), p, n);
                lemma_insert_group_blocks_in(cs.drop_first(), owner, p, ng);
                assert(res.first() == cs.first());
                assert(res.drop_first() =~= rest);
                let dlen = 1 + descendants_in(sub.children).len() as int;
                let elen = entries_in(sub.children, sub.uuid).len() as int;
                let i = choose|i: int| #[trigger] spliced_with(
                    descendants_in(rest),
                    descendants_in(cs.drop_first()),
                    bd,
                    i,
                );
                assert(spliced_with(descendants_in(res), descendants_in(cs), bd, dlen + i)) by {
                    assert(descendants_in(res) =~= (seq![sub.uuid] + descendants_in(
                        sub.children,
                    )) + descendants_in(rest));
                    assert(descendants_in(cs).take(dlen + i) =~= (seq![sub.uuid]
                        + descendants_in(sub.children)) + descendants_in(cs.drop_first()).take(
                        i,
                    ));
                    assert(descendants_in(cs).skip(dlen + i) =~= descendants_in(
                        cs.drop_first(),
                    ).skip(i));
                    assert(descendants_in(res) =~= descendants_in(cs).take(dlen + i) + bd
                        + descendants_in(cs).skip(dlen + i));
                }
                let j = choose|j: int| #[trigger] spliced_with(
                    entries_in(rest, owner),
                    entries_in(cs.drop_first(), owner),
                    be,
                    j,
                );
                assert(spliced_with(entries_in(res, owner), entries_in(cs, owner), be, elen + j))
                    by {
                    assert(entries_in(res, owner) =~= entries_in(sub.children, sub.uuid)
                        + entries_in(rest, owner));
                    assert(entries_in(cs, owner).take(elen + j) =~= entries_in(
                        sub.children,
                        sub.uuid,
                    ) + entries_in(cs.drop_first(), owner).take(j));
                    assert(entries_in(cs, owner).skip(elen + j) =~= entries_in(
                        cs.drop_first(),
                        owner,
                    ).skip(j));
                    assert(entries_in(res, owner) =~= entries_in(cs, owner).take(elen + j) + be
                        + entries_in(cs, owner).skip(elen + j));
                }
            }
        },
    }
}

/// Splicing a block back into identifiers it was detached from keeps
/// them distinct, wherever it lands.
proof fn lemma_unique_plus_block<T>(
    old: Seq<T>,
    mid: Seq<T>,
    block: Seq<T>,
    i: int,
    new: Seq<T>,
    k: int,
)
    requires
        old.no_duplicates(),
        spliced_with(old, mid, block, i),
        spliced_with(new, mid, block, k),
    ensures
        new.no_duplicates(),
{
    let bl = block.len() as int;
    // Every element of `new` maps to a distinct position of `old`.
    let f = |x: int|
        if x < k {
            if x < i {
                x
            } else {
                x + bl
            }
        } else if x < k + bl {
            i + (x - k)
        } else {
            if x - bl < i {
                x - bl
            } else {
                x
            }
        };
    assert forall|a: int, b: int|
        0 <= a < new.len() && 0 <= b < new.len() && a != b implies new[a] != new[b] by {
        assert(new[a] == old[f(a)]);
        assert(new[b] == old[f(b)]);
        assert(f(a) != f(b));
        assert(0 <= f(a) < old.len());
        assert(0 <= f(b) < old.len());
    }
}

/// The row form of `lemma_unique_plus_block`.
proof fn lemma_rows_unique_plus_block(
    old: Seq<(u128, EntryView)>,
    mid: Seq<(u128, EntryView)>,
    block: Seq<(u128, EntryView)>,
    i: int,
    new: Seq<(u128, EntryView)>,
    k: int,
)
    requires
        rows_unique(old),
        spliced_with(old, mid, block, i),
        spliced_with(new, mid, block, k),
    ensures
        rows_unique(new),
{
    let bl = block.len() as int;
    let f = |x: int|
        if x < k {
            if x < i {
                x
            } else {
                x + bl
            }
        } else if x < k + bl {
            i + (x - k)
        } else {
            if x - bl < i {
                x - bl
            } else {
                x
            }
        };
    assert forall|a: int, b: int| #![trigger new[a], new[b]]
        0 <= a < b < new.len() implies new[a].1.uuid != new[b].1.uuid by {
        assert(new[a] == old[f(a)]);
        assert(new[b] == old[f(b)]);
        assert(f(a) != f(b));
        assert(0 <= f(a) < old.len());
        assert(0 <= f(b) < old.len());
        if f(a) < f(b) {
            assert(old[f(a)].1.uuid != old[f(b)].1.uuid);
        } else {
            assert(old[f(b)].1.uuid != old[f(a)].1.uuid);
        }
    }
}

/// Moving a group detaches its subtree and reattaches it under the new
/// parent: both halves together keep the tree well-formed.
pub proof fn lemma_move_group_preserves_wf(g: GroupView, u: u128, np: u128)
    requires
        tree_wf(g),
        remove_group_in(g.children, u).1 is Some,
        insert_node(
            GroupView { children: remove_group_in(g.children, u).0, ..g },
            np,
            NodeView::Group(remove_group_in(g.children, u).1.unwrap()),
        ).1,
    ensures
        tree_wf(
            insert_node(
                GroupView { children: remove_group_in(g.children, u).0, ..g },
                np,
                NodeView::Group(remove_group_in(g.children, u).1.unwrap()),
            ).0,
        ),
{
    let det = remove_group_in(g.children, u).1.unwrap();
    let g1 = GroupView { children: remove_group_in(g.children, u).0, ..g };
    let g2 = insert_node(g1, np, NodeView::Group(det)).0;
    let bd = seq![det.uuid] + descendants_in(det.children);
    let be = all_entries(det);
    lemma_remove_group_rows(g.children, g.uuid, u);
    let i = choose|i: int| #[trigger] spliced_with(
        descendants_in(g.children),
        descendants_in(g1.children),
        bd,
        i,
    );
    assert(spliced_with(group_uuids(g), group_uuids(g1), bd, 1 + i)) by {
        assert(group_uuids(g1).take(1 + i) =~= seq![g.uuid] + descendants_in(g1.children).take(
            i,
        ));
        assert(group_uuids(g1).skip(1 + i) =~= descendants_in(g1.children).skip(i));
        assert(group_uuids(g) =~= group_uuids(g1).take(1 + i) + bd + group_uuids(g1).skip(1 + i));
    }
    let j = choose|j: int| #[trigger] spliced_with(all_entries(g), all_entries(g1), be, j);
    lemma_insert_group_blocks(g1, np, det);
    let i2 = choose|i2: int| #[trigger] spliced_with(
        descendants_in(g2.children),
        descendants_in(g1.children),
        bd,
        i2,
    );
    assert(spliced_with(group_uuids(g2), group_uuids(g1), bd, 1 + i2)) by {
        assert(g2.uuid == g.uuid);
        assert(group_uuids(g1).take(1 + i2) =~= seq![g.uuid] + descendants_in(g1.children).take(
            i2,
        ));
        assert(group_uuids(g1).skip(1 + i2) =~= descendants_in(g1.children).skip(i2));
        assert(group_uuids(g2) =~= group_uuids(g1).take(1 + i2) + bd + group_uuids(g1).skip(
            1 + i2,
        ));
    }
    lemma_unique_plus_block(group_uuids(g), group_uuids(g1), bd, 1 + i, group_uuids(g2), 1 + i2);
    let j2 = choose|j2: int| #[trigger] spliced_with(all_entries(g2), all_entries(g1), be, j2);
    lemma_rows_unique_bridge(g);
    lemma_rows_unique_plus_block(all_entries(g), all_entries(g1), be, j, all_entries(g2), j2);
    lemma_rows_unique_bridge(g2);
}



// ---------------------------------------------------------------------------
// Identifier uniqueness is preserved by reordering.
// ---------------------------------------------------------------------------

/// The entry identifiers of a row sequence, in order.
pub open spec fn uuids_of(ps: Seq<(u128, EntryView)>) -> Seq<u128> {
    ps.map_values(|p: (u128, EntryView)| p.1.uuid)
}

/// Taking identifiers distributes over concatenation.
proof fn lemma_uuids_of_concat(a: Seq<(u128, EntryView)>, b: Seq<(u128, EntryView)>)
    ensures
        uuids_of(a + b) == uuids_of(a) + uuids_of(b),
{
    assert(uuids_of(a + b) =~= uuids_of(a) + uuids_of(b));
}

/// Reordering permutes the tree: the flattened group identifiers and
/// the flattened entry identifiers keep exactly their elements.
pub proof fn lemma_reorder_keeps_sets(cs: Seq<NodeView>, owner: u128, u: u128, t: int)
    requires
        t >= 0,
    ensures
        descendants_in(reorder_rec(cs, u, t).0).to_multiset() == descendants_in(cs).to_multiset(),
        uuids_of(entries_in(reorder_rec(cs, u, t).0, owner)).to_multiset() == uuids_of(
            entries_in(cs, owner),
        ).to_multiset(),
    decreases cs, 1int,
{
    broadcast use vstd::multiset::group_multiset_axioms;

    match crate::mutate::index_of_group(cs, u) {
        Some(i) => {
            crate::merge::lemma_index_of_group_props(cs, u);
            let j = crate::mutate::reorder_target(i, t, cs.len() as int);
            let res = spliced(cs, i, j);
            let x = cs[i];
            let removed = cs.remove(i);
            assert(cs =~= cs.take(i) + seq![x] + cs.skip(i + 1));
            assert(removed =~= cs.take(i) + cs.skip(i + 1));
            assert(res =~= removed.take(j) + seq![x] + removed.skip(j));
            assert(removed =~= removed.take(j) + removed.skip(j));
            lemma_flat_sets_three(cs.take(i), seq![x], cs.skip(i + 1), owner);
            lemma_flat_sets_three(removed.take(j), seq![x], removed.skip(j), owner);
            lemma_flat_sets_two(cs.take(i), cs.skip(i + 1), owner);
            lemma_flat_sets_two(removed.take(j), removed.skip(j), owner);
            let da = descendants_in(cs.take(i)).to_multiset();
            let dx = descendants_in(seq![x]).to_multiset();
            let dc = descendants_in(cs.skip(i + 1)).to_multiset();
            let drt = descendants_in(removed.take(j)).to_multiset();
            let drs = descendants_in(removed.skip(j)).to_multiset();
            assert(descendants_in(cs).to_multiset() == da.add(dx).add(dc));
            assert(descendants_in(res).to_multiset() == drt.add(dx).add(drs));
            assert(removed.take(j) + removed.skip(j) == cs.take(i) + cs.skip(i + 1));
            assert(descendants_in(removed.take(j) + removed.skip(j)) == descendants_in(
                cs.take(i) + cs.skip(i + 1),
            ));
            assert(drt.add(drs) == descendants_in(removed.take(j) + removed.skip(j)).to_multiset());
            assert(da.add(dc) == descendants_in(cs.take(i) + cs.skip(i + 1)).to_multiset());
            assert(drt.add(drs) == da.add(dc));
            assert forall|el: u128|
                descendants_in(res).to_multiset().count(el) == descendants_in(
                    cs,
                ).to_multiset().count(el) by {
                assert(drt.add(drs).count(el) == da.add(dc).count(el));
            }
            assert(descendants_in(res).to_multiset() =~= descendants_in(cs).to_multiset());
            let ea = uuids_of(entries_in(cs.take(i), owner)).to_multiset();
            let ex = uuids_of(entries_in(seq![x], owner)).to_multiset();
            let ec = uuids_of(entries_in(cs.skip(i + 1), owner)).to_multiset();
            let ert = uuids_of(entries_in(removed.take(j), owner)).to_multiset();
            let ers = uuids_of(entries_in(removed.skip(j), owner)).to_multiset();
            assert(uuids_of(entries_in(cs, owner)).to_multiset() == ea.add(ex).add(ec));
            assert(uuids_of(entries_in(res, owner)).to_multiset() == ert.add(ex).add(ers));
            assert(entries_in(removed.take(j) + removed.skip(j), owner) == entries_in(
                cs.take(i) + cs.skip(i + 1),
                owner,
            ));
            assert(ert.add(ers) == uuids_of(
                entries_in(removed.take(j) + removed.skip(j), owner),
            ).to_multiset());
            assert(ea.add(ec) == uuids_of(
                entries_in(cs.take(i) + cs.skip(i + 1), owner),
            ).to_multiset());
            assert(ert.add(ers) == ea.add(ec));
            assert forall|el: u128|
                uuids_of(entries_in(res, owner)).to_multiset().count(el) == uuids_of(
                    entries_in(cs, owner),
                ).to_multiset().count(el) by {
                assert(ert.add(ers).count(el) == ea.add(ec).count(el));
            }
            assert(uuids_of(entries_in(res, owner)).to_multiset() =~= uuids_of(
                entries_in(cs, owner),
            ).to_multiset());
        },
        None => {
            lemma_reorder_descend_keeps_sets(cs, owner, u, t);
        },
    }
}

/// The flattened multisets of a three-way split.
proof fn lemma_flat_sets_three(a: Seq<NodeView>, b: Seq<NodeView>, c: Seq<NodeView>, owner: u128)
    ensures
        descendants_in(a + b + c).to_multiset() == descendants_in(a).to_multiset().add(
            descendants_in(b).to_multiset(),
        ).add(descendants_in(c).to_multiset()),
        uuids_of(entries_in(a + b + c, owner)).to_multiset() == uuids_of(
            entries_in(a, owner),
        ).to_multiset().add(uuids_of(entries_in(b, owner)).to_multiset()).add(
            uuids_of(entries_in(c, owner)).to_multiset(),
        ),
{
    lemma_descendants_in_concat(a + b, c);
    lemma_descendants_in_concat(a, b);
    lemma_multiset_commutative(descendants_in(a) + descendants_in(b), descendants_in(c));
    lemma_multiset_commutative(descendants_in(a), descendants_in(b));
    assert(descendants_in(a + b + c) == (descendants_in(a) + descendants_in(b)) + descendants_in(
        c,
    ));
    lemma_entries_in_concat(a + b, c, owner);
    lemma_entries_in_concat(a, b, owner);
    lemma_uuids_of_concat(entries_in(a + b, owner), entries_in(c, owner));
    lemma_uuids_of_concat(entries_in(a, owner), entries_in(b, owner));
    lemma_multiset_commutative(
        uuids_of(entries_in(a, owner)) + uuids_of(entries_in(b, owner)),
        uuids_of(entries_in(c, owner)),
    );
    lemma_multiset_commutative(uuids_of(entries_in(a, owner)), uuids_of(entries_in(b, owner)));
}

/// The flattened multisets of a two-way split.
proof fn lemma_flat_sets_two(a: Seq<NodeView>, b: Seq<NodeView>, owner: u128)
    ensures
        descendants_in(a + b).to_multiset() == descendants_in(a).to_multiset().add(
            descendants_in(b).to_multiset(),
        ),
        uuids_of(entries_in(a + b, owner)).to_multiset() == uuids_of(
            entries_in(a, owner),
        ).to_multiset().add(uuids_of(entries_in(b, owner)).to_multiset()),
{
    lemma_descendants_in_concat(a, b);
    lemma_multiset_commutative(descendants_in(a), descendants_in(b));
    lemma_entries_in_concat(a, b, owner);
    lemma_uuids_of_concat(entries_in(a, owner), entries_in(b, owner));
    lemma_multiset_commutative(uuids_of(entries_in(a, owner)), uuids_of(entries_in(b, owner)));
}

/// The descent statement of `lemma_reorder_keeps_sets`.
proof fn lemma_reorder_descend_keeps_sets(cs: Seq<NodeView>, owner: u128, u: u128, t: int)
    requires
        t >= 0,
    ensures
        descendants_in(reorder_descend(cs, u, t).0).to_multiset() == descendants_in(
            cs,
        ).to_multiset(),
        uuids_of(entries_in(reorder_descend(cs, u, t).0, owner)).to_multiset() == uuids_of(
            entries_in(cs, owner),
        ).to_multiset(),
    decreases cs, 0int,
{
    broadcast use vstd::multiset::group_multiset_axioms;

    if cs.len() > 0 {
        let (res, found) = reorder_descend(cs, u, t);
        match cs.first() {
            NodeView::Entry(fe) => {
                lemma_reorder_descend_keeps_sets(cs.drop_first(), owner, u, t);
                let (rest, _) = reorder_descend(cs.drop_first(), u, t);
                assert(res =~= seq![cs.first()] + rest);
                assert(cs =~= seq![cs.first()] + cs.drop_first());
                lemma_flat_sets_two(seq![cs.first()], rest, owner);
                lemma_flat_sets_two(seq![cs.first()], cs.drop_first(), owner);
                assert(descendants_in(res).to_multiset() =~= descendants_in(cs).to_multiset());
                assert(uuids_of(entries_in(res, owner)).to_multiset() =~= uuids_of(
                    entries_in(cs, owner),
                ).to_multiset());
            },
            NodeView::Group(sub) => {
                let (inner, f) = reorder_rec(sub.children, u, t);
                lemma_reorder_keeps_sets(sub.children, sub.uuid, u, t);
                lemma_reorder_descend_keeps_sets(cs.drop_first(), owner, u, t);
                if f {
                    let sub2 = GroupView { children: inner, ..sub };
                    assert(res =~= seq![NodeView::Group(sub2)] + cs.drop_first());
                    assert(cs =~= seq![cs.first()] + cs.drop_first());
                    lemma_flat_sets_two(seq![NodeView::Group(sub2)], cs.drop_first(), owner);
                    lemma_flat_sets_two(seq![cs.first()], cs.drop_first(), owner);
                    lemma_flat_singleton_group(sub2, owner);
                    lemma_flat_singleton_group(sub, owner);
                    lemma_multiset_commutative(seq![sub.uuid], descendants_in(sub.children));
                    lemma_multiset_commutative(seq![sub2.uuid], descendants_in(sub2.children));
                    assert(descendants_in(res).to_multiset() =~= descendants_in(
                        cs,
                    ).to_multiset());
                    assert(uuids_of(entries_in(res, owner)).to_multiset() =~= uuids_of(
                        entries_in(cs, owner),
                    ).to_multiset());
                } else {
                    crate::mutate::lemma_reorder_rec(sub.children, u, t);
                    let (rest, _) = reorder_descend(cs.drop_first(), u, t);
                    assert(res =~= seq![cs.first()] + rest);
                    assert(cs =~= seq![cs.first()] + cs.drop_first());
                    lemma_flat_sets_two(seq![cs.first()], rest, owner);
                    lemma_flat_sets_two(seq![cs.first()], cs.drop_first(), owner);
                    assert(descendants_in(res).to_multiset() =~= descendants_in(
                        cs,
                    ).to_multiset());
                    assert(uuids_of(entries_in(res, owner)).to_multiset() =~= uuids_of(
                        entries_in(cs, owner),
                    ).to_multiset());
                }
            },
        }
    }
}

/// The flattening of a single group node.
proof fn lemma_flat_singleton_group(sub: GroupView, owner: u128)
    ensures
        descendants_in(seq![NodeView::Group(sub)]) == seq![sub.uuid] + descendants_in(
            sub.children,
        ),
        entries_in(seq![NodeView::Group(sub)], owner) == entries_in(sub.children, sub.uuid),
{
    let s1 = seq![NodeView::Group(sub)];
    assert(s1.drop_first() =~= Seq::<NodeView>::empty());
    assert(descendants_in(Seq::<NodeView>::empty()) =~= Seq::<u128>::empty());
    assert(entries_in(Seq::<NodeView>::empty(), owner) =~= Seq::<(u128, EntryView)>::empty());
    assert(descendants_in(s1) =~= seq![sub.uuid] + descendants_in(sub.children));
    assert(entries_in(s1, owner) =~= entries_in(sub.children, sub.uuid));
}

/// Distinct identifiers stay distinct under any permutation.
proof fn lemma_unique_same_multiset(a: Seq<u128>, b: Seq<u128>)
    requires
        a.no_duplicates(),
        a.to_multiset() == b.to_multiset(),
    ensures
        b.no_duplicates(),
{
    a.lemma_multiset_has_no_duplicates();
    b.lemma_multiset_has_no_duplicates_conv();
}

/// Reordering a group within its parent keeps the tree well-formed.
pub proof fn lemma_reorder_preserves_wf(g: GroupView, u: u128, t: int)
    requires
        tree_wf(g),
        t >= 0,
    ensures
        tree_wf(GroupView { children: reorder_rec(g.children, u, t).0, ..g }),
{
    broadcast use vstd::multiset::group_multiset_axioms;

    let g2 = GroupView { children: reorder_rec(g.children, u, t).0, ..g };
    lemma_reorder_keeps_sets(g.children, g.uuid, u, t);
    lemma_multiset_commutative(seq![g.uuid], descendants_in(g.children));
    lemma_multiset_commutative(seq![g.uuid], descendants_in(g2.children));
    assert(group_uuids(g).to_multiset() =~= group_uuids(g2).to_multiset());
    lemma_unique_same_multiset(group_uuids(g), group_uuids(g2));
    assert(entry_uuids(g) =~= uuids_of(all_entries(g)));
    assert(entry_uuids(g2) =~= uuids_of(all_entries(g2)));
    lemma_unique_same_multiset(entry_uuids(g), entry_uuids(g2));
}


} // verus!
