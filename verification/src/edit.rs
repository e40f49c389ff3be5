//! Executable tree mutations, each proved equal to its mathematical
//! counterpart in `mutate`.  The tree is taken apart and rebuilt by
//! ownership; a walk that finds nothing rebuilds the tree unchanged.

use vstd::prelude::*;

use crate::data::EntryData;
use crate::fields::build_custom_fields;
use crate::model::{Entry, Group, HistoryEntry, Node, NodeView, nodes_view};
use crate::mutate::{
    apply_patch, index_of_group, insert_node, patch_of_data, remove_entry_in, remove_group_in,
    rename_group_in, rename_group_tree, reorder_descend, reorder_rec, spliced, update_entry_in,
};

verus! {

/// Unfolds one step of `nodes_view` at the front of a non-empty list.
pub proof fn nodes_view_first(cs: Seq<Node>)
    requires
        cs.len() > 0,
    ensures
        nodes_view(cs).len() == cs.len(),
        nodes_view(cs).first() == crate::model::node_view(cs.first()),
        nodes_view(cs).drop_first() == nodes_view(cs.drop_first()),
{
    crate::model::nodes_view_len(cs);
    crate::model::nodes_view_index(cs, 0);
    crate::model::nodes_view_len(cs.drop_first());
    assert forall|j: int| 0 <= j < cs.len() - 1 implies nodes_view(cs).drop_first()[j]
        == nodes_view(cs.drop_first())[j] by {
        crate::model::nodes_view_index(cs, j + 1);
        crate::model::nodes_view_index(cs.drop_first(), j);
        assert(cs.drop_first()[j] == cs[j + 1]);
    }
    assert(nodes_view(cs).drop_first() =~= nodes_view(cs.drop_first()));
}

/// Appends the node to the first group with identifier `parent` in
/// pre-order from `g`; when no such group exists the node comes back and
/// the tree is unchanged.
pub fn insert_node_group(g: Group, parent: u128, n: Node) -> (r: (Group, Option<Node>))
    ensures
        match r.1 {
            None => insert_node(g@, parent, n@).1 && r.0@ == insert_node(g@, parent, n@).0,
            Some(nb) => !insert_node(g@, parent, n@).1 && nb@ == n@ && r.0@ == g@,
        },
    decreases g, 1int,
{
    let ghost g0 = g;
    if g.uuid == parent {
        let mut g2 = g;
        g2.children.push(n);
        proof {
            crate::model::nodes_view_len(g0.children@);
            crate::model::nodes_view_len(g2.children@);
            assert forall|j: int| 0 <= j < g2.children@.len() implies nodes_view(g2.children@)[j]
                == g0@.children.push(n@)[j] by {
                crate::model::nodes_view_index(g2.children@, j);
                if j < g0.children@.len() {
                    crate::model::nodes_view_index(g0.children@, j);
                }
            }
            assert(nodes_view(g2.children@) =~= g0@.children.push(n@));
        }
        (g2, None)
    } else {
        proof {
            assert(decreases_to!(g0 => g0.children));
        }
        let Group { uuid, name, icon_id, children } = g;
        let (cs2, nb) = insert_node_nodes(children, parent, n);
        let r0 = Group { uuid, name, icon_id, children: cs2 };
        proof {
            assert(r0@ =~= (GroupViewAlias { children: nodes_view(cs2@), ..g0@ }));
        }
        (r0, nb)
    }
}

/// The view type, under a local alias so struct-update syntax stays
/// readable in proofs.
pub type GroupViewAlias = crate::model::GroupView;

/// The children-level walk of `insert_node_group`.
pub fn insert_node_nodes(cs: Vec<Node>, parent: u128, n: Node) -> (r: (Vec<Node>, Option<Node>))
    ensures
        match r.1 {
            None => crate::mutate::insert_node_in(nodes_view(cs@), parent, n@).1 && nodes_view(
                r.0@,
            ) == crate::mutate::insert_node_in(nodes_view(cs@), parent, n@).0,
            Some(nb) => !crate::mutate::insert_node_in(nodes_view(cs@), parent, n@).1 && nb@ == n@
                && nodes_view(r.0@) == nodes_view(cs@),
        },
    decreases cs@, 0int,
{
    let ghost cs0 = cs;
    let ghost s = nodes_view(cs@);
    if cs.len() == 0 {
        proof {
            crate::model::nodes_view_len(cs0@);
        }
        (cs, Some(n))
    } else {
        proof {
            nodes_view_first(cs0@);
            assert(decreases_to!(cs0@ => cs0@[0]));
            assert(decreases_to!(cs0@ => cs0@.subrange(1, cs0@.len() as int)));
        }
        let mut rest = cs;
        let first = rest.remove(0);
        proof {
            assert(rest@ =~= cs0@.drop_first());
            assert(cs0@.drop_first() == cs0@.subrange(1, cs0@.len() as int));
            assert(first == cs0@.first());
        }
        match first {
            Node::Entry(e) => {
                let (mut rest2, nb) = insert_node_nodes(rest, parent, n);
                let ghost r2v = rest2@;
                let fnode = Node::Entry(e);
                proof {
                    assert(fnode@ == s.first());
                }
                rest2.insert(0, fnode);
                proof {
                    assert(rest2@.drop_first() =~= r2v);
                    lemma_front_view(rest2@, s.first());
                }
                (rest2, nb)
            },
            Node::Group(sub) => {
                proof {
                    assert(cs0@[0] == Node::Group(sub));
                    assert(decreases_to!(cs0@[0] => cs0@[0]->Group_0));
                    assert(cs0@[0]->Group_0 == sub);
                }
                let (sub2, nb) = insert_node_group(sub, parent, n);
                match nb {
                    None => {
                        let mut out = rest;
                        let ghost ov = out@;
                        out.insert(0, Node::Group(sub2));
                        proof {
                            assert(out@.drop_first() =~= ov);
                            lemma_front_view(out@, NodeView::Group(sub2@));
                        }
                        (out, None)
                    },
                    Some(n_back) => {
                        let (mut rest2, nb2) = insert_node_nodes(rest, parent, n_back);
                        let ghost r2v = rest2@;
                        let fnode = Node::Group(sub2);
                        proof {
                            assert(fnode@ == s.first());
                        }
                        rest2.insert(0, fnode);
                        proof {
                            assert(rest2@.drop_first() =~= r2v);
                            lemma_front_view(rest2@, s.first());
                        }
                        (rest2, nb2)
                    },
                }
            },
        }
    }
}

/// Inserting a node at the front of a list prepends its view.
pub proof fn lemma_front_view(cs: Seq<Node>, v: NodeView)
    requires
        cs.len() > 0,
        crate::model::node_view(cs.first()) == v,
    ensures
        nodes_view(cs) == seq![v] + nodes_view(cs.drop_first()),
{
    nodes_view_first(cs);
    assert(nodes_view(cs) =~= seq![v] + nodes_view(cs.drop_first()));
}


// ---------------------------------------------------------------------------
// Entry update.
// ---------------------------------------------------------------------------

/// Applies an update to one entry: stacks the prior snapshot if a
/// semantic field changes, then overwrites fields and timestamps.
pub fn apply_patch_entry(e: Entry, d: &EntryData, now: u64) -> (r: Entry)
    ensures
        r@ == apply_patch(e@, patch_of_data(*d), now),
{
    let ghost e0 = e;
    let changed = !(e.title == d.title) || !(e.username == d.username) || !(e.password
        == d.password) || !(e.url == d.url) || !(e.notes == d.notes) || !(e.tags == d.tags);
    let Entry {
        uuid,
        title,
        username,
        password,
        url,
        notes,
        tags: _,
        icon_id: _,
        is_favorite: _,
        created,
        modified,
        last_accessed: _,
        expires: _,
        expiry_time,
        usage_count,
        custom_fields: _,
        history,
        attachments,
    } = e;
    let mut history2 = history;
    if changed {
        let snap = HistoryEntry { timestamp: modified, title, username, password, url, notes };
        proof {
            assert(snap@ == crate::mutate::snapshot_of(e0@));
        }
        let ghost h0 = history2@;
        history2.insert(0, snap);
        proof {
            assert(crate::model::views_of(history2@) =~= seq![crate::mutate::snapshot_of(e0@)]
                + crate::model::views_of(h0));
        }
    }
    let new_expiry: Option<u64> = if d.expires && d.expiry_time.is_some() {
        d.expiry_time
    } else {
        expiry_time
    };
    let r = Entry {
        uuid,
        title: d.title.clone(),
        username: d.username.clone(),
        password: d.password.clone(),
        url: d.url.clone(),
        notes: d.notes.clone(),
        tags: d.tags.clone(),
        icon_id: d.icon_id,
        is_favorite: d.is_favorite,
        created,
        modified: now,
        last_accessed: now,
        expires: d.expires,
        expiry_time: new_expiry,
        usage_count,
        custom_fields: build_custom_fields(&d.custom_fields),
        history: history2,
        attachments,
    };
    proof {
        assert(r@ =~= apply_patch(e0@, patch_of_data(*d), now));
    }
    r
}

/// Applies the update to the first entry with identifier `u` in
/// pre-order among the children and their subtrees.
pub fn update_entry_nodes(cs: Vec<Node>, u: u128, d: &EntryData, now: u64) -> (r: (Vec<Node>, bool))
    ensures
        ({
            let (sv, found) = update_entry_in(nodes_view(cs@), u, patch_of_data(*d), now);
            r.1 == found && nodes_view(r.0@) == sv
        }),
    decreases cs@,
{
    let ghost cs0 = cs;
    let ghost s = nodes_view(cs@);
    if cs.len() == 0 {
        proof {
            crate::model::nodes_view_len(cs0@);
        }
        (cs, false)
    } else {
        proof {
            nodes_view_first(cs0@);
            assert(decreases_to!(cs0@ => cs0@[0]));
            assert(decreases_to!(cs0@ => cs0@.subrange(1, cs0@.len() as int)));
        }
        let mut rest = cs;
        let first = rest.remove(0);
        proof {
            assert(rest@ =~= cs0@.drop_first());
            assert(cs0@.drop_first() == cs0@.subrange(1, cs0@.len() as int));
            assert(first == cs0@.first());
        }
        match first {
            Node::Entry(e) => {
                if e.uuid == u {
                    let e2 = apply_patch_entry(e, d, now);
                    let mut out = rest;
                    let ghost ov = out@;
                    out.insert(0, Node::Entry(e2));
                    proof {
                        assert(out@.drop_first() =~= ov);
                        lemma_front_view(out@, NodeView::Entry(e2@));
                    }
                    (out, true)
                } else {
                    let (mut rest2, found) = update_entry_nodes(rest, u, d, now);
                    let ghost r2v = rest2@;
                    let fnode = Node::Entry(e);
                    proof {
                        assert(fnode@ == s.first());
                    }
                    rest2.insert(0, fnode);
                    proof {
                        assert(rest2@.drop_first() =~= r2v);
                        lemma_front_view(rest2@, s.first());
                    }
                    (rest2, found)
                }
            },
            Node::Group(sub) => {
                proof {
                    assert(cs0@[0] == Node::Group(sub));
                    assert(decreases_to!(cs0@[0] => cs0@[0]->Group_0));
                    assert(cs0@[0]->Group_0 == sub);
                    assert(decreases_to!(sub => sub.children));
                    assert(decreases_to!(sub.children => sub.children@));
                }
                let ghost subv = sub@;
                let Group { uuid, name, icon_id, children } = sub;
                let (inner, found) = update_entry_nodes(children, u, d, now);
                let sub2 = Group { uuid, name, icon_id, children: inner };
                proof {
                    assert(sub2@ =~= (GroupViewAlias {
                        children: nodes_view(inner@),
                        ..subv
                    }));
                }
                if found {
                    let mut out = rest;
                    let ghost ov = out@;
                    out.insert(0, Node::Group(sub2));
                    proof {
                        assert(out@.drop_first() =~= ov);
                        lemma_front_view(out@, NodeView::Group(sub2@));
                    }
                    (out, true)
                } else {
                    proof {
                        crate::mutate::lemma_update_entry_in(
                            subv.children,
                            u,
                            patch_of_data(*d),
                            now,
                        );
                        assert(sub2@ =~= subv);
                    }
                    let (mut rest2, found2) = update_entry_nodes(rest, u, d, now);
                    let ghost r2v = rest2@;
                    let fnode = Node::Group(sub2);
                    proof {
                        assert(fnode@ == s.first());
                    }
                    rest2.insert(0, fnode);
                    proof {
                        assert(rest2@.drop_first() =~= r2v);
                        lemma_front_view(rest2@, s.first());
                    }
                    (rest2, found2)
                }
            },
        }
    }
}

// ---------------------------------------------------------------------------
// Entry removal.
// ---------------------------------------------------------------------------

/// Removes the first entry with identifier `u` in pre-order among the
/// children and their subtrees, returning it.
pub fn remove_entry_nodes(cs: Vec<Node>, u: u128) -> (r: (Vec<Node>, Option<Entry>))
    ensures
        ({
            let (sv, removed) = remove_entry_in(nodes_view(cs@), u);
            nodes_view(r.0@) == sv && match r.1 {
                Some(e) => removed == Some(e@),
                None => removed is None,
            }
        }),
    decreases cs@,
{
    let ghost cs0 = cs;
    let ghost s = nodes_view(cs@);
    if cs.len() == 0 {
        proof {
            crate::model::nodes_view_len(cs0@);
        }
        (cs, None)
    } else {
        proof {
            nodes_view_first(cs0@);
            assert(decreases_to!(cs0@ => cs0@[0]));
            assert(decreases_to!(cs0@ => cs0@.subrange(1, cs0@.len() as int)));
        }
        let mut rest = cs;
        let first = rest.remove(0);
        proof {
            assert(rest@ =~= cs0@.drop_first());
            assert(cs0@.drop_first() == cs0@.subrange(1, cs0@.len() as int));
            assert(first == cs0@.first());
        }
        match first {
            Node::Entry(e) => {
                if e.uuid == u {
                    (rest, Some(e))
                } else {
                    let (mut rest2, removed) = remove_entry_nodes(rest, u);
                    let ghost r2v = rest2@;
                    let fnode = Node::Entry(e);
                    proof {
                        assert(fnode@ == s.first());
                    }
                    rest2.insert(0, fnode);
                    proof {
                        assert(rest2@.drop_first() =~= r2v);
                        lemma_front_view(rest2@, s.first());
                    }
                    (rest2, removed)
                }
            },
            Node::Group(sub) => {
                proof {
                    assert(cs0@[0] == Node::Group(sub));
                    assert(decreases_to!(cs0@[0] => cs0@[0]->Group_0));
                    assert(cs0@[0]->Group_0 == sub);
                    assert(decreases_to!(sub => sub.children));
                    assert(decreases_to!(sub.children => sub.children@));
                }
                let ghost subv = sub@;
                let Group { uuid, name, icon_id, children } = sub;
                let (inner, removed) = remove_entry_nodes(children, u);
                let sub2 = Group { uuid, name, icon_id, children: inner };
                proof {
                    assert(sub2@ =~= (GroupViewAlias {
                        children: nodes_view(inner@),
                        ..subv
                    }));
                }
                match removed {
                    Some(e) => {
                        let mut out = rest;
                        let ghost ov = out@;
                        out.insert(0, Node::Group(sub2));
                        proof {
                            assert(out@.drop_first() =~= ov);
                            lemma_front_view(out@, NodeView::Group(sub2@));
                        }
                        (out, Some(e))
                    },
                    None => {
                        proof {
                            crate::mutate::lemma_remove_entry_in(subv.children, u);
                            assert(sub2@ =~= subv);
                        }
                        let (mut rest2, removed2) = remove_entry_nodes(rest, u);
                        let ghost r2v = rest2@;
                        let fnode = Node::Group(sub2);
                        proof {
                            assert(fnode@ == s.first());
                        }
                        rest2.insert(0, fnode);
                        proof {
                            assert(rest2@.drop_first() =~= r2v);
                            lemma_front_view(rest2@, s.first());
                        }
                        (rest2, removed2)
                    },
                }
            },
        }
    }
}

// ---------------------------------------------------------------------------
// Group detachment.
// ---------------------------------------------------------------------------

/// Detaches the first group with identifier `u` in pre-order among the
/// children and their subtrees, returning the whole subtree.
pub fn remove_group_nodes(cs: Vec<Node>, u: u128) -> (r: (Vec<Node>, Option<Group>))
    ensures
        ({
            let (sv, removed) = remove_group_in(nodes_view(cs@), u);
            nodes_view(r.0@) == sv && match r.1 {
                Some(g) => removed == Some(g@),
                None => removed is None,
            }
        }),
    decreases cs@,
{
    let ghost cs0 = cs;
    let ghost s = nodes_view(cs@);
    if cs.len() == 0 {
        proof {
            crate::model::nodes_view_len(cs0@);
        }
        (cs, None)
    } else {
        proof {
            nodes_view_first(cs0@);
            assert(decreases_to!(cs0@ => cs0@[0]));
            assert(decreases_to!(cs0@ => cs0@.subrange(1, cs0@.len() as int)));
        }
        let mut rest = cs;
        let first = rest.remove(0);
        proof {
            assert(rest@ =~= cs0@.drop_first());
            assert(cs0@.drop_first() == cs0@.subrange(1, cs0@.len() as int));
            assert(first == cs0@.first());
        }
        match first {
            Node::Entry(e) => {
                let (mut rest2, removed) = remove_group_nodes(rest, u);
                let ghost r2v = rest2@;
                let fnode = Node::Entry(e);
                proof {
                    assert(fnode@ == s.first());
                }
                rest2.insert(0, fnode);
                proof {
                    assert(rest2@.drop_first() =~= r2v);
                    lemma_front_view(rest2@, s.first());
                }
                (rest2, removed)
            },
            Node::Group(sub) => {
                if sub.uuid == u {
                    (rest, Some(sub))
                } else {
                    proof {
                        assert(cs0@[0] == Node::Group(sub));
                        assert(decreases_to!(cs0@[0] => cs0@[0]->Group_0));
                        assert(cs0@[0]->Group_0 == sub);
                        assert(decreases_to!(sub => sub.children));
                        assert(decreases_to!(sub.children => sub.children@));
                    }
                    let ghost subv = sub@;
                    let Group { uuid, name, icon_id, children } = sub;
                    let (inner, removed) = remove_group_nodes(children, u);
                    let sub2 = Group { uuid, name, icon_id, children: inner };
                    proof {
                        assert(sub2@ =~= (GroupViewAlias {
                            children: nodes_view(inner@),
                            ..subv
                        }));
                    }
                    match removed {
                        Some(det) => {
                            let mut out = rest;
                            let ghost ov = out@;
                            out.insert(0, Node::Group(sub2));
                            proof {
                                assert(out@.drop_first() =~= ov);
                                lemma_front_view(out@, NodeView::Group(sub2@));
                            }
                            (out, Some(det))
                        },
                        None => {
                            proof {
                                crate::mutate::lemma_remove_group_in(subv.children, u);
                                assert(sub2@ =~= subv);
                            }
                            let (mut rest2, removed2) = remove_group_nodes(rest, u);
                            let ghost r2v = rest2@;
                            let fnode = Node::Group(sub2);
                            proof {
                                assert(fnode@ == s.first());
                            }
                            rest2.insert(0, fnode);
                            proof {
                                assert(rest2@.drop_first() =~= r2v);
                                lemma_front_view(rest2@, s.first());
                            }
                            (rest2, removed2)
                        },
                    }
                }
            },
        }
    }
}

// ---------------------------------------------------------------------------
// Rename.
// ---------------------------------------------------------------------------

/// Renames the first group with identifier `u` in pre-order from `g`,
/// updating the icon only when one is supplied.
pub fn rename_group_apply(g: Group, u: u128, name: &String, icon: Option<usize>) -> (r: (
    Group,
    bool,
))
    ensures
        ({
            let (sg, found) = rename_group_tree(g@, u, name@, icon);
            r.1 == found && r.0@ == sg
        }),
    decreases g, 1int,
{
    let ghost g0 = g;
    if g.uuid == u {
        let mut g2 = g;
        g2.name = name.clone();
        if let Some(ic) = icon {
            g2.icon_id = Some(ic);
        }
        proof {
            assert(g2@ =~= rename_group_tree(g0@, u, name@, icon).0);
        }
        (g2, true)
    } else {
        proof {
            assert(decreases_to!(g0 => g0.children));
        }
        let Group { uuid, name: gname, icon_id, children } = g;
        let (cs2, found) = rename_nodes(children, u, name, icon);
        let r0 = Group { uuid, name: gname, icon_id, children: cs2 };
        proof {
            assert(r0@ =~= (GroupViewAlias { children: nodes_view(cs2@), ..g0@ }));
        }
        (r0, found)
    }
}

/// The children-level walk of `rename_group_apply`.
pub fn rename_nodes(cs: Vec<Node>, u: u128, name: &String, icon: Option<usize>) -> (r: (
    Vec<Node>,
    bool,
))
    ensures
        ({
            let (sv, found) = rename_group_in(nodes_view(cs@), u, name@, icon);
            r.1 == found && nodes_view(r.0@) == sv
        }),
    decreases cs@, 0int,
{
    let ghost cs0 = cs;
    let ghost s = nodes_view(cs@);
    if cs.len() == 0 {
        proof {
            crate::model::nodes_view_len(cs0@);
        }
        (cs, false)
    } else {
        proof {
            nodes_view_first(cs0@);
            assert(decreases_to!(cs0@ => cs0@[0]));
            assert(decreases_to!(cs0@ => cs0@.subrange(1, cs0@.len() as int)));
        }
        let mut rest = cs;
        let first = rest.remove(0);
        proof {
            assert(rest@ =~= cs0@.drop_first());
            assert(cs0@.drop_first() == cs0@.subrange(1, cs0@.len() as int));
            assert(first == cs0@.first());
        }
        match first {
            Node::Entry(e) => {
                let (mut rest2, found) = rename_nodes(rest, u, name, icon);
                let ghost r2v = rest2@;
                let fnode = Node::Entry(e);
                proof {
                    assert(fnode@ == s.first());
                }
                rest2.insert(0, fnode);
                proof {
                    assert(rest2@.drop_first() =~= r2v);
                    lemma_front_view(rest2@, s.first());
                }
                (rest2, found)
            },
            Node::Group(sub) => {
                proof {
                    assert(cs0@[0] == Node::Group(sub));
                    assert(decreases_to!(cs0@[0] => cs0@[0]->Group_0));
                    assert(cs0@[0]->Group_0 == sub);
                }
                let ghost subv = sub@;
                let (sub2, found) = rename_group_apply(sub, u, name, icon);
                if found {
                    let mut out = rest;
                    let ghost ov = out@;
                    out.insert(0, Node::Group(sub2));
                    proof {
                        assert(out@.drop_first() =~= ov);
                        lemma_front_view(out@, NodeView::Group(sub2@));
                    }
                    (out, true)
                } else {
                    proof {
                        crate::mutate::lemma_rename_group_tree(subv, u, name@, icon);
                    }
                    let (mut rest2, found2) = rename_nodes(rest, u, name, icon);
                    let ghost r2v = rest2@;
                    let fnode = Node::Group(sub2);
                    proof {
                        assert(fnode@ == s.first());
                    }
                    rest2.insert(0, fnode);
                    proof {
                        assert(rest2@.drop_first() =~= r2v);
                        lemma_front_view(rest2@, s.first());
                    }
                    (rest2, found2)
                }
            },
        }
    }
}

// ---------------------------------------------------------------------------
// Reorder.
// ---------------------------------------------------------------------------

/// Whether a child slot holds the group with identifier `u`.
pub open spec fn direct_group_hit(n: NodeView, u: u128) -> bool {
    n matches NodeView::Group(sub) && sub.uuid == u
}

/// Shifts `index_of_group` past a scanned prefix with no direct match.
proof fn lemma_index_of_group_shift(s: Seq<NodeView>, u: u128, i: int)
    requires
        0 <= i <= s.len(),
        forall|j: int| 0 <= j < i ==> !(#[trigger] direct_group_hit(s[j], u)),
    ensures
        index_of_group(s, u) == match index_of_group(s.skip(i), u) {
            Some(k) => Some(i + k),
            None => None,
        },
    decreases i,
{
    if i == 0 {
        assert(s.skip(0) =~= s);
    } else {
        lemma_index_of_group_shift(s, u, i - 1);
        assert(!direct_group_hit(s[i - 1], u));
        assert(s.skip(i - 1).first() == s[i - 1]);
        assert(s.skip(i - 1).len() > 0);
        assert(s.skip(i - 1).drop_first() =~= s.skip(i));
        assert(index_of_group(s.skip(i - 1), u) == match index_of_group(s.skip(i), u) {
            Some(k) => Some(k + 1),
            None => None::<int>,
        });
    }
}

/// Index of the first direct child that is a group with identifier `u`.
pub fn group_position(cs: &Vec<Node>, u: u128) -> (r: Option<usize>)
    ensures
        match r {
            Some(k) => index_of_group(nodes_view(cs@), u) == Some(k as int) && k < cs@.len(),
            None => index_of_group(nodes_view(cs@), u) is None,
        },
{
    let ghost s = nodes_view(cs@);
    proof {
        crate::model::nodes_view_len(cs@);
    }
    let mut i: usize = 0;
    while i < cs.len()
        invariant
            i <= cs@.len(),
            s == nodes_view(cs@),
            s.len() == cs@.len(),
            forall|j: int| 0 <= j < i ==> !(#[trigger] direct_group_hit(s[j], u)),
        decreases cs@.len() - i,
    {
        proof {
            crate::model::nodes_view_index(cs@, i as int);
        }
        let hit = match &cs[i] {
            Node::Group(sub) => sub.uuid == u,
            Node::Entry(_) => false,
        };
        if hit {
            proof {
                lemma_index_of_group_shift(s, u, i as int);
                assert(s.skip(i as int).first() == s[i as int]);
            }
            return Some(i);
        }
        i = i + 1;
    }
    proof {
        lemma_index_of_group_shift(s, u, i as int);
        assert(s.skip(i as int) =~= Seq::<NodeView>::empty());
    }
    None
}

/// Pushing an element commutes with taking views.
pub proof fn nodes_view_push(s: Seq<Node>, n: Node)
    ensures
        nodes_view(s.push(n)) == nodes_view(s).push(crate::model::node_view(n)),
{
    crate::model::nodes_view_len(s);
    crate::model::nodes_view_len(s.push(n));
    assert forall|j: int| 0 <= j < s.len() + 1 implies nodes_view(s.push(n))[j] == nodes_view(
        s,
    ).push(crate::model::node_view(n))[j] by {
        crate::model::nodes_view_index(s.push(n), j);
        if j < s.len() {
            crate::model::nodes_view_index(s, j);
        }
    }
    assert(nodes_view(s.push(n)) =~= nodes_view(s).push(crate::model::node_view(n)));
}

/// Updating an element commutes with taking views.
pub proof fn nodes_view_update(s: Seq<Node>, i: int, n: Node)
    requires
        0 <= i < s.len(),
    ensures
        nodes_view(s.update(i, n)) == nodes_view(s).update(i, crate::model::node_view(n)),
{
    crate::model::nodes_view_len(s);
    crate::model::nodes_view_len(s.update(i, n));
    assert forall|j: int| 0 <= j < s.len() implies nodes_view(s.update(i, n))[j] == nodes_view(
        s,
    ).update(i, crate::model::node_view(n))[j] by {
        crate::model::nodes_view_index(s.update(i, n), j);
        if j != i {
            crate::model::nodes_view_index(s, j);
        }
    }
    assert(nodes_view(s.update(i, n)) =~= nodes_view(s).update(i, crate::model::node_view(n)));
}

/// Removing an element commutes with taking views.
pub proof fn nodes_view_remove(s: Seq<Node>, i: int)
    requires
        0 <= i < s.len(),
    ensures
        nodes_view(s.remove(i)) == nodes_view(s).remove(i),
{
    crate::model::nodes_view_len(s);
    crate::model::nodes_view_len(s.remove(i));
    assert forall|j: int| 0 <= j < s.len() - 1 implies nodes_view(s.remove(i))[j] == nodes_view(
        s,
    ).remove(i)[j] by {
        crate::model::nodes_view_index(s.remove(i), j);
        if j < i {
            crate::model::nodes_view_index(s, j);
        } else {
            crate::model::nodes_view_index(s, j + 1);
        }
    }
    assert(nodes_view(s.remove(i)) =~= nodes_view(s).remove(i));
}

/// Inserting an element commutes with taking views.
pub proof fn nodes_view_insert(s: Seq<Node>, i: int, n: Node)
    requires
        0 <= i <= s.len(),
    ensures
        nodes_view(s.insert(i, n)) == nodes_view(s).insert(i, crate::model::node_view(n)),
{
    crate::model::nodes_view_len(s);
    crate::model::nodes_view_len(s.insert(i, n));
    assert forall|j: int| 0 <= j < s.len() + 1 implies nodes_view(s.insert(i, n))[j] == nodes_view(
        s,
    ).insert(i, crate::model::node_view(n))[j] by {
        crate::model::nodes_view_index(s.insert(i, n), j);
        if j < i {
            crate::model::nodes_view_index(s, j);
        } else if j > i {
            crate::model::nodes_view_index(s, j - 1);
        }
    }
    assert(nodes_view(s.insert(i, n)) =~= nodes_view(s).insert(i, crate::model::node_view(n)));
}

/// Moves the group `u` to the clamped position `target` within its
/// parent's child list, searching parents in pre-order.
pub fn reorder_nodes(cs: Vec<Node>, u: u128, target: usize) -> (r: (Vec<Node>, bool))
    ensures
        ({
            let (sv, found) = reorder_rec(nodes_view(cs@), u, target as int);
            r.1 == found && nodes_view(r.0@) == sv
        }),
    decreases cs@, 1int,
{
    let ghost cs0 = cs;
    let ghost s = nodes_view(cs@);
    match group_position(&cs, u) {
        Some(i) => {
            let len = cs.len();
            let j = if target > i {
                if target < len - 1 {
                    target
                } else {
                    len - 1
                }
            } else {
                target
            };
            proof {
                crate::model::nodes_view_len(cs0@);
                assert(j as int == crate::mutate::reorder_target(
                    i as int,
                    target as int,
                    s.len() as int,
                ));
            }
            let mut out = cs;
            let node = out.remove(i);
            out.insert(j, node);
            proof {
                nodes_view_remove(cs0@, i as int);
                nodes_view_insert(cs0@.remove(i as int), j as int, cs0@[i as int]);
                crate::model::nodes_view_index(cs0@, i as int);
                assert(nodes_view(out@) == spliced(s, i as int, j as int));
            }
            (out, true)
        },
        None => reorder_descend_nodes(cs, u, target),
    }
}

/// Descends into subgroups, in order, looking for the parent of `u`.
pub fn reorder_descend_nodes(cs: Vec<Node>, u: u128, target: usize) -> (r: (Vec<Node>, bool))
    ensures
        ({
            let (sv, found) = reorder_descend(nodes_view(cs@), u, target as int);
            r.1 == found && nodes_view(r.0@) == sv
        }),
    decreases cs@, 0int,
{
    let ghost cs0 = cs;
    let ghost s = nodes_view(cs@);
    if cs.len() == 0 {
        proof {
            crate::model::nodes_view_len(cs0@);
        }
        (cs, false)
    } else {
        proof {
            nodes_view_first(cs0@);
            assert(decreases_to!(cs0@ => cs0@[0]));
            assert(decreases_to!(cs0@ => cs0@.subrange(1, cs0@.len() as int)));
        }
        let mut rest = cs;
        let first = rest.remove(0);
        proof {
            assert(rest@ =~= cs0@.drop_first());
            assert(cs0@.drop_first() == cs0@.subrange(1, cs0@.len() as int));
            assert(first == cs0@.first());
        }
        match first {
            Node::Entry(e) => {
                let (mut rest2, found) = reorder_descend_nodes(rest, u, target);
                let ghost r2v = rest2@;
                let fnode = Node::Entry(e);
                proof {
                    assert(fnode@ == s.first());
                }
                rest2.insert(0, fnode);
                proof {
                    assert(rest2@.drop_first() =~= r2v);
                    lemma_front_view(rest2@, s.first());
                }
                (rest2, found)
            },
            Node::Group(sub) => {
                proof {
                    assert(cs0@[0] == Node::Group(sub));
                    assert(decreases_to!(cs0@[0] => cs0@[0]->Group_0));
                    assert(cs0@[0]->Group_0 == sub);
                    assert(decreases_to!(sub => sub.children));
                    assert(decreases_to!(sub.children => sub.children@));
                }
                let ghost subv = sub@;
                let Group { uuid, name, icon_id, children } = sub;
                let (inner, found) = reorder_nodes(children, u, target);
                let sub2 = Group { uuid, name, icon_id, children: inner };
                proof {
                    assert(sub2@ =~= (GroupViewAlias {
                        children: nodes_view(inner@),
                        ..subv
                    }));
                }
                if found {
                    let mut out = rest;
                    let ghost ov = out@;
                    out.insert(0, Node::Group(sub2));
                    proof {
                        assert(out@.drop_first() =~= ov);
                        lemma_front_view(out@, NodeView::Group(sub2@));
                    }
                    (out, true)
                } else {
                    proof {
                        crate::mutate::lemma_reorder_rec(subv.children, u, target as int);
                        assert(sub2@ =~= subv);
                    }
                    let (mut rest2, found2) = reorder_descend_nodes(rest, u, target);
                    let ghost r2v = rest2@;
                    let fnode = Node::Group(sub2);
                    proof {
                        assert(fnode@ == s.first());
                    }
                    rest2.insert(0, fnode);
                    proof {
                        assert(rest2@.drop_first() =~= r2v);
                        lemma_front_view(rest2@, s.first());
                    }
                    (rest2, found2)
                }
            },
        }
    }
}


} // verus!
