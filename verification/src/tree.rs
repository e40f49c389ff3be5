//! Mathematical queries over the credential tree: depth-first pre-order
//! lookup of groups and entries, ownership and parenthood, flattening, and
//! well-formedness.

use vstd::prelude::*;

use crate::model::{EntryView, GroupView, NodeView};

verus! {

/// First group with identifier `u` in pre-order from `g`, `g` itself
/// included.
pub open spec fn find_group(g: GroupView, u: u128) -> Option<GroupView>
    decreases g,
{
    if g.uuid == u {
        Some(g)
    } else {
        proof {
            assert(decreases_to!(g => g.children));
        }
        find_group_in(g.children, u)
    }
}

/// First group with identifier `u` in pre-order among the children `cs`.
pub open spec fn find_group_in(cs: Seq<NodeView>, u: u128) -> Option<GroupView>
    decreases cs,
{
    if cs.len() == 0 {
        None
    } else {
        proof {
            seq_first_decreases::<NodeView>(cs);
        }
        match cs.first() {
            NodeView::Group(sub) => {
                proof {
                    assert(decreases_to!(cs.first() => sub));
                }
                if find_group(sub, u) is Some {
                    find_group(sub, u)
                } else {
                    find_group_in(cs.drop_first(), u)
                }
            },
            NodeView::Entry(_) => find_group_in(cs.drop_first(), u),
        }
    }
}

/// The first sequence element and the remainder are both smaller than the
/// sequence.
pub broadcast proof fn seq_first_decreases<T>(cs: Seq<T>)
    requires
        cs.len() > 0,
    ensures
        #[trigger] (decreases_to!(cs => cs.first())),
        decreases_to!(cs => cs.drop_first()),
{
    assert(decreases_to!(cs => cs[0]));
    assert(cs.first() == cs[0]);
    assert(decreases_to!(cs => cs.subrange(1, cs.len() as int)));
    assert(cs.drop_first() == cs.subrange(1, cs.len() as int));
}

/// First entry with identifier `u` in pre-order among the children `cs`,
/// descending into subgroups in place.
pub open spec fn find_entry_in(cs: Seq<NodeView>, u: u128) -> Option<EntryView>
    decreases cs,
{
    if cs.len() == 0 {
        None
    } else {
        proof {
            seq_first_decreases::<NodeView>(cs);
        }
        match cs.first() {
            NodeView::Entry(e) => {
                if e.uuid == u {
                    Some(e)
                } else {
                    find_entry_in(cs.drop_first(), u)
                }
            },
            NodeView::Group(sub) => {
                proof {
                    assert(decreases_to!(cs.first() => sub));
                    assert(decreases_to!(sub => sub.children));
                }
                if find_entry_in(sub.children, u) is Some {
                    find_entry_in(sub.children, u)
                } else {
                    find_entry_in(cs.drop_first(), u)
                }
            },
        }
    }
}

/// First entry with identifier `u` in the tree rooted at `g`.
pub open spec fn find_entry(g: GroupView, u: u128) -> Option<EntryView> {
    find_entry_in(g.children, u)
}

/// Identifier of the group that directly owns the entry `u`, searching the
/// children `cs` of the group `owner`.
pub open spec fn entry_owner_in(cs: Seq<NodeView>, owner: u128, u: u128) -> Option<u128>
    decreases cs,
{
    if cs.len() == 0 {
        None
    } else {
        proof {
            seq_first_decreases::<NodeView>(cs);
        }
        match cs.first() {
            NodeView::Entry(e) => {
                if e.uuid == u {
                    Some(owner)
                } else {
                    entry_owner_in(cs.drop_first(), owner, u)
                }
            },
            NodeView::Group(sub) => {
                proof {
                    assert(decreases_to!(cs.first() => sub));
                    assert(decreases_to!(sub => sub.children));
                }
                if entry_owner_in(sub.children, sub.uuid, u) is Some {
                    entry_owner_in(sub.children, sub.uuid, u)
                } else {
                    entry_owner_in(cs.drop_first(), owner, u)
                }
            },
        }
    }
}

/// An entry has an owner exactly when it can be found.
pub proof fn lemma_owner_iff_found(cs: Seq<NodeView>, owner: u128, u: u128)
    ensures
        (entry_owner_in(cs, owner, u) is Some) == (find_entry_in(cs, u) is Some),
    decreases cs,
{
    if cs.len() > 0 {
        match cs.first() {
            NodeView::Entry(e) => {
                if e.uuid != u {
                    lemma_owner_iff_found(cs.drop_first(), owner, u);
                }
            },
            NodeView::Group(sub) => {
                lemma_owner_iff_found(sub.children, sub.uuid, u);
                lemma_owner_iff_found(cs.drop_first(), owner, u);
            },
        }
    }
}

/// Identifier of the group that directly owns entry `u` in the tree rooted
/// at `g`.
pub open spec fn entry_owner(g: GroupView, u: u128) -> Option<u128> {
    entry_owner_in(g.children, g.uuid, u)
}

/// Identifier of the parent of group `u`, searching the children `cs` of
/// the group `owner`; the root itself has no parent.
pub open spec fn parent_of_in(cs: Seq<NodeView>, owner: u128, u: u128) -> Option<u128>
    decreases cs,
{
    if cs.len() == 0 {
        None
    } else {
        proof {
            seq_first_decreases::<NodeView>(cs);
        }
        match cs.first() {
            NodeView::Entry(_) => parent_of_in(cs.drop_first(), owner, u),
            NodeView::Group(sub) => {
                proof {
                    assert(decreases_to!(cs.first() => sub));
                    assert(decreases_to!(sub => sub.children));
                }
                if sub.uuid == u {
                    Some(owner)
                } else if parent_of_in(sub.children, sub.uuid, u) is Some {
                    parent_of_in(sub.children, sub.uuid, u)
                } else {
                    parent_of_in(cs.drop_first(), owner, u)
                }
            },
        }
    }
}

/// Identifier of the parent of group `u` in the tree rooted at `g`.
pub open spec fn parent_of(g: GroupView, u: u128) -> Option<u128> {
    parent_of_in(g.children, g.uuid, u)
}

/// All entries under the children `cs` of group `owner`, in pre-order,
/// each paired with the identifier of its directly owning group.
pub open spec fn entries_in(cs: Seq<NodeView>, owner: u128) -> Seq<(u128, EntryView)>
    decreases cs,
{
    if cs.len() == 0 {
        Seq::empty()
    } else {
        proof {
            seq_first_decreases::<NodeView>(cs);
        }
        (match cs.first() {
            NodeView::Entry(e) => seq![(owner, e)],
            NodeView::Group(sub) => {
                proof {
                    assert(decreases_to!(cs.first() => sub));
                    assert(decreases_to!(sub => sub.children));
                }
                entries_in(sub.children, sub.uuid)
            },
        }) + entries_in(cs.drop_first(), owner)
    }
}

/// All entries of the tree rooted at `g`, in pre-order, with their owning
/// group's identifier.
pub open spec fn all_entries(g: GroupView) -> Seq<(u128, EntryView)> {
    entries_in(g.children, g.uuid)
}

/// Identifiers of all strict descendants of the group owning children
/// `cs`, in pre-order: each subgroup followed by its own descendants.
pub open spec fn descendants_in(cs: Seq<NodeView>) -> Seq<u128>
    decreases cs,
{
    if cs.len() == 0 {
        Seq::empty()
    } else {
        proof {
            seq_first_decreases::<NodeView>(cs);
        }
        (match cs.first() {
            NodeView::Entry(_) => Seq::<u128>::empty(),
            NodeView::Group(sub) => {
                proof {
                    assert(decreases_to!(cs.first() => sub));
                    assert(decreases_to!(sub => sub.children));
                }
                seq![sub.uuid] + descendants_in(sub.children)
            },
        }) + descendants_in(cs.drop_first())
    }
}

/// Identifiers of all strict descendants of `g`, in pre-order.
pub open spec fn descendant_uuids(g: GroupView) -> Seq<u128> {
    descendants_in(g.children)
}

/// Identifiers of every group of the tree rooted at `g`, `g` first.
pub open spec fn group_uuids(g: GroupView) -> Seq<u128> {
    seq![g.uuid] + descendants_in(g.children)
}

/// Number of groups in the tree rooted at `g`, `g` itself included.
pub open spec fn count_groups(g: GroupView) -> nat {
    group_uuids(g).len()
}

/// Identifiers of every entry of the tree rooted at `g`, in pre-order.
pub open spec fn entry_uuids(g: GroupView) -> Seq<u128> {
    all_entries(g).map_values(|p: (u128, EntryView)| p.1.uuid)
}

/// The entries that sit directly among the children `cs`, in order,
/// subgroups skipped.
pub open spec fn direct_entries(cs: Seq<NodeView>) -> Seq<EntryView>
    decreases cs,
{
    if cs.len() == 0 {
        Seq::empty()
    } else {
        proof {
            assert(decreases_to!(cs => cs.subrange(0, cs.len() - 1)));
            assert(cs.drop_last() == cs.subrange(0, cs.len() - 1));
        }
        direct_entries(cs.drop_last()) + (match cs.last() {
            NodeView::Entry(e) => seq![e],
            NodeView::Group(_) => Seq::<EntryView>::empty(),
        })
    }
}

/// Well-formedness of a tree: no group identifier occurs twice, and no
/// entry identifier occurs twice.  The two namespaces are separate.
pub open spec fn tree_wf(g: GroupView) -> bool {
    &&& group_uuids(g).no_duplicates()
    &&& entry_uuids(g).no_duplicates()
}


/// Flattening entries distributes over concatenation of child lists.
pub proof fn lemma_entries_in_concat(a: Seq<NodeView>, b: Seq<NodeView>, owner: u128)
    ensures
        entries_in(a + b, owner) == entries_in(a, owner) + entries_in(b, owner),
    decreases a,
{
    if a.len() == 0 {
        assert(a + b =~= b);
        assert(entries_in(a, owner) + entries_in(b, owner) =~= entries_in(b, owner));
    } else {
        assert((a + b).first() == a.first());
        assert((a + b).drop_first() =~= a.drop_first() + b);
        lemma_entries_in_concat(a.drop_first(), b, owner);
        assert((a + b).len() > 0);
        match a.first() {
            NodeView::Entry(e) => {
                assert(entries_in(a + b, owner) =~= entries_in(a, owner) + entries_in(b, owner));
            },
            NodeView::Group(sub) => {
                assert(entries_in(a + b, owner) =~= entries_in(a, owner) + entries_in(b, owner));
            },
        }
    }
}

/// Flattening descendants distributes over concatenation of child lists.
pub proof fn lemma_descendants_in_concat(a: Seq<NodeView>, b: Seq<NodeView>)
    ensures
        descendants_in(a + b) == descendants_in(a) + descendants_in(b),
    decreases a,
{
    if a.len() == 0 {
        assert(a + b =~= b);
        assert(descendants_in(a) + descendants_in(b) =~= descendants_in(b));
    } else {
        assert((a + b).first() == a.first());
        assert((a + b).drop_first() =~= a.drop_first() + b);
        lemma_descendants_in_concat(a.drop_first(), b);
        match a.first() {
            NodeView::Entry(_) => {
                assert(descendants_in(a + b) =~= descendants_in(a) + descendants_in(b));
            },
            NodeView::Group(sub) => {
                assert(descendants_in(a + b) =~= descendants_in(a) + descendants_in(b));
            },
        }
    }
}


} // verus!
