//! The last-write-wins merge: reconciling the in-memory tree against a
//! freshly decoded re-read of the backing file.  Entries present in both
//! are resolved by modification time; records present only in the re-read
//! are adopted; records present only in memory stay.  Nothing is deleted.

use vstd::prelude::*;

use vstd::pervasive::VecAdditionalExecFns;

use crate::copy::{clone_entry, clone_group};
use crate::edit::{group_position, nodes_view_push, nodes_view_update};
use crate::errors::DatabaseError;
use crate::model::{Database, DbView, Entry, EntryView, Group, GroupView, Node, NodeView,
    nodes_view, nodes_view_index, nodes_view_len};
use crate::mutate::index_of_group;

verus! {

/// Index of the first direct child of `cs` that is an entry with
/// identifier `u`.
pub open spec fn entry_index_of(cs: Seq<NodeView>, u: u128) -> Option<int>
    decreases cs,
{
    if cs.len() == 0 {
        None
    } else {
        proof {
            crate::tree::seq_first_decreases::<NodeView>(cs);
        }
        if cs.first() matches NodeView::Entry(e) && e.uuid == u {
            Some(0)
        } else {
            match entry_index_of(cs.drop_first(), u) {
                Some(i) => Some(i + 1),
                None => None,
            }
        }
    }
}

/// Whether a child slot holds an entry with identifier `u`.
pub open spec fn direct_entry_hit(n: NodeView, u: u128) -> bool {
    n matches NodeView::Entry(e) && e.uuid == u
}

/// What `entry_index_of` promises of its result.
pub proof fn lemma_entry_index_of(cs: Seq<NodeView>, u: u128)
    ensures
        match entry_index_of(cs, u) {
            Some(i) => 0 <= i < cs.len() && direct_entry_hit(cs[i], u) && forall|j: int|
                0 <= j < i ==> !(#[trigger] direct_entry_hit(cs[j], u)),
            None => forall|j: int| 0 <= j < cs.len() ==> !(#[trigger] direct_entry_hit(cs[j], u)),
        },
    decreases cs,
{
    if cs.len() > 0 {
        if !direct_entry_hit(cs.first(), u) {
            lemma_entry_index_of(cs.drop_first(), u);
            assert forall|j: int| 1 <= j < cs.len() implies cs.drop_first()[j - 1] == cs[j] by {}
        }
    }
}

/// What `index_of_group` promises of its result.
pub proof fn lemma_index_of_group_props(cs: Seq<NodeView>, u: u128)
    ensures
        match index_of_group(cs, u) {
            Some(i) => 0 <= i < cs.len() && crate::edit::direct_group_hit(cs[i], u) && forall|
                j: int,
            | 0 <= j < i ==> !(#[trigger] crate::edit::direct_group_hit(cs[j], u)),
            None => forall|j: int|
                0 <= j < cs.len() ==> !(#[trigger] crate::edit::direct_group_hit(cs[j], u)),
        },
    decreases cs,
{
    if cs.len() > 0 {
        if !crate::edit::direct_group_hit(cs.first(), u) {
            lemma_index_of_group_props(cs.drop_first(), u);
            assert forall|j: int| 1 <= j < cs.len() implies cs.drop_first()[j - 1] == cs[j] by {}
        }
    }
}

/// One step of the entry phase: an entry of the re-read replaces the
/// in-memory copy only when strictly newer, and is adopted when absent;
/// groups are left for the second phase.
pub open spec fn entry_step(acc: Seq<NodeView>, n: NodeView) -> Seq<NodeView> {
    match n {
        NodeView::Entry(te) => match entry_index_of(acc, te.uuid) {
            Some(i) => if acc[i] matches NodeView::Entry(oe) && te.modified > oe.modified {
                acc.update(i, NodeView::Entry(te))
            } else {
                acc
            },
            None => acc.push(NodeView::Entry(te)),
        },
        NodeView::Group(_) => acc,
    }
}

/// The entry phase: folds `entry_step` over the re-read children in
/// order.
pub open spec fn merge_entries(acc: Seq<NodeView>, ts: Seq<NodeView>) -> Seq<NodeView>
    decreases ts.len(),
{
    if ts.len() == 0 {
        acc
    } else {
        entry_step(merge_entries(acc, ts.drop_last()), ts.last())
    }
}

/// The group phase: folds `group_step` over the re-read children in
/// order.
pub open spec fn merge_subgroups(acc: Seq<NodeView>, ts: Seq<NodeView>) -> Seq<NodeView>
    decreases ts, 0int,
{
    if ts.len() == 0 {
        acc
    } else {
        proof {
            assert(decreases_to!(ts => ts.subrange(0, ts.len() - 1)));
            assert(ts.drop_last() == ts.subrange(0, ts.len() - 1));
            assert(decreases_to!(ts => ts[ts.len() - 1]));
            assert(ts.last() == ts[ts.len() - 1]);
        }
        group_step(merge_subgroups(acc, ts.drop_last()), ts.last())
    }
}

/// One step of the group phase: a subgroup present in both sides is
/// merged recursively in place; one present only in the re-read is
/// adopted with its whole subtree; entries were handled by the first
/// phase.
pub open spec fn group_step(acc: Seq<NodeView>, n: NodeView) -> Seq<NodeView>
    decreases n, 1int,
{
    match n {
        NodeView::Group(tg) => {
            match index_of_group(acc, tg.uuid) {
                Some(i) => match acc[i] {
                    NodeView::Group(og) => acc.update(i, NodeView::Group(merge_group(og, tg))),
                    NodeView::Entry(_) => acc,
                },
                None => acc.push(NodeView::Group(tg)),
            }
        },
        NodeView::Entry(_) => acc,
    }
}

/// The merged children of a group present in both trees: the entry phase
/// then the group phase, both driven by the re-read side.
pub open spec fn merge_children(ours: Seq<NodeView>, theirs: Seq<NodeView>) -> Seq<NodeView> {
    merge_subgroups(merge_entries(ours, theirs), theirs)
}

/// A group merged with its re-read counterpart: the in-memory side keeps
/// its identity, name and icon; only the children are reconciled.
pub open spec fn merge_group(ours: GroupView, theirs: GroupView) -> GroupView
    decreases theirs, 2int,
{
    proof {
        assert(decreases_to!(theirs => theirs.children));
    }
    GroupView { children: merge_subgroups(merge_entries(ours.children, theirs.children), theirs.children), ..ours }
}


// ---------------------------------------------------------------------------
// Well-formedness of a level, and the laws of the merge.
// ---------------------------------------------------------------------------

/// No two direct entry children of a level share an identifier.
pub open spec fn entries_distinct(cs: Seq<NodeView>) -> bool {
    forall|j: int, k: int|
        0 <= j < k < cs.len() ==> !(#[trigger] cs[j] matches NodeView::Entry(a)
            && #[trigger] cs[k] matches NodeView::Entry(b) && a.uuid == b.uuid)
}

/// No two direct subgroup children of a level share an identifier.
pub open spec fn groups_distinct(cs: Seq<NodeView>) -> bool {
    forall|j: int, k: int|
        0 <= j < k < cs.len() ==> !(#[trigger] cs[j] matches NodeView::Group(a)
            && #[trigger] cs[k] matches NodeView::Group(b) && a.uuid == b.uuid)
}

/// Identifiers are unique among the direct children of every group of
/// the subtree, level by level.
pub open spec fn level_wf(g: GroupView) -> bool
    decreases g, 1int,
{
    proof {
        assert(decreases_to!(g => g.children));
    }
    &&& entries_distinct(g.children)
    &&& groups_distinct(g.children)
    &&& children_wf(g.children)
}

/// Every subgroup of the list satisfies `level_wf`.
pub open spec fn children_wf(cs: Seq<NodeView>) -> bool
    decreases cs, 0int,
{
    if cs.len() == 0 {
        true
    } else {
        proof {
            assert(decreases_to!(cs => cs.subrange(0, cs.len() - 1)));
            assert(cs.drop_last() == cs.subrange(0, cs.len() - 1));
            assert(decreases_to!(cs => cs[cs.len() - 1]));
            assert(cs.last() == cs[cs.len() - 1]);
        }
        children_wf(cs.drop_last()) && (match cs.last() {
            NodeView::Group(g) => level_wf(g),
            NodeView::Entry(_) => true,
        })
    }
}

/// Each subgroup in a well-formed list is itself well-formed.
pub proof fn lemma_children_wf_index(cs: Seq<NodeView>, k: int)
    requires
        children_wf(cs),
        0 <= k < cs.len(),
        cs[k] matches NodeView::Group(tg),
    ensures
        cs[k] matches NodeView::Group(tg) ==> level_wf(tg),
    decreases cs.len(),
{
    if k == cs.len() - 1 {
        assert(cs.last() == cs[k]);
    } else {
        lemma_children_wf_index(cs.drop_last(), k);
        assert(cs.drop_last()[k] == cs[k]);
    }
}

/// In a level with distinct entry identifiers, an entry is its own first
/// occurrence.
pub proof fn lemma_entry_index_from_distinct(cs: Seq<NodeView>, k: int)
    requires
        entries_distinct(cs),
        0 <= k < cs.len(),
        cs[k] matches NodeView::Entry(e),
    ensures
        cs[k] matches NodeView::Entry(e) ==> entry_index_of(cs, e.uuid) == Some(k),
{
    let e = cs[k]->Entry_0;
    lemma_entry_index_of(cs, e.uuid);
    assert(direct_entry_hit(cs[k], e.uuid));
    match entry_index_of(cs, e.uuid) {
        Some(i) => {
            if i < k {
                assert(cs[i] matches NodeView::Entry(a) && cs[k] matches NodeView::Entry(b)
                    && a.uuid == b.uuid);
                assert(false);
            }
            if k < i {
                assert(!direct_entry_hit(cs[k], e.uuid));
                assert(false);
            }
        },
        None => {
            assert(!direct_entry_hit(cs[k], e.uuid));
            assert(false);
        },
    }
}

/// In a level with distinct subgroup identifiers, a subgroup is its own
/// first occurrence.
pub proof fn lemma_group_index_from_distinct(cs: Seq<NodeView>, k: int)
    requires
        groups_distinct(cs),
        0 <= k < cs.len(),
        cs[k] matches NodeView::Group(tg),
    ensures
        cs[k] matches NodeView::Group(tg) ==> index_of_group(cs, tg.uuid) == Some(k),
{
    let tg = cs[k]->Group_0;
    lemma_index_of_group_props(cs, tg.uuid);
    assert(crate::edit::direct_group_hit(cs[k], tg.uuid));
    match index_of_group(cs, tg.uuid) {
        Some(i) => {
            if i < k {
                assert(cs[i] matches NodeView::Group(a) && cs[k] matches NodeView::Group(b)
                    && a.uuid == b.uuid);
                assert(false);
            }
            if k < i {
                assert(!crate::edit::direct_group_hit(cs[k], tg.uuid));
                assert(false);
            }
        },
        None => {
            assert(!crate::edit::direct_group_hit(cs[k], tg.uuid));
            assert(false);
        },
    }
}

/// Whether this child, if an entry, already sits in `cs` unchanged at
/// its first occurrence.
pub open spec fn entry_present_ok(cs: Seq<NodeView>, n: NodeView) -> bool {
    match n {
        NodeView::Entry(e) => match entry_index_of(cs, e.uuid) {
            Some(i) => 0 <= i < cs.len() && cs[i] == n,
            None => false,
        },
        NodeView::Group(_) => true,
    }
}

/// Whether every entry of `ts` already sits in `cs`, unchanged, at its
/// first occurrence.
pub open spec fn entries_already_present(cs: Seq<NodeView>, ts: Seq<NodeView>) -> bool {
    forall|k: int| 0 <= k < ts.len() ==> #[trigger] entry_present_ok(cs, ts[k])
}

/// The entry phase changes nothing when every entry of the re-read side
/// already sits in memory unchanged.
pub proof fn lemma_merge_entries_self(cs: Seq<NodeView>, ts: Seq<NodeView>)
    requires
        entries_already_present(cs, ts),
    ensures
        merge_entries(cs, ts) == cs,
    decreases ts.len(),
{
    if ts.len() > 0 {
        assert(entries_already_present(cs, ts.drop_last())) by {
            assert forall|k: int| 0 <= k < ts.len() - 1 implies #[trigger] entry_present_ok(
                cs,
                ts.drop_last()[k],
            ) by {
                assert(ts.drop_last()[k] == ts[k]);
                assert(entry_present_ok(cs, ts[k]));
            }
        }
        lemma_merge_entries_self(cs, ts.drop_last());
        assert(ts[ts.len() - 1] == ts.last());
        assert(entry_present_ok(cs, ts.last()));
        match ts.last() {
            NodeView::Entry(te) => {
                match entry_index_of(cs, te.uuid) {
                    Some(i) => {
                        assert(cs[i] == NodeView::Entry(te));
                        assert(entry_step(cs, ts.last()) =~= cs);
                    },
                    None => {
                        assert(false);
                    },
                }
            },
            NodeView::Group(_) => {},
        }
    }
}

/// Whether this child, if a subgroup, already sits in `cs` unchanged and
/// well-formed at its first occurrence.
pub open spec fn group_present_ok(cs: Seq<NodeView>, n: NodeView) -> bool {
    match n {
        NodeView::Group(tg) => match index_of_group(cs, tg.uuid) {
            Some(i) => 0 <= i < cs.len() && cs[i] == n && level_wf(tg),
            None => false,
        },
        NodeView::Entry(_) => true,
    }
}

/// Whether every subgroup of `ts` already sits in `cs`, unchanged and
/// well-formed, at its first occurrence.
pub open spec fn groups_already_present(cs: Seq<NodeView>, ts: Seq<NodeView>) -> bool {
    forall|k: int| 0 <= k < ts.len() ==> #[trigger] group_present_ok(cs, ts[k])
}

/// The group phase changes nothing when every subgroup of the re-read
/// side already sits in memory unchanged and well-formed.
pub proof fn lemma_merge_subgroups_self(cs: Seq<NodeView>, ts: Seq<NodeView>)
    requires
        groups_already_present(cs, ts),
    ensures
        merge_subgroups(cs, ts) == cs,
    decreases ts, 0int,
{
    if ts.len() > 0 {
        assert(groups_already_present(cs, ts.drop_last())) by {
            assert forall|k: int| 0 <= k < ts.len() - 1 implies #[trigger] group_present_ok(
                cs,
                ts.drop_last()[k],
            ) by {
                assert(ts.drop_last()[k] == ts[k]);
                assert(group_present_ok(cs, ts[k]));
            }
        }
        lemma_merge_subgroups_self(cs, ts.drop_last());
        assert(ts[ts.len() - 1] == ts.last());
        assert(group_present_ok(cs, ts.last()));
        match ts.last() {
            NodeView::Group(tg) => {
                match index_of_group(cs, tg.uuid) {
                    Some(i) => {
                        assert(cs[i] == NodeView::Group(tg));
                        assert(level_wf(tg));
                        lemma_merge_group_self(tg);
                        assert(group_step(cs, ts.last()) == cs.update(
                            i,
                            NodeView::Group(merge_group(tg, tg)),
                        ));
                        assert(cs.update(i, NodeView::Group(tg)) =~= cs);
                        assert(group_step(cs, ts.last()) == cs);
                    },
                    None => {
                        assert(false);
                    },
                }
            },
            NodeView::Entry(_) => {},
        }
        assert(merge_subgroups(cs, ts) == group_step(merge_subgroups(cs, ts.drop_last()), ts.last()));
        assert(merge_subgroups(cs, ts) == cs);
    }
}

/// Merging a well-formed tree with an identical copy of itself gives the
/// tree back unchanged: the merge is idempotent.
pub proof fn lemma_merge_group_self(g: GroupView)
    requires
        level_wf(g),
    ensures
        merge_group(g, g) == g,
    decreases g, 1int,
{
    let cs = g.children;
    assert(entries_already_present(cs, cs)) by {
        assert forall|k: int| 0 <= k < cs.len() implies #[trigger] entry_present_ok(
            cs,
            cs[k],
        ) by {
            if cs[k] matches NodeView::Entry(e) {
                lemma_entry_index_from_distinct(cs, k);
            }
        }
    }
    lemma_merge_entries_self(cs, cs);
    assert(groups_already_present(cs, cs)) by {
        assert forall|k: int| 0 <= k < cs.len() implies #[trigger] group_present_ok(
            cs,
            cs[k],
        ) by {
            if cs[k] matches NodeView::Group(tg) {
                lemma_group_index_from_distinct(cs, k);
                lemma_children_wf_index(cs, k);
            }
        }
    }
    lemma_merge_subgroups_self(cs, cs);
    assert(merge_group(g, g) =~= g);
}

/// Conflicts resolve by the later modification time: merging in a
/// re-read holding one entry with the same identifier as an in-memory
/// entry keeps whichever copy was modified last, in place, preferring
/// the in-memory copy on a tie.
pub proof fn lemma_merge_conflict(cs: Seq<NodeView>, i: int, e1: EntryView, e2: EntryView)
    requires
        entry_index_of(cs, e2.uuid) == Some(i),
        0 <= i < cs.len(),
        cs[i] == NodeView::Entry(e1),
    ensures
        merge_entries(cs, seq![NodeView::Entry(e2)]) == if e2.modified > e1.modified {
            cs.update(i, NodeView::Entry(e2))
        } else {
            cs
        },
{
    let ts = seq![NodeView::Entry(e2)];
    assert(ts.drop_last() =~= Seq::<NodeView>::empty());
    assert(merge_entries(cs, ts.drop_last()) == cs);
    assert(ts.last() == NodeView::Entry(e2));
}



// ---------------------------------------------------------------------------
// The executable merge.
// ---------------------------------------------------------------------------

/// Shifts `entry_index_of` past a scanned prefix with no match.
proof fn lemma_entry_index_shift(s: Seq<NodeView>, u: u128, i: int)
    requires
        0 <= i <= s.len(),
        forall|j: int| 0 <= j < i ==> !(#[trigger] direct_entry_hit(s[j], u)),
    ensures
        entry_index_of(s, u) == match entry_index_of(s.skip(i), u) {
            Some(k) => Some(i + k),
            None => None,
        },
    decreases i,
{
    if i == 0 {
        assert(s.skip(0) =~= s);
    } else {
        lemma_entry_index_shift(s, u, i - 1);
        assert(!direct_entry_hit(s[i - 1], u));
        assert(s.skip(i - 1).first() == s[i - 1]);
        assert(s.skip(i - 1).len() > 0);
        assert(s.skip(i - 1).drop_first() =~= s.skip(i));
        assert(entry_index_of(s.skip(i - 1), u) == match entry_index_of(s.skip(i), u) {
            Some(k) => Some(k + 1),
            None => None::<int>,
        });
    }
}

/// Index of the first direct child that is an entry with identifier `u`.
fn entry_position(cs: &Vec<Node>, u: u128) -> (r: Option<usize>)
    ensures
        match r {
            Some(k) => entry_index_of(nodes_view(cs@), u) == Some(k as int) && k < cs@.len(),
            None => entry_index_of(nodes_view(cs@), u) is None,
        },
{
    let ghost s = nodes_view(cs@);
    proof {
        nodes_view_len(cs@);
    }
    let mut i: usize = 0;
    while i < cs.len()
        invariant
            i <= cs@.len(),
            s == nodes_view(cs@),
            s.len() == cs@.len(),
            forall|j: int| 0 <= j < i ==> !(#[trigger] direct_entry_hit(s[j], u)),
        decreases cs@.len() - i,
    {
        proof {
            nodes_view_index(cs@, i as int);
        }
        let hit = match &cs[i] {
            Node::Entry(e) => e.uuid == u,
            Node::Group(_) => false,
        };
        if hit {
            proof {
                lemma_entry_index_shift(s, u, i as int);
                assert(s.skip(i as int).first() == s[i as int]);
            }
            return Some(i);
        }
        i = i + 1;
    }
    proof {
        lemma_entry_index_shift(s, u, i as int);
        assert(s.skip(i as int) =~= Seq::<NodeView>::empty());
    }
    None
}

/// Merges the re-read children into the in-memory children: the entry
/// phase, then the group phase, each walking the re-read side in order.
pub fn merge_nodes(ours: Vec<Node>, theirs: &Vec<Node>) -> (r: Vec<Node>)
    ensures
        nodes_view(r@) == merge_children(nodes_view(ours@), nodes_view(theirs@)),
    decreases *theirs,
{
    let ghost ov = nodes_view(ours@);
    let ghost tv = nodes_view(theirs@);
    proof {
        nodes_view_len(theirs@);
        assert(tv.take(0) =~= Seq::<NodeView>::empty());
    }
    let mut acc = ours;
    let mut i: usize = 0;
    while i < theirs.len()
        invariant
            i <= theirs@.len(),
            ov == nodes_view(ours@),
            tv == nodes_view(theirs@),
            tv.len() == theirs@.len(),
            nodes_view(acc@) == merge_entries(ov, tv.take(i as int)),
        decreases theirs@.len() - i,
    {
        proof {
            nodes_view_index(theirs@, i as int);
            assert(tv.take(i + 1).drop_last() =~= tv.take(i as int));
            assert(tv.take(i + 1).last() == tv[i as int]);
        }
        let ghost accv = nodes_view(acc@);
        match &theirs[i] {
            Node::Group(_) => {
                proof {
                    assert(merge_entries(ov, tv.take(i + 1)) == accv);
                }
            },
            Node::Entry(te) => {
                match entry_position(&acc, te.uuid) {
                    Some(k) => {
                        proof {
                            lemma_entry_index_of(accv, te@.uuid);
                            nodes_view_index(acc@, k as int);
                        }
                        let acc_mod = match &acc[k] {
                            Node::Entry(oe) => oe.modified,
                            Node::Group(_) => {
                                proof {
                                    assert(false);
                                }
                                0
                            },
                        };
                        if te.modified > acc_mod {
                            let copy = clone_entry(te);
                            let ghost an = acc@;
                            acc.set(k, Node::Entry(copy));
                            proof {
                                nodes_view_update(an, k as int, Node::Entry(copy));
                                assert(nodes_view(acc@) == accv.update(
                                    k as int,
                                    NodeView::Entry(te@),
                                ));
                                assert(merge_entries(ov, tv.take(i + 1)) == nodes_view(acc@));
                            }
                        } else {
                            proof {
                                assert(merge_entries(ov, tv.take(i + 1)) == accv);
                            }
                        }
                    },
                    None => {
                        let copy = clone_entry(te);
                        let ghost an = acc@;
                        acc.push(Node::Entry(copy));
                        proof {
                            nodes_view_push(an, Node::Entry(copy));
                            assert(nodes_view(acc@) == accv.push(NodeView::Entry(te@)));
                            assert(merge_entries(ov, tv.take(i + 1)) == nodes_view(acc@));
                        }
                    },
                }
            },
        }
        i = i + 1;
    }
    proof {
        assert(tv.take(tv.len() as int) =~= tv);
    }
    let ghost phase1 = nodes_view(acc@);
    let mut j: usize = 0;
    proof {
        assert(tv.take(0) =~= Seq::<NodeView>::empty());
    }
    while j < theirs.len()
        invariant
            j <= theirs@.len(),
            tv == nodes_view(theirs@),
            tv.len() == theirs@.len(),
            nodes_view(acc@) == merge_subgroups(phase1, tv.take(j as int)),
        decreases theirs@.len() - j,
    {
        proof {
            nodes_view_index(theirs@, j as int);
            assert(tv.take(j + 1).drop_last() =~= tv.take(j as int));
            assert(tv.take(j + 1).last() == tv[j as int]);
        }
        let ghost accv = nodes_view(acc@);
        match &theirs[j] {
            Node::Entry(_) => {
                proof {
                    assert(theirs@[j as int] is Entry);
                    assert(tv[j as int] is Entry);
                    assert(group_step(accv, tv[j as int]) == accv);
                    assert(merge_subgroups(phase1, tv.take(j + 1)) == group_step(
                        merge_subgroups(phase1, tv.take(j + 1).drop_last()),
                        tv.take(j + 1).last(),
                    ));
                    assert(merge_subgroups(phase1, tv.take(j + 1)) == accv);
                }
            },
            Node::Group(tg) => {
                match group_position(&acc, tg.uuid) {
                    Some(k) => {
                        proof {
                            lemma_index_of_group_props(accv, tg@.uuid);
                            nodes_view_index(acc@, k as int);
                        }
                        let ghost an = acc@;
                        let node = acc.remove(k);
                        match node {
                            Node::Group(og) => {
                                let ghost ogv = og@;
                                proof {
                                    assert(decreases_to!(*theirs => theirs@));
                                    assert(decreases_to!(theirs@ => theirs@[j as int]));
                                    assert(theirs@[j as int] == Node::Group(*tg));
                                    assert(decreases_to!(theirs@[j as int] => theirs@[j as int]->Group_0));
                                    assert(theirs@[j as int]->Group_0 == *tg);
                                    assert(decreases_to!(*tg => tg.children));
                                }
                                let Group { uuid, name, icon_id, children } = og;
                                let merged = merge_nodes(children, &tg.children);
                                let og2 = Group { uuid, name, icon_id, children: merged };
                                proof {
                                    assert(og2@ =~= merge_group(ogv, tg@));
                                }
                                let ghost an2 = acc@;
                                acc.insert(k, Node::Group(og2));
                                proof {
                                    assert(an2 == an.remove(k as int));
                                    assert(acc@ =~= an.update(k as int, Node::Group(og2)));
                                    nodes_view_update(an, k as int, Node::Group(og2));
                                    assert(accv[k as int] == NodeView::Group(ogv));
                                    assert(nodes_view(acc@) == accv.update(
                                        k as int,
                                        NodeView::Group(merge_group(ogv, tg@)),
                                    ));
                                    assert(tv[j as int] == NodeView::Group(tg@));
                                    assert(group_step(accv, tv[j as int]) == accv.update(
                                        k as int,
                                        NodeView::Group(merge_group(ogv, tg@)),
                                    ));
                                    assert(merge_subgroups(phase1, tv.take(j + 1)) == group_step(
                                        merge_subgroups(phase1, tv.take(j + 1).drop_last()),
                                        tv.take(j + 1).last(),
                                    ));
                                    assert(merge_subgroups(phase1, tv.take(j + 1)) == nodes_view(
                                        acc@,
                                    ));
                                }
                            },
                            Node::Entry(e) => {
                                proof {
                                    assert(false);
                                }
                                acc.insert(k, Node::Entry(e));
                            },
                        }
                    },
                    None => {
                        let copy = clone_group(tg);
                        let ghost an = acc@;
                        acc.push(Node::Group(copy));
                        proof {
                            nodes_view_push(an, Node::Group(copy));
                            assert(nodes_view(acc@) == accv.push(NodeView::Group(tg@)));
                            assert(tv[j as int] == NodeView::Group(tg@));
                            assert(group_step(accv, tv[j as int]) == accv.push(
                                NodeView::Group(tg@),
                            ));
                            assert(merge_subgroups(phase1, tv.take(j + 1)) == group_step(
                                merge_subgroups(phase1, tv.take(j + 1).drop_last()),
                                tv.take(j + 1).last(),
                            ));
                            assert(merge_subgroups(phase1, tv.take(j + 1)) == nodes_view(acc@));
                        }
                    },
                }
            },
        }
        j = j + 1;
    }
    proof {
        assert(tv.take(tv.len() as int) =~= tv);
    }
    acc
}

impl Database {
    /// Merges a freshly decoded re-read of the backing file into the
    /// in-memory tree, group by group from the roots, and refreshes the
    /// watermark to the file modification time the caller observed.
    pub fn merge_database(&mut self, theirs: &Group, current_modified: Option<u64>) -> (r: Result<
        (),
        DatabaseError,
    >)
        ensures
            r is Ok,
            final(self)@ == (DbView {
                root: merge_group(old(self)@.root, theirs@),
                last_modified: current_modified,
                ..old(self)@
            }),
    {
        let ghost pre = self@;
        let mut tmp = Group { uuid: 0, name: String::new(), icon_id: None, children: Vec::new() };
        core::mem::swap(&mut self.root, &mut tmp);
        let ghost rootv = tmp@;
        let Group { uuid, name, icon_id, children } = tmp;
        let merged = merge_nodes(children, &theirs.children);
        self.root = Group { uuid, name, icon_id, children: merged };
        self.last_modified = current_modified;
        proof {
            assert(self@.root =~= merge_group(pre.root, theirs@));
            assert(self@ =~= (DbView {
                root: merge_group(pre.root, theirs@),
                last_modified: current_modified,
                ..pre
            }));
        }
        Ok(())
    }
}


} // verus!
