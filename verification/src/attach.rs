//! Attachments: named binary blobs in a database-wide append-only table,
//! referenced from entries by stable indices.  Deleting a reference never
//! removes or renumbers table slots, so indices held by other entries
//! stay valid.

use vstd::prelude::*;

use vstd::pervasive::VecAdditionalExecFns;

use crate::copy::clone_bytes;
use crate::data::EntryAttachment;
use crate::errors::DatabaseError;
use crate::ids::{parse_uuid, uuid_parse_spec};
use crate::lookup::find_entry_in_nodes;
use crate::model::{
    AttachRefView, AttachmentRef, Database, DbView, Entry, EntryView, Group, GroupView, Node,
    NodeView, nodes_view, views_of,
};
use crate::tree::{find_entry, find_entry_in};

verus! {

/// Index of the first reference named `key`.
pub open spec fn ref_index(refs: Seq<AttachRefView>, key: Seq<char>) -> Option<int>
    decreases refs.len(),
{
    if refs.len() == 0 {
        None
    } else if refs.first().key == key {
        Some(0)
    } else {
        match ref_index(refs.drop_first(), key) {
            Some(i) => Some(i + 1),
            None => None,
        }
    }
}

/// Shifts `ref_index` past a scanned prefix with no match.
proof fn lemma_ref_index_shift(s: Seq<AttachRefView>, key: Seq<char>, i: int)
    requires
        0 <= i <= s.len(),
        forall|j: int| 0 <= j < i ==> s[j].key != key,
    ensures
        ref_index(s, key) == match ref_index(s.skip(i), key) {
            Some(k) => Some(i + k),
            None => None,
        },
    decreases i,
{
    if i == 0 {
        assert(s.skip(0) =~= s);
    } else {
        lemma_ref_index_shift(s, key, i - 1);
        assert(s.skip(i - 1).first() == s[i - 1]);
        assert(s.skip(i - 1).drop_first() =~= s.skip(i));
    }
}

/// Index of the first reference of `refs` named `key`.
fn ref_position(refs: &Vec<AttachmentRef>, key: &String) -> (r: Option<usize>)
    ensures
        match r {
            Some(k) => ref_index(views_of(refs@), key@) == Some(k as int) && k < refs@.len(),
            None => ref_index(views_of(refs@), key@) is None,
        },
{
    let ghost s = views_of(refs@);
    let mut i: usize = 0;
    while i < refs.len()
        invariant
            i <= refs@.len(),
            s == views_of(refs@),
            forall|j: int| 0 <= j < i ==> s[j].key != key@,
        decreases refs@.len() - i,
    {
        if refs[i].key == *key {
            proof {
                lemma_ref_index_shift(s, key@, i as int);
                assert(s.skip(i as int).first() == s[i as int]);
            }
            return Some(i);
        }
        i = i + 1;
    }
    proof {
        lemma_ref_index_shift(s, key@, i as int);
        assert(s.skip(i as int) =~= Seq::<AttachRefView>::empty());
    }
    None
}

/// The entry with a reference named `key` set to table slot `idx`: an
/// existing name keeps its position with the index overwritten, a new
/// name is appended.
pub open spec fn spec_attach(e: EntryView, key: Seq<char>, idx: usize) -> EntryView {
    EntryView {
        attachments: match ref_index(e.attachments, key) {
            Some(i) => e.attachments.update(i, AttachRefView { key, index: idx }),
            None => e.attachments.push(AttachRefView { key, index: idx }),
        },
        ..e
    }
}

/// The entry with its reference named `key` removed; absent names leave
/// it unchanged.
pub open spec fn spec_detach(e: EntryView, key: Seq<char>) -> EntryView {
    EntryView {
        attachments: match ref_index(e.attachments, key) {
            Some(i) => e.attachments.remove(i),
            None => e.attachments,
        },
        ..e
    }
}

/// Applies an entry transformation to the first entry with identifier
/// `u`: `to_slot` of `Some(idx)` sets the reference, `None` removes it.
pub open spec fn retag_in(cs: Seq<NodeView>, u: u128, key: Seq<char>, to_slot: Option<usize>) -> (
    Seq<NodeView>,
    bool,
)
    decreases cs,
{
    if cs.len() == 0 {
        (cs, false)
    } else {
        proof {
            crate::tree::seq_first_decreases::<NodeView>(cs);
        }
        match cs.first() {
            NodeView::Entry(e) => {
                if e.uuid == u {
                    let e2 = match to_slot {
                        Some(idx) => spec_attach(e, key, idx),
                        None => spec_detach(e, key),
                    };
                    (seq![NodeView::Entry(e2)] + cs.drop_first(), true)
                } else {
                    let (rest, found) = retag_in(cs.drop_first(), u, key, to_slot);
                    (seq![cs.first()] + rest, found)
                }
            },
            NodeView::Group(sub) => {
                proof {
                    assert(decreases_to!(cs.first() => sub));
                    assert(decreases_to!(sub => sub.children));
                }
                let (inner, found) = retag_in(sub.children, u, key, to_slot);
                if found {
                    (seq![NodeView::Group(GroupView { children: inner, ..sub })] + cs.drop_first(), true)
                } else {
                    let (rest, found2) = retag_in(cs.drop_first(), u, key, to_slot);
                    (seq![cs.first()] + rest, found2)
                }
            },
        }
    }
}

/// The walk finds its entry exactly when lookup does, and leaves the
/// tree unchanged when it does not.
pub proof fn lemma_retag_in(cs: Seq<NodeView>, u: u128, key: Seq<char>, to_slot: Option<usize>)
    ensures
        retag_in(cs, u, key, to_slot).1 == (find_entry_in(cs, u) is Some),
        !retag_in(cs, u, key, to_slot).1 ==> retag_in(cs, u, key, to_slot).0 == cs,
    decreases cs,
{
    if cs.len() > 0 {
        match cs.first() {
            NodeView::Entry(e) => {
                if e.uuid != u {
                    lemma_retag_in(cs.drop_first(), u, key, to_slot);
                }
            },
            NodeView::Group(sub) => {
                lemma_retag_in(sub.children, u, key, to_slot);
                lemma_retag_in(cs.drop_first(), u, key, to_slot);
            },
        }
        if !retag_in(cs, u, key, to_slot).1 {
            assert(retag_in(cs, u, key, to_slot).0 =~= cs);
        }
    }
}

/// The walk touches no other entry: every other identifier still finds
/// the same entry afterwards.
pub proof fn lemma_retag_keeps_others(
    cs: Seq<NodeView>,
    u: u128,
    key: Seq<char>,
    to_slot: Option<usize>,
    w: u128,
)
    requires
        w != u,
    ensures
        find_entry_in(retag_in(cs, u, key, to_slot).0, w) == find_entry_in(cs, w),
    decreases cs,
{
    if cs.len() > 0 {
        let (res, found) = retag_in(cs, u, key, to_slot);
        match cs.first() {
            NodeView::Entry(e) => {
                if e.uuid == u {
                    let e2 = match to_slot {
                        Some(idx) => spec_attach(e, key, idx),
                        None => spec_detach(e, key),
                    };
                    assert(res.first() == NodeView::Entry(e2));
                    assert(res.drop_first() =~= cs.drop_first());
                    assert(e2.uuid == e.uuid);
                } else {
                    lemma_retag_keeps_others(cs.drop_first(), u, key, to_slot, w);
                    let (rest, _) = retag_in(cs.drop_first(), u, key, to_slot);
                    assert((seq![cs.first()] + rest).first() == cs.first());
                    assert((seq![cs.first()] + rest).drop_first() =~= rest);
                }
            },
            NodeView::Group(sub) => {
                let (inner, found_inner) = retag_in(sub.children, u, key, to_slot);
                lemma_retag_keeps_others(sub.children, u, key, to_slot, w);
                lemma_retag_keeps_others(cs.drop_first(), u, key, to_slot, w);
                if found_inner {
                    let sub2 = GroupView { children: inner, ..sub };
                    assert((seq![NodeView::Group(sub2)] + cs.drop_first()).first()
                        == NodeView::Group(sub2));
                    assert((seq![NodeView::Group(sub2)] + cs.drop_first()).drop_first()
                        =~= cs.drop_first());
                } else {
                    lemma_retag_in(sub.children, u, key, to_slot);
                    let (rest, _) = retag_in(cs.drop_first(), u, key, to_slot);
                    assert((seq![cs.first()] + rest).first() == cs.first());
                    assert((seq![cs.first()] + rest).drop_first() =~= rest);
                }
            },
        }
    }
}

/// Applies the reference change to one entry.
fn apply_retag(e: Entry, key: &String, to_slot: Option<usize>) -> (r: Entry)
    ensures
        r@ == match to_slot {
            Some(idx) => spec_attach(e@, key@, idx),
            None => spec_detach(e@, key@),
        },
{
    let ghost e0 = e;
    let mut e2 = e;
    let pos = ref_position(&e2.attachments, key);
    let ghost rv = views_of(e2.attachments@);
    match to_slot {
        Some(idx) => {
            match pos {
                Some(k) => {
                    e2.attachments.set(k, AttachmentRef { key: key.clone(), index: idx });
                    proof {
                        assert(views_of(e2.attachments@) =~= rv.update(
                            k as int,
                            AttachRefView { key: key@, index: idx },
                        ));
                        assert(e2@ =~= spec_attach(e0@, key@, idx));
                    }
                },
                None => {
                    e2.attachments.push(AttachmentRef { key: key.clone(), index: idx });
                    proof {
                        assert(views_of(e2.attachments@) =~= rv.push(
                            AttachRefView { key: key@, index: idx },
                        ));
                        assert(e2@ =~= spec_attach(e0@, key@, idx));
                    }
                },
            }
        },
        None => {
            match pos {
                Some(k) => {
                    e2.attachments.remove(k);
                    proof {
                        assert(views_of(e2.attachments@) =~= rv.remove(k as int));
                        assert(e2@ =~= spec_detach(e0@, key@));
                    }
                },
                None => {
                    proof {
                        assert(e2@ =~= spec_detach(e0@, key@));
                    }
                },
            }
        },
    }
    e2
}

/// The children-level walk applying the reference change.
fn retag_nodes(cs: Vec<Node>, u: u128, key: &String, to_slot: Option<usize>) -> (r: (
    Vec<Node>,
    bool,
))
    ensures
        ({
            let (sv, found) = retag_in(nodes_view(cs@), u, key@, to_slot);
            r.1 == found && nodes_view(r.0@) == sv
        }),
    decreases cs@,
{
    let ghost cs0 = cs;
    let ghost s = nodes_view(cs@);
    if cs.len() == 0 {
        proof {
            crate::model::nodes_view_len(cs0@);
        }
        (cs, false)
    } else {
        proof {
            crate::edit::nodes_view_first(cs0@);
            assert(decreases_to!(cs0@ => cs0@[0]));
            assert(decreases_to!(cs0@ => cs0@.subrange(1, cs0@.len() as int)));
        }
        let mut rest = cs;
        let first = rest.remove(0);
        proof {
            assert(rest@ =~= cs0@.drop_first());
            assert(cs0@.drop_first() == cs0@.subrange(1, cs0@.len() as int));
            assert(first == cs0@.first());
        }
        match first {
            Node::Entry(e) => {
                if e.uuid == u {
                    let e2 = apply_retag(e, key, to_slot);
                    let mut out = rest;
                    let ghost ov = out@;
                    out.insert(0, Node::Entry(e2));
                    proof {
                        assert(out@.drop_first() =~= ov);
                        crate::edit::lemma_front_view(out@, NodeView::Entry(e2@));
                    }
                    (out, true)
                } else {
                    let (mut rest2, found) = retag_nodes(rest, u, key, to_slot);
                    let ghost r2v = rest2@;
                    let fnode = Node::Entry(e);
                    proof {
                        assert(fnode@ == s.first());
                    }
                    rest2.insert(0, fnode);
                    proof {
                        assert(rest2@.drop_first() =~= r2v);
                        crate::edit::lemma_front_view(rest2@, s.first());
                    }
                    (rest2, found)
                }
            },
            Node::Group(sub) => {
                proof {
                    assert(cs0@[0] == Node::Group(sub));
                    assert(decreases_to!(cs0@[0] => cs0@[0]->Group_0));
                    assert(cs0@[0]->Group_0 == sub);
                    assert(decreases_to!(sub => sub.children));
                    assert(decreases_to!(sub.children => sub.children@));
                }
                let ghost subv = sub@;
                let Group { uuid, name, icon_id, children } = sub;
                let (inner, found) = retag_nodes(children, u, key, to_slot);
                let sub2 = Group { uuid, name, icon_id, children: inner };
                proof {
                    assert(sub2@ =~= (crate::edit::GroupViewAlias {
                        children: nodes_view(inner@),
                        ..subv
                    }));
                }
                if found {
                    let mut out = rest;
                    let ghost ov = out@;
                    out.insert(0, Node::Group(sub2));
                    proof {
                        assert(out@.drop_first() =~= ov);
                        crate::edit::lemma_front_view(out@, NodeView::Group(sub2@));
                    }
                    (out, true)
                } else {
                    proof {
                        lemma_retag_in(subv.children, u, key@, to_slot);
                        assert(sub2@ =~= subv);
                    }
                    let (mut rest2, found2) = retag_nodes(rest, u, key, to_slot);
                    let ghost r2v = rest2@;
                    let fnode = Node::Group(sub2);
                    proof {
                        assert(fnode@ == s.first());
                    }
                    rest2.insert(0, fnode);
                    proof {
                        assert(rest2@.drop_first() =~= r2v);
                        crate::edit::lemma_front_view(rest2@, s.first());
                    }
                    (rest2, found2)
                }
            },
        }
    }
}

/// The attachments an entry resolves against the table: references whose
/// index lies outside the table are skipped.
pub open spec fn resolved_attachments(e: EntryView, table: Seq<Seq<u8>>) -> Seq<
    (Seq<char>, Seq<u8>),
>
    decreases e.attachments.len(),
{
    resolved_refs(e.attachments, table)
}

/// The resolution of a reference list against the table.
pub open spec fn resolved_refs(refs: Seq<AttachRefView>, table: Seq<Seq<u8>>) -> Seq<
    (Seq<char>, Seq<u8>),
>
    decreases refs.len(),
{
    if refs.len() == 0 {
        Seq::empty()
    } else {
        resolved_refs(refs.drop_last(), table) + (if refs.last().index < table.len() {
            seq![(refs.last().key, table[refs.last().index as int])]
        } else {
            Seq::<(Seq<char>, Seq<u8>)>::empty()
        })
    }
}

/// Whether the records `ds` render the resolved attachments `ps`.
pub open spec fn attachments_match(ds: Seq<EntryAttachment>, ps: Seq<(Seq<char>, Seq<u8>)>) -> bool {
    &&& ds.len() == ps.len()
    &&& forall|i: int|
        0 <= i < ds.len() ==> (#[trigger] ds[i].key@) == ps[i].0 && ds[i].data@ == ps[i].1
}

impl Database {
    /// The attachments of the entry, resolved against the table in
    /// reference order; dangling references are skipped.
    pub fn get_entry_attachments(&self, entry_uuid: &str) -> (r: Result<
        Vec<EntryAttachment>,
        DatabaseError,
    >)
        ensures
            match uuid_parse_spec(entry_uuid@) {
                None => r matches Err(DatabaseError::EntryNotFound),
                Some(u) => match find_entry(self@.root, u) {
                    Some(e) => r matches Ok(v) && attachments_match(
                        v@,
                        resolved_attachments(e, self@.attachment_table),
                    ),
                    None => r matches Err(DatabaseError::EntryNotFound),
                },
            },
    {
        let u = match parse_uuid(entry_uuid) {
            Some(u) => u,
            None => {
                return Err(DatabaseError::EntryNotFound);
            },
        };
        proof {
            assert(nodes_view(self.root.children@).skip(0) =~= nodes_view(self.root.children@));
        }
        let e = match find_entry_in_nodes(&self.root.children, 0, u) {
            Some(e) => e,
            None => {
                return Err(DatabaseError::EntryNotFound);
            },
        };
        let ghost refs = e@.attachments;
        let ghost table = self@.attachment_table;
        let mut out: Vec<EntryAttachment> = Vec::new();
        proof {
            assert(refs.take(0) =~= Seq::<AttachRefView>::empty());
        }
        let mut i: usize = 0;
        while i < e.attachments.len()
            invariant
                refs == views_of(e.attachments@),
                table == self@.attachment_table,
                table.len() == self.attachment_table@.len(),
                i <= refs.len(),
                refs.len() == e.attachments@.len(),
                attachments_match(out@, resolved_refs(refs.take(i as int), table)),
            decreases refs.len() - i,
        {
            proof {
                assert(refs.take(i + 1).drop_last() =~= refs.take(i as int));
                assert(refs.take(i + 1).last() == refs[i as int]);
            }
            let ghost prev = out@;
            let a = &e.attachments[i];
            if a.index < self.attachment_table.len() {
                let blob = clone_bytes(&self.attachment_table[a.index]);
                out.push(EntryAttachment { key: a.key.clone(), data: blob });
                proof {
                    assert(out@.drop_last() =~= prev);
                }
            }
            proof {
                assert(attachments_match(out@, resolved_refs(refs.take(i + 1), table)));
            }
            i = i + 1;
        }
        proof {
            assert(refs.take(refs.len() as int) =~= refs);
        }
        Ok(out)
    }

    /// Adds an attachment: the blob is appended to the table at a fresh
    /// index that is never reused, and the entry's reference named `key`
    /// is set to it.  An empty key or one holding a dot is refused.
    pub fn add_entry_attachment(&mut self, entry_uuid: &str, key: String, data: Vec<u8>) -> (r:
        Result<(), DatabaseError>)
        ensures
            ({
                let bad_key = key@.len() == 0 || key@.contains('.');
                if bad_key {
                    r matches Err(DatabaseError::InvalidUuid) && final(self)@ == old(self)@
                } else {
                    match uuid_parse_spec(entry_uuid@) {
                        None => r matches Err(DatabaseError::EntryNotFound) && final(self)@ == old(
                            self,
                        )@,
                        Some(u) => {
                            if find_entry(old(self)@.root, u) is Some {
                                r is Ok && final(self)@ == (DbView {
                                    root: GroupView {
                                        children: retag_in(
                                            old(self)@.root.children,
                                            u,
                                            key@,
                                            Some(old(self)@.attachment_table.len() as usize),
                                        ).0,
                                        ..old(self)@.root
                                    },
                                    attachment_table: old(self)@.attachment_table.push(data@),
                                    ..old(self)@
                                })
                            } else {
                                r matches Err(DatabaseError::EntryNotFound) && final(self)@ == old(
                                    self,
                                )@
                            }
                        },
                    }
                }
            }),
    {
        let klen = key.as_str().unicode_len();
        let mut has_dot = false;
        let mut ci: usize = 0;
        while ci < klen
            invariant
                klen == key@.len(),
                ci <= klen,
                has_dot == (exists|j: int| 0 <= j < ci && key@[j] == '.'),
            decreases klen - ci,
        {
            if key.as_str().get_char(ci) == '.' {
                has_dot = true;
            }
            ci = ci + 1;
        }
        proof {
            assert(has_dot == key@.contains('.'));
        }
        if klen == 0 || has_dot {
            return Err(DatabaseError::InvalidUuid);
        }
        let u = match parse_uuid(entry_uuid) {
            Some(u) => u,
            None => {
                return Err(DatabaseError::EntryNotFound);
            },
        };
        proof {
            assert(nodes_view(self.root.children@).skip(0) =~= nodes_view(self.root.children@));
        }
        if find_entry_in_nodes(&self.root.children, 0, u).is_none() {
            return Err(DatabaseError::EntryNotFound);
        }
        let idx = self.attachment_table.len();
        let ghost pre = self@;
        self.attachment_table.push(data);
        let root = self.take_root_for_attach();
        let ghost rootv = root@;
        let Group { uuid, name, icon_id, children } = root;
        let (cs2, found) = retag_nodes(children, u, &key, Some(idx));
        self.root = Group { uuid, name, icon_id, children: cs2 };
        proof {
            lemma_retag_in(rootv.children, u, key@, Some(idx));
            assert(found);
            assert(self@ =~= (DbView {
                root: GroupView {
                    children: retag_in(pre.root.children, u, key@, Some(idx)).0,
                    ..pre.root
                },
                attachment_table: pre.attachment_table.push(data@),
                ..pre
            }));
        }
        Ok(())
    }

    /// Takes the root group out, leaving a placeholder; the attachment
    /// table and the rest of the store stay.
    fn take_root_for_attach(&mut self) -> (g: Group)
        ensures
            g@ == old(self)@.root,
            final(self)@.attachment_table == old(self)@.attachment_table,
            final(self)@.last_modified == old(self)@.last_modified,
            final(self)@.kdf == old(self)@.kdf,
    {
        let mut tmp = Group { uuid: 0, name: String::new(), icon_id: None, children: Vec::new() };
        core::mem::swap(&mut self.root, &mut tmp);
        tmp
    }

    /// Removes the entry's reference named `key`.  The table keeps every
    /// slot, and no other entry's references move: indices held
    /// elsewhere stay valid.
    pub fn delete_entry_attachment(&mut self, entry_uuid: &str, key: &str) -> (r: Result<
        (),
        DatabaseError,
    >)
        ensures
            match uuid_parse_spec(entry_uuid@) {
                None => r matches Err(DatabaseError::EntryNotFound) && final(self)@ == old(self)@,
                Some(u) => {
                    if find_entry(old(self)@.root, u) is Some {
                        r is Ok && final(self)@ == (DbView {
                            root: GroupView {
                                children: retag_in(old(self)@.root.children, u, key@, None).0,
                                ..old(self)@.root
                            },
                            ..old(self)@
                        }) && final(self)@.attachment_table == old(self)@.attachment_table
                    } else {
                        r matches Err(DatabaseError::EntryNotFound) && final(self)@ == old(self)@
                    }
                },
            },
    {
        let u = match parse_uuid(entry_uuid) {
            Some(u) => u,
            None => {
                return Err(DatabaseError::EntryNotFound);
            },
        };
        let key_s = String::from_str(key);
        let ghost pre = self@;
        let root = self.take_root_for_attach();
        let ghost rootv = root@;
        let Group { uuid, name, icon_id, children } = root;
        let (cs2, found) = retag_nodes(children, u, &key_s, None);
        self.root = Group { uuid, name, icon_id, children: cs2 };
        proof {
            lemma_retag_in(rootv.children, u, key@, None);
        }
        if found {
            proof {
                assert(self@ =~= (DbView {
                    root: GroupView {
                        children: retag_in(pre.root.children, u, key@, None).0,
                        ..pre.root
                    },
                    ..pre
                }));
            }
            Ok(())
        } else {
            proof {
                assert(self@ =~= pre);
            }
            Err(DatabaseError::EntryNotFound)
        }
    }
}

} // verus!
