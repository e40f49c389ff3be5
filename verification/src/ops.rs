//! The mutation operations of the store.  Validation happens before any
//! change: an operation that fails leaves the tree exactly as it was.

use vstd::prelude::*;

use crate::data::EntryData;
use crate::edit::{
    insert_node_group, remove_entry_nodes, remove_group_nodes, rename_group_apply, reorder_nodes,
    update_entry_nodes,
};
use crate::errors::DatabaseError;
use crate::fields::build_custom_fields;
use crate::ids::{fresh_uuid, now_seconds, parse_uuid, uuid_parse_spec};
use crate::lookup::{entry_owner_in_nodes, find_entry_in_nodes, find_group_ref};
use crate::model::{Database, DbView, Entry, Group, GroupView, Node, NodeView, nodes_view};
use crate::mutate::{
    entry_of_data, insert_node, lemma_insert_node, lemma_remove_entry_in,
    lemma_remove_group_in, lemma_update_entry_in, patch_of_data, remove_entry_in, remove_group_in,
    rename_group_tree, reorder_rec, update_entry_in,
};
use crate::tree::{entry_owner, find_entry, find_group, find_group_in};

verus! {


/// The store after an entry built from `d` with identifier `u` at time
/// `now` was appended under the group `p`.
pub open spec fn inserted_entry_at(
    pre: DbView,
    post: DbView,
    d: EntryData,
    p: u128,
    u: u128,
    now: u64,
) -> bool {
    post == (DbView {
        root: insert_node(pre.root, p, NodeView::Entry(entry_of_data(d, u, now))).0,
        ..pre
    })
}

/// The store after the entry `u` was updated with the patch of `d` at
/// time `now`.
pub open spec fn updated_entry_at(pre: DbView, post: DbView, d: EntryData, u: u128, now: u64) -> bool {
    post == (DbView {
        root: GroupView {
            children: update_entry_in(pre.root.children, u, patch_of_data(d), now).0,
            ..pre.root
        },
        ..pre
    })
}

/// The parent a group creation resolves to: the named group, or the root
/// when none is named.
pub open spec fn parent_resolve(parent_uuid: Option<String>, pre: DbView) -> Option<u128> {
    match parent_uuid {
        Some(p) => uuid_parse_spec(p@),
        None => Some(pre.root.uuid),
    }
}

/// The icon stored for a supplied icon number.
pub open spec fn icon_of(icon_id: Option<u32>) -> Option<usize> {
    match icon_id {
        Some(i) => Some(i as usize),
        None => None,
    }
}

/// The store after a fresh empty group with identifier `nu` was appended
/// under the group `p`.
pub open spec fn inserted_group(
    pre: DbView,
    post: DbView,
    name: Seq<char>,
    icon: Option<usize>,
    p: u128,
    nu: u128,
) -> bool {
    post == (DbView {
        root: insert_node(
            pre.root,
            p,
            NodeView::Group(GroupView { uuid: nu, name, icon_id: icon, children: Seq::empty() }),
        ).0,
        ..pre
    })
}

/// Builds the internal record for a freshly created entry.
fn entry_from_data(d: &EntryData, u: u128, now: u64) -> (e: Entry)
    ensures
        e@ == entry_of_data(*d, u, now),
{
    let expiry: Option<u64> = if d.expires {
        d.expiry_time
    } else {
        None
    };
    let e = Entry {
        uuid: u,
        title: d.title.clone(),
        username: d.username.clone(),
        password: d.password.clone(),
        url: d.url.clone(),
        notes: d.notes.clone(),
        tags: d.tags.clone(),
        icon_id: d.icon_id,
        is_favorite: d.is_favorite,
        created: now,
        modified: now,
        last_accessed: now,
        expires: d.expires,
        expiry_time: expiry,
        usage_count: 0,
        custom_fields: build_custom_fields(&d.custom_fields),
        history: Vec::new(),
        attachments: Vec::new(),
    };
    proof {
        assert(e@ =~= entry_of_data(*d, u, now));
    }
    e
}

impl Database {
    /// Takes the root group out of the store, leaving a placeholder.
    fn take_root(&mut self) -> (g: Group)
        ensures
            g@ == old(self)@.root,
            final(self)@.attachment_table == old(self)@.attachment_table,
            final(self)@.last_modified == old(self)@.last_modified,
            final(self)@.kdf == old(self)@.kdf,
    {
        let mut tmp = Group { uuid: 0, name: String::new(), icon_id: None, children: Vec::new() };
        core::mem::swap(&mut self.root, &mut tmp);
        tmp
    }

    /// Creates an entry in the group named by the record.  The identifier
    /// is drawn fresh when the record carries none; a malformed or already
    /// used identifier is refused.
    pub fn create_entry(&mut self, entry_data: EntryData) -> (r: Result<(), DatabaseError>)
        ensures
            r is Ok && crate::tree::tree_wf(old(self)@.root) ==> crate::tree::tree_wf(
                final(self)@.root,
            ),
            match uuid_parse_spec(entry_data.group_uuid@) {
                None => r matches Err(DatabaseError::GroupNotFound) && final(self)@ == old(self)@,
                Some(p) => {
                    if find_group(old(self)@.root, p) is None {
                        r matches Err(DatabaseError::GroupNotFound) && final(self)@ == old(self)@
                    } else if entry_data.uuid@.len() == 0 {
                        // A drawn identifier may, in principle, collide; the
                        // record is then refused and nothing changes.
                        match r {
                            Ok(_) => exists|u: u128, now: u64|
                                find_entry(old(self)@.root, u) is None && #[trigger] inserted_entry_at(
                                    old(self)@,
                                    final(self)@,
                                    entry_data,
                                    p,
                                    u,
                                    now,
                                ),
                            Err(e) => e is InvalidUuid && final(self)@ == old(self)@,
                        }
                    } else {
                        match uuid_parse_spec(entry_data.uuid@) {
                            None => r matches Err(DatabaseError::InvalidUuid) && final(self)@
                                == old(self)@,
                            Some(u) => {
                                if find_entry(old(self)@.root, u) is Some {
                                    r matches Err(DatabaseError::InvalidUuid) && final(self)@
                                        == old(self)@
                                } else {
                                    r is Ok && exists|now: u64| #[trigger] inserted_entry_at(
                                        old(self)@,
                                        final(self)@,
                                        entry_data,
                                        p,
                                        u,
                                        now,
                                    )
                                }
                            },
                        }
                    }
                },
            },
    {
        let p = match parse_uuid(entry_data.group_uuid.as_str()) {
            Some(p) => p,
            None => {
                return Err(DatabaseError::GroupNotFound);
            },
        };
        if find_group_ref(&self.root, p).is_none() {
            return Err(DatabaseError::GroupNotFound);
        }
        let generated = entry_data.uuid.as_str().is_empty();
        let u = if generated {
            fresh_uuid()
        } else {
            match parse_uuid(entry_data.uuid.as_str()) {
                Some(u) => u,
                None => {
                    return Err(DatabaseError::InvalidUuid);
                },
            }
        };
        proof {
            assert(nodes_view(self.root.children@).skip(0) =~= nodes_view(self.root.children@));
        }
        if find_entry_in_nodes(&self.root.children, 0, u).is_some() {
            return Err(DatabaseError::InvalidUuid);
        }
        let now = now_seconds();
        let e = entry_from_data(&entry_data, u, now);
        let ghost pre = self@;
        let root = self.take_root();
        let ghost rootv = root@;
        let (root2, nb) = insert_node_group(root, p, Node::Entry(e));
        self.root = root2;
        proof {
            lemma_insert_node(rootv, p, NodeView::Entry(entry_of_data(entry_data, u, now)));
        }
        match nb {
            None => {
                proof {
                    assert(self@ =~= (DbView {
                        root: insert_node(
                            pre.root,
                            p,
                            NodeView::Entry(entry_of_data(entry_data, u, now)),
                        ).0,
                        ..pre
                    }));
                    assert(inserted_entry_at(pre, self@, entry_data, p, u, now));
                    if crate::tree::tree_wf(pre.root) {
                        crate::laws::lemma_create_entry_preserves_wf(
                            pre.root,
                            p,
                            entry_of_data(entry_data, u, now),
                        );
                    }
                }
                Ok(())
            },
            Some(_) => {
                // The parent was just found, so insertion cannot miss it.
                proof {
                    assert(false);
                }
                Err(DatabaseError::GroupNotFound)
            },
        }
    }

    /// Updates the entry named by the record: a change to any semantic
    /// field stacks the prior snapshot first; timestamps always advance.
    pub fn update_entry(&mut self, entry_data: EntryData) -> (r: Result<(), DatabaseError>)
        ensures
            crate::tree::tree_wf(old(self)@.root) ==> crate::tree::tree_wf(final(self)@.root),
            match uuid_parse_spec(entry_data.uuid@) {
                None => r matches Err(DatabaseError::EntryNotFound) && final(self)@ == old(self)@,
                Some(u) => {
                    if find_entry(old(self)@.root, u) is Some {
                        r is Ok && exists|now: u64| #[trigger] updated_entry_at(
                            old(self)@,
                            final(self)@,
                            entry_data,
                            u,
                            now,
                        )
                    } else {
                        r matches Err(DatabaseError::EntryNotFound) && final(self)@ == old(self)@
                    }
                },
            },
    {
        let u = match parse_uuid(entry_data.uuid.as_str()) {
            Some(u) => u,
            None => {
                return Err(DatabaseError::EntryNotFound);
            },
        };
        let now = now_seconds();
        let ghost pre = self@;
        let root = self.take_root();
        let ghost rootv = root@;
        let Group { uuid, name, icon_id, children } = root;
        let (cs2, found) = update_entry_nodes(children, u, &entry_data, now);
        self.root = Group { uuid, name, icon_id, children: cs2 };
        proof {
            lemma_update_entry_in(rootv.children, u, patch_of_data(entry_data), now);
        }
        if found {
            proof {
                assert(self@ =~= (DbView {
                    root: GroupView {
                        children: update_entry_in(
                            pre.root.children,
                            u,
                            patch_of_data(entry_data),
                            now,
                        ).0,
                        ..pre.root
                    },
                    ..pre
                }));
                assert(updated_entry_at(pre, self@, entry_data, u, now));
                if crate::tree::tree_wf(pre.root) {
                    crate::laws::lemma_update_preserves_wf(
                        pre.root,
                        u,
                        patch_of_data(entry_data),
                        now,
                    );
                }
            }
            Ok(())
        } else {
            proof {
                assert(self@ =~= pre);
            }
            Err(DatabaseError::EntryNotFound)
        }
    }

    /// Deletes the entry with the given identifier from its owning group.
    pub fn delete_entry(&mut self, entry_uuid: &str) -> (r: Result<(), DatabaseError>)
        ensures
            crate::tree::tree_wf(old(self)@.root) ==> crate::tree::tree_wf(final(self)@.root),
            match uuid_parse_spec(entry_uuid@) {
                None => r matches Err(DatabaseError::EntryNotFound) && final(self)@ == old(self)@,
                Some(u) => {
                    if find_entry(old(self)@.root, u) is Some {
                        r is Ok && final(self)@ == (DbView {
                            root: GroupView {
                                children: remove_entry_in(old(self)@.root.children, u).0,
                                ..old(self)@.root
                            },
                            ..old(self)@
                        })
                    } else {
                        r matches Err(DatabaseError::EntryNotFound) && final(self)@ == old(self)@
                    }
                },
            },
    {
        let u = match parse_uuid(entry_uuid) {
            Some(u) => u,
            None => {
                return Err(DatabaseError::EntryNotFound);
            },
        };
        let ghost pre = self@;
        let root = self.take_root();
        let ghost rootv = root@;
        let Group { uuid, name, icon_id, children } = root;
        let (cs2, removed) = remove_entry_nodes(children, u);
        self.root = Group { uuid, name, icon_id, children: cs2 };
        proof {
            lemma_remove_entry_in(rootv.children, u);
        }
        match removed {
            Some(_) => {
                proof {
                    assert(self@ =~= (DbView {
                        root: GroupView {
                            children: remove_entry_in(pre.root.children, u).0,
                            ..pre.root
                        },
                        ..pre
                    }));
                    if crate::tree::tree_wf(pre.root) {
                        crate::laws::lemma_delete_preserves_wf(pre.root, u);
                    }
                }
                Ok(())
            },
            None => {
                proof {
                    assert(self@ =~= pre);
                }
                Err(DatabaseError::EntryNotFound)
            },
        }
    }

    /// Moves the entry to another group, appending it to that group's
    /// children; moving to its current group is a successful no-op.
    pub fn move_entry(&mut self, entry_uuid: &str, new_group_uuid: &str) -> (r: Result<
        (),
        DatabaseError,
    >)
        ensures
            crate::tree::tree_wf(old(self)@.root) ==> crate::tree::tree_wf(final(self)@.root),
            match uuid_parse_spec(entry_uuid@) {
                None => r matches Err(DatabaseError::EntryNotFound) && final(self)@ == old(self)@,
                Some(u) => match entry_owner(old(self)@.root, u) {
                    None => r matches Err(DatabaseError::EntryNotFound) && final(self)@ == old(
                        self,
                    )@,
                    Some(o) => match uuid_parse_spec(new_group_uuid@) {
                        None => r matches Err(DatabaseError::GroupNotFound) && final(self)@ == old(
                            self,
                        )@,
                        Some(ng) => {
                            if o == ng {
                                r is Ok && final(self)@ == old(self)@
                            } else if find_group(old(self)@.root, ng) is None {
                                r matches Err(DatabaseError::GroupNotFound) && final(self)@ == old(
                                    self,
                                )@
                            } else {
                                r is Ok && final(self)@ == (DbView {
                                    root: insert_node(
                                        GroupView {
                                            children: remove_entry_in(
                                                old(self)@.root.children,
                                                u,
                                            ).0,
                                            ..old(self)@.root
                                        },
                                        ng,
                                        NodeView::Entry(
                                            remove_entry_in(
                                                old(self)@.root.children,
                                                u,
                                            ).1.unwrap(),
                                        ),
                                    ).0,
                                    ..old(self)@
                                })
                            }
                        },
                    },
                },
            },
    {
        let u = match parse_uuid(entry_uuid) {
            Some(u) => u,
            None => {
                return Err(DatabaseError::EntryNotFound);
            },
        };
        proof {
            assert(nodes_view(self.root.children@).skip(0) =~= nodes_view(self.root.children@));
        }
        let o = match entry_owner_in_nodes(&self.root.children, 0, self.root.uuid, u) {
            Some(o) => o,
            None => {
                return Err(DatabaseError::EntryNotFound);
            },
        };
        let ng = match parse_uuid(new_group_uuid) {
            Some(ng) => ng,
            None => {
                return Err(DatabaseError::GroupNotFound);
            },
        };
        if o == ng {
            return Ok(());
        }
        if find_group_ref(&self.root, ng).is_none() {
            return Err(DatabaseError::GroupNotFound);
        }
        let ghost pre = self@;
        let root = self.take_root();
        let ghost rootv = root@;
        let Group { uuid, name, icon_id, children } = root;
        let (cs2, removed) = remove_entry_nodes(children, u);
        proof {
            lemma_remove_entry_in(rootv.children, u);
            crate::tree::lemma_owner_iff_found(rootv.children, rootv.uuid, u);
            crate::mutate::lemma_remove_entry_keeps_groups(rootv.children, u, ng);
        }
        let e = match removed {
            Some(e) => e,
            None => {
                // The owner was just found, so removal cannot miss it.
                proof {
                    assert(false);
                }
                self.root = Group { uuid, name, icon_id, children: cs2 };
                return Err(DatabaseError::EntryNotFound);
            },
        };
        let root1 = Group { uuid, name, icon_id, children: cs2 };
        let ghost root1v = root1@;
        proof {
            assert(root1v =~= (GroupView {
                children: remove_entry_in(rootv.children, u).0,
                ..rootv
            }));
            lemma_insert_node(root1v, ng, NodeView::Entry(e@));
            assert(find_group(root1v, ng) is Some) by {
                if rootv.uuid != ng {
                    assert(find_group_in(rootv.children, ng) is Some);
                }
            }
        }
        let (root2, nb) = insert_node_group(root1, ng, Node::Entry(e));
        self.root = root2;
        match nb {
            None => {
                proof {
                    assert(self@ =~= (DbView {
                        root: insert_node(
                            GroupView {
                                children: remove_entry_in(pre.root.children, u).0,
                                ..pre.root
                            },
                            ng,
                            NodeView::Entry(remove_entry_in(pre.root.children, u).1.unwrap()),
                        ).0,
                        ..pre
                    }));
                    if crate::tree::tree_wf(pre.root) {
                        crate::laws::lemma_move_entry_preserves_wf(pre.root, u, ng);
                    }
                }
                Ok(())
            },
            Some(_) => {
                // The target group survives entry removal, so insertion
                // cannot miss it.
                proof {
                    assert(false);
                }
                Err(DatabaseError::GroupNotFound)
            },
        }
    }

    /// Creates a group under the given parent (the root when none is
    /// named), with a freshly drawn identifier.
    #[verifier::rlimit(60)]
    pub fn create_group(&mut self, name: String, parent_uuid: Option<String>, icon_id: Option<
        u32,
    >) -> (r: Result<(), DatabaseError>)
        ensures
            match parent_resolve(parent_uuid, old(self)@) {
                None => r matches Err(DatabaseError::GroupNotFound) && final(self)@ == old(self)@,
                Some(p) => {
                    if find_group(old(self)@.root, p) is None {
                        r matches Err(DatabaseError::GroupNotFound) && final(self)@ == old(self)@
                    } else {
                        match r {
                            // A freshly drawn identifier may, in principle,
                            // collide with an existing group; creation is then
                            // refused and nothing changes.
                            Ok(_) => exists|nu: u128|
                                find_group(old(self)@.root, nu) is None
                                    && #[trigger] inserted_group(
                                    old(self)@,
                                    final(self)@,
                                    name@,
                                    icon_of(icon_id),
                                    p,
                                    nu,
                                ),
                            Err(e) => e is GroupNotFound && final(self)@ == old(self)@,
                        }
                    }
                },
            },
            r is Ok && crate::tree::tree_wf(old(self)@.root) ==> crate::tree::tree_wf(
                final(self)@.root,
            ),
    {
        let p = match parent_uuid {
            Some(ps) => match parse_uuid(ps.as_str()) {
                Some(p) => p,
                None => {
                    return Err(DatabaseError::GroupNotFound);
                },
            },
            None => self.root.uuid,
        };
        if find_group_ref(&self.root, p).is_none() {
            return Err(DatabaseError::GroupNotFound);
        }
        let nu = fresh_uuid();
        if find_group_ref(&self.root, nu).is_some() {
            return Err(DatabaseError::GroupNotFound);
        }
        let icon: Option<usize> = match icon_id {
            Some(i) => Some(i as usize),
            None => None,
        };
        let new_group = Group { uuid: nu, name, icon_id: icon, children: Vec::new() };
        let ghost ngv = new_group@;
        proof {
            assert(ngv.children =~= Seq::<NodeView>::empty());
        }
        let ghost pre = self@;
        let root = self.take_root();
        let ghost rootv = root@;
        proof {
            lemma_insert_node(rootv, p, NodeView::Group(ngv));
        }
        let (root2, nb) = insert_node_group(root, p, Node::Group(new_group));
        self.root = root2;
        match nb {
            None => {
                proof {
                    assert(self@ =~= (DbView {
                        root: insert_node(pre.root, p, NodeView::Group(ngv)).0,
                        ..pre
                    }));
                    assert(ngv.icon_id == icon_of(icon_id));
                    assert(inserted_group(pre, self@, ngv.name, icon_of(icon_id), p, nu));
                    assert(exists|w: u128|
                        inserted_group(pre, self@, ngv.name, icon_of(icon_id), p, w));
                    if crate::tree::tree_wf(pre.root) {
                        crate::laws::lemma_create_group_preserves_wf(pre.root, p, ngv);
                    }
                }
                Ok(())
            },
            Some(_) => {
                // The parent was just found, so insertion cannot miss it.
                proof {
                    assert(false);
                }
                Err(DatabaseError::GroupNotFound)
            },
        }
    }

    /// Renames the group with the given identifier, updating its icon
    /// only when one is supplied.
    pub fn rename_group(&mut self, group_uuid: &str, new_name: String, icon_id: Option<u32>) -> (r:
        Result<(), DatabaseError>)
        ensures
            crate::tree::tree_wf(old(self)@.root) ==> crate::tree::tree_wf(final(self)@.root),
            match uuid_parse_spec(group_uuid@) {
                None => r matches Err(DatabaseError::GroupNotFound) && final(self)@ == old(self)@,
                Some(u) => {
                    if find_group(old(self)@.root, u) is Some {
                        r is Ok && final(self)@ == (DbView {
                            root: rename_group_tree(
                                old(self)@.root,
                                u,
                                new_name@,
                                match icon_id {
                                    Some(i) => Some(i as usize),
                                    None => None,
                                },
                            ).0,
                            ..old(self)@
                        })
                    } else {
                        r matches Err(DatabaseError::GroupNotFound) && final(self)@ == old(self)@
                    }
                },
            },
    {
        let u = match parse_uuid(group_uuid) {
            Some(u) => u,
            None => {
                return Err(DatabaseError::GroupNotFound);
            },
        };
        let icon: Option<usize> = match icon_id {
            Some(i) => Some(i as usize),
            None => None,
        };
        let ghost pre = self@;
        let root = self.take_root();
        let ghost rootv = root@;
        let (root2, found) = rename_group_apply(root, u, &new_name, icon);
        self.root = root2;
        proof {
            crate::mutate::lemma_rename_group_tree(rootv, u, new_name@, icon);
        }
        if found {
            proof {
                assert(self@ =~= (DbView {
                    root: rename_group_tree(pre.root, u, new_name@, icon).0,
                    ..pre
                }));
                if crate::tree::tree_wf(pre.root) {
                    crate::laws::lemma_rename_preserves_wf(pre.root, u, new_name@, icon);
                }
            }
            Ok(())
        } else {
            proof {
                assert(self@ =~= pre);
            }
            Err(DatabaseError::GroupNotFound)
        }
    }

    /// Moves the group under a new parent, appending it there.  The root
    /// cannot move, a group cannot move into itself or any of its
    /// descendants, and the target must exist.
    pub fn move_group(&mut self, group_uuid: &str, new_parent_uuid: &str) -> (r: Result<
        (),
        DatabaseError,
    >)
        ensures
            crate::tree::tree_wf(old(self)@.root) ==> crate::tree::tree_wf(final(self)@.root),
            r is Err ==> final(self)@ == old(self)@ && (r matches Err(e) ==> e is GroupNotFound),
            match (uuid_parse_spec(group_uuid@), uuid_parse_spec(new_parent_uuid@)) {
                (Some(u), Some(np)) => {
                    if u == old(self)@.root.uuid {
                        r is Err
                    } else {
                        match find_group(old(self)@.root, u) {
                            None => r is Err,
                            Some(sub) => {
                                if find_group(sub, np) is Some {
                                    r is Err
                                } else if find_group(old(self)@.root, np) is None {
                                    r is Err
                                } else {
                                    r is Ok && final(self)@ == (DbView {
                                        root: insert_node(
                                            GroupView {
                                                children: remove_group_in(
                                                    old(self)@.root.children,
                                                    u,
                                                ).0,
                                                ..old(self)@.root
                                            },
                                            np,
                                            NodeView::Group(
                                                remove_group_in(
                                                    old(self)@.root.children,
                                                    u,
                                                ).1.unwrap(),
                                            ),
                                        ).0,
                                        ..old(self)@
                                    })
                                }
                            },
                        }
                    }
                },
                _ => r is Err,
            },
    {
        let u = match parse_uuid(group_uuid) {
            Some(u) => u,
            None => {
                return Err(DatabaseError::GroupNotFound);
            },
        };
        if u == self.root.uuid {
            return Err(DatabaseError::GroupNotFound);
        }
        let np = match parse_uuid(new_parent_uuid) {
            Some(np) => np,
            None => {
                return Err(DatabaseError::GroupNotFound);
            },
        };
        let sub = match find_group_ref(&self.root, u) {
            Some(sub) => sub,
            None => {
                return Err(DatabaseError::GroupNotFound);
            },
        };
        if find_group_ref(sub, np).is_some() {
            return Err(DatabaseError::GroupNotFound);
        }
        if find_group_ref(&self.root, np).is_none() {
            return Err(DatabaseError::GroupNotFound);
        }
        let ghost pre = self@;
        let root = self.take_root();
        let ghost rootv = root@;
        let Group { uuid, name, icon_id, children } = root;
        let (cs2, removed) = remove_group_nodes(children, u);
        proof {
            lemma_remove_group_in(rootv.children, u);
            assert(find_group_in(rootv.children, u) is Some);
        }
        let det = match removed {
            Some(det) => det,
            None => {
                // The group was just found below the root, so detachment
                // cannot miss it.
                proof {
                    assert(false);
                }
                self.root = Group { uuid, name, icon_id, children: cs2 };
                return Err(DatabaseError::GroupNotFound);
            },
        };
        let root1 = Group { uuid, name, icon_id, children: cs2 };
        let ghost root1v = root1@;
        proof {
            assert(root1v =~= (GroupView {
                children: remove_group_in(rootv.children, u).0,
                ..rootv
            }));
            assert(find_group_in(rootv.children, u) == find_group(rootv, u));
            crate::mutate::lemma_remove_group_keeps_groups(rootv.children, u, np);
            lemma_insert_node(root1v, np, NodeView::Group(det@));
            assert(find_group(root1v, np) is Some) by {
                if rootv.uuid != np {
                    assert(find_group_in(rootv.children, np) is Some);
                }
            }
        }
        let (root2, nb) = insert_node_group(root1, np, Node::Group(det));
        self.root = root2;
        match nb {
            None => {
                proof {
                    assert(self@ =~= (DbView {
                        root: insert_node(
                            GroupView {
                                children: remove_group_in(pre.root.children, u).0,
                                ..pre.root
                            },
                            np,
                            NodeView::Group(remove_group_in(pre.root.children, u).1.unwrap()),
                        ).0,
                        ..pre
                    }));
                    if crate::tree::tree_wf(pre.root) {
                        crate::laws::lemma_move_group_preserves_wf(pre.root, u, np);
                    }
                }
                Ok(())
            },
            Some(_) => {
                // The target survives the detachment, so insertion cannot
                // miss it.
                proof {
                    assert(false);
                }
                Err(DatabaseError::GroupNotFound)
            },
        }
    }

    /// Moves the group to the given position among its parent's children,
    /// clamping a forward move to the last valid position.  The root
    /// cannot be reordered.
    pub fn reorder_group(&mut self, group_uuid: &str, target_index: usize) -> (r: Result<
        (),
        DatabaseError,
    >)
        ensures
            crate::tree::tree_wf(old(self)@.root) ==> crate::tree::tree_wf(final(self)@.root),
            match uuid_parse_spec(group_uuid@) {
                None => r matches Err(DatabaseError::GroupNotFound) && final(self)@ == old(self)@,
                Some(u) => {
                    if u == old(self)@.root.uuid {
                        r matches Err(DatabaseError::GroupNotFound) && final(self)@ == old(self)@
                    } else {
                        let (cs, found) = reorder_rec(
                            old(self)@.root.children,
                            u,
                            target_index as int,
                        );
                        if found {
                            r is Ok && final(self)@ == (DbView {
                                root: GroupView { children: cs, ..old(self)@.root },
                                ..old(self)@
                            })
                        } else {
                            r matches Err(DatabaseError::GroupNotFound) && final(self)@ == old(
                                self,
                            )@
                        }
                    }
                },
            },
    {
        let u = match parse_uuid(group_uuid) {
            Some(u) => u,
            None => {
                return Err(DatabaseError::GroupNotFound);
            },
        };
        if u == self.root.uuid {
            return Err(DatabaseError::GroupNotFound);
        }
        let ghost pre = self@;
        let root = self.take_root();
        let ghost rootv = root@;
        let Group { uuid, name, icon_id, children } = root;
        let (cs2, found) = reorder_nodes(children, u, target_index);
        self.root = Group { uuid, name, icon_id, children: cs2 };
        proof {
            crate::mutate::lemma_reorder_rec(rootv.children, u, target_index as int);
        }
        if found {
            proof {
                assert(self@ =~= (DbView {
                    root: GroupView {
                        children: reorder_rec(pre.root.children, u, target_index as int).0,
                        ..pre.root
                    },
                    ..pre
                }));
                if crate::tree::tree_wf(pre.root) {
                    crate::laws::lemma_reorder_preserves_wf(pre.root, u, target_index as int);
                }
            }
            Ok(())
        } else {
            proof {
                assert(self@ =~= pre);
            }
            Err(DatabaseError::GroupNotFound)
        }
    }

    /// Deletes the group with the given identifier together with its
    /// whole subtree.  The root cannot be deleted.
    pub fn delete_group(&mut self, group_uuid: &str) -> (r: Result<(), DatabaseError>)
        ensures
            crate::tree::tree_wf(old(self)@.root) ==> crate::tree::tree_wf(final(self)@.root),
            match uuid_parse_spec(group_uuid@) {
                None => r matches Err(DatabaseError::GroupNotFound) && final(self)@ == old(self)@,
                Some(u) => {
                    if u == old(self)@.root.uuid {
                        r matches Err(DatabaseError::GroupNotFound) && final(self)@ == old(self)@
                    } else if find_group(old(self)@.root, u) is Some {
                        r is Ok && final(self)@ == (DbView {
                            root: GroupView {
                                children: remove_group_in(old(self)@.root.children, u).0,
                                ..old(self)@.root
                            },
                            ..old(self)@
                        })
                    } else {
                        r matches Err(DatabaseError::GroupNotFound) && final(self)@ == old(self)@
                    }
                },
            },
    {
        let u = match parse_uuid(group_uuid) {
            Some(u) => u,
            None => {
                return Err(DatabaseError::GroupNotFound);
            },
        };
        if u == self.root.uuid {
            return Err(DatabaseError::GroupNotFound);
        }
        let ghost pre = self@;
        let root = self.take_root();
        let ghost rootv = root@;
        let Group { uuid, name, icon_id, children } = root;
        let (cs2, removed) = remove_group_nodes(children, u);
        self.root = Group { uuid, name, icon_id, children: cs2 };
        proof {
            lemma_remove_group_in(rootv.children, u);
            assert(find_group_in(rootv.children, u) == find_group(rootv, u));
        }
        match removed {
            Some(_) => {
                proof {
                    assert(self@ =~= (DbView {
                        root: GroupView {
                            children: remove_group_in(pre.root.children, u).0,
                            ..pre.root
                        },
                        ..pre
                    }));
                    if crate::tree::tree_wf(pre.root) {
                        crate::laws::lemma_delete_group_preserves_wf(pre.root, u);
                    }
                }
                Ok(())
            },
            None => {
                proof {
                    assert(self@ =~= pre);
                }
                Err(DatabaseError::GroupNotFound)
            },
        }
    }
}

} // verus!
