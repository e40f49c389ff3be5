//! The read side of the store: snapshots of the tree as boundary records.
//! Every result is an owned copy; nothing borrows past the call.

use vstd::prelude::*;

use crate::convert::{entry_to_data, group_to_data};
use crate::data::{
    EntryData, GroupData, KdfInfo, entry_data_matches, entry_list_matches, entry_rows_match,
    group_data_matches,
};
use crate::errors::DatabaseError;
use crate::ids::{fresh_uuid, parse_uuid, uuid_parse_spec};
use crate::kdf::{kdf_info_of, kdf_info_matches, spec_strong_kdf, strong_kdf};
use crate::lookup::{entry_owner_in_nodes, find_entry_in_nodes, find_group_ref};
use crate::model::{Database, DbView, Entry, EntryView, Group, Node, NodeView, nodes_view,
    nodes_view_index, nodes_view_len};
use crate::tree::{all_entries, direct_entries, entries_in, entry_owner, find_entry, find_group};

verus! {

/// Concatenating matched rows keeps them matched.
pub proof fn entry_rows_match_concat(
    a: Seq<EntryData>,
    b: Seq<EntryData>,
    x: Seq<(u128, EntryView)>,
    y: Seq<(u128, EntryView)>,
)
    requires
        entry_rows_match(a, x),
        entry_rows_match(b, y),
    ensures
        entry_rows_match(a + b, x + y),
{
    assert forall|i: int| 0 <= i < a.len() + b.len() implies #[trigger] entry_data_matches(
        (a + b)[i],
        (x + y)[i].1,
        (x + y)[i].0,
    ) by {
        if i < a.len() {
            assert((a + b)[i] == a[i]);
            assert((x + y)[i] == x[i]);
        } else {
            assert((a + b)[i] == b[i - a.len()]);
            assert((x + y)[i] == y[i - a.len()]);
        }
    }
}

/// The rows whose entries are marked favorite, in order.
pub open spec fn filter_favorites(rows: Seq<(u128, EntryView)>) -> Seq<(u128, EntryView)>
    decreases rows.len(),
{
    if rows.len() == 0 {
        Seq::empty()
    } else {
        filter_favorites(rows.drop_last()) + (if rows.last().1.is_favorite {
            seq![rows.last()]
        } else {
            Seq::<(u128, EntryView)>::empty()
        })
    }
}

/// Collects, in pre-order, all entries under the children `cs[idx..]` of
/// the group `owner`, rendered as boundary records.
fn collect_entries_nodes(cs: &Vec<Node>, idx: usize, owner: u128) -> (r: Vec<EntryData>)
    requires
        idx <= cs@.len(),
    ensures
        entry_rows_match(r@, entries_in(nodes_view(cs@).skip(idx as int), owner)),
    decreases *cs, (cs@.len() - idx) as int,
{
    proof {
        nodes_view_len(cs@);
    }
    if idx == cs.len() {
        proof {
            assert(nodes_view(cs@).skip(idx as int) =~= Seq::<NodeView>::empty());
        }
        Vec::new()
    } else {
        proof {
            crate::lookup::skip_step(nodes_view(cs@), idx as int);
            nodes_view_index(cs@, idx as int);
        }
        let ghost rows = entries_in(nodes_view(cs@).skip(idx as int), owner);
        let mut head: Vec<EntryData> = match &cs[idx] {
            Node::Entry(e) => {
                let mut v: Vec<EntryData> = Vec::new();
                v.push(entry_to_data(e, owner));
                v
            },
            Node::Group(sub) => {
                proof {
                    assert(decreases_to!(*cs => cs@[idx as int]));
                    assert(nodes_view(sub.children@).skip(0) =~= nodes_view(sub.children@));
                }
                collect_entries_nodes(&sub.children, 0, sub.uuid)
            },
        };
        let ghost head_rows = match nodes_view(cs@)[idx as int] {
            NodeView::Entry(e) => seq![(owner, e)],
            NodeView::Group(sub) => entries_in(sub.children, sub.uuid),
        };
        proof {
            assert(entry_rows_match(head@, head_rows));
        }
        let mut tail = collect_entries_nodes(cs, idx + 1, owner);
        proof {
            entry_rows_match_concat(
                head@,
                tail@,
                head_rows,
                entries_in(nodes_view(cs@).skip(idx + 1), owner),
            );
            assert(rows == head_rows + entries_in(nodes_view(cs@).skip(idx + 1), owner));
        }
        head.append(&mut tail);
        head
    }
}

impl Database {
    /// A fresh, empty database: a root group carrying the given name, an
    /// empty attachment table, no watermark, and the strong default
    /// key-derivation parameters.
    pub fn create(name: String) -> (db: Database)
        ensures
            db@.root.name == name@,
            db@.root.icon_id is None,
            db@.root.children == Seq::<NodeView>::empty(),
            db@.attachment_table == Seq::<Seq<u8>>::empty(),
            db@.last_modified is None,
            db@.kdf == spec_strong_kdf(),
    {
        let root = Group { uuid: fresh_uuid(), name, icon_id: None, children: Vec::new() };
        let db = Database {
            root,
            attachment_table: Vec::new(),
            last_modified: None,
            kdf: strong_kdf(),
        };
        proof {
            assert(db@.root.children =~= Seq::<NodeView>::empty());
            assert(db@.attachment_table =~= Seq::<Seq<u8>>::empty());
        }
        db
    }

    /// The whole folder hierarchy, rooted at the tree's root.
    pub fn get_root_group(&self) -> (d: GroupData)
        ensures
            group_data_matches(d, self@.root, None),
    {
        group_to_data(&self.root, None)
    }

    /// The entry with the given identifier, rendered with its owning
    /// group; fails with `EntryNotFound` when the identifier is malformed
    /// or absent.
    pub fn get_entry(&self, entry_uuid: &str) -> (r: Result<EntryData, DatabaseError>)
        ensures
            match uuid_parse_spec(entry_uuid@) {
                None => r matches Err(DatabaseError::EntryNotFound),
                Some(u) => match (find_entry(self@.root, u), entry_owner(self@.root, u)) {
                    (Some(e), Some(o)) => r matches Ok(d) && entry_data_matches(d, e, o),
                    _ => r matches Err(DatabaseError::EntryNotFound),
                },
            },
    {
        let u = match parse_uuid(entry_uuid) {
            Some(u) => u,
            None => {
                return Err(DatabaseError::EntryNotFound);
            },
        };
        proof {
            assert(nodes_view(self.root.children@).skip(0) =~= nodes_view(self.root.children@));
        }
        let e = match find_entry_in_nodes(&self.root.children, 0, u) {
            Some(e) => e,
            None => {
                return Err(DatabaseError::EntryNotFound);
            },
        };
        let o = match entry_owner_in_nodes(&self.root.children, 0, self.root.uuid, u) {
            Some(o) => o,
            None => {
                return Err(DatabaseError::EntryNotFound);
            },
        };
        Ok(entry_to_data(e, o))
    }

    /// Every entry of the tree, in pre-order, as boundary records.
    pub fn get_all_entries(&self) -> (r: Vec<EntryData>)
        ensures
            entry_rows_match(r@, all_entries(self@.root)),
    {
        proof {
            assert(nodes_view(self.root.children@).skip(0) =~= nodes_view(self.root.children@));
        }
        collect_entries_nodes(&self.root.children, 0, self.root.uuid)
    }

    /// The entries marked favorite, in pre-order.
    pub fn get_favorite_entries(&self) -> (r: Vec<EntryData>)
        ensures
            entry_rows_match(r@, filter_favorites(all_entries(self@.root))),
    {
        let ghost rows = all_entries(self@.root);
        let entries = self.get_all_entries();
        let mut out: Vec<EntryData> = Vec::new();
        proof {
            assert(rows.take(0) =~= Seq::<(u128, EntryView)>::empty());
        }
        let mut i: usize = 0;
        while i < entries.len()
            invariant
                entries@.len() == rows.len(),
                entry_rows_match(entries@, rows),
                i <= rows.len(),
                entry_rows_match(out@, filter_favorites(rows.take(i as int))),
            decreases rows.len() - i,
        {
            proof {
                assert(entry_data_matches(entries@[i as int], rows[i as int].1, rows[i as int].0));
                assert(rows.take(i + 1).drop_last() =~= rows.take(i as int));
                assert(rows.take(i + 1).last() == rows[i as int]);
            }
            let ghost prev = out@;
            let d = &entries[i];
            if d.is_favorite {
                out.push(crate::convert::clone_entry_data(d));
                proof {
                    assert(out@.drop_last() =~= prev);
                }
            }
            proof {
                assert(entry_rows_match(out@, filter_favorites(rows.take(i + 1))));
            }
            i = i + 1;
        }
        proof {
            assert(rows.take(rows.len() as int) =~= rows);
        }
        out
    }

    /// The entries sitting directly in the given group, in display order;
    /// fails with `GroupNotFound` when the identifier is malformed or
    /// absent.
    pub fn get_entries_in_group(&self, group_uuid: &str) -> (r: Result<
        Vec<EntryData>,
        DatabaseError,
    >)
        ensures
            match uuid_parse_spec(group_uuid@) {
                None => r matches Err(DatabaseError::GroupNotFound),
                Some(u) => match find_group(self@.root, u) {
                    Some(g) => r matches Ok(v) && entry_list_matches(
                        v@,
                        direct_entries(g.children),
                        g.uuid,
                    ),
                    None => r matches Err(DatabaseError::GroupNotFound),
                },
            },
    {
        let u = match parse_uuid(group_uuid) {
            Some(u) => u,
            None => {
                return Err(DatabaseError::GroupNotFound);
            },
        };
        let g = match find_group_ref(&self.root, u) {
            Some(g) => g,
            None => {
                return Err(DatabaseError::GroupNotFound);
            },
        };
        let ghost cs = nodes_view(g.children@);
        proof {
            nodes_view_len(g.children@);
            assert(cs.take(0) =~= Seq::<NodeView>::empty());
        }
        let mut out: Vec<EntryData> = Vec::new();
        let mut i: usize = 0;
        while i < g.children.len()
            invariant
                i <= g.children@.len(),
                cs == nodes_view(g.children@),
                cs.len() == g.children@.len(),
                entry_list_matches(out@, direct_entries(cs.take(i as int)), g@.uuid),
            decreases g.children@.len() - i,
        {
            proof {
                nodes_view_index(g.children@, i as int);
                assert(cs.take(i + 1).drop_last() =~= cs.take(i as int));
                assert(cs.take(i + 1).last() == cs[i as int]);
            }
            let ghost prev = out@;
            match &g.children[i] {
                Node::Group(_) => {
                    proof {
                        assert(entry_list_matches(out@, direct_entries(cs.take(i + 1)), g@.uuid));
                    }
                },
                Node::Entry(e) => {
                    let d = entry_to_data(e, g.uuid);
                    out.push(d);
                    proof {
                        assert(out@.drop_last() =~= prev);
                        assert(entry_list_matches(out@, direct_entries(cs.take(i + 1)), g@.uuid));
                    }
                },
            }
            i = i + 1;
        }
        proof {
            assert(cs.take(cs.len() as int) =~= cs);
        }
        Ok(out)
    }

    /// Whether the backing file changed since the watermark was taken;
    /// purely advisory, `current_modified` being the file's modification
    /// time as observed by the caller.
    pub fn check_for_changes(&self, current_modified: Option<u64>) -> (r: Result<
        bool,
        DatabaseError,
    >)
        ensures
            r matches Ok(b) && b == match (self@.last_modified, current_modified) {
                (Some(last), Some(current)) => current > last,
                _ => false,
            },
    {
        match (self.last_modified, current_modified) {
            (Some(last), Some(current)) => Ok(current > last),
            _ => Ok(false),
        }
    }

    /// The key-derivation report for the backing file.
    pub fn get_kdf_info(&self) -> (r: KdfInfo)
        ensures
            kdf_info_matches(r, self@.kdf),
    {
        kdf_info_of(&self.kdf)
    }

    /// Replaces the recorded derivation parameters with the strong
    /// defaults; the caller is expected to save afterwards.
    pub fn upgrade_kdf_parameters(&mut self) -> (r: Result<(), DatabaseError>)
        ensures
            r is Ok,
            final(self)@ == (DbView { kdf: spec_strong_kdf(), ..old(self)@ }),
    {
        self.kdf = strong_kdf();
        proof {
            assert(self@ =~= (DbView { kdf: spec_strong_kdf(), ..old(self)@ }));
        }
        Ok(())
    }
}

} // verus!
