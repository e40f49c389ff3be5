//! Case-insensitive substring search across entry fields, over the whole
//! tree or scoped to a subtree.  Results come in tree pre-order.

use vstd::prelude::*;

use crate::data::{EntryData, entry_data_matches, entry_rows_match};
use crate::ids::{parse_uuid, uuid_format_spec, uuid_parse_spec};
use crate::lookup::find_group_ref;
use crate::model::{Database, EntryView, Group, GroupView, Node, NodeView, nodes_view,
    nodes_view_index, nodes_view_len};
use crate::tree::{all_entries, descendants_in, descendant_uuids, find_group};

verus! {

/// The lowercasing of a string, as `str::to_lowercase` computes it: a
/// function of the characters alone, left uninterpreted.
pub uninterp spec fn lower_of(s: Seq<char>) -> Seq<char>;

/// Relies on `str::to_lowercase`: the Unicode lowercase mapping of the
/// text, depending on the characters alone.
#[verifier::external_body]
pub(crate) fn lowercase(s: &str) -> (r: String)
    ensures
        r@ == lower_of(s@),
{
    s.to_lowercase()
}

/// Whether `n` occurs as a contiguous run of characters inside `h`.
pub open spec fn spec_contains(h: Seq<char>, n: Seq<char>) -> bool {
    exists|i: int| 0 <= i && i + n.len() <= h.len() && #[trigger] h.subrange(i, i + n.len()) == n
}

/// Relies on `str::contains` with a string pattern: true exactly when
/// the needle occurs as a substring of the haystack.
#[verifier::external_body]
pub(crate) fn str_contains(h: &str, n: &str) -> (r: bool)
    ensures
        r == spec_contains(h@, n@),
{
    h.contains(n)
}

/// Whether an entry matches a lowercased query: the query occurs in the
/// lowercasing of its title, user name, URL, notes or tags.
pub open spec fn entry_matches(e: EntryView, ql: Seq<char>) -> bool {
    ||| spec_contains(lower_of(e.title), ql)
    ||| spec_contains(lower_of(e.username), ql)
    ||| spec_contains(lower_of(e.url), ql)
    ||| spec_contains(lower_of(e.notes), ql)
    ||| spec_contains(lower_of(e.tags), ql)
}

/// The rows whose entries match the lowercased query, in order.
pub open spec fn filter_matching(rows: Seq<(u128, EntryView)>, ql: Seq<char>) -> Seq<
    (u128, EntryView),
>
    decreases rows.len(),
{
    if rows.len() == 0 {
        Seq::empty()
    } else {
        filter_matching(rows.drop_last(), ql) + (if entry_matches(rows.last().1, ql) {
            seq![rows.last()]
        } else {
            Seq::<(u128, EntryView)>::empty()
        })
    }
}

/// The identifiers a scope string denotes beyond itself: the descendants
/// of the named group, when the string parses and the group exists.
pub open spec fn scope_descendants(root: GroupView, scope: Seq<char>) -> Seq<u128> {
    match uuid_parse_spec(scope) {
        Some(su) => match find_group(root, su) {
            Some(g) => descendant_uuids(g),
            None => Seq::empty(),
        },
        None => Seq::empty(),
    }
}

/// Whether a row lies within the scope: its owning group renders as the
/// scope string itself, or is one of the scope's descendants.
pub open spec fn row_in_scope(owner: u128, root: GroupView, scope: Seq<char>) -> bool {
    uuid_format_spec(owner) == scope || scope_descendants(root, scope).contains(owner)
}

/// The rows in scope whose entries match the lowercased query, in order.
pub open spec fn filter_scoped(
    rows: Seq<(u128, EntryView)>,
    root: GroupView,
    scope: Seq<char>,
    ql: Seq<char>,
) -> Seq<(u128, EntryView)>
    decreases rows.len(),
{
    if rows.len() == 0 {
        Seq::empty()
    } else {
        filter_scoped(rows.drop_last(), root, scope, ql) + (if row_in_scope(
            rows.last().0,
            root,
            scope,
        ) && entry_matches(rows.last().1, ql) {
            seq![rows.last()]
        } else {
            Seq::<(u128, EntryView)>::empty()
        })
    }
}

/// Search scoped to a subtree never yields an entry whose owning group
/// lies outside that subtree: every result's owner is the scope group
/// itself or one of its descendants.
pub proof fn lemma_scoped_search_stays_in_scope(
    rows: Seq<(u128, EntryView)>,
    root: GroupView,
    scope: Seq<char>,
    ql: Seq<char>,
)
    ensures
        forall|i: int|
            0 <= i < filter_scoped(rows, root, scope, ql).len() ==> row_in_scope(
                #[trigger] filter_scoped(rows, root, scope, ql)[i].0,
                root,
                scope,
            ),
    decreases rows.len(),
{
    if rows.len() > 0 {
        lemma_scoped_search_stays_in_scope(rows.drop_last(), root, scope, ql);
        let prev = filter_scoped(rows.drop_last(), root, scope, ql);
        let cur = filter_scoped(rows, root, scope, ql);
        assert forall|i: int| 0 <= i < cur.len() implies row_in_scope(
            #[trigger] cur[i].0,
            root,
            scope,
        ) by {
            if i < prev.len() {
                assert(cur[i] == prev[i]);
            } else {
                assert(cur[i] == rows.last());
            }
        }
    }
}

/// Appends the identifiers of all groups below `cs[idx..]`, in
/// pre-order.
pub fn collect_descendants(cs: &Vec<Node>, idx: usize, out: &mut Vec<u128>)
    requires
        idx <= cs@.len(),
    ensures
        final(out)@ == old(out)@ + descendants_in(nodes_view(cs@).skip(idx as int)),
    decreases *cs, (cs@.len() - idx) as int,
{
    proof {
        nodes_view_len(cs@);
    }
    if idx == cs.len() {
        proof {
            assert(nodes_view(cs@).skip(idx as int) =~= Seq::<NodeView>::empty());
            assert(out@ =~= out@ + descendants_in(nodes_view(cs@).skip(idx as int)));
        }
    } else {
        proof {
            crate::lookup::skip_step(nodes_view(cs@), idx as int);
            nodes_view_index(cs@, idx as int);
        }
        let ghost pre = out@;
        match &cs[idx] {
            Node::Entry(_) => {},
            Node::Group(sub) => {
                out.push(sub.uuid);
                proof {
                    assert(decreases_to!(*cs => cs@[idx as int]));
                    assert(nodes_view(sub.children@).skip(0) =~= nodes_view(sub.children@));
                }
                collect_descendants(&sub.children, 0, out);
            },
        }
        let ghost mid = out@;
        collect_descendants(cs, idx + 1, out);
        proof {
            let s = nodes_view(cs@);
            assert(out@ == mid + descendants_in(s.skip(idx + 1)));
            match s[idx as int] {
                NodeView::Entry(_) => {
                    assert(mid == pre);
                    assert(descendants_in(s.skip(idx as int)) =~= Seq::<u128>::empty()
                        + descendants_in(s.skip(idx + 1)));
                    assert(out@ =~= pre + descendants_in(s.skip(idx as int)));
                },
                NodeView::Group(subv) => {
                    assert(mid =~= pre + (seq![subv.uuid] + descendants_in(subv.children)));
                    assert(out@ =~= pre + descendants_in(s.skip(idx as int)));
                },
            }
        }
    }
}

/// Whether the list holds the value.
fn contains_u128(v: &Vec<u128>, x: u128) -> (r: bool)
    ensures
        r == v@.contains(x),
{
    let mut i: usize = 0;
    while i < v.len()
        invariant
            i <= v@.len(),
            forall|j: int| 0 <= j < i ==> v@[j] != x,
        decreases v@.len() - i,
    {
        if v[i] == x {
            return true;
        }
        i = i + 1;
    }
    proof {
        assert(!v@.contains(x));
    }
    false
}

/// Whether the record matches the lowercased query.
fn data_matches(d: &EntryData, ql: &String, e: Ghost<EntryView>) -> (r: bool)
    requires
        d.title@ == e@.title,
        d.username@ == e@.username,
        d.url@ == e@.url,
        d.notes@ == e@.notes,
        d.tags@ == e@.tags,
    ensures
        r == entry_matches(e@, ql@),
{
    let lt = lowercase(d.title.as_str());
    if str_contains(lt.as_str(), ql.as_str()) {
        return true;
    }
    let lu = lowercase(d.username.as_str());
    if str_contains(lu.as_str(), ql.as_str()) {
        return true;
    }
    let lr = lowercase(d.url.as_str());
    if str_contains(lr.as_str(), ql.as_str()) {
        return true;
    }
    let ln = lowercase(d.notes.as_str());
    if str_contains(ln.as_str(), ql.as_str()) {
        return true;
    }
    let lg = lowercase(d.tags.as_str());
    if str_contains(lg.as_str(), ql.as_str()) {
        return true;
    }
    false
}

impl Database {
    /// Case-insensitive substring search across every entry of the tree.
    pub fn search_entries(&self, query: &str) -> (r: Vec<EntryData>)
        ensures
            entry_rows_match(r@, filter_matching(all_entries(self@.root), lower_of(query@))),
    {
        let ghost rows = all_entries(self@.root);
        let ghost qv = lower_of(query@);
        let entries = self.get_all_entries();
        let ql = lowercase(query);
        let mut out: Vec<EntryData> = Vec::new();
        proof {
            assert(rows.take(0) =~= Seq::<(u128, EntryView)>::empty());
        }
        let mut i: usize = 0;
        while i < entries.len()
            invariant
                entries@.len() == rows.len(),
                entry_rows_match(entries@, rows),
                ql@ == qv,
                i <= rows.len(),
                entry_rows_match(out@, filter_matching(rows.take(i as int), qv)),
            decreases rows.len() - i,
        {
            proof {
                assert(entry_data_matches(entries@[i as int], rows[i as int].1, rows[i as int].0));
                assert(rows.take(i + 1).drop_last() =~= rows.take(i as int));
                assert(rows.take(i + 1).last() == rows[i as int]);
            }
            let ghost prev = out@;
            let d = &entries[i];
            if data_matches(d, &ql, Ghost(rows[i as int].1)) {
                out.push(crate::convert::clone_entry_data(d));
                proof {
                    assert(out@.drop_last() =~= prev);
                }
            }
            proof {
                assert(entry_rows_match(out@, filter_matching(rows.take(i + 1), qv)));
            }
            i = i + 1;
        }
        proof {
            assert(rows.take(rows.len() as int) =~= rows);
        }
        out
    }

    /// Case-insensitive substring search limited to the named subtree:
    /// the scope group itself and all of its descendants.
    pub fn search_entries_in_group(&self, query: &str, group_uuid: &str) -> (r: Vec<EntryData>)
        ensures
            entry_rows_match(
                r@,
                filter_scoped(
                    all_entries(self@.root),
                    self@.root,
                    group_uuid@,
                    lower_of(query@),
                ),
            ),
    {
        let ghost rows = all_entries(self@.root);
        let ghost qv = lower_of(query@);
        let entries = self.get_all_entries();
        let ql = lowercase(query);
        let scope_s = String::from_str(group_uuid);
        let mut descendants: Vec<u128> = Vec::new();
        match parse_uuid(group_uuid) {
            Some(su) => {
                match find_group_ref(&self.root, su) {
                    Some(g) => {
                        proof {
                            assert(nodes_view(g.children@).skip(0) =~= nodes_view(g.children@));
                        }
                        collect_descendants(&g.children, 0, &mut descendants);
                        proof {
                            assert(descendants@ =~= scope_descendants(self@.root, group_uuid@));
                        }
                    },
                    None => {
                        proof {
                            assert(descendants@ =~= scope_descendants(self@.root, group_uuid@));
                        }
                    },
                }
            },
            None => {
                proof {
                    assert(descendants@ =~= scope_descendants(self@.root, group_uuid@));
                }
            },
        }
        let mut out: Vec<EntryData> = Vec::new();
        proof {
            assert(rows.take(0) =~= Seq::<(u128, EntryView)>::empty());
        }
        let mut i: usize = 0;
        while i < entries.len()
            invariant
                entries@.len() == rows.len(),
                entry_rows_match(entries@, rows),
                ql@ == qv,
                scope_s@ == group_uuid@,
                descendants@ == scope_descendants(self@.root, group_uuid@),
                i <= rows.len(),
                entry_rows_match(
                    out@,
                    filter_scoped(rows.take(i as int), self@.root, group_uuid@, qv),
                ),
            decreases rows.len() - i,
        {
            proof {
                assert(entry_data_matches(entries@[i as int], rows[i as int].1, rows[i as int].0));
                assert(rows.take(i + 1).drop_last() =~= rows.take(i as int));
                assert(rows.take(i + 1).last() == rows[i as int]);
            }
            let ghost prev = out@;
            let d = &entries[i];
            let in_scope = if d.group_uuid == scope_s {
                true
            } else {
                match parse_uuid(d.group_uuid.as_str()) {
                    Some(ow) => contains_u128(&descendants, ow),
                    None => false,
                }
            };
            proof {
                assert(in_scope == row_in_scope(rows[i as int].0, self@.root, group_uuid@));
            }
            if in_scope {
                if data_matches(d, &ql, Ghost(rows[i as int].1)) {
                    out.push(crate::convert::clone_entry_data(d));
                    proof {
                        assert(out@.drop_last() =~= prev);
                    }
                }
            }
            proof {
                assert(entry_rows_match(
                    out@,
                    filter_scoped(rows.take(i + 1), self@.root, group_uuid@, qv),
                ));
            }
            i = i + 1;
        }
        proof {
            assert(rows.take(rows.len() as int) =~= rows);
        }
        out
    }
}

} // verus!
