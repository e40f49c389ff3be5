//! Executable depth-first lookups over the tree, each proved equal to its
//! mathematical counterpart in `tree`.

use vstd::prelude::*;

use crate::model::{Group, Node, NodeView, nodes_view, nodes_view_index, nodes_view_len};
use crate::tree::{entry_owner_in, find_entry_in, find_group, find_group_in, parent_of_in};
use crate::model::Entry;

verus! {

/// Unfolding helper: the suffix of a sequence starting at `i` begins with
/// element `i` and continues with the suffix starting at `i + 1`.
pub proof fn skip_step<T>(s: Seq<T>, i: int)
    requires
        0 <= i < s.len(),
    ensures
        s.skip(i).len() == s.len() - i,
        s.skip(i).first() == s[i],
        s.skip(i).drop_first() == s.skip(i + 1),
{
    assert(s.skip(i).drop_first() =~= s.skip(i + 1));
}

/// The first group with identifier `u` in pre-order from `g`.
pub fn find_group_ref<'a>(g: &'a Group, u: u128) -> (r: Option<&'a Group>)
    ensures
        match r {
            Some(f) => find_group(g@, u) == Some(f@),
            None => find_group(g@, u) is None,
        },
    decreases *g, 0int,
{
    if g.uuid == u {
        Some(g)
    } else {
        let r = find_group_in_nodes(&g.children, 0, u);
        proof {
            assert(nodes_view(g.children@).skip(0) =~= nodes_view(g.children@));
        }
        r
    }
}

/// The first group with identifier `u` among the children `cs[idx..]` and
/// their subtrees.
pub fn find_group_in_nodes<'a>(cs: &'a Vec<Node>, idx: usize, u: u128) -> (r: Option<&'a Group>)
    requires
        idx <= cs@.len(),
    ensures
        match r {
            Some(f) => find_group_in(nodes_view(cs@).skip(idx as int), u) == Some(f@),
            None => find_group_in(nodes_view(cs@).skip(idx as int), u) is None,
        },
    decreases *cs, 1int, (cs@.len() - idx) as int,
{
    proof {
        nodes_view_len(cs@);
    }
    if idx == cs.len() {
        proof {
            assert(nodes_view(cs@).skip(idx as int) =~= Seq::<NodeView>::empty());
        }
        None
    } else {
        proof {
            skip_step(nodes_view(cs@), idx as int);
            nodes_view_index(cs@, idx as int);
        }
        let found: Option<&Group> = match &cs[idx] {
            Node::Group(sub) => {
                proof {
                    assert(decreases_to!(*cs => cs@[idx as int]));
                }
                find_group_ref(sub, u)
            },
            Node::Entry(_) => None,
        };
        match found {
            Some(f) => Some(f),
            None => find_group_in_nodes(cs, idx + 1, u),
        }
    }
}

/// The first entry with identifier `u` in pre-order among the children
/// `cs[idx..]` and their subtrees.
pub fn find_entry_in_nodes<'a>(cs: &'a Vec<Node>, idx: usize, u: u128) -> (r: Option<&'a Entry>)
    requires
        idx <= cs@.len(),
    ensures
        match r {
            Some(f) => find_entry_in(nodes_view(cs@).skip(idx as int), u) == Some(f@),
            None => find_entry_in(nodes_view(cs@).skip(idx as int), u) is None,
        },
    decreases *cs, (cs@.len() - idx) as int,
{
    proof {
        nodes_view_len(cs@);
    }
    if idx == cs.len() {
        proof {
            assert(nodes_view(cs@).skip(idx as int) =~= Seq::<NodeView>::empty());
        }
        None
    } else {
        proof {
            skip_step(nodes_view(cs@), idx as int);
            nodes_view_index(cs@, idx as int);
        }
        let found: Option<&Entry> = match &cs[idx] {
            Node::Entry(e) => {
                if e.uuid == u {
                    Some(e)
                } else {
                    None
                }
            },
            Node::Group(sub) => {
                proof {
                    assert(decreases_to!(*cs => cs@[idx as int]));
                    assert(nodes_view(sub.children@).skip(0) =~= nodes_view(sub.children@));
                }
                find_entry_in_nodes(&sub.children, 0, u)
            },
        };
        match found {
            Some(f) => Some(f),
            None => find_entry_in_nodes(cs, idx + 1, u),
        }
    }
}

/// The identifier of the group that directly owns entry `u`, searching the
/// children `cs[idx..]` of the group `owner`.
pub fn entry_owner_in_nodes(cs: &Vec<Node>, idx: usize, owner: u128, u: u128) -> (r: Option<u128>)
    requires
        idx <= cs@.len(),
    ensures
        r == entry_owner_in(nodes_view(cs@).skip(idx as int), owner, u),
    decreases *cs, (cs@.len() - idx) as int,
{
    proof {
        nodes_view_len(cs@);
    }
    if idx == cs.len() {
        proof {
            assert(nodes_view(cs@).skip(idx as int) =~= Seq::<NodeView>::empty());
        }
        None
    } else {
        proof {
            skip_step(nodes_view(cs@), idx as int);
            nodes_view_index(cs@, idx as int);
        }
        let found: Option<u128> = match &cs[idx] {
            Node::Entry(e) => {
                if e.uuid == u {
                    Some(owner)
                } else {
                    None
                }
            },
            Node::Group(sub) => {
                proof {
                    assert(decreases_to!(*cs => cs@[idx as int]));
                    assert(nodes_view(sub.children@).skip(0) =~= nodes_view(sub.children@));
                }
                entry_owner_in_nodes(&sub.children, 0, sub.uuid, u)
            },
        };
        match found {
            Some(f) => Some(f),
            None => entry_owner_in_nodes(cs, idx + 1, owner, u),
        }
    }
}

/// The identifier of the parent of group `u`, searching the children
/// `cs[idx..]` of the group `owner`.
pub fn parent_of_in_nodes(cs: &Vec<Node>, idx: usize, owner: u128, u: u128) -> (r: Option<u128>)
    requires
        idx <= cs@.len(),
    ensures
        r == parent_of_in(nodes_view(cs@).skip(idx as int), owner, u),
    decreases *cs, (cs@.len() - idx) as int,
{
    proof {
        nodes_view_len(cs@);
    }
    if idx == cs.len() {
        proof {
            assert(nodes_view(cs@).skip(idx as int) =~= Seq::<NodeView>::empty());
        }
        None
    } else {
        proof {
            skip_step(nodes_view(cs@), idx as int);
            nodes_view_index(cs@, idx as int);
        }
        let found: Option<u128> = match &cs[idx] {
            Node::Entry(_) => None,
            Node::Group(sub) => {
                if sub.uuid == u {
                    Some(owner)
                } else {
                    proof {
                        assert(decreases_to!(*cs => cs@[idx as int]));
                        assert(nodes_view(sub.children@).skip(0) =~= nodes_view(
                            sub.children@,
                        ));
                    }
                    parent_of_in_nodes(&sub.children, 0, sub.uuid, u)
                }
            },
        };
        match found {
            Some(f) => Some(f),
            None => parent_of_in_nodes(cs, idx + 1, owner, u),
        }
    }
}

} // verus!
