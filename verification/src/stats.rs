//! The dashboard aggregation: password-strength estimation, reuse
//! detection by content hash, staleness and expiry classification, and
//! summary counts, recomputed in one pass over the live tree.
//!
//! Strength is measured in thousandths of a bit: the character-space
//! size follows which character classes occur, and the estimate is the
//! password length times the binary logarithm of that size.

use vstd::prelude::*;

use crate::data::{DashboardStats, entry_rows_match};
use crate::ids::now_seconds;
use crate::model::{Database, EntryView, views_of};
use crate::tree::all_entries;

verus! {

/// Whether a character has the Unicode lowercase property, as
/// `char::is_lowercase` decides it.
pub uninterp spec fn char_lower_of(c: char) -> bool;

/// Whether a character has the Unicode uppercase property, as
/// `char::is_uppercase` decides it.
pub uninterp spec fn char_upper_of(c: char) -> bool;

/// Whether a character is numeric, as `char::is_numeric` decides it.
pub uninterp spec fn char_numeric_of(c: char) -> bool;

/// Whether a character is alphanumeric, as `char::is_alphanumeric`
/// decides it.
pub uninterp spec fn char_alnum_of(c: char) -> bool;

/// Relies on `char::is_lowercase`: the Unicode Lowercase property of the
/// character alone.
pub assume_specification[ char::is_lowercase ](c: char) -> (r: bool)
    ensures
        r == char_lower_of(c),
;

/// Relies on `char::is_uppercase`: the Unicode Uppercase property of the
/// character alone.
pub assume_specification[ char::is_uppercase ](c: char) -> (r: bool)
    ensures
        r == char_upper_of(c),
;

/// Relies on `char::is_numeric`: the Unicode numeric property of the
/// character alone.
pub assume_specification[ char::is_numeric ](c: char) -> (r: bool)
    ensures
        r == char_numeric_of(c),
;

/// Relies on `char::is_alphanumeric`: alphabetic or numeric, a property
/// of the character alone.
pub assume_specification[ char::is_alphanumeric ](c: char) -> (r: bool)
    ensures
        r == char_alnum_of(c),
;

/// The SHA-1 digest of the UTF-8 encoding of a string: a function of the
/// characters alone, left uninterpreted.
pub uninterp spec fn sha1_of(s: Seq<char>) -> Seq<u8>;

/// Relies on `sha1::Sha1` (the `Digest` interface): the twenty-byte
/// SHA-1 digest of the input bytes, a function of the input alone.
#[verifier::external_body]
pub(crate) fn sha1_hash(s: &str) -> (r: Vec<u8>)
    ensures
        r@ == sha1_of(s@),
        r@.len() == 20,
{
    <sha1::Sha1 as sha1::Digest>::digest(s.as_bytes()).to_vec()
}

/// Whether any character of `p` falls in the class decided by each of
/// the four predicates.
pub open spec fn has_lower(p: Seq<char>) -> bool {
    exists|j: int| 0 <= j < p.len() && #[trigger] char_lower_of(p[j])
}

pub open spec fn has_upper(p: Seq<char>) -> bool {
    exists|j: int| 0 <= j < p.len() && #[trigger] char_upper_of(p[j])
}

pub open spec fn has_numeric(p: Seq<char>) -> bool {
    exists|j: int| 0 <= j < p.len() && #[trigger] char_numeric_of(p[j])
}

pub open spec fn has_symbol(p: Seq<char>) -> bool {
    exists|j: int| 0 <= j < p.len() && !(#[trigger] char_alnum_of(p[j]))
}

/// The size of the character space a password draws from: 26 for each
/// cased letter class present, 10 for digits, 33 for symbols.
pub open spec fn char_space(p: Seq<char>) -> int {
    (if has_lower(p) {
        26int
    } else {
        0int
    }) + (if has_upper(p) {
        26int
    } else {
        0int
    }) + (if has_numeric(p) {
        10int
    } else {
        0int
    }) + (if has_symbol(p) {
        33int
    } else {
        0int
    })
}

/// The binary logarithm of each possible character-space size, in
/// thousandths of a bit, rounded down.
pub open spec fn log2_millibits(space: int) -> int {
    if space == 10 {
        3321
    } else if space == 26 {
        4700
    } else if space == 33 {
        5044
    } else if space == 36 {
        5169
    } else if space == 43 {
        5426
    } else if space == 52 {
        5700
    } else if space == 59 {
        5882
    } else if space == 62 {
        5954
    } else if space == 69 {
        6108
    } else if space == 85 {
        6409
    } else if space == 95 {
        6569
    } else {
        0
    }
}

/// The estimated entropy of a password in thousandths of a bit: length
/// times the binary logarithm of the character-space size, saturating at
/// the largest representable value; an empty password has none.
pub open spec fn entropy_millibits(p: Seq<char>) -> int {
    if p.len() == 0 {
        0
    } else if p.len() * log2_millibits(char_space(p)) > u64::MAX {
        u64::MAX as int
    } else {
        p.len() * log2_millibits(char_space(p))
    }
}

/// A password is weak when its estimate falls below forty bits.
pub open spec fn is_weak(p: Seq<char>) -> bool {
    entropy_millibits(p) < 40000
}

/// The exact log table used by the implementation.
fn log2_millibits_exec(space: u64) -> (r: u64)
    ensures
        r == log2_millibits(space as int),
        r <= 6569,
{
    if space == 10 {
        3321
    } else if space == 26 {
        4700
    } else if space == 33 {
        5044
    } else if space == 36 {
        5169
    } else if space == 43 {
        5426
    } else if space == 52 {
        5700
    } else if space == 59 {
        5882
    } else if space == 62 {
        5954
    } else if space == 69 {
        6108
    } else if space == 85 {
        6409
    } else if space == 95 {
        6569
    } else {
        0
    }
}

/// Computes the strength estimate of one password.
pub fn password_entropy(p: &str) -> (r: u64)
    ensures
        r == entropy_millibits(p@),
{
    let n = p.unicode_len();
    if n == 0 {
        return 0;
    }
    let mut lower = false;
    let mut upper = false;
    let mut numeric = false;
    let mut symbol = false;
    let mut i: usize = 0;
    while i < n
        invariant
            n == p@.len(),
            i <= n,
            lower == (exists|j: int| 0 <= j < i && #[trigger] char_lower_of(p@[j])),
            upper == (exists|j: int| 0 <= j < i && #[trigger] char_upper_of(p@[j])),
            numeric == (exists|j: int| 0 <= j < i && #[trigger] char_numeric_of(p@[j])),
            symbol == (exists|j: int| 0 <= j < i && !(#[trigger] char_alnum_of(p@[j]))),
        decreases n - i,
    {
        let c = p.get_char(i);
        if c.is_lowercase() {
            lower = true;
        }
        if c.is_uppercase() {
            upper = true;
        }
        if c.is_numeric() {
            numeric = true;
        }
        if !c.is_alphanumeric() {
            symbol = true;
        }
        i = i + 1;
    }
    proof {
        assert(lower == has_lower(p@));
        assert(upper == has_upper(p@));
        assert(numeric == has_numeric(p@));
        assert(symbol == has_symbol(p@));
    }
    let mut space: u64 = 0;
    if lower {
        space = space + 26;
    }
    if upper {
        space = space + 26;
    }
    if numeric {
        space = space + 10;
    }
    if symbol {
        space = space + 33;
    }
    let l2 = log2_millibits_exec(space);
    proof {
        assert((n as int) * (l2 as int) <= (usize::MAX as int) * 6569) by (nonlinear_arith)
            requires
                0 <= n <= usize::MAX as int,
                0 <= l2 <= 6569,
        ;
    }
    let raw: u128 = (n as u128) * (l2 as u128);
    if raw > u64::MAX as u128 {
        u64::MAX
    } else {
        raw as u64
    }
}

/// Compares two byte strings.
pub fn bytes_eq(a: &Vec<u8>, b: &Vec<u8>) -> (r: bool)
    ensures
        r == (a@ == b@),
{
    if a.len() != b.len() {
        return false;
    }
    let mut i: usize = 0;
    while i < a.len()
        invariant
            a@.len() == b@.len(),
            i <= a@.len(),
            forall|j: int| 0 <= j < i ==> a@[j] == b@[j],
        decreases a@.len() - i,
    {
        if a[i] != b[i] {
            return false;
        }
        i = i + 1;
    }
    proof {
        assert(a@ =~= b@);
    }
    true
}

// ---------------------------------------------------------------------------
// The statistics over the flattened entry rows.
// ---------------------------------------------------------------------------

/// The hashes of the non-empty passwords among the rows, in order.
pub open spec fn password_hashes(rows: Seq<(u128, EntryView)>) -> Seq<Seq<u8>>
    decreases rows.len(),
{
    if rows.len() == 0 {
        Seq::empty()
    } else {
        password_hashes(rows.drop_last()) + (if rows.last().1.password.len() > 0 {
            seq![sha1_of(rows.last().1.password)]
        } else {
            Seq::<Seq<u8>>::empty()
        })
    }
}

/// How many times `x` occurs in `s`.
pub open spec fn count_in(s: Seq<Seq<u8>>, x: Seq<u8>) -> int
    decreases s.len(),
{
    if s.len() == 0 {
        0
    } else {
        count_in(s.drop_last(), x) + (if s.last() == x {
            1int
        } else {
            0int
        })
    }
}

/// How many distinct values occur at least twice in `s`: each value is
/// counted once, at its second occurrence.
pub open spec fn reused_count(s: Seq<Seq<u8>>) -> int
    decreases s.len(),
{
    if s.len() == 0 {
        0
    } else {
        reused_count(s.drop_last()) + (if count_in(s.drop_last(), s.last()) == 1 {
            1int
        } else {
            0int
        })
    }
}

/// How many rows hold a weak password.
pub open spec fn weak_count(rows: Seq<(u128, EntryView)>) -> int
    decreases rows.len(),
{
    if rows.len() == 0 {
        0
    } else {
        weak_count(rows.drop_last()) + (if is_weak(rows.last().1.password) {
            1int
        } else {
            0int
        })
    }
}

/// Number of seconds in the ninety-day staleness window.
pub open spec fn stale_window() -> int {
    7776000
}

/// Whether an entry's last modification lies more than ninety days
/// before `now`.
pub open spec fn is_old(e: EntryView, now: u64) -> bool {
    e.modified + stale_window() < now
}

/// How many rows are stale at time `now`.
pub open spec fn old_count(rows: Seq<(u128, EntryView)>, now: u64) -> int
    decreases rows.len(),
{
    if rows.len() == 0 {
        0
    } else {
        old_count(rows.drop_last(), now) + (if is_old(rows.last().1, now) {
            1int
        } else {
            0int
        })
    }
}

/// Whether an entry is expired at time `now`: its expiry flag is set and
/// its expiry time has passed.
pub open spec fn is_expired(e: EntryView, now: u64) -> bool {
    e.expires && (e.expiry_time matches Some(t) && t < now)
}

/// How many rows are expired at time `now`.
pub open spec fn expired_count(rows: Seq<(u128, EntryView)>, now: u64) -> int
    decreases rows.len(),
{
    if rows.len() == 0 {
        0
    } else {
        expired_count(rows.drop_last(), now) + (if is_expired(rows.last().1, now) {
            1int
        } else {
            0int
        })
    }
}

/// How many rows are marked favorite.
pub open spec fn favorite_count(rows: Seq<(u128, EntryView)>) -> int
    decreases rows.len(),
{
    if rows.len() == 0 {
        0
    } else {
        favorite_count(rows.drop_last()) + (if rows.last().1.is_favorite {
            1int
        } else {
            0int
        })
    }
}

/// The sum of all strength estimates.
pub open spec fn total_entropy(rows: Seq<(u128, EntryView)>) -> int
    decreases rows.len(),
{
    if rows.len() == 0 {
        0
    } else {
        total_entropy(rows.drop_last()) + entropy_millibits(rows.last().1.password)
    }
}

/// The mean strength estimate, zero when there are no entries.
pub open spec fn average_strength(rows: Seq<(u128, EntryView)>) -> int {
    if rows.len() == 0 {
        0
    } else {
        total_entropy(rows) / rows.len() as int
    }
}

/// What the dashboard snapshot must report for the rows of the tree at
/// time `now`.
pub open spec fn stats_ok(r: DashboardStats, root: crate::model::GroupView, now: u64) -> bool {
    &&& r.total_entries == all_entries(root).len()
    &&& r.total_groups == crate::tree::count_groups(root)
    &&& r.weak_passwords == weak_count(all_entries(root))
    &&& r.reused_passwords == reused_count(password_hashes(all_entries(root)))
    &&& r.old_passwords == old_count(all_entries(root), now)
    &&& r.expired_entries == expired_count(all_entries(root), now)
    &&& r.favorite_entries == favorite_count(all_entries(root))
    &&& r.average_password_strength == average_strength(all_entries(root))
}

/// Every per-row statistic is bounded by the number of rows.
proof fn lemma_counts_bounded(rows: Seq<(u128, EntryView)>, now: u64)
    ensures
        0 <= weak_count(rows) <= rows.len(),
        0 <= old_count(rows, now) <= rows.len(),
        0 <= expired_count(rows, now) <= rows.len(),
        0 <= favorite_count(rows) <= rows.len(),
        0 <= total_entropy(rows) <= rows.len() * (u64::MAX as int),
    decreases rows.len(),
{
    if rows.len() > 0 {
        lemma_counts_bounded(rows.drop_last(), now);
        assert(entropy_millibits(rows.last().1.password) <= u64::MAX as int);
        assert((rows.len() - 1) * (u64::MAX as int) + (u64::MAX as int) == rows.len() * (
        u64::MAX as int)) by (nonlinear_arith);
    }
}

/// The reuse count is bounded by the number of hashes.
proof fn lemma_reused_bounded(s: Seq<Seq<u8>>)
    ensures
        0 <= reused_count(s) <= s.len(),
    decreases s.len(),
{
    if s.len() > 0 {
        lemma_reused_bounded(s.drop_last());
    }
}

/// Counts how often `x` occurs among the first `upto` elements of the
/// collected hashes.
fn count_occurrences(hashes: &Vec<Vec<u8>>, upto: usize, x: &Vec<u8>) -> (c: usize)
    requires
        upto <= hashes@.len(),
    ensures
        c == count_in(views_of(hashes@).take(upto as int), x@),
        c <= upto,
{
    let ghost hs = views_of(hashes@);
    let mut c: usize = 0;
    let mut j: usize = 0;
    proof {
        assert(hs.take(0) =~= Seq::<Seq<u8>>::empty());
    }
    while j < upto
        invariant
            upto <= hashes@.len(),
            j <= upto,
            hs == views_of(hashes@),
            c == count_in(hs.take(j as int), x@),
            c <= j,
        decreases upto - j,
    {
        proof {
            assert(hs.take(j + 1).drop_last() =~= hs.take(j as int));
            assert(hs.take(j + 1).last() == hs[j as int]);
        }
        if bytes_eq(&hashes[j], x) {
            c = c + 1;
        }
        j = j + 1;
    }
    c
}

impl Database {
    /// The dashboard snapshot, computed over every entry of the tree at
    /// the moment of the call.
    pub fn get_dashboard_stats(&self) -> (r: DashboardStats)
        ensures
            exists|now: u64| #[trigger] stats_ok(r, self@.root, now),
    {
        let ghost rows = all_entries(self@.root);
        let entries = self.get_all_entries();
        let now = now_seconds();
        let total_entries = entries.len();

        let mut uuids: Vec<u128> = Vec::new();
        uuids.push(self.root.uuid);
        proof {
            assert(crate::model::nodes_view(self.root.children@).skip(0)
                =~= crate::model::nodes_view(self.root.children@));
        }
        crate::search::collect_descendants(&self.root.children, 0, &mut uuids);
        let total_groups = uuids.len();
        proof {
            assert(uuids@ =~= seq![self@.root.uuid] + crate::tree::descendants_in(
                self@.root.children,
            ));
            assert(uuids@.len() == crate::tree::group_uuids(self@.root).len());
        }

        let mut weak: usize = 0;
        let mut old_pw: usize = 0;
        let mut expired: usize = 0;
        let mut favorite: usize = 0;
        let mut total: u128 = 0;
        let mut hashes: Vec<Vec<u8>> = Vec::new();
        proof {
            assert(rows.take(0) =~= Seq::<(u128, EntryView)>::empty());
            assert(views_of(hashes@) =~= password_hashes(rows.take(0)));
            lemma_counts_bounded(rows, now);
        }
        let mut i: usize = 0;
        while i < entries.len()
            invariant
                entries@.len() == rows.len(),
                entry_rows_match(entries@, rows),
                i <= rows.len(),
                weak == weak_count(rows.take(i as int)),
                old_pw == old_count(rows.take(i as int), now),
                expired == expired_count(rows.take(i as int), now),
                favorite == favorite_count(rows.take(i as int)),
                total == total_entropy(rows.take(i as int)),
                views_of(hashes@) == password_hashes(rows.take(i as int)),
                weak <= i && old_pw <= i && expired <= i && favorite <= i,
                total <= i * (u64::MAX as int),
            decreases rows.len() - i,
        {
            let d = &entries[i];
            let ghost e = rows[i as int].1;
            proof {
                assert(entry_rows_match(entries@, rows));
                assert(crate::data::entry_data_matches(entries@[i as int], rows[i as int].1, rows[i as int].0));
                assert(rows.take(i + 1).drop_last() =~= rows.take(i as int));
                assert(rows.take(i + 1).last() == rows[i as int]);
                lemma_counts_bounded(rows.take(i as int), now);
                assert((i as int) * (u64::MAX as int) + (u64::MAX as int) == (i + 1) * (
                u64::MAX as int)) by (nonlinear_arith);
            }
            let ent = password_entropy(d.password.as_str());
            total = total + ent as u128;
            if ent < 40000 {
                weak = weak + 1;
            }
            match d.modified {
                Some(m) => {
                    if (m as u128) + 7776000 < (now as u128) {
                        old_pw = old_pw + 1;
                    }
                },
                None => {
                    proof {
                        assert(false);
                    }
                },
            }
            let mut is_exp = false;
            if d.expires {
                match d.expiry_time {
                    Some(t) => {
                        if t < now {
                            is_exp = true;
                        }
                    },
                    None => {},
                }
            }
            if is_exp {
                expired = expired + 1;
            }
            if d.is_favorite {
                favorite = favorite + 1;
            }
            if d.password.as_str().unicode_len() > 0 {
                let h = sha1_hash(d.password.as_str());
                let ghost hv = views_of(hashes@);
                hashes.push(h);
                proof {
                    assert(views_of(hashes@) =~= hv.push(sha1_of(e.password)));
                    assert(views_of(hashes@) =~= password_hashes(rows.take(i + 1)));
                }
            } else {
                proof {
                    assert(views_of(hashes@) =~= password_hashes(rows.take(i + 1)));
                }
            }
            i = i + 1;
        }
        proof {
            assert(rows.take(rows.len() as int) =~= rows);
        }

        let ghost hs = views_of(hashes@);
        let mut reused: usize = 0;
        proof {
            assert(hs.take(0) =~= Seq::<Seq<u8>>::empty());
            lemma_reused_bounded(hs);
        }
        let mut k: usize = 0;
        while k < hashes.len()
            invariant
                k <= hashes@.len(),
                hs == views_of(hashes@),
                hs.len() == hashes@.len(),
                reused == reused_count(hs.take(k as int)),
                reused <= k,
            decreases hashes@.len() - k,
        {
            proof {
                assert(hs.take(k + 1).drop_last() =~= hs.take(k as int));
                assert(hs.take(k + 1).last() == hs[k as int]);
                lemma_reused_bounded(hs.take(k as int));
            }
            let c = count_occurrences(&hashes, k, &hashes[k]);
            if c == 1 {
                reused = reused + 1;
            }
            proof {
                assert(hs.take(k as int) =~= views_of(hashes@).take(k as int));
            }
            k = k + 1;
        }
        proof {
            assert(hs.take(hs.len() as int) =~= hs);
        }

        let average: u64 = if total_entries > 0 {
            proof {
                let t = total as int;
                let n = total_entries as int;
                assert(t / n <= u64::MAX as int) by (nonlinear_arith)
                    requires
                        n > 0,
                        0 <= t,
                        t <= n * (u64::MAX as int),
                ;
            }
            let avg = total / (total_entries as u128);
            avg as u64
        } else {
            0
        };

        let r = DashboardStats {
            total_entries,
            total_groups,
            weak_passwords: weak,
            reused_passwords: reused,
            old_passwords: old_pw,
            expired_entries: expired,
            favorite_entries: favorite,
            average_password_strength: average,
        };
        proof {
            assert(stats_ok(r, self@.root, now));
        }
        r
    }
}

} // verus!
