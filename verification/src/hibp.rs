//! Parsing of breach-range answers: lines of `SUFFIX:COUNT` pairs, the
//! first line whose suffix matches deciding the result.  The network side
//! lives with the hosting application; only the parsing is logic.

use vstd::prelude::*;

verus! {

/// Whether a character is whitespace, as `char::is_whitespace` decides
/// it.
pub uninterp spec fn char_ws_of(c: char) -> bool;

/// Relies on `char::is_whitespace`: the Unicode whitespace property of
/// the character alone.
pub assume_specification[ char::is_whitespace ](c: char) -> (r: bool)
    ensures
        r == char_ws_of(c),
;

/// Index of the first occurrence of `c` in `s`.
pub open spec fn index_of_char(s: Seq<char>, c: char) -> Option<int>
    decreases s.len(),
{
    if s.len() == 0 {
        None
    } else if s.first() == c {
        Some(0)
    } else {
        match index_of_char(s.drop_first(), c) {
            Some(i) => Some(i + 1),
            None => None,
        }
    }
}

/// Shifts `index_of_char` past a scanned prefix with no occurrence.
proof fn lemma_index_of_char_shift(s: Seq<char>, c: char, i: int)
    requires
        0 <= i <= s.len(),
        forall|j: int| 0 <= j < i ==> s[j] != c,
    ensures
        index_of_char(s, c) == match index_of_char(s.skip(i), c) {
            Some(k) => Some(i + k),
            None => None,
        },
    decreases i,
{
    if i == 0 {
        assert(s.skip(0) =~= s);
    } else {
        lemma_index_of_char_shift(s, c, i - 1);
        assert(s.skip(i - 1).first() == s[i - 1]);
        assert(s.skip(i - 1).drop_first() =~= s.skip(i));
    }
}

/// What `index_of_char` promises of its result.
pub proof fn lemma_index_of_char_props(s: Seq<char>, c: char)
    ensures
        match index_of_char(s, c) {
            Some(i) => 0 <= i < s.len() && s[i] == c,
            None => forall|j: int| 0 <= j < s.len() ==> s[j] != c,
        },
    decreases s.len(),
{
    if s.len() > 0 && s.first() != c {
        lemma_index_of_char_props(s.drop_first(), c);
        assert forall|j: int| 1 <= j < s.len() implies s.drop_first()[j - 1] == s[j] by {}
    }
}

/// Number of leading whitespace characters.
pub open spec fn ws_start(s: Seq<char>) -> int
    decreases s.len(),
{
    if s.len() == 0 {
        0
    } else if !char_ws_of(s.first()) {
        0
    } else {
        1 + ws_start(s.drop_first())
    }
}

/// End of the text once trailing whitespace is dropped.
pub open spec fn ws_end(s: Seq<char>) -> int
    decreases s.len(),
{
    if s.len() == 0 {
        0
    } else if !char_ws_of(s.last()) {
        s.len() as int
    } else {
        ws_end(s.drop_last())
    }
}

/// The text with leading and trailing whitespace removed, as
/// `str::trim` computes it.
pub open spec fn trim_spec(s: Seq<char>) -> Seq<char> {
    if ws_start(s) >= ws_end(s) {
        Seq::empty()
    } else {
        s.subrange(ws_start(s), ws_end(s))
    }
}

/// Whether every character is a decimal digit.
pub open spec fn all_digits(s: Seq<char>) -> bool {
    forall|j: int| 0 <= j < s.len() ==> '0' <= #[trigger] s[j] <= '9'
}

/// The number the digit string denotes.
pub open spec fn digits_val(s: Seq<char>) -> int
    decreases s.len(),
{
    if s.len() == 0 {
        0
    } else {
        digits_val(s.drop_last()) * 10 + (s.last() as int - '0' as int)
    }
}

/// What parsing the text as an unsigned 32-bit count yields, following
/// `str::parse::<u32>`: an optional leading plus sign, then at least one
/// decimal digit, with the value within range.
pub open spec fn parse_u32_spec(s: Seq<char>) -> Option<u32> {
    if s.len() == 0 {
        None
    } else {
        let ds = if s.first() == '+' {
            s.drop_first()
        } else {
            s
        };
        if ds.len() == 0 || !all_digits(ds) {
            None
        } else if digits_val(ds) > u32::MAX {
            None
        } else {
            Some(digits_val(ds) as u32)
        }
    }
}

/// What scanning a range answer yields: walking the lines in order
/// (separated by newlines, a trailing carriage return stripped), the
/// first line holding a colon whose part before the colon equals the
/// suffix decides the result, its part after the colon trimmed and
/// parsed as a count; without such a line there is no answer.
pub open spec fn hibp_answer(s: Seq<char>, suffix: Seq<char>) -> Option<u32>
    decreases s.len(),
{
    if s.len() == 0 {
        None
    } else {
        proof {
            lemma_index_of_char_props(s, '\n');
        }
        let k = match index_of_char(s, '\n') {
            Some(k) => k,
            None => s.len() as int,
        };
        let rawline = s.take(k);
        let line = if rawline.len() > 0 && rawline.last() == '\r' {
            rawline.drop_last()
        } else {
            rawline
        };
        let matched = match index_of_char(line, ':') {
            Some(c) => {
                if line.take(c) == suffix {
                    Some(parse_u32_spec(trim_spec(line.skip(c + 1))))
                } else {
                    None
                }
            },
            None => None,
        };
        match matched {
            Some(ans) => ans,
            None => {
                if k == s.len() {
                    None
                } else {
                    hibp_answer(s.skip(k + 1), suffix)
                }
            },
        }
    }
}

/// Compares two texts character by character.
fn str_eq(a: &str, b: &str) -> (r: bool)
    ensures
        r == (a@ == b@),
{
    let n = a.unicode_len();
    if n != b.unicode_len() {
        return false;
    }
    let mut i: usize = 0;
    while i < n
        invariant
            n == a@.len(),
            a@.len() == b@.len(),
            i <= n,
            forall|j: int| 0 <= j < i ==> a@[j] == b@[j],
        decreases n - i,
    {
        if a.get_char(i) != b.get_char(i) {
            return false;
        }
        i = i + 1;
    }
    proof {
        assert(a@ =~= b@);
    }
    true
}

/// Leading whitespace ends exactly where the scan stops.
proof fn lemma_ws_start(s: Seq<char>, lo: int)
    requires
        0 <= lo <= s.len(),
        forall|j: int| 0 <= j < lo ==> char_ws_of(s[j]),
        lo == s.len() || !char_ws_of(s[lo]),
    ensures
        ws_start(s) == lo,
    decreases lo,
{
    if lo == 0 {
    } else {
        assert(char_ws_of(s.first()));
        lemma_ws_start(s.drop_first(), lo - 1);
        assert forall|j: int| 0 <= j < lo - 1 implies char_ws_of(s.drop_first()[j]) by {
            assert(s.drop_first()[j] == s[j + 1]);
        }
    }
}

/// Trailing whitespace begins exactly where the scan stops.
proof fn lemma_ws_end(s: Seq<char>, hi: int)
    requires
        0 <= hi <= s.len(),
        forall|j: int| hi <= j < s.len() ==> char_ws_of(s[j]),
        hi == 0 || !char_ws_of(s[hi - 1]),
    ensures
        ws_end(s) == hi,
    decreases s.len(),
{
    if hi == s.len() {
        if s.len() > 0 {
            assert(s.last() == s[s.len() - 1]);
            assert(!char_ws_of(s.last()));
        }
    } else {
        assert(s.last() == s[s.len() - 1]);
        assert(char_ws_of(s.last()));
        lemma_ws_end(s.drop_last(), hi);
        assert forall|j: int| hi <= j < s.len() - 1 implies char_ws_of(s.drop_last()[j]) by {
            assert(s.drop_last()[j] == s[j]);
        }
    }
}

/// The trimmed end lies within the text.
proof fn lemma_ws_end_range(s: Seq<char>)
    ensures
        0 <= ws_end(s) <= s.len(),
    decreases s.len(),
{
    if s.len() > 0 && char_ws_of(s.last()) {
        lemma_ws_end_range(s.drop_last());
    }
}

/// A fully whitespace tail bounds the trimmed end from above.
proof fn lemma_ws_end_bound(s: Seq<char>, m: int)
    requires
        0 <= m <= s.len(),
        forall|j: int| m <= j < s.len() ==> char_ws_of(s[j]),
    ensures
        ws_end(s) <= m,
    decreases s.len(),
{
    lemma_ws_end_range(s);
    if s.len() > 0 && m < s.len() {
        assert(char_ws_of(s.last()));
        lemma_ws_end_bound(s.drop_last(), m);
    }
}

/// A longer digit string denotes at least as large a number.
proof fn lemma_digits_val_monotone(s: Seq<char>, i: int)
    requires
        0 <= i <= s.len(),
        all_digits(s),
    ensures
        digits_val(s) >= digits_val(s.take(i)),
        digits_val(s) >= 0,
        digits_val(s.take(i)) >= 0,
    decreases s.len() - i,
{
    lemma_digits_val_nonneg(s);
    if i == s.len() {
        assert(s.take(i) =~= s);
    } else {
        lemma_digits_val_monotone(s, i + 1);
        assert(s.take(i + 1).drop_last() =~= s.take(i));
        assert(all_digits(s.take(i)));
        lemma_digits_val_nonneg(s.take(i));
        assert(digits_val(s.take(i + 1)) == digits_val(s.take(i)) * 10 + (s[i] as int
            - '0' as int));
        assert(digits_val(s.take(i)) * 10 >= digits_val(s.take(i))) by (nonlinear_arith)
            requires
                digits_val(s.take(i)) >= 0,
        ;
    }
}

/// A digit string denotes a nonnegative number.
proof fn lemma_digits_val_nonneg(s: Seq<char>)
    requires
        all_digits(s),
    ensures
        digits_val(s) >= 0,
    decreases s.len(),
{
    if s.len() > 0 {
        assert(all_digits(s.drop_last())) by {
            assert(forall|j: int| 0 <= j < s.len() - 1 ==> s.drop_last()[j] == s[j]);
        }
        lemma_digits_val_nonneg(s.drop_last());
        assert(digits_val(s.drop_last()) * 10 >= 0) by (nonlinear_arith)
            requires
                digits_val(s.drop_last()) >= 0,
        ;
    }
}

/// Parses a count: optional plus sign, decimal digits, within the
/// 32-bit range.
fn parse_count(s: &str) -> (r: Option<u32>)
    ensures
        r == parse_u32_spec(s@),
{
    let n = s.unicode_len();
    if n == 0 {
        return None;
    }
    let start: usize = if s.get_char(0) == '+' {
        1
    } else {
        0
    };
    let ghost ds = if s@.first() == '+' {
        s@.drop_first()
    } else {
        s@
    };
    proof {
        if s@.first() == '+' {
            assert(ds =~= s@.skip(1));
        } else {
            assert(ds =~= s@.skip(0));
        }
        assert(ds == s@.skip(start as int));
    }
    if start == n {
        return None;
    }
    let mut val: u64 = 0;
    let mut i: usize = start;
    proof {
        assert(ds.take(0) =~= Seq::<char>::empty());
    }
    while i < n
        invariant
            n == s@.len(),
            n > 0,
            start <= i <= n,
            start < n,
            start == (if s@.first() == '+' {
                1int
            } else {
                0int
            }),
            ds == s@.skip(start as int),
            ds.len() == n - start,
            forall|j: int| 0 <= j < i - start ==> '0' <= #[trigger] ds[j] <= '9',
            val == digits_val(ds.take(i - start)),
            val <= u32::MAX,
        decreases n - i,
    {
        let c = s.get_char(i);
        proof {
            assert(ds[i - start] == s@[i as int]);
        }
        if !(c >= '0' && c <= '9') {
            proof {
                assert(!('0' <= ds[i - start] <= '9'));
                assert(!all_digits(ds));
                assert(parse_u32_spec(s@) is None);
            }
            return None;
        }
        let d = (c as u32) - 48;
        proof {
            assert(ds.take(i - start + 1).drop_last() =~= ds.take(i - start));
            assert(ds.take(i - start + 1).last() == ds[i - start]);
        }
        let next: u64 = val * 10 + (d as u64);
        if next > u32::MAX as u64 {
            proof {
                assert(digits_val(ds.take(i - start + 1)) == digits_val(ds.take(i - start)) * 10
                    + (ds[i - start] as int - '0' as int));
                assert(digits_val(ds.take(i - start + 1)) == next);
                if all_digits(ds) {
                    lemma_digits_val_monotone(ds, i - start + 1);
                    assert(digits_val(ds) >= digits_val(ds.take(i - start + 1)));
                    assert(digits_val(ds) > u32::MAX);
                    if s@.first() == '+' {
                        assert(ds =~= s@.drop_first());
                    } else {
                        assert(ds =~= s@);
                    }
                    assert(parse_u32_spec(s@) is None);
                } else {
                    assert(!all_digits(ds));
                    assert(parse_u32_spec(s@) is None);
                }
            }
            return None;
        }
        val = next;
        i = i + 1;
    }
    proof {
        assert(ds.take(n - start) =~= ds);
        assert(all_digits(ds));
    }
    Some(val as u32)
}

/// Scans a range answer for the line matching `suffix`, from the start.
pub fn parse_hibp_response(body: &str, suffix: &str) -> (r: Option<u32>)
    ensures
        r == hibp_answer(body@, suffix@),
{
    proof {
        assert(body@.skip(0) =~= body@);
    }
    parse_hibp_from(body, 0, suffix)
}

/// Scans the answer from character `start` on.
fn parse_hibp_from(body: &str, start: usize, suffix: &str) -> (r: Option<u32>)
    requires
        start <= body@.len(),
    ensures
        r == hibp_answer(body@.skip(start as int), suffix@),
    decreases body@.len() - start,
{
    let n = body.unicode_len();
    let ghost s = body@.skip(start as int);
    if start == n {
        proof {
            assert(s =~= Seq::<char>::empty());
        }
        return None;
    }
    // Find the end of this line.
    let mut k: usize = start;
    while k < n
        invariant
            n == body@.len(),
            start <= k <= n,
            forall|j: int| start <= j < k ==> body@[j] != '\n',
        ensures
            start <= k <= n,
            forall|j: int| start <= j < k ==> body@[j] != '\n',
            k < n ==> body@[k as int] == '\n',
            k == n ==> forall|j: int| start <= j < n ==> body@[j] != '\n',
        decreases n - k,
    {
        if body.get_char(k) == '\n' {
            break;
        }
        k = k + 1;
    }
    let ghost krel = k - start;
    proof {
        assert forall|j: int| 0 <= j < krel implies s[j] != '\n' by {
            assert(s[j] == body@[start + j]);
        }
        lemma_index_of_char_shift(s, '\n', krel);
        if k < n {
            assert(s.skip(krel).first() == body@[k as int]);
            assert(index_of_char(s, '\n') == Some(krel));
        } else {
            assert(s.skip(krel) =~= Seq::<char>::empty());
            assert(index_of_char(s, '\n') is None);
        }
    }
    let rawline = body.substring_char(start, k);
    proof {
        assert(rawline@ =~= s.take(krel));
    }
    let rl = rawline.unicode_len();
    let line = if rl > 0 && rawline.get_char(rl - 1) == '\r' {
        rawline.substring_char(0, rl - 1)
    } else {
        rawline
    };
    let ghost lv = if s.take(krel).len() > 0 && s.take(krel).last() == '\r' {
        s.take(krel).drop_last()
    } else {
        s.take(krel)
    };
    proof {
        assert(line@ =~= lv);
    }
    // Find the colon within the line.
    let ln = line.unicode_len();
    let mut c: usize = 0;
    while c < ln
        invariant
            ln == line@.len(),
            c <= ln,
            forall|j: int| 0 <= j < c ==> line@[j] != ':',
        ensures
            c <= ln,
            forall|j: int| 0 <= j < c ==> line@[j] != ':',
            c < ln ==> line@[c as int] == ':',
            c == ln ==> forall|j: int| 0 <= j < ln ==> line@[j] != ':',
        decreases ln - c,
    {
        if line.get_char(c) == ':' {
            break;
        }
        c = c + 1;
    }
    proof {
        lemma_index_of_char_shift(lv, ':', c as int);
        if c < ln {
            assert(lv.skip(c as int).first() == lv[c as int]);
            assert(index_of_char(lv, ':') == Some(c as int));
        } else {
            assert(lv.skip(c as int) =~= Seq::<char>::empty());
            assert(index_of_char(lv, ':') is None);
        }
    }
    if c < ln {
        let prefix = line.substring_char(0, c);
        proof {
            assert(prefix@ =~= lv.take(c as int));
        }
        if str_eq(prefix, suffix) {
            let rest = line.substring_char(c + 1, ln);
            proof {
                assert(rest@ =~= lv.skip(c + 1));
            }
            let trimmed = trim_range(rest);
            let ans = parse_count(trimmed);
            proof {
                assert(trimmed@ == trim_spec(lv.skip(c + 1)));
            }
            return ans;
        }
    }
    // No match on this line: continue after the newline, if any.
    if k == n {
        None
    } else {
        proof {
            assert(body@.skip(k + 1) =~= s.skip(krel + 1));
        }
        parse_hibp_from(body, k + 1, suffix)
    }
}

/// The text with surrounding whitespace removed.
fn trim_range(s: &str) -> (r: &str)
    ensures
        r@ == trim_spec(s@),
{
    let n = s.unicode_len();
    let mut lo: usize = 0;
    while lo < n
        invariant
            n == s@.len(),
            lo <= n,
            forall|j: int| 0 <= j < lo ==> char_ws_of(#[trigger] s@[j]),
        ensures
            lo <= n,
            forall|j: int| 0 <= j < lo ==> char_ws_of(#[trigger] s@[j]),
            lo < n ==> !char_ws_of(s@[lo as int]),
            lo == n ==> forall|j: int| 0 <= j < n ==> char_ws_of(#[trigger] s@[j]),
        decreases n - lo,
    {
        if !s.get_char(lo).is_whitespace() {
            break;
        }
        lo = lo + 1;
    }
    proof {
        lemma_ws_start(s@, lo as int);
    }
    let mut hi: usize = n;
    while hi > lo
        invariant
            n == s@.len(),
            lo <= hi <= n,
            forall|j: int| hi <= j < n ==> char_ws_of(#[trigger] s@[j]),
        ensures
            lo <= hi <= n,
            forall|j: int| hi <= j < n ==> char_ws_of(#[trigger] s@[j]),
            hi > lo ==> !char_ws_of(s@[hi - 1]),
        decreases hi,
    {
        if !s.get_char(hi - 1).is_whitespace() {
            break;
        }
        hi = hi - 1;
    }
    if lo >= hi {
        proof {
            lemma_ws_end_bound(s@, lo as int);
            assert(ws_start(s@) >= ws_end(s@));
        }
        let r = s.substring_char(0, 0);
        proof {
            assert(r@ =~= trim_spec(s@));
        }
        r
    } else {
        proof {
            lemma_ws_end(s@, hi as int);
        }
        let r = s.substring_char(lo, hi);
        proof {
            assert(r@ =~= trim_spec(s@));
        }
        r
    }
}


// ---------------------------------------------------------------------------
// Hash splitting for range queries.
// ---------------------------------------------------------------------------

/// The uppercase hexadecimal digits, in value order.
pub open spec fn hex_digits() -> Seq<char> {
    "0123456789ABCDEF"@
}

/// The uppercase hexadecimal rendering of a byte string, two digits per
/// byte, high nibble first.
pub open spec fn hex_upper_of(bs: Seq<u8>) -> Seq<char>
    decreases bs.len(),
{
    if bs.len() == 0 {
        Seq::empty()
    } else {
        hex_upper_of(bs.drop_last()) + seq![
            hex_digits()[bs.last() as int / 16],
            hex_digits()[bs.last() as int % 16],
        ]
    }
}

/// Renders bytes as uppercase hexadecimal.
fn to_hex_upper(bs: &Vec<u8>) -> (r: String)
    ensures
        r@ == hex_upper_of(bs@),
        r@.len() == 2 * bs@.len(),
{
    let digits = "0123456789ABCDEF";
    proof {
        reveal_strlit("0123456789ABCDEF");
    }
    let mut out = String::new();
    let mut i: usize = 0;
    proof {
        assert(bs@.take(0) =~= Seq::<u8>::empty());
    }
    while i < bs.len()
        invariant
            digits@ == hex_digits(),
            digits@.len() == 16,
            i <= bs@.len(),
            out@ == hex_upper_of(bs@.take(i as int)),
            out@.len() == 2 * i,
        decreases bs@.len() - i,
    {
        let b = bs[i];
        let hi = (b / 16) as usize;
        let lo = (b % 16) as usize;
        let ghost before = out@;
        let ch = digits.substring_char(hi, hi + 1);
        let cl = digits.substring_char(lo, lo + 1);
        proof {
            assert(ch@ =~= digits@.subrange(hi as int, hi + 1));
            assert(cl@ =~= digits@.subrange(lo as int, lo + 1));
            assert(bs@.take(i + 1).drop_last() =~= bs@.take(i as int));
            assert(bs@.take(i + 1).last() == bs@[i as int]);
        }
        out.append(ch);
        out.append(cl);
        proof {
            assert(out@ =~= before + seq![
                hex_digits()[bs@[i as int] as int / 16],
                hex_digits()[bs@[i as int] as int % 16],
            ]);
            assert(out@ =~= hex_upper_of(bs@.take(i + 1)));
        }
        i = i + 1;
    }
    proof {
        assert(bs@.take(bs@.len() as int) =~= bs@);
    }
    out
}

/// Splits a password's hash for a range query: the first five uppercase
/// hexadecimal digits of its SHA-1 digest, and the remaining thirty-five.
pub fn breach_hash_parts(password: &str) -> (r: (String, String))
    ensures
        r.0@ == hex_upper_of(crate::stats::sha1_of(password@)).take(5),
        r.1@ == hex_upper_of(crate::stats::sha1_of(password@)).skip(5),
        r.0@.len() == 5,
        r.1@.len() == 35,
{
    let digest = crate::stats::sha1_hash(password);
    let hex = to_hex_upper(&digest);
    let prefix = String::from_str(hex.as_str().substring_char(0, 5));
    let suffix = String::from_str(hex.as_str().substring_char(5, 40));
    proof {
        assert(prefix@ =~= hex_upper_of(crate::stats::sha1_of(password@)).take(5));
        assert(suffix@ =~= hex_upper_of(crate::stats::sha1_of(password@)).skip(5));
    }
    (prefix, suffix)
}


} // verus!
