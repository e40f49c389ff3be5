//! Random password and recovery-key generation: every drawn character is
//! proved to come from the selected character set.

use vstd::prelude::*;

verus! {

/// Relies on `rand::thread_rng` with `Rng::gen_range` over `0..n`: a
/// uniformly drawn index strictly below `n`.  Nothing more can be
/// promised of a random value.
#[verifier::external_body]
fn random_below(n: usize) -> (r: usize)
    requires
        n > 0,
    ensures
        r < n,
{
    <rand::rngs::ThreadRng as rand::Rng>::gen_range(&mut rand::thread_rng(), 0..n)
}

/// The characters a password may draw from, given the selected classes.
pub open spec fn password_charset(
    use_uppercase: bool,
    use_lowercase: bool,
    use_numbers: bool,
    use_symbols: bool,
) -> Seq<char> {
    (if use_uppercase {
        "ABCDEFGHIJKLMNOPQRSTUVWXYZ"@
    } else {
        Seq::<char>::empty()
    }) + (if use_lowercase {
        "abcdefghijklmnopqrstuvwxyz"@
    } else {
        Seq::<char>::empty()
    }) + (if use_numbers {
        "0123456789"@
    } else {
        Seq::<char>::empty()
    }) + (if use_symbols {
        "!@#$%^&*()_+-=[]{}|;:,.<>?"@
    } else {
        Seq::<char>::empty()
    })
}

/// Draws a password of the requested length from the selected character
/// classes.  A length outside 1..=256, or an empty selection, is
/// refused with a message.
pub fn generate_password(
    length: usize,
    use_uppercase: bool,
    use_lowercase: bool,
    use_numbers: bool,
    use_symbols: bool,
) -> (r: Result<String, String>)
    ensures
        (length == 0 || length > 256) ==> r is Err,
        (1 <= length <= 256 && !use_uppercase && !use_lowercase && !use_numbers && !use_symbols)
            ==> r is Err,
        (1 <= length <= 256 && (use_uppercase || use_lowercase || use_numbers || use_symbols))
            ==> (r matches Ok(p) && p@.len() == length && (forall|i: int|
            0 <= i < p@.len() ==> password_charset(
                use_uppercase,
                use_lowercase,
                use_numbers,
                use_symbols,
            ).contains(#[trigger] p@[i]))),
{
    if length == 0 || length > 256 {
        return Err(String::from_str("Invalid password length"));
    }
    let ghost cset = password_charset(use_uppercase, use_lowercase, use_numbers, use_symbols);
    let mut charset = String::new();
    if use_uppercase {
        charset.append("ABCDEFGHIJKLMNOPQRSTUVWXYZ");
    }
    if use_lowercase {
        charset.append("abcdefghijklmnopqrstuvwxyz");
    }
    if use_numbers {
        charset.append("0123456789");
    }
    if use_symbols {
        charset.append("!@#$%^&*()_+-=[]{}|;:,.<>?");
    }
    proof {
        reveal_strlit("ABCDEFGHIJKLMNOPQRSTUVWXYZ");
        reveal_strlit("abcdefghijklmnopqrstuvwxyz");
        reveal_strlit("0123456789");
        reveal_strlit("!@#$%^&*()_+-=[]{}|;:,.<>?");
        assert(charset@ =~= cset);
    }
    if charset.as_str().unicode_len() == 0 {
        proof {
            assert(!use_uppercase && !use_lowercase && !use_numbers && !use_symbols) by {
                reveal_strlit("ABCDEFGHIJKLMNOPQRSTUVWXYZ");
                reveal_strlit("abcdefghijklmnopqrstuvwxyz");
                reveal_strlit("0123456789");
                reveal_strlit("!@#$%^&*()_+-=[]{}|;:,.<>?");
            }
        }
        return Err(String::from_str("At least one character type must be selected"));
    }
    let n = charset.as_str().unicode_len();
    let mut out = String::new();
    let mut i: usize = 0;
    while i < length
        invariant
            charset@ == cset,
            n == charset@.len(),
            n > 0,
            i <= length,
            out@.len() == i,
            forall|j: int| 0 <= j < out@.len() ==> cset.contains(#[trigger] out@[j]),
        decreases length - i,
    {
        let idx = random_below(n);
        let c = charset.as_str().substring_char(idx, idx + 1);
        proof {
            assert(c@ =~= charset@.subrange(idx as int, idx + 1));
            assert(c@[0] == charset@[idx as int]);
            assert(cset.contains(charset@[idx as int]));
        }
        let ghost before = out@;
        out.append(c);
        proof {
            assert(out@ =~= before + c@);
        }
        i = i + 1;
    }
    Ok(out)
}

/// The characters a recovery key draws from.
pub open spec fn recovery_charset() -> Seq<char> {
    "ABCDEFGHIJKLMNOPQRSTUVWXYZ0123456789"@
}

/// Draws a recovery key: eight dash-separated blocks of four characters
/// from the uppercase-alphanumeric set, 39 characters in all.
pub fn generate_recovery_key() -> (r: String)
    ensures
        r@.len() == 39,
        forall|i: int| 0 <= i < 39 && i % 5 == 4 ==> #[trigger] r@[i] == '-',
        forall|i: int| 0 <= i < 39 && i % 5 != 4 ==> recovery_charset().contains(#[trigger] r@[i]),
{
    let charset = "ABCDEFGHIJKLMNOPQRSTUVWXYZ0123456789";
    proof {
        reveal_strlit("ABCDEFGHIJKLMNOPQRSTUVWXYZ0123456789");
    }
    let n = charset.unicode_len();
    let mut out = String::new();
    let mut seg: usize = 0;
    while seg < 8
        invariant
            charset@ == recovery_charset(),
            n == charset@.len(),
            n == 36,
            seg <= 8,
            out@.len() == if seg == 0 {
                0int
            } else {
                5 * seg - 1
            },
            forall|i: int| 0 <= i < out@.len() && i % 5 == 4 ==> #[trigger] out@[i] == '-',
            forall|i: int|
                0 <= i < out@.len() && i % 5 != 4 ==> recovery_charset().contains(
                    #[trigger] out@[i],
                ),
        decreases 8 - seg,
    {
        if seg > 0 {
            let ghost before = out@;
            out.append("-");
            proof {
                reveal_strlit("-");
                assert(out@ =~= before + "-"@);
                assert(out@.len() == 5 * seg);
                assert(out@[out@.len() - 1] == '-');
            }
        }
        let mut k: usize = 0;
        while k < 4
            invariant
                charset@ == recovery_charset(),
                n == charset@.len(),
                n == 36,
                seg < 8,
                k <= 4,
                out@.len() == 5 * seg + k,
                forall|i: int| 0 <= i < out@.len() && i % 5 == 4 ==> #[trigger] out@[i] == '-',
                forall|i: int|
                    0 <= i < out@.len() && i % 5 != 4 ==> recovery_charset().contains(
                        #[trigger] out@[i],
                    ),
            decreases 4 - k,
        {
            let idx = random_below(n);
            let c = charset.substring_char(idx, idx + 1);
            proof {
                assert(c@ =~= charset@.subrange(idx as int, idx + 1));
                assert(c@[0] == charset@[idx as int]);
                assert(recovery_charset().contains(charset@[idx as int]));
            }
            let ghost before = out@;
            out.append(c);
            proof {
                assert(out@ =~= before + c@);
            }
            k = k + 1;
        }
        seg = seg + 1;
    }
    out
}

} // verus!
