//! Splitting a path entry for packing: the filename is the part after the
//! last separator, and its rightmost maximal run of ASCII digits — when there
//! is one, and it is at most eighteen digits wide — yields the grouping key:
//! everything before the run, everything after it, and the run's width.
//! Entries with the same key and differing only in the run's value form a
//! numbered sequence.

use vstd::prelude::*;

use crate::digits::{digit_val, lemma_pow10_18, lemma_pow10_mono, pow10};
use crate::{digit_char, is_digit, is_sep, sep_char};

verus! {

/// Index of the first character of the filename within `p[0..j]`: one past
/// the last separator before `j`, or zero when there is none.
pub open spec fn name_start_upto(p: Seq<char>, j: int) -> int
    decreases j,
{
    if j <= 0 {
        0
    } else if is_sep(p[j - 1]) {
        j
    } else {
        name_start_upto(p, j - 1)
    }
}

/// Index of the first character of the filename of `p`.
pub open spec fn name_start(p: Seq<char>) -> int {
    name_start_upto(p, p.len() as int)
}

/// End (exclusive) of the rightmost digit run found in `p[from..j]`, or -1
/// when `p[from..j]` holds no digit.
pub open spec fn run_end_upto(p: Seq<char>, from: int, j: int) -> int
    decreases j,
{
    if j <= from || j <= 0 {
        -1
    } else if is_digit(p[j - 1]) {
        j
    } else {
        run_end_upto(p, from, j - 1)
    }
}

/// End (exclusive) of the rightmost digit run in the filename of `p`, or -1
/// when the filename holds no digit.
pub open spec fn run_end(p: Seq<char>) -> int {
    run_end_upto(p, name_start(p), p.len() as int)
}

/// Start of the maximal digit run that ends just before `s`: walks left from
/// `s` over digits.
pub open spec fn run_start_from(p: Seq<char>, s: int) -> int
    decreases s,
{
    if s <= 0 {
        0
    } else if is_digit(p[s - 1]) {
        run_start_from(p, s - 1)
    } else {
        s
    }
}

/// Start of the rightmost digit run in the filename of `p`; meaningful only
/// when `run_end(p) >= 0`.
pub open spec fn run_start(p: Seq<char>) -> int {
    run_start_from(p, run_end(p))
}

/// Numeric value of the digits `p[s..k]`, most significant first.
pub open spec fn digits_val_range(p: Seq<char>, s: int, k: int) -> int
    decreases k - s,
{
    if k <= s {
        0
    } else {
        digits_val_range(p, s, k - 1) * 10 + digit_val(p[k - 1])
    }
}

/// The grouping key of `p`: the text before the digit run (directory and
/// filename prefix together), the text after it (suffix), and the run's
/// width. `None` when the filename has no digit run, or the run is wider
/// than eighteen digits (such a run does not fit the machine word the
/// packer computes with, and the entry is simply never grouped).
pub open spec fn key_of(p: Seq<char>) -> Option<(Seq<char>, Seq<char>, int)> {
    if run_end(p) < 0 {
        None
    } else if run_end(p) - run_start(p) > 18 {
        None
    } else {
        Some((p.take(run_start(p)), p.skip(run_end(p)), run_end(p) - run_start(p)))
    }
}

/// The numeric index of `p` within its group; meaningful only when
/// `key_of(p)` is `Some`.
pub open spec fn index_of(p: Seq<char>) -> int {
    digits_val_range(p, run_start(p), run_end(p))
}

/// Two entries group together when both have a key and the keys agree.
pub open spec fn same_key(p: Seq<char>, q: Seq<char>) -> bool {
    key_of(p) is Some && key_of(p) == key_of(q)
}

/// `name_start_upto` stays within bounds.
pub proof fn lemma_name_start_bounds(p: Seq<char>, j: int)
    requires
        0 <= j <= p.len(),
    ensures
        0 <= name_start_upto(p, j) <= j,
    decreases j,
{
    if j > 0 && !is_sep(p[j - 1]) {
        lemma_name_start_bounds(p, j - 1);
    }
}

/// `run_start_from` stays within bounds and everything between it and `s`
/// is a digit.
pub proof fn lemma_run_start_bounds(p: Seq<char>, s: int)
    requires
        0 <= s <= p.len(),
    ensures
        0 <= run_start_from(p, s) <= s,
        forall|t: int| run_start_from(p, s) <= t < s ==> is_digit(#[trigger] p[t]),
    decreases s,
{
    if s > 0 && is_digit(p[s - 1]) {
        lemma_run_start_bounds(p, s - 1);
    }
}

/// The value of an all-digit range is bounded by the power of ten of its
/// width.
pub proof fn lemma_digits_val_bound(p: Seq<char>, s: int, k: int)
    requires
        0 <= s <= k <= p.len(),
        forall|t: int| s <= t < k ==> is_digit(#[trigger] p[t]),
    ensures
        0 <= digits_val_range(p, s, k) < pow10((k - s) as nat),
    decreases k,
{
    if k > s {
        lemma_digits_val_bound(p, s, k - 1);
        assert(is_digit(p[k - 1]));
        assert(pow10((k - s) as nat) == 10 * pow10((k - s - 1) as nat));
    }
}

/// Character-by-character string equality, decided executably.
pub fn str_eq(a: &str, b: &str) -> (r: bool)
    ensures
        r == (a@ == b@),
{
    let na = a.unicode_len();
    let nb = b.unicode_len();
    if na != nb {
        return false;
    }
    let mut i: usize = 0;
    while i < na
        invariant
            i <= na,
            na == a@.len(),
            na == b@.len(),
            forall|t: int| 0 <= t < i ==> a@[t] == b@[t],
        decreases na - i,
    {
        if a.get_char(i) != b.get_char(i) {
            return false;
        }
        i = i + 1;
    }
    proof {
        assert(a@ =~= b@);
    }
    true
}

/// The grouping key of a path, computed executably: `Some((s, e, v))` gives
/// the digit run as `p[s..e]` and its numeric value `v`; `None` means the
/// entry can never group.
pub fn find_key(p: &str) -> (r: Option<(usize, usize, u64)>)
    ensures
        (match r {
            Some(t) => {
                &&& key_of(p@) is Some
                &&& t.0 == run_start(p@)
                &&& t.1 == run_end(p@)
                &&& t.0 <= t.1 <= p@.len()
                &&& t.2 as int == index_of(p@)
            },
            None => key_of(p@) is None,
        }),
{
    let n = p.unicode_len();
    // start of the filename: scan back to the last separator
    let mut j: usize = n;
    while j > 0 && !sep_char(p.get_char(j - 1))
        invariant
            j <= n,
            n == p@.len(),
            name_start(p@) == name_start_upto(p@, j as int),
        decreases j,
    {
        j = j - 1;
    }
    let ns = j;
    proof {
        assert(name_start(p@) == ns as int);
        lemma_name_start_bounds(p@, n as int);
    }
    // rightmost digit within the filename
    let mut k: usize = n;
    while k > ns && !digit_char(p.get_char(k - 1))
        invariant
            ns <= k <= n,
            n == p@.len(),
            run_end(p@) == run_end_upto(p@, ns as int, k as int),
        decreases k,
    {
        k = k - 1;
    }
    if k == ns {
        proof {
            assert(run_end(p@) == -1);
        }
        return None;
    }
    let e = k;
    proof {
        assert(run_end(p@) == e as int);
    }
    // extend the run to the left over digits
    let mut s: usize = e;
    while s > 0 && digit_char(p.get_char(s - 1))
        invariant
            s <= e <= n,
            e == run_end(p@),
            n == p@.len(),
            run_start(p@) == run_start_from(p@, s as int),
        decreases s,
    {
        s = s - 1;
    }
    proof {
        assert(run_start(p@) == s as int);
        lemma_run_start_bounds(p@, e as int);
    }
    if e - s > 18 {
        return None;
    }
    // numeric value of the run
    let mut v: u64 = 0;
    let mut t: usize = s;
    proof {
        lemma_digits_val_bound(p@, s as int, e as int);
        lemma_pow10_18();
    }
    while t < e
        invariant
            s <= t <= e,
            e <= n,
            n == p@.len(),
            e - s <= 18,
            run_start(p@) == s as int,
            run_end(p@) == e as int,
            forall|u: int| s <= u < e ==> is_digit(#[trigger] p@[u]),
            v as int == digits_val_range(p@, s as int, t as int),
            (v as int) < pow10((t - s) as nat),
        decreases e - t,
    {
        let c = p.get_char(t);
        proof {
            assert(is_digit(p@[t as int]));
            lemma_pow10_mono(((t + 1) - s) as nat, 18);
            lemma_pow10_18();
            assert(pow10(((t + 1) - s) as nat) == 10 * pow10((t - s) as nat));
        }
        let d: u64 = (c as u32 as u64) - 48;
        v = v * 10 + d;
        t = t + 1;
    }
    Some((s, e, v))
}

/// Decides executably whether two entries share a grouping key.
pub fn same_key_exec(a: &str, b: &str) -> (r: bool)
    ensures
        r == same_key(a@, b@),
{
    let ka = find_key(a);
    let kb = find_key(b);
    match (ka, kb) {
        (Some(ta), Some(tb)) => {
            let na = a.unicode_len();
            let nb = b.unicode_len();
            if ta.1 - ta.0 != tb.1 - tb.0 {
                proof {
                    assert(key_of(a@) != key_of(b@));
                }
                return false;
            }
            let stems = str_eq(a.substring_char(0, ta.0), b.substring_char(0, tb.0));
            let sufs = str_eq(a.substring_char(ta.1, na), b.substring_char(tb.1, nb));
            proof {
                assert(a@.subrange(0, ta.0 as int) == a@.take(run_start(a@)));
                assert(b@.subrange(0, tb.0 as int) == b@.take(run_start(b@)));
                assert(a@.subrange(ta.1 as int, na as int) =~= a@.skip(run_end(a@)));
                assert(b@.subrange(tb.1 as int, nb as int) =~= b@.skip(run_end(b@)));
            }
            stems && sufs
        },
        _ => {
            false
        },
    }
}

} // verus!

