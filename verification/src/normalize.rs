//! Separator normalization: rewriting every separator of one convention to
//! the other, entry by entry, as a pure string rewrite. Only the separator
//! characters change; everything else in a path is kept verbatim.

use vstd::prelude::*;

use crate::seq_views;

verus! {

/// `c` with `from` replaced by `to`, other characters untouched.
pub open spec fn swap_char(c: char, from: char, to: char) -> char {
    if c == from {
        to
    } else {
        c
    }
}

/// `p` with every occurrence of `from` replaced by `to`.
pub open spec fn swap_seps(p: Seq<char>, from: char, to: char) -> Seq<char> {
    Seq::new(p.len(), |i: int| swap_char(p[i], from, to))
}

/// A path rewritten to the Windows separator convention.
pub open spec fn to_windows(p: Seq<char>) -> Seq<char> {
    swap_seps(p, '/', '\\')
}

/// A path rewritten to the POSIX separator convention.
pub open spec fn to_posix(p: Seq<char>) -> Seq<char> {
    swap_seps(p, '\\', '/')
}

/// Every entry of a collection rewritten with [`swap_seps`].
pub open spec fn all_swapped(s: Seq<Seq<char>>, from: char, to: char) -> Seq<Seq<char>> {
    Seq::new(s.len(), |i: int| swap_seps(s[i], from, to))
}

/// Every entry rewritten to the Windows convention.
pub open spec fn all_to_windows(s: Seq<Seq<char>>) -> Seq<Seq<char>> {
    all_swapped(s, '/', '\\')
}

/// Every entry rewritten to the POSIX convention.
pub open spec fn all_to_posix(s: Seq<Seq<char>>) -> Seq<Seq<char>> {
    all_swapped(s, '\\', '/')
}

/// Rewrites one path: every `from` becomes the single character of
/// `to_str`.
pub fn convert_str(p: &str, from: char, to_str: &str) -> (r: String)
    requires
        to_str@.len() == 1,
    ensures
        r@ == swap_seps(p@, from, to_str@[0]),
{
    let ghost to = to_str@[0];
    let n = p.unicode_len();
    let mut out = String::new();
    let mut start: usize = 0;
    let mut i: usize = 0;
    while i < n
        invariant
            start <= i <= n,
            n == p@.len(),
            to_str@.len() == 1,
            to == to_str@[0],
            out@ == swap_seps(p@.take(start as int), from, to),
            forall|t: int| start <= t < i ==> p@[t] != from,
        decreases n - i,
    {
        let c = p.get_char(i);
        if c == from {
            out.append(p.substring_char(start, i));
            out.append(to_str);
            proof {
                assert(out@ =~= swap_seps(p@.take(i as int + 1), from, to));
            }
            start = i + 1;
        }
        i = i + 1;
    }
    out.append(p.substring_char(start, n));
    proof {
        assert(out@ =~= swap_seps(p@, from, to));
    }
    out
}

/// Rewrites every entry of a vector of paths.
pub fn convert_vec(paths: &Vec<String>, from: char, to_str: &str) -> (r: Vec<String>)
    requires
        to_str@.len() == 1,
    ensures
        seq_views(r@) == all_swapped(seq_views(paths@), from, to_str@[0]),
{
    let n = paths.len();
    let mut out: Vec<String> = Vec::new();
    proof {
        assert(seq_views(out@) =~= all_swapped(seq_views(paths@), from, to_str@[0]).take(0));
    }
    let mut i: usize = 0;
    while i < n
        invariant
            i <= n,
            n == paths@.len(),
            to_str@.len() == 1,
            seq_views(out@) == all_swapped(seq_views(paths@), from, to_str@[0]).take(i as int),
        decreases n - i,
    {
        let converted = convert_str(paths[i].as_str(), from, to_str);
        let ghost prev = out@;
        out.push(converted);
        proof {
            let all = all_swapped(seq_views(paths@), from, to_str@[0]);
            assert(seq_views(prev) == all.take(i as int));
            assert(seq_views(prev).len() == i as int);
            assert(prev.len() == i as int);
            assert(out@ == prev.push(converted));
            assert forall|t: int| 0 <= t <= i as int implies seq_views(out@)[t] == all[t] by {
                if t < i as int {
                    assert(out@[t] == prev[t]);
                    assert(seq_views(prev)[t] == all.take(i as int)[t]);
                } else {
                    assert(out@[t]@ == swap_seps(seq_views(paths@)[t], from, to_str@[0]));
                }
            }
            assert(seq_views(out@) =~= all.take(i as int + 1));
        }
        i = i + 1;
    }
    proof {
        let full = all_swapped(seq_views(paths@), from, to_str@[0]);
        assert(full.take(n as int) =~= full);
    }
    out
}

/// Law: a path that holds no `from` character is unchanged by the rewrite;
/// in particular, normalizing a path already in the target convention is a
/// no-op.
pub proof fn lemma_swap_noop(p: Seq<char>, from: char, to: char)
    requires
        forall|t: int| 0 <= t < p.len() ==> p[t] != from,
    ensures
        swap_seps(p, from, to) == p,
{
    assert(swap_seps(p, from, to) =~= p);
}

/// Law: rewriting `a` to `b` and then `b` back to `a` restores a path that
/// held no `b` to begin with.
pub proof fn lemma_swap_round_trip(p: Seq<char>, a: char, b: char)
    requires
        forall|t: int| 0 <= t < p.len() ==> p[t] != b,
    ensures
        swap_seps(swap_seps(p, a, b), b, a) == p,
{
    assert(swap_seps(swap_seps(p, a, b), b, a) =~= p);
}

/// Law: normalizing to Windows and back to POSIX restores any path that
/// held no backslash.
pub proof fn lemma_windows_round_trip(p: Seq<char>)
    requires
        forall|t: int| 0 <= t < p.len() ==> p[t] != '\\',
    ensures
        to_posix(to_windows(p)) == p,
{
    lemma_swap_round_trip(p, '/', '\\');
}

/// Law: normalizing to POSIX and back to Windows restores any path that
/// held no forward slash.
pub proof fn lemma_posix_round_trip(p: Seq<char>)
    requires
        forall|t: int| 0 <= t < p.len() ==> p[t] != '/',
    ensures
        to_windows(to_posix(p)) == p,
{
    lemma_swap_round_trip(p, '\\', '/');
}

/// Law: over a whole collection, normalizing to Windows and back to POSIX
/// restores every collection whose entries held no backslash.
pub proof fn lemma_all_windows_round_trip(s: Seq<Seq<char>>)
    requires
        forall|i: int, t: int|
            0 <= i < s.len() && 0 <= t < s[i].len() ==> #[trigger] s[i][t] != '\\',
    ensures
        all_to_posix(all_to_windows(s)) == s,
{
    assert forall|i: int| 0 <= i < s.len() implies all_to_posix(all_to_windows(s))[i] == s[i] by {
        lemma_windows_round_trip(s[i]);
    }
    assert(all_to_posix(all_to_windows(s)) =~= s);
}

} // verus!
