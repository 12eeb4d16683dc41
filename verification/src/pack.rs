//! Sequence packing: entries that share a grouping key (same text around a
//! digit run of the same width) form a numbered sequence and are collapsed
//! into one compact range entry. The compact entry keeps the position of the
//! group's first member; every other entry keeps its place and its text.

use vstd::prelude::*;

use crate::digits::{padded, push_padded};
use crate::split::{find_key, index_of, key_of, run_end, run_start, same_key, same_key_exec};
use crate::seq_views;

verus! {

/// The integer values of a sequence of machine words.
pub open spec fn vals_of(s: Seq<u64>) -> Seq<int> {
    Seq::new(s.len(), |i: int| s[i] as int)
}

/// Inserts `v` into `vs` so that a sorted sequence without duplicates stays
/// sorted and without duplicates; a value already present is dropped.
pub open spec fn insert_uniq(vs: Seq<int>, v: int) -> Seq<int>
    decreases vs.len(),
{
    if vs.len() == 0 {
        seq![v]
    } else if v == vs.last() {
        vs
    } else if v > vs.last() {
        vs.push(v)
    } else {
        insert_uniq(vs.drop_last(), v).push(vs.last())
    }
}

/// The values of `vs` sorted ascending with duplicates removed.
pub open spec fn sorted_uniq(vs: Seq<int>) -> Seq<int>
    decreases vs.len(),
{
    if vs.len() == 0 {
        Seq::<int>::empty()
    } else {
        insert_uniq(sorted_uniq(vs.drop_last()), vs.last())
    }
}

/// The values of `vs` in strictly increasing order.
pub open spec fn strictly_increasing(vs: Seq<int>) -> bool {
    forall|a: int, b: int| 0 <= a < b < vs.len() ==> vs[a] < vs[b]
}

/// Inserting into a strictly increasing sequence keeps it strictly
/// increasing, keeps every old value, adds the new one, and adds nothing
/// else.
proof fn lemma_insert_uniq_props(vs: Seq<int>, v: int)
    requires
        strictly_increasing(vs),
    ensures
        strictly_increasing(insert_uniq(vs, v)),
        forall|i: int|
            0 <= i < insert_uniq(vs, v).len() ==> (vs.contains(
                #[trigger] insert_uniq(vs, v)[i],
            ) || insert_uniq(vs, v)[i] == v),
        insert_uniq(vs, v).contains(v),
        forall|i: int| 0 <= i < vs.len() ==> insert_uniq(vs, v).contains(#[trigger] vs[i]),
    decreases vs.len(),
{
    let r = insert_uniq(vs, v);
    if vs.len() == 0 {
        assert(r[0] == v);
        assert(r.contains(v));
    } else if v == vs.last() {
        assert(vs[vs.len() - 1] == v);
        assert(r.contains(v));
        assert forall|i: int| 0 <= i < r.len() implies (vs.contains(#[trigger] r[i]) || r[i]
            == v) by {
            assert(vs[i] == r[i]);
        }
        assert forall|i: int| 0 <= i < vs.len() implies r.contains(#[trigger] vs[i]) by {
            assert(r[i] == vs[i]);
        }
    } else if v > vs.last() {
        assert(r == vs.push(v));
        assert forall|a: int, b: int| 0 <= a < b < r.len() implies r[a] < r[b] by {
            if b == vs.len() {
                if a < vs.len() - 1 {
                    assert(vs[a] < vs[vs.len() - 1]);
                }
            }
        }
        assert(r[vs.len() as int] == v);
        assert(r.contains(v));
        assert forall|i: int| 0 <= i < vs.len() implies r.contains(#[trigger] vs[i]) by {
            assert(r[i] == vs[i]);
        }
    } else {
        let prefix = vs.drop_last();
        let r0 = insert_uniq(prefix, v);
        lemma_insert_uniq_props(prefix, v);
        assert(r == r0.push(vs.last()));
        // every value of r0 is below the old last value
        assert forall|i: int| 0 <= i < r0.len() implies r0[i] < vs.last() by {
            if prefix.contains(r0[i]) {
                let j = choose|j: int| 0 <= j < prefix.len() && prefix[j] == r0[i];
                assert(vs[j] < vs[vs.len() - 1]);
            }
        }
        assert forall|a: int, b: int| 0 <= a < b < r.len() implies r[a] < r[b] by {
            if b == r0.len() {
                assert(r0[a] < vs.last());
            }
        }
        assert forall|i: int| 0 <= i < r.len() implies (vs.contains(#[trigger] r[i]) || r[i]
            == v) by {
            if i < r0.len() {
                assert(r[i] == r0[i]);
                if prefix.contains(r0[i]) {
                    let j = choose|j: int| 0 <= j < prefix.len() && prefix[j] == r0[i];
                    assert(vs[j] == r[i]);
                    assert(vs.contains(r[i]));
                }
            } else {
                assert(r[i] == vs[vs.len() - 1]);
                assert(vs.contains(r[i]));
            }
        }
        let i0 = choose|i0: int| 0 <= i0 < r0.len() && r0[i0] == v;
        assert(r[i0] == v);
        assert(r.contains(v));
        assert forall|i: int| 0 <= i < vs.len() implies r.contains(#[trigger] vs[i]) by {
            if i < vs.len() - 1 {
                assert(prefix[i] == vs[i]);
                assert(r0.contains(prefix[i]));
                let j = choose|j: int| 0 <= j < r0.len() && r0[j] == vs[i];
                assert(r[j] == vs[i]);
            } else {
                assert(r[r0.len() as int] == vs[i]);
            }
        }
    }
}

/// Law: the values a compact entry renders are the group's indices sorted
/// strictly ascending with duplicates removed — sorting keeps exactly the
/// values that were collected, each once.
pub proof fn lemma_sorted_uniq_props(vs: Seq<int>)
    ensures
        strictly_increasing(sorted_uniq(vs)),
        forall|i: int|
            0 <= i < sorted_uniq(vs).len() ==> vs.contains(#[trigger] sorted_uniq(vs)[i]),
        forall|i: int| 0 <= i < vs.len() ==> sorted_uniq(vs).contains(#[trigger] vs[i]),
    decreases vs.len(),
{
    if vs.len() > 0 {
        let prefix = vs.drop_last();
        let s0 = sorted_uniq(prefix);
        lemma_sorted_uniq_props(prefix);
        lemma_insert_uniq_props(s0, vs.last());
        let s1 = sorted_uniq(vs);
        assert forall|i: int| 0 <= i < s1.len() implies vs.contains(#[trigger] s1[i]) by {
            if s0.contains(s1[i]) {
                let j = choose|j: int| 0 <= j < s0.len() && s0[j] == s1[i];
                assert(prefix.contains(s0[j]));
                let k = choose|k: int| 0 <= k < prefix.len() && prefix[k] == s1[i];
                assert(vs[k] == s1[i]);
            } else {
                assert(s1[i] == vs[vs.len() - 1]);
                assert(vs.contains(s1[i]));
            }
        }
        assert forall|i: int| 0 <= i < vs.len() implies s1.contains(#[trigger] vs[i]) by {
            if i < vs.len() - 1 {
                assert(prefix[i] == vs[i]);
                assert(s0.contains(prefix[i]));
                let j = choose|j: int| 0 <= j < s0.len() && s0[j] == vs[i];
                assert(s1.contains(s0[j]));
            } else {
                assert(s1.contains(vs.last()));
            }
        }
    }
}

/// Inserting never shrinks a sequence and never yields an empty one.
pub proof fn lemma_insert_uniq_len(vs: Seq<int>, v: int)
    ensures
        insert_uniq(vs, v).len() >= 1,
        insert_uniq(vs, v).len() >= vs.len(),
    decreases vs.len(),
{
    if vs.len() > 0 && v != vs.last() && v < vs.last() {
        lemma_insert_uniq_len(vs.drop_last(), v);
    }
}

/// End (exclusive) of the contiguous run of successive values that starts
/// at position `i` of `vs`.
pub open spec fn run_stop(vs: Seq<int>, i: int) -> int
    decreases vs.len() - i,
{
    if i + 1 >= vs.len() {
        i + 1
    } else if vs[i + 1] == vs[i] + 1 {
        run_stop(vs, i + 1)
    } else {
        i + 1
    }
}

/// The text of the range notation for the values `vs[i..]`, each rendered at
/// width `w`: a contiguous run of two or more values becomes `first-last`,
/// a lone value stands by itself, and pieces are joined with commas.
pub open spec fn ranges_from(vs: Seq<int>, w: int, i: int) -> Seq<char>
    decreases vs.len() - i,
{
    if i < 0 || i >= vs.len() {
        Seq::<char>::empty()
    } else {
        let j = run_stop(vs, i);
        let piece = if j == i + 1 {
            padded(vs[i], w)
        } else {
            padded(vs[i], w) + seq!['-'] + padded(vs[j - 1], w)
        };
        if j >= vs.len() {
            piece
        } else if j <= i {
            piece
        } else {
            piece + seq![','] + ranges_from(vs, w, j)
        }
    }
}

/// The compact entry that replaces a packed group: the text before the digit
/// run of the group's first member, the range notation of the group's
/// values, and the text after the run.
pub open spec fn packed_entry(p: Seq<char>, vs: Seq<int>) -> Seq<char> {
    p.take(run_start(p)) + ranges_from(vs, run_end(p) - run_start(p), 0) + p.skip(run_end(p))
}

/// The numeric values of the entries among `s[0..j]` that share entry `i`'s
/// key, in their order of appearance (duplicates kept).
pub open spec fn group_values(s: Seq<Seq<char>>, i: int, j: int) -> Seq<int>
    decreases j,
{
    if j <= 0 {
        Seq::<int>::empty()
    } else if key_of(s[j - 1]) == key_of(s[i]) {
        group_values(s, i, j - 1).push(index_of(s[j - 1]))
    } else {
        group_values(s, i, j - 1)
    }
}

/// What packing emits at position `i` of `s`: the entry itself when it has
/// no key or its group has fewer than two members; nothing when an earlier
/// entry of the same group already spoke for it; the compact range entry
/// when `i` heads a group of two or more.
pub open spec fn emitted(s: Seq<Seq<char>>, i: int) -> Option<Seq<char>> {
    if key_of(s[i]) is None {
        Some(s[i])
    } else if exists|j: int| 0 <= j < i && same_key(s[j], s[i]) {
        None
    } else if group_values(s, i, s.len() as int).len() < 2 {
        Some(s[i])
    } else {
        Some(packed_entry(s[i], sorted_uniq(group_values(s, i, s.len() as int))))
    }
}

/// The packed form of the first `i` positions of `s`.
pub open spec fn spec_pack_upto(s: Seq<Seq<char>>, i: int) -> Seq<Seq<char>>
    decreases i,
{
    if i <= 0 {
        Seq::<Seq<char>>::empty()
    } else {
        match emitted(s, i - 1) {
            Some(e) => spec_pack_upto(s, i - 1).push(e),
            None => spec_pack_upto(s, i - 1),
        }
    }
}

/// The packed form of a whole collection.
pub open spec fn spec_pack(s: Seq<Seq<char>>) -> Seq<Seq<char>> {
    spec_pack_upto(s, s.len() as int)
}

/// Inserts `v` into the sorted duplicate-free vector `out`, keeping the
/// correspondence with [`insert_uniq`].
fn insert_val(out: &mut Vec<u64>, v: u64)
    ensures
        vals_of(final(out)@) == insert_uniq(vals_of(old(out)@), v as int),
{
    let mut k: usize = out.len();
    proof {
        let ws = vals_of(out@);
        assert(ws.take(k as int) =~= ws);
        assert(insert_uniq(ws, v as int) =~= insert_uniq(ws.take(k as int), v as int) + ws.skip(
            k as int,
        ));
    }
    while k > 0 && out[k - 1] > v
        invariant
            k <= out@.len(),
            out@ == old(out)@,
            insert_uniq(vals_of(out@), v as int) == insert_uniq(
                vals_of(out@).take(k as int),
                v as int,
            ) + vals_of(out@).skip(k as int),
        decreases k,
    {
        proof {
            let ws = vals_of(out@);
            let ki = k as int;
            assert(ws.take(ki).len() == ki);
            assert(ws.take(ki).last() == ws[ki - 1]);
            assert(ws.take(ki).drop_last() =~= ws.take(ki - 1));
            assert(insert_uniq(ws.take(ki), v as int) == insert_uniq(ws.take(ki - 1), v as int)
                .push(ws[ki - 1]));
            assert(insert_uniq(ws.take(ki - 1), v as int).push(ws[ki - 1]) + ws.skip(ki)
                =~= insert_uniq(ws.take(ki - 1), v as int) + ws.skip(ki - 1));
        }
        k = k - 1;
    }
    if k > 0 && out[k - 1] == v {
        proof {
            let ws = vals_of(out@);
            let ki = k as int;
            assert(ws.take(ki).len() == ki);
            assert(ws.take(ki).last() == v as int);
            assert(insert_uniq(ws.take(ki), v as int) == ws.take(ki));
            assert(ws.take(ki) + ws.skip(ki) =~= ws);
        }
        return ;
    }
    proof {
        let ws = vals_of(out@);
        let ki = k as int;
        if k == 0 {
            assert(ws.take(0).len() == 0);
            assert(insert_uniq(ws.take(0), v as int) =~= ws.take(0).push(v as int));
        } else {
            assert(ws.take(ki).len() == ki);
            assert(ws.take(ki).last() == ws[ki - 1]);
            assert(insert_uniq(ws.take(ki), v as int) == ws.take(ki).push(v as int));
        }
    }
    out.insert(k, v);
    proof {
        let ws = vals_of(old(out)@);
        let ki = k as int;
        assert(vals_of(out@) =~= ws.take(ki).push(v as int) + ws.skip(ki));
    }
}

/// Sorts the collected group values ascending and removes duplicates.
fn sort_uniq(vals: &Vec<u64>) -> (r: Vec<u64>)
    ensures
        vals_of(r@) == sorted_uniq(vals_of(vals@)),
{
    let mut out: Vec<u64> = Vec::new();
    proof {
        assert(vals_of(out@) =~= sorted_uniq(vals_of(vals@).take(0)));
    }
    let mut t: usize = 0;
    while t < vals.len()
        invariant
            t <= vals@.len(),
            vals_of(out@) == sorted_uniq(vals_of(vals@).take(t as int)),
        decreases vals@.len() - t,
    {
        insert_val(&mut out, vals[t]);
        proof {
            let vs = vals_of(vals@);
            let ti = t as int;
            assert(vs.take(ti + 1).len() == ti + 1);
            assert(vs.take(ti + 1).drop_last() =~= vs.take(ti));
            assert(vs.take(ti + 1).last() == vs[ti]);
        }
        t = t + 1;
    }
    proof {
        assert(vals_of(vals@).take(vals@.len() as int) =~= vals_of(vals@));
    }
    out
}

/// Whether `b` is the immediate successor of `a`.
fn is_succ(a: u64, b: u64) -> (r: bool)
    ensures
        r == (b as int == a as int + 1),
{
    if a == u64::MAX {
        false
    } else {
        b == a + 1
    }
}

/// Appends the range notation of `vs[i..]` at width `w` to `out`.
fn push_ranges(out: &mut String, vs: &Vec<u64>, w: usize, i: usize)
    requires
        i < vs@.len(),
    ensures
        final(out)@ == old(out)@ + ranges_from(vals_of(vs@), w as int, i as int),
    decreases vs@.len() - i,
{
    let mut k: usize = i;
    while k < vs.len() - 1 && is_succ(vs[k], vs[k + 1])
        invariant
            i <= k < vs@.len(),
            run_stop(vals_of(vs@), i as int) == run_stop(vals_of(vs@), k as int),
        decreases vs@.len() - k,
    {
        k = k + 1;
    }
    let j = k + 1;
    proof {
        assert(run_stop(vals_of(vs@), i as int) == j as int);
        reveal_strlit("-");
        reveal_strlit(",");
        assert("-"@ =~= seq!['-']);
        assert(","@ =~= seq![',']);
    }
    push_padded(out, vs[i], w);
    if j > i + 1 {
        out.append("-");
        push_padded(out, vs[j - 1], w);
        proof {
            let ws = vals_of(vs@);
            assert(out@ =~= old(out)@ + (padded(ws[i as int], w as int) + seq!['-'] + padded(
                ws[j as int - 1],
                w as int,
            )));
        }
    }
    if j < vs.len() {
        out.append(",");
        push_ranges(out, vs, w, j);
    }
    proof {
        assert(out@ =~= old(out)@ + ranges_from(vals_of(vs@), w as int, i as int));
    }
}

/// Packs a vector of path strings: each group of two or more entries sharing
/// a key becomes one compact range entry in the position of its first
/// member; everything else is kept as it came.
pub fn pack_vec(paths: &Vec<String>) -> (r: Vec<String>)
    ensures
        seq_views(r@) == spec_pack(seq_views(paths@)),
{
    let ghost s = seq_views(paths@);
    let n = paths.len();
    let mut out: Vec<String> = Vec::new();
    proof {
        assert(seq_views(out@) =~= spec_pack_upto(s, 0));
    }
    let mut i: usize = 0;
    while i < n
        invariant
            i <= n,
            n == paths@.len(),
            s == seq_views(paths@),
            seq_views(out@) == spec_pack_upto(s, i as int),
        decreases n - i,
    {
        let entry: &String = &paths[i];
        proof {
            assert(entry@ == s[i as int]);
        }
        match find_key(entry.as_str()) {
            None => {
                out.push(entry.clone());
                proof {
                    assert(emitted(s, i as int) == Some(s[i as int]));
                    assert(seq_views(out@) =~= spec_pack_upto(s, i as int + 1));
                }
            },
            Some(t) => {
                let mut j: usize = 0;
                let mut earlier = false;
                while j < i && !earlier
                    invariant
                        j <= i < n,
                        n == paths@.len(),
                        s == seq_views(paths@),
                        entry@ == s[i as int],
                        earlier ==> exists|u: int|
                            0 <= u < i && same_key(s[u], s[i as int]),
                        !earlier ==> forall|u: int|
                            0 <= u < j ==> !same_key(s[u], s[i as int]),
                    decreases i - j,
                {
                    proof {
                        assert(paths@[j as int]@ == s[j as int]);
                    }
                    let m = same_key_exec(paths[j].as_str(), entry.as_str());
                    proof {
                        assert(m == same_key(s[j as int], s[i as int]));
                    }
                    if m {
                        earlier = true;
                    }
                    j = j + 1;
                }
                if earlier {
                    proof {
                        assert(emitted(s, i as int) is None);
                        assert(seq_views(out@) =~= spec_pack_upto(s, i as int + 1));
                    }
                } else {
                    proof {
                        assert(forall|u: int| 0 <= u < i ==> !same_key(s[u], s[i as int]));
                    }
                    let mut vals: Vec<u64> = Vec::new();
                    proof {
                        assert(vals_of(vals@) =~= group_values(s, i as int, 0));
                    }
                    let mut u: usize = 0;
                    while u < n
                        invariant
                            u <= n,
                            i < n,
                            n == paths@.len(),
                            s == seq_views(paths@),
                            entry@ == s[i as int],
                            key_of(s[i as int]) is Some,
                            vals_of(vals@) == group_values(s, i as int, u as int),
                        decreases n - u,
                    {
                        proof {
                            assert(paths@[u as int]@ == s[u as int]);
                        }
                        let m = same_key_exec(paths[u].as_str(), entry.as_str());
                        proof {
                            assert(m == same_key(s[u as int], s[i as int]));
                        }
                        if m {
                            proof {
                                assert(key_of(s[u as int]) == key_of(s[i as int]));
                            }
                            match find_key(paths[u].as_str()) {
                                Some(tu) => {
                                    vals.push(tu.2);
                                    proof {
                                        assert(vals_of(vals@) =~= group_values(
                                            s,
                                            i as int,
                                            u as int + 1,
                                        ));
                                    }
                                },
                                None => {
                                    proof {
                                        assert(false);
                                    }
                                },
                            }
                        } else {
                            proof {
                                assert(key_of(s[u as int]) != key_of(s[i as int]));
                            }
                        }
                        u = u + 1;
                    }
                    if vals.len() < 2 {
                        out.push(entry.clone());
                        proof {
                            assert(group_values(s, i as int, s.len() as int).len() < 2);
                            assert(emitted(s, i as int) == Some(s[i as int]));
                            assert(seq_views(out@) =~= spec_pack_upto(s, i as int + 1));
                        }
                    } else {
                        let su = sort_uniq(&vals);
                        proof {
                            let gv = group_values(s, i as int, s.len() as int);
                            assert(gv.len() >= 2);
                            lemma_insert_uniq_len(sorted_uniq(gv.drop_last()), gv.last());
                            assert(sorted_uniq(gv).len() >= 1);
                            assert(su@.len() >= 1);
                        }
                        let nlen = entry.as_str().unicode_len();
                        let mut piece = String::from_str(entry.as_str().substring_char(0, t.0));
                        proof {
                            assert(piece@ =~= s[i as int].take(run_start(s[i as int])));
                        }
                        push_ranges(&mut piece, &su, t.1 - t.0, 0);
                        piece.append(entry.as_str().substring_char(t.1, nlen));
                        proof {
                            let p = s[i as int];
                            let gv = group_values(s, i as int, s.len() as int);
                            assert(vals_of(su@) == sorted_uniq(gv));
                            assert(entry@.subrange(t.1 as int, nlen as int) =~= p.skip(run_end(p)));
                            assert(piece@ =~= packed_entry(p, sorted_uniq(gv)));
                            assert(emitted(s, i as int) == Some(packed_entry(p, sorted_uniq(gv))));
                        }
                        out.push(piece);
                        proof {
                            assert(seq_views(out@) =~= spec_pack_upto(s, i as int + 1));
                        }
                    }
                }
            },
        }
        i = i + 1;
    }
    proof {
        assert(spec_pack_upto(s, n as int) == spec_pack(s));
    }
    out
}

/// No two distinct positions of `s` share a grouping key.
pub open spec fn distinct_keys(s: Seq<Seq<char>>) -> bool {
    forall|a: int, b: int| 0 <= a < b < s.len() ==> !same_key(s[a], s[b])
}

/// Under distinct keys, a group never has a second member: the values
/// collected for position `i` are exactly its own value once `j` passes it.
proof fn lemma_group_values_single(s: Seq<Seq<char>>, i: int, j: int)
    requires
        distinct_keys(s),
        0 <= i < s.len(),
        key_of(s[i]) is Some,
        0 <= j <= s.len(),
    ensures
        group_values(s, i, j) == if j > i {
            seq![index_of(s[i])]
        } else {
            Seq::<int>::empty()
        },
    decreases j,
{
    if j > 0 {
        lemma_group_values_single(s, i, j - 1);
        if j - 1 == i {
            assert(group_values(s, i, j) =~= seq![index_of(s[i])]);
        } else if key_of(s[j - 1]) == key_of(s[i]) {
            if j - 1 < i {
                assert(same_key(s[j - 1], s[i]));
                assert(false);
            } else {
                assert(same_key(s[i], s[j - 1]));
                assert(false);
            }
        }
    }
}

/// Law: on a collection whose entries' keys are pairwise distinct — each
/// entry either has no key or shares it with no other entry — packing
/// changes nothing. In particular a collection of compact descriptors that
/// do not group among themselves passes through packing untouched.
pub proof fn lemma_pack_distinct_noop(s: Seq<Seq<char>>)
    requires
        distinct_keys(s),
    ensures
        spec_pack(s) == s,
{
    lemma_pack_upto_distinct(s, s.len() as int);
    assert(s.take(s.len() as int) =~= s);
}

proof fn lemma_pack_upto_distinct(s: Seq<Seq<char>>, i: int)
    requires
        distinct_keys(s),
        0 <= i <= s.len(),
    ensures
        spec_pack_upto(s, i) == s.take(i),
    decreases i,
{
    if i > 0 {
        lemma_pack_upto_distinct(s, i - 1);
        if key_of(s[i - 1]) is Some {
            assert forall|j: int| 0 <= j < i - 1 implies !(#[trigger] same_key(s[j], s[i - 1])) by {
                assert(0 <= j < i - 1 < s.len());
            }
            lemma_group_values_single(s, i - 1, s.len() as int);
            assert(group_values(s, i - 1, s.len() as int).len() == 1);
        }
        assert(emitted(s, i - 1) == Some(s[i - 1]));
        assert(s.take(i - 1).push(s[i - 1]) =~= s.take(i));
    } else {
        assert(spec_pack_upto(s, 0) =~= s.take(0));
    }
}

/// Law: packing is idempotent on collections whose packed form has pairwise
/// distinct keys — the compact descriptors behave as opaque, non-matching
/// strings, and a second pass changes nothing.
pub proof fn lemma_pack_idempotent(s: Seq<Seq<char>>)
    requires
        distinct_keys(spec_pack(s)),
    ensures
        spec_pack(spec_pack(s)) == spec_pack(s),
{
    lemma_pack_distinct_noop(spec_pack(s));
}

/// Law: a collection in which no entry has a grouping key — no filename
/// holds a digit run — passes through packing completely untouched.
pub proof fn lemma_pack_keyless_noop(s: Seq<Seq<char>>)
    requires
        forall|i: int| 0 <= i < s.len() ==> key_of(#[trigger] s[i]) is None,
    ensures
        spec_pack(s) == s,
{
    assert forall|a: int, b: int| 0 <= a < b < s.len() implies !(#[trigger] same_key(
        s[a],
        s[b],
    )) by {
        assert(key_of(s[a]) is None);
    }
    lemma_pack_distinct_noop(s);
}

/// Law: packing never adds entries; the packed collection is at most as
/// long as the one it came from.
pub proof fn lemma_pack_never_grows(s: Seq<Seq<char>>)
    ensures
        spec_pack(s).len() <= s.len(),
{
    lemma_pack_upto_len(s, s.len() as int);
}

proof fn lemma_pack_upto_len(s: Seq<Seq<char>>, i: int)
    requires
        0 <= i <= s.len(),
    ensures
        spec_pack_upto(s, i).len() <= i,
    decreases i,
{
    if i > 0 {
        lemma_pack_upto_len(s, i - 1);
    }
}

/// Law: entries whose digit runs have different widths never share a
/// grouping key, so they are never merged into one group — the width is
/// part of the key.
pub proof fn lemma_width_separates(p: Seq<char>, q: Seq<char>)
    requires
        key_of(p) is Some,
        key_of(q) is Some,
        run_end(p) - run_start(p) != run_end(q) - run_start(q),
    ensures
        !same_key(p, q),
{
}

} // verus!
