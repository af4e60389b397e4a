//! Lists of strings: membership, first-occurrence dedup, and byte-order sort.

use vstd::prelude::*;

use crate::props::{key_lt, lemma_key_lt_irreflexive, lemma_key_lt_total, lemma_key_lt_transitive};
use crate::text::{lemma_split_on_nonempty, split_on, str_eq, str_less};

verus! {

broadcast use {vstd::seq_lib::group_seq_properties, vstd::set::group_set_axioms};

/// A string sequence as characters.
pub open spec fn strs(s: Seq<String>) -> Seq<Seq<char>> {
    s.map_values(|x: String| x@)
}

/// Strictly increasing in `str` order.
pub open spec fn sorted_strs(s: Seq<Seq<char>>) -> bool {
    forall|i: int, j: int| 0 <= i < j < s.len() ==> key_lt(#[trigger] s[i], #[trigger] s[j])
}

/// Whether `s` is one of `xs`.
pub fn contains_str(xs: &Vec<String>, s: &str) -> (b: bool)
    ensures
        b == strs(xs@).contains(s@),
{
    let mut i: usize = 0;
    while i < xs.len()
        invariant
            i <= xs@.len(),
            forall|j: int| 0 <= j < i ==> xs@[j]@ != s@,
        decreases xs@.len() - i,
    {
        if str_eq(xs[i].as_str(), s) {
            assert(strs(xs@)[i as int] == s@);
            return true;
        }
        i = i + 1;
    }
    proof {
        if strs(xs@).contains(s@) {
            let k = choose|k: int| 0 <= k < strs(xs@).len() && strs(xs@)[k] == s@;
            assert(xs@[k]@ == s@);
        }
    }
    false
}

/// The distinct strings of `xs`, each at its first occurrence.
pub fn dedup_strings(xs: &Vec<String>) -> (r: Vec<String>)
    ensures
        strs(r@).no_duplicates(),
        strs(r@).to_set() == strs(xs@).to_set(),
        r@.len() == strs(xs@).to_set().len(),
{
    let mut out: Vec<String> = Vec::new();
    let mut i: usize = 0;
    while i < xs.len()
        invariant
            i <= xs@.len(),
            strs(out@).no_duplicates(),
            strs(out@).to_set() == strs(xs@.subrange(0, i as int)).to_set(),
        decreases xs@.len() - i,
    {
        let ghost old_out = strs(out@);
        assert(strs(xs@.subrange(0, i + 1)) =~= strs(xs@.subrange(0, i as int)).push(xs@[i as int]@));
        proof {
            strs(xs@.subrange(0, i as int)).lemma_push_to_set_commute(xs@[i as int]@);
            old_out.lemma_push_to_set_commute(xs@[i as int]@);
        }
        if !contains_str(&out, xs[i].as_str()) {
            out.push(xs[i].clone());
            assert(strs(out@) =~= old_out.push(xs@[i as int]@));
        } else {
            assert(old_out.to_set().contains(xs@[i as int]@));
            assert(old_out.to_set() =~= old_out.to_set().insert(xs@[i as int]@));
        }
        i = i + 1;
    }
    assert(xs@.subrange(0, xs@.len() as int) =~= xs@);
    proof {
        strs(out@).unique_seq_to_set();
    }
    out
}

/// The strings of `xs` in increasing `str` order. The input holds no duplicates.
pub fn sort_distinct(xs: Vec<String>) -> (r: Vec<String>)
    requires
        strs(xs@).no_duplicates(),
    ensures
        sorted_strs(strs(r@)),
        strs(r@).to_set() == strs(xs@).to_set(),
        r@.len() == xs@.len(),
        strs(r@).no_duplicates(),
{
    let mut out: Vec<String> = Vec::new();
    let mut i: usize = 0;
    while i < xs.len()
        invariant
            i <= xs@.len(),
            strs(xs@).no_duplicates(),
            sorted_strs(strs(out@)),
            strs(out@).to_set() == strs(xs@.subrange(0, i as int)).to_set(),
            out@.len() == i,
        decreases xs@.len() - i,
    {
        let x = &xs[i];
        let ghost old_out = strs(out@);
        let mut p: usize = 0;
        while p < out.len() && str_less(out[p].as_str(), x.as_str())
            invariant
                p <= out@.len(),
                out@.len() == old_out.len(),
                strs(out@) == old_out,
                forall|k: int| 0 <= k < p ==> key_lt(#[trigger] old_out[k], x@),
            decreases out@.len() - p,
        {
            p = p + 1;
        }
        proof {
            assert(!strs(xs@.subrange(0, i as int)).contains(x@)) by {
                if strs(xs@.subrange(0, i as int)).contains(x@) {
                    let k = choose|k: int| 0 <= k < i && strs(xs@.subrange(0, i as int))[k] == x@;
                    assert(strs(xs@)[k] == strs(xs@)[i as int]);
                }
            }
            assert(!old_out.to_set().contains(x@));
            if p < old_out.len() {
                assert(old_out[p as int] != x@) by {
                    assert(old_out.to_set().contains(old_out[p as int]));
                }
                lemma_key_lt_total(old_out[p as int], x@);
            }
        }
        out.insert(p, x.clone());
        proof {
            let nv = strs(out@);
            assert(nv =~= old_out.insert(p as int, x@));
            assert forall|a: int, b: int| 0 <= a < b < nv.len() implies key_lt(#[trigger] nv[a], #[trigger] nv[b]) by {
                if a < p && b < p {
                    assert(key_lt(old_out[a], old_out[b]));
                } else if a < p && b == p {
                } else if a < p && b > p {
                    assert(key_lt(old_out[a], old_out[b - 1]));
                } else if a == p && b > p {
                    if b - 1 > p {
                        assert(key_lt(old_out[p as int], old_out[b - 1]));
                        lemma_key_lt_transitive(x@, old_out[p as int], old_out[b - 1]);
                    }
                } else {
                    assert(key_lt(old_out[a - 1], old_out[b - 1]));
                }
            }
            assert(nv.to_set() =~= old_out.to_set().insert(x@)) by {
                assert forall|e: Seq<char>| nv.to_set().contains(e) <==> old_out.to_set().insert(x@).contains(e) by {
                    if nv.to_set().contains(e) {
                        let k = choose|k: int| 0 <= k < nv.len() && nv[k] == e;
                        if k < p {
                            assert(old_out[k] == e);
                        } else if k > p {
                            assert(old_out[k - 1] == e);
                        }
                    }
                    if old_out.to_set().contains(e) {
                        let k = choose|k: int| 0 <= k < old_out.len() && old_out[k] == e;
                        if k < p {
                            assert(nv[k] == e);
                        } else {
                            assert(nv[k + 1] == e);
                        }
                    }
                    if e == x@ {
                        assert(nv[p as int] == e);
                    }
                }
            }
            assert(strs(xs@.subrange(0, i + 1)) =~= strs(xs@.subrange(0, i as int)).push(x@));
        }
        i = i + 1;
    }
    assert(xs@.subrange(0, xs@.len() as int) =~= xs@);
    proof {
        assert forall|a: int, b: int| 0 <= a < b < strs(out@).len() implies strs(out@)[a] != strs(out@)[b] by {
            lemma_key_lt_irreflexive(strs(out@)[a]);
        }
    }
    out
}

/// A copy of `xs`.
pub fn clone_strings(xs: &Vec<String>) -> (r: Vec<String>)
    ensures
        strs(r@) == strs(xs@),
{
    let mut out: Vec<String> = Vec::new();
    let mut i: usize = 0;
    while i < xs.len()
        invariant
            i <= xs@.len(),
            strs(out@) == strs(xs@).subrange(0, i as int),
        decreases xs@.len() - i,
    {
        let ghost before = strs(out@);
        let c = xs[i].clone();
        assert(c@ == xs@[i as int]@);
        out.push(c);
        assert(strs(out@) =~= before.push(xs@[i as int]@));
        assert(strs(out@) =~= strs(xs@).subrange(0, i + 1));
        i = i + 1;
    }
    assert(strs(xs@).subrange(0, xs@.len() as int) =~= strs(xs@));
    out
}

/// `parts` with `sep` between neighbours.
pub open spec fn join_with(parts: Seq<Seq<char>>, sep: char) -> Seq<char>
    decreases parts.len(),
{
    if parts.len() == 0 {
        seq![]
    } else if parts.len() == 1 {
        parts[0]
    } else {
        join_with(parts.drop_last(), sep) + seq![sep] + parts.last()
    }
}

/// The strings of `parts` with the one-character `sep` between neighbours.
pub fn join_strings(parts: &Vec<String>, sep: &str) -> (s: String)
    requires
        sep@.len() == 1,
    ensures
        s@ == join_with(strs(parts@), sep@[0]),
{
    let ghost pv = strs(parts@);
    if parts.len() == 0 {
        return String::new();
    }
    let mut out = parts[0].clone();
    assert(pv.subrange(0, 1) =~= seq![pv[0]]);
    let mut i: usize = 1;
    while i < parts.len()
        invariant
            1 <= i <= parts@.len(),
            pv == strs(parts@),
            sep@.len() == 1,
            out@ == join_with(pv.subrange(0, i as int), sep@[0]),
        decreases parts@.len() - i,
    {
        let ghost before = out@;
        out.append(sep);
        out.append(parts[i].as_str());
        proof {
            let sub = pv.subrange(0, i + 1);
            assert(sub.drop_last() =~= pv.subrange(0, i as int));
            assert(sep@ =~= seq![sep@[0]]);
            assert(out@ =~= before + seq![sep@[0]] + pv[i as int]);
        }
        i = i + 1;
    }
    assert(pv.subrange(0, parts@.len() as int) =~= pv);
    out
}

/// The strictly increasing arrangement of the strings of `s`.
pub open spec fn sorted_of(s: Seq<Seq<char>>) -> Seq<Seq<char>> {
    choose|t: Seq<Seq<char>>| sorted_strs(t) && t.to_set() == s.to_set()
}

/// Two strictly increasing sequences with the same elements are equal.
pub proof fn lemma_sorted_strs_unique(a: Seq<Seq<char>>, b: Seq<Seq<char>>)
    requires
        sorted_strs(a),
        sorted_strs(b),
        a.to_set() == b.to_set(),
    ensures
        a == b,
    decreases a.len(),
{
    if a.len() == 0 {
        if b.len() > 0 {
            assert(b.to_set().contains(b[0]));
        }
        assert(a =~= b);
    } else {
        if b.len() == 0 {
            assert(a.to_set().contains(a[0]));
        }
        assert(a.to_set().contains(a[0]));
        assert(b.to_set().contains(b[0]));
        let j = choose|j: int| 0 <= j < b.len() && b[j] == a[0];
        let i = choose|i: int| 0 <= i < a.len() && a[i] == b[0];
        if i > 0 && j > 0 {
            assert(key_lt(a[0], a[i]));
            assert(key_lt(b[0], b[j]));
            lemma_key_lt_transitive(a[0], b[0], a[0]);
            lemma_key_lt_irreflexive(a[0]);
        } else if i > 0 {
            assert(key_lt(a[0], a[i]));
            lemma_key_lt_irreflexive(a[0]);
        } else if j > 0 {
            assert(key_lt(b[0], b[j]));
            lemma_key_lt_irreflexive(b[0]);
        }
        assert(a[0] == b[0]);
        let a1 = a.drop_first();
        let b1 = b.drop_first();
        assert forall|x: Seq<char>| a1.to_set().contains(x) <==> b1.to_set().contains(x) by {
            if a1.to_set().contains(x) {
                let k = choose|k: int| 0 <= k < a1.len() && a1[k] == x;
                assert(key_lt(a[0], a[k + 1]));
                lemma_key_lt_irreflexive(a[0]);
                assert(a.to_set().contains(x));
                let m = choose|m: int| 0 <= m < b.len() && b[m] == x;
                assert(m != 0);
                assert(b1[m - 1] == x);
            }
            if b1.to_set().contains(x) {
                let k = choose|k: int| 0 <= k < b1.len() && b1[k] == x;
                assert(key_lt(b[0], b[k + 1]));
                lemma_key_lt_irreflexive(b[0]);
                assert(b.to_set().contains(x));
                let m = choose|m: int| 0 <= m < a.len() && a[m] == x;
                assert(m != 0);
                assert(a1[m - 1] == x);
            }
        }
        assert(a1.to_set() =~= b1.to_set());
        lemma_sorted_strs_unique(a1, b1);
        assert(a =~= b) by {
            assert forall|k: int| 0 <= k < a.len() implies a[k] == b[k] by {
                if k > 0 {
                    assert(a1[k - 1] == b1[k - 1]);
                }
            }
        }
    }
}

/// A strictly increasing arrangement of the strings of `s` is `sorted_of(s)`.
pub proof fn lemma_sorted_of(t: Seq<Seq<char>>, s: Seq<Seq<char>>)
    requires
        sorted_strs(t),
        t.to_set() == s.to_set(),
    ensures
        sorted_of(s) == t,
{
    let c = sorted_of(s);
    assert(sorted_strs(c) && c.to_set() == s.to_set());
    lemma_sorted_strs_unique(c, t);
}

/// Appending text without `c` extends the last piece of a split on `c`.
pub proof fn lemma_split_append(x: Seq<char>, b: Seq<char>, c: char)
    requires
        !b.contains(c),
    ensures
        split_on(x + b, c) == split_on(x, c).update(
            split_on(x, c).len() - 1,
            split_on(x, c).last() + b,
        ),
    decreases b.len(),
{
    lemma_split_on_nonempty(x, c);
    let sx = split_on(x, c);
    if b.len() == 0 {
        assert(x + b =~= x);
        assert(sx.last() + b =~= sx.last());
        assert(sx.update(sx.len() - 1, sx.last() + b) =~= sx);
    } else {
        let b0 = b.drop_last();
        assert(!b0.contains(c)) by {
            if b0.contains(c) {
                let k = choose|k: int| 0 <= k < b0.len() && b0[k] == c;
                assert(b[k] == c);
            }
        }
        lemma_split_append(x, b0, c);
        let xb = x + b;
        assert(xb.drop_last() =~= x + b0);
        assert(xb.last() == b.last());
        assert(b.last() != c) by {
            assert(b[b.len() - 1] == b.last());
        }
        let p0 = split_on(x + b0, c);
        assert(split_on(xb, c) == p0.update(p0.len() - 1, p0.last().push(b.last())));
        assert(p0.last() == sx.last() + b0);
        assert((sx.last() + b0).push(b.last()) =~= sx.last() + b);
        assert(p0.update(p0.len() - 1, p0.last().push(b.last())) =~= sx.update(
            sx.len() - 1,
            sx.last() + b,
        ));
    }
}

/// Splitting pieces joined with `c` gives the pieces back, when none holds `c`.
pub proof fn lemma_split_join(parts: Seq<Seq<char>>, c: char)
    requires
        parts.len() >= 1,
        forall|i: int| 0 <= i < parts.len() ==> !(#[trigger] parts[i]).contains(c),
    ensures
        split_on(join_with(parts, c), c) == parts,
    decreases parts.len(),
{
    let e = Seq::<char>::empty();
    if parts.len() == 1 {
        assert(!parts[0].contains(c));
        lemma_split_append(e, parts[0], c);
        assert(e + parts[0] =~= parts[0]);
        assert(split_on(e, c) == seq![e]);
        assert(e + parts[0] =~= parts[0]);
        assert(seq![e].update(0, e + parts[0]) =~= parts);
    } else {
        let init = parts.drop_last();
        assert forall|i: int| 0 <= i < init.len() implies !(#[trigger] init[i]).contains(c) by {
            assert(init[i] == parts[i]);
        }
        lemma_split_join(init, c);
        let j = join_with(init, c);
        let jc = j + seq![c];
        assert(jc.drop_last() =~= j);
        assert(jc.last() == c);
        assert(split_on(jc, c) == split_on(j, c).push(seq![]));
        assert(!parts.last().contains(c)) by {
            assert(parts[parts.len() - 1] == parts.last());
        }
        lemma_split_append(jc, parts.last(), c);
        assert(join_with(parts, c) == jc + parts.last());
        let sj = split_on(jc, c);
        assert(sj.last() + parts.last() =~= parts.last());
        assert(sj.update(sj.len() - 1, sj.last() + parts.last()) =~= parts);
    }
}

/// Facts about the ends and characters of a join.
pub proof fn lemma_join_shape(parts: Seq<Seq<char>>, sep: char, c: char)
    requires
        parts.len() >= 1,
        forall|i: int| 0 <= i < parts.len() ==> (#[trigger] parts[i]).len() > 0,
    ensures
        join_with(parts, sep).len() > 0,
        join_with(parts, sep)[0] == parts[0][0],
        join_with(parts, sep).last() == parts.last().last(),
        c != sep && (forall|i: int| 0 <= i < parts.len() ==> !(#[trigger] parts[i]).contains(c))
            ==> !join_with(parts, sep).contains(c),
    decreases parts.len(),
{
    let j = join_with(parts, sep);
    if parts.len() > 1 {
        let init = parts.drop_last();
        assert forall|i: int| 0 <= i < init.len() implies (#[trigger] init[i]).len() > 0 by {
            assert(init[i] == parts[i]);
        }
        lemma_join_shape(init, sep, c);
        let ji = join_with(init, sep);
        assert(j == ji + seq![sep] + parts.last());
        assert(j[0] == ji[0]);
        assert(parts.last() == parts[parts.len() - 1]);
        assert(j.last() == parts.last()[parts.last().len() - 1]);
        if c != sep && (forall|i: int| 0 <= i < parts.len() ==> !(#[trigger] parts[i]).contains(c)) {
            assert forall|i: int| 0 <= i < init.len() implies !(#[trigger] init[i]).contains(c) by {
                assert(init[i] == parts[i]);
            }
            assert(!parts.last().contains(c));
            if j.contains(c) {
                let k = choose|k: int| 0 <= k < j.len() && j[k] == c;
                if k < ji.len() {
                    assert(ji[k] == c);
                } else if k > ji.len() {
                    assert(parts.last()[k - ji.len() - 1] == c);
                }
            }
        }
    } else {
        assert(parts.last() == parts[0]);
    }
}

/// How many leading entries of `t` sort below `e`.
pub open spec fn rank_below(t: Seq<Seq<char>>, e: Seq<char>) -> nat
    decreases t.len(),
{
    if t.len() > 0 && key_lt(t[0], e) {
        1 + rank_below(t.drop_first(), e)
    } else {
        0
    }
}

proof fn lemma_rank_below(t: Seq<Seq<char>>, e: Seq<char>)
    requires
        sorted_strs(t),
    ensures
        rank_below(t, e) <= t.len(),
        forall|k: int| 0 <= k < rank_below(t, e) ==> key_lt(#[trigger] t[k], e),
        rank_below(t, e) < t.len() ==> !key_lt(t[rank_below(t, e) as int], e),
    decreases t.len(),
{
    if t.len() > 0 && key_lt(t[0], e) {
        let t1 = t.drop_first();
        assert(sorted_strs(t1)) by {
            assert forall|a: int, b: int| 0 <= a < b < t1.len() implies key_lt(#[trigger] t1[a], #[trigger] t1[b]) by {
                assert(t1[a] == t[a + 1] && t1[b] == t[b + 1]);
            }
        }
        lemma_rank_below(t1, e);
        assert forall|k: int| 0 <= k < rank_below(t, e) implies key_lt(#[trigger] t[k], e) by {
            if k > 0 {
                assert(t[k] == t1[k - 1]);
            }
        }
        if rank_below(t, e) < t.len() {
            assert(t[rank_below(t, e) as int] == t1[rank_below(t1, e) as int]);
        }
    }
}

/// Every list of strings has a strictly increasing arrangement of its elements.
pub proof fn lemma_sorted_exists(x: Seq<Seq<char>>)
    ensures
        sorted_strs(sorted_of(x)),
        sorted_of(x).to_set() == x.to_set(),
    decreases x.len(),
{
    if x.len() == 0 {
        let t = Seq::<Seq<char>>::empty();
        assert(t.to_set() =~= x.to_set());
        assert(sorted_strs(t) && t.to_set() == x.to_set());
    } else {
        let x0 = x.drop_last();
        let e = x.last();
        lemma_sorted_exists(x0);
        let t0 = sorted_of(x0);
        assert(x =~= x0.push(e));
        x0.lemma_push_to_set_commute(e);
        if t0.to_set().contains(e) {
            assert(t0.to_set() =~= x0.to_set().insert(e));
            assert(sorted_strs(t0) && t0.to_set() == x.to_set());
        } else {
            lemma_rank_below(t0, e);
            let p = rank_below(t0, e) as int;
            if p < t0.len() {
                assert(t0[p] != e) by {
                    assert(t0.to_set().contains(t0[p]));
                }
                lemma_key_lt_total(t0[p], e);
            }
            let t = t0.insert(p, e);
            assert forall|a: int, b: int| 0 <= a < b < t.len() implies key_lt(#[trigger] t[a], #[trigger] t[b]) by {
                if a < p && b < p {
                    assert(key_lt(t0[a], t0[b]));
                } else if a < p && b == p {
                } else if a < p && b > p {
                    assert(key_lt(t0[a], t0[b - 1]));
                } else if a == p && b > p {
                    if b - 1 > p {
                        assert(key_lt(t0[p], t0[b - 1]));
                        lemma_key_lt_transitive(e, t0[p], t0[b - 1]);
                    }
                } else {
                    assert(key_lt(t0[a - 1], t0[b - 1]));
                }
            }
            assert(t.to_set() =~= t0.to_set().insert(e)) by {
                assert forall|y: Seq<char>| t.to_set().contains(y) <==> t0.to_set().insert(e).contains(y) by {
                    if t.to_set().contains(y) {
                        let k = choose|k: int| 0 <= k < t.len() && t[k] == y;
                        if k < p {
                            assert(t0[k] == y);
                        } else if k > p {
                            assert(t0[k - 1] == y);
                        }
                    }
                    if t0.to_set().contains(y) {
                        let k = choose|k: int| 0 <= k < t0.len() && t0[k] == y;
                        if k < p {
                            assert(t[k] == y);
                        } else {
                            assert(t[k + 1] == y);
                        }
                    }
                    if y == e {
                        assert(t[p] == y);
                    }
                }
            }
            assert(sorted_strs(t) && t.to_set() == x.to_set());
        }
    }
}

/// A strictly increasing list holds no duplicates.
pub proof fn lemma_sorted_no_duplicates(t: Seq<Seq<char>>)
    requires
        sorted_strs(t),
    ensures
        t.no_duplicates(),
{
    assert forall|a: int, b: int| 0 <= a < b < t.len() implies t[a] != t[b] by {
        lemma_key_lt_irreflexive(t[a]);
    }
}

/// Whether two string lists hold the same strings in the same order.
pub fn strings_equal(a: &Vec<String>, b: &Vec<String>) -> (r: bool)
    ensures
        r == (strs(a@) == strs(b@)),
{
    if a.len() != b.len() {
        assert(strs(a@).len() != strs(b@).len());
        return false;
    }
    let mut i: usize = 0;
    while i < a.len()
        invariant
            i <= a@.len(),
            a@.len() == b@.len(),
            forall|k: int| 0 <= k < i ==> a@[k]@ == b@[k]@,
        decreases a@.len() - i,
    {
        if !str_eq(a[i].as_str(), b[i].as_str()) {
            assert(strs(a@)[i as int] != strs(b@)[i as int]);
            return false;
        }
        i = i + 1;
    }
    assert(strs(a@) =~= strs(b@));
    true
}

} // verus!
