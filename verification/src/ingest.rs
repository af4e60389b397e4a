//! Write orchestration over a [`Store`]: snapshots folded by identity,
//! diffs between two snapshots, source rows merged with admitted edits, and
//! the appends that carry them into the log.

use vstd::prelude::*;

use crate::props::{key_lt, lemma_key_lt_asymmetric, lemma_key_lt_irreflexive, lemma_key_lt_total, lemma_key_lt_transitive};
use crate::pagelog::{takes, LogWrite};
use crate::record::{opt_str_equal, ObjectRecord, RecordView};
use crate::store::{batch_applied, logged_step, projection_fits, write_refusal, Store};
use crate::text::{concat_str, decimal, decimal_string, str_eq, str_less};

verus! {

/// Whether two records name the same object `(kind, key)`.
pub open spec fn same_identity(a: RecordView, b: RecordView) -> bool {
    a.kind == b.kind && a.key == b.key
}

/// Whether some record of `s` names the object that `r` names.
pub open spec fn has_identity(s: Seq<RecordView>, r: RecordView) -> bool {
    exists|i: int| 0 <= i < s.len() && same_identity(#[trigger] s[i], r)
}

/// Whether no two records of `s` name the same object.
pub open spec fn distinct_identities(s: Seq<RecordView>) -> bool {
    forall|i: int, j: int| 0 <= i < j < s.len() ==> !same_identity(#[trigger] s[i], #[trigger] s[j])
}

/// Whether `rs[j]` is the last record of `rs` for its object.
pub open spec fn is_last(rs: Seq<RecordView>, j: int) -> bool {
    forall|k: int| j < k < rs.len() ==> !same_identity(#[trigger] rs[k], rs[j])
}

/// The views of a list of records.
pub open spec fn record_views(v: Seq<ObjectRecord>) -> Seq<RecordView> {
    v.map_values(|r: ObjectRecord| r@)
}

/// `rs` folded by identity: one record per object, in the order in which
/// each object first appears, and for each the last record given for it.
pub open spec fn folded(rs: Seq<RecordView>) -> Seq<RecordView>
    decreases rs.len(),
{
    if rs.len() == 0 {
        Seq::empty()
    } else {
        let prev = folded(rs.drop_last());
        let r = rs.last();
        if has_identity(prev, r) {
            prev.update(choose|i: int| 0 <= i < prev.len() && same_identity(#[trigger] prev[i], r), r)
        } else {
            prev.push(r)
        }
    }
}

/// Folding leaves at most one record per object.
pub proof fn lemma_folded_distinct(rs: Seq<RecordView>)
    ensures
        distinct_identities(folded(rs)),
        folded(rs).len() <= rs.len(),
    decreases rs.len(),
{
    if rs.len() > 0 {
        let prev = folded(rs.drop_last());
        let r = rs.last();
        lemma_folded_distinct(rs.drop_last());
        if has_identity(prev, r) {
            let c = choose|i: int| 0 <= i < prev.len() && same_identity(#[trigger] prev[i], r);
            let f = prev.update(c, r);
            assert forall|i: int, j: int| 0 <= i < j < f.len() implies !same_identity(#[trigger] f[i], #[trigger] f[j]) by {
                if i == c {
                    assert(!same_identity(prev[c], prev[j]));
                } else if j == c {
                    assert(!same_identity(prev[i], prev[c]));
                } else {
                    assert(!same_identity(prev[i], prev[j]));
                }
            }
        } else {
            let f = prev.push(r);
            assert forall|i: int, j: int| 0 <= i < j < f.len() implies !same_identity(#[trigger] f[i], #[trigger] f[j]) by {
                if j == prev.len() {
                    assert(f[i] == prev[i]);
                    if same_identity(prev[i], r) {
                        assert(has_identity(prev, r));
                    }
                } else {
                    assert(!same_identity(prev[i], prev[j]));
                }
            }
        }
    }
}

/// Every folded record is the last record given for its object.
pub proof fn lemma_folded_last(rs: Seq<RecordView>)
    ensures
        forall|i: int| 0 <= i < folded(rs).len() ==> exists|j: int| 0 <= j < rs.len() && rs[j] == #[trigger] folded(rs)[i]
            && is_last(rs, j),
    decreases rs.len(),
{
    if rs.len() > 0 {
        let init = rs.drop_last();
        let prev = folded(init);
        let r = rs.last();
        let n = rs.len() - 1;
        lemma_folded_last(init);
        lemma_folded_distinct(init);
        let f = folded(rs);
        assert forall|i: int| 0 <= i < f.len() implies exists|j: int| 0 <= j < rs.len() && rs[j] == #[trigger] f[i]
            && is_last(rs, j) by {
            if f[i] == r {
                assert(rs[n] == f[i] && is_last(rs, n));
            } else {
                assert(i < prev.len() && f[i] == prev[i]);
                let j = choose|j: int| 0 <= j < init.len() && init[j] == prev[i] && is_last(init, j);
                assert(!same_identity(r, prev[i])) by {
                    if has_identity(prev, r) {
                        let c = choose|q: int| 0 <= q < prev.len() && same_identity(#[trigger] prev[q], r);
                        assert(i != c);
                        if i < c {
                            assert(!same_identity(prev[i], prev[c]));
                        } else {
                            assert(!same_identity(prev[c], prev[i]));
                        }
                    } else {
                        if same_identity(r, prev[i]) {
                            assert(same_identity(prev[i], r));
                        }
                    }
                }
                assert forall|k: int| j < k < rs.len() implies !same_identity(#[trigger] rs[k], rs[j]) by {
                    if k < n {
                        assert(rs[k] == init[k]);
                        assert(!same_identity(init[k], init[j]));
                    }
                }
                assert(rs[j] == f[i]);
            }
        }
    }
}

/// Every object given keeps a record in the fold.
pub proof fn lemma_folded_covers(rs: Seq<RecordView>)
    ensures
        forall|j: int| 0 <= j < rs.len() ==> has_identity(folded(rs), #[trigger] rs[j]),
    decreases rs.len(),
{
    if rs.len() > 0 {
        let init = rs.drop_last();
        let prev = folded(init);
        let r = rs.last();
        let n = rs.len() - 1;
        lemma_folded_covers(init);
        let f = folded(rs);
        assert forall|j: int| 0 <= j < rs.len() implies has_identity(f, #[trigger] rs[j]) by {
            if j == n {
                if has_identity(prev, r) {
                    let c = choose|i: int| 0 <= i < prev.len() && same_identity(#[trigger] prev[i], r);
                    assert(f[c] == r);
                    assert(same_identity(f[c], rs[j]));
                } else {
                    assert(f[prev.len() as int] == r);
                    assert(same_identity(f[prev.len() as int], rs[j]));
                }
            } else {
                assert(rs[j] == init[j]);
                assert(has_identity(prev, init[j]));
                let q = choose|i: int| 0 <= i < prev.len() && same_identity(#[trigger] prev[i], init[j]);
                if has_identity(prev, r) {
                    let c = choose|i: int| 0 <= i < prev.len() && same_identity(#[trigger] prev[i], r);
                    if q == c {
                        assert(same_identity(f[c], rs[j]));
                    } else {
                        assert(f[q] == prev[q]);
                        assert(same_identity(f[q], rs[j]));
                    }
                } else {
                    assert(f[q] == prev[q]);
                    assert(same_identity(f[q], rs[j]));
                }
            }
        }
    }
}

/// The last record given for an object is the one the fold keeps.
pub proof fn lemma_folded_keeps_last(rs: Seq<RecordView>, j: int)
    requires
        0 <= j < rs.len(),
        is_last(rs, j),
    ensures
        folded(rs).contains(rs[j]),
{
    lemma_folded_covers(rs);
    lemma_folded_last(rs);
    let f = folded(rs);
    assert(has_identity(f, rs[j]));
    let i = choose|i: int| 0 <= i < f.len() && same_identity(#[trigger] f[i], rs[j]);
    let j2 = choose|j2: int| 0 <= j2 < rs.len() && rs[j2] == #[trigger] f[i] && is_last(rs, j2);
    if j < j2 {
        assert(!same_identity(rs[j2], rs[j]));
    } else if j2 < j {
        assert(!same_identity(rs[j], rs[j2]));
    }
    assert(f[i] == rs[j]);
}

/// The index of the record of `out` that names `(kind, key)`, if any.
fn find_identity(out: &Vec<ObjectRecord>, kind: &str, key: &str) -> (r: Option<usize>)
    ensures
        match r {
            Some(i) => i < out@.len() && out@[i as int].kind@ == kind@ && out@[i as int].key@ == key@,
            None => forall|i: int| 0 <= i < out@.len() ==> !(out@[i].kind@ == kind@ && out@[i].key@ == key@),
        },
{
    let mut i: usize = 0;
    while i < out.len()
        invariant
            i <= out@.len(),
            forall|k: int| 0 <= k < i ==> !(out@[k].kind@ == kind@ && out@[k].key@ == key@),
        decreases out@.len() - i,
    {
        if str_eq(out[i].kind.as_str(), kind) && str_eq(out[i].key.as_str(), key) {
            return Some(i);
        }
        i = i + 1;
    }
    None
}

/// Fold `records` by identity `(kind, key)`: each object keeps the last
/// record given for it, in the order in which objects first appear.
pub fn fold_last_wins(records: Vec<ObjectRecord>) -> (r: Vec<ObjectRecord>)
    ensures
        record_views(r@) == folded(record_views(records@)),
{
    let ghost rv = record_views(records@);
    let mut out: Vec<ObjectRecord> = Vec::new();
    let mut i: usize = 0;
    assert(rv.subrange(0, 0) =~= Seq::<RecordView>::empty());
    assert(record_views(out@) =~= Seq::<RecordView>::empty());
    while i < records.len()
        invariant
            i <= records@.len(),
            rv == record_views(records@),
            record_views(out@) == folded(rv.subrange(0, i as int)),
        decreases records@.len() - i,
    {
        let r = records[i].clone();
        let ghost before = out@;
        let ghost prev = folded(rv.subrange(0, i as int));
        proof {
            assert(rv.subrange(0, i + 1).drop_last() =~= rv.subrange(0, i as int));
            assert(rv.subrange(0, i + 1).last() == r@);
            lemma_folded_distinct(rv.subrange(0, i as int));
        }
        match find_identity(&out, r.kind.as_str(), r.key.as_str()) {
            Some(k) => {
                proof {
                    assert(prev[k as int] == before[k as int]@);
                    assert(same_identity(prev[k as int], r@));
                    assert(has_identity(prev, r@));
                    let c = choose|q: int| 0 <= q < prev.len() && same_identity(#[trigger] prev[q], r@);
                    if c < k {
                        assert(!same_identity(prev[c], prev[k as int]));
                    } else if k < c {
                        assert(!same_identity(prev[k as int], prev[c]));
                    }
                    assert(c == k);
                }
                let ghost rr = r@;
                out.set(k, r);
                assert(record_views(out@) =~= prev.update(k as int, rr));
            },
            None => {
                proof {
                    if has_identity(prev, r@) {
                        let c = choose|q: int| 0 <= q < prev.len() && same_identity(#[trigger] prev[q], r@);
                        assert(prev[c] == before[c]@);
                        assert(false);
                    }
                }
                let ghost rr = r@;
                out.push(r);
                assert(record_views(out@) =~= prev.push(rr));
            },
        }
        i = i + 1;
    }
    assert(rv.subrange(0, records@.len() as int) =~= rv);
    out
}

/// Merge a source snapshot and admitted edits for one write cycle: every
/// object keeps the last record given for it, an edit replacing the source
/// (its `hidden` flag included), in the order in which objects first appear.
pub fn merge_source_and_edits(source: Vec<ObjectRecord>, edits: Vec<ObjectRecord>) -> (r: Vec<ObjectRecord>)
    ensures
        record_views(r@) == folded(record_views(source@) + record_views(edits@)),
{
    let mut all = source;
    let mut more = edits;
    let ghost s = all@;
    let ghost e = more@;
    all.append(&mut more);
    assert(record_views(all@) =~= record_views(s) + record_views(e));
    fold_last_wins(all)
}

/// Whether two records carry the same source payload: `hidden`,
/// `action_id` and `props`.
pub open spec fn payload_eq(a: RecordView, b: RecordView) -> bool {
    a.hidden == b.hidden && a.action_id == b.action_id && a.props == b.props
}

/// `r` marked hidden.
pub open spec fn hidden_copy(r: RecordView) -> RecordView {
    RecordView { hidden: true, ..r }
}

/// Whether `p` holds a record for the object of `x` with the payload of `x`.
pub open spec fn unchanged_in(p: Seq<RecordView>, x: RecordView) -> bool {
    exists|j: int| 0 <= j < p.len() && same_identity(#[trigger] p[j], x) && payload_eq(p[j], x)
}

/// Whether `x` hides a visible record among the first `n` of `p` whose object
/// `c` no longer holds.
pub open spec fn hide_among(p: Seq<RecordView>, c: Seq<RecordView>, x: RecordView, n: int) -> bool {
    exists|k: int| 0 <= k < n && !(#[trigger] p[k]).hidden && !has_identity(c, p[k]) && x == hidden_copy(p[k])
}

/// Whether `x` is among the first `n` records of `c` and `p` holds no
/// record for its object with its payload.
pub open spec fn change_among(p: Seq<RecordView>, c: Seq<RecordView>, x: RecordView, n: int) -> bool {
    exists|k: int| 0 <= k < n && #[trigger] c[k] == x && !unchanged_in(p, x)
}

/// Whether the diff from snapshot `previous` to snapshot `current`, each
/// folded by identity, emits `x`: the current record of an object that is
/// new or whose payload changed, or a hide of the last visible record of an
/// object that disappeared.
pub open spec fn emitted(previous: Seq<RecordView>, current: Seq<RecordView>, x: RecordView) -> bool {
    let p = folded(previous);
    let c = folded(current);
    hide_among(p, c, x, p.len() as int) || change_among(p, c, x, c.len() as int)
}

/// Order of objects: by kind, then by key, each as `str` orders them.
pub open spec fn identity_lt(a: RecordView, b: RecordView) -> bool {
    key_lt(a.kind, b.kind) || (a.kind == b.kind && key_lt(a.key, b.key))
}

/// Records whose objects strictly increase.
pub open spec fn identity_sorted(s: Seq<RecordView>) -> bool {
    forall|i: int, j: int| 0 <= i < j < s.len() ==> identity_lt(#[trigger] s[i], #[trigger] s[j])
}

proof fn lemma_identity_lt_transitive(a: RecordView, b: RecordView, c: RecordView)
    requires
        identity_lt(a, b),
        identity_lt(b, c),
    ensures
        identity_lt(a, c),
{
    lemma_key_lt_irreflexive(a.kind);
    lemma_key_lt_irreflexive(b.kind);
    if key_lt(a.kind, b.kind) && key_lt(b.kind, c.kind) {
        lemma_key_lt_transitive(a.kind, b.kind, c.kind);
    }
    if a.kind == b.kind && b.kind == c.kind {
        lemma_key_lt_transitive(a.key, b.key, c.key);
    }
}

proof fn lemma_identity_lt_total(a: RecordView, b: RecordView)
    ensures
        same_identity(a, b) || identity_lt(a, b) || identity_lt(b, a),
{
    lemma_key_lt_total(a.kind, b.kind);
    lemma_key_lt_total(a.key, b.key);
}

proof fn lemma_identity_lt_distinct(a: RecordView, b: RecordView)
    requires
        identity_lt(a, b),
    ensures
        !same_identity(a, b),
        !identity_lt(b, a),
{
    if key_lt(a.kind, b.kind) {
        lemma_key_lt_asymmetric(a.kind, b.kind);
    } else {
        lemma_key_lt_asymmetric(a.key, b.key);
        lemma_key_lt_irreflexive(a.kind);
    }
}

/// `a` before `b` in the order of objects.
fn identity_less(a: &ObjectRecord, b: &ObjectRecord) -> (r: bool)
    ensures
        r == identity_lt(a@, b@),
{
    str_less(a.kind.as_str(), b.kind.as_str()) || (str_eq(a.kind.as_str(), b.kind.as_str()) && str_less(
        a.key.as_str(),
        b.key.as_str(),
    ))
}

/// Whether two records carry the same source payload.
pub fn source_payload_eq(left: &ObjectRecord, right: &ObjectRecord) -> (r: bool)
    ensures
        r == payload_eq(left@, right@),
{
    left.hidden == right.hidden && opt_str_equal(&left.action_id, &right.action_id) && left.props.same(&right.props)
}

/// Insert `x` into `out`, whose objects strictly increase, keeping that order.
fn insert_by_identity(out: &mut Vec<ObjectRecord>, x: ObjectRecord)
    requires
        identity_sorted(record_views(old(out)@)),
        !has_identity(record_views(old(out)@), x@),
    ensures
        identity_sorted(record_views(final(out)@)),
        record_views(final(out)@).to_set() == record_views(old(out)@).to_set().insert(x@),
{
    let ghost ov = record_views(out@);
    let ghost xv = x@;
    let mut p: usize = 0;
    while p < out.len() && identity_less(&out[p], &x)
        invariant
            p <= out@.len(),
            ov == record_views(out@),
            xv == x@,
            forall|k: int| 0 <= k < p ==> identity_lt(#[trigger] ov[k], xv),
        decreases out@.len() - p,
    {
        p = p + 1;
    }
    proof {
        if p < ov.len() {
            assert(!identity_lt(ov[p as int], xv));
            if same_identity(ov[p as int], xv) {
                assert(has_identity(ov, xv));
            }
            lemma_identity_lt_total(ov[p as int], xv);
        }
    }
    out.insert(p, x);
    proof {
        let nv = record_views(out@);
        assert(nv =~= ov.insert(p as int, xv));
        assert forall|a: int, b: int| 0 <= a < b < nv.len() implies identity_lt(#[trigger] nv[a], #[trigger] nv[b]) by {
            if a < p && b < p {
                assert(identity_lt(ov[a], ov[b]));
            } else if a < p && b == p {
            } else if a < p && b > p {
                assert(identity_lt(ov[a], ov[b - 1]));
            } else if a == p && b > p {
                if b - 1 > p {
                    assert(identity_lt(ov[p as int], ov[b - 1]));
                    lemma_identity_lt_transitive(xv, ov[p as int], ov[b - 1]);
                }
            } else {
                assert(identity_lt(ov[a - 1], ov[b - 1]));
            }
        }
        assert forall|y: RecordView| nv.to_set().contains(y) <==> ov.to_set().insert(xv).contains(y) by {
            if nv.to_set().contains(y) {
                let k = choose|k: int| 0 <= k < nv.len() && nv[k] == y;
                if k < p {
                    assert(ov[k] == y);
                } else if k > p {
                    assert(ov[k - 1] == y);
                }
            }
            if ov.to_set().contains(y) {
                let k = choose|k: int| 0 <= k < ov.len() && ov[k] == y;
                if k < p {
                    assert(nv[k] == y);
                } else {
                    assert(nv[k + 1] == y);
                }
            }
            if y == xv {
                assert(nv[p as int] == y);
            }
        }
        assert(nv.to_set() =~= ov.to_set().insert(xv));
    }
}

/// Diff two source snapshots into the records to append, in the order of
/// their objects. Within each snapshot the last record for an object wins.
/// A new object, or one whose `props`, `hidden` or `action_id` changed, emits
/// its current record; an object that disappeared emits a hide of its last
/// visible record. Identical snapshots emit nothing.
pub fn snapshot_changelog(previous: Vec<ObjectRecord>, current: Vec<ObjectRecord>) -> (r: Vec<ObjectRecord>)
    ensures
        identity_sorted(record_views(r@)),
        forall|x: RecordView| #[trigger] record_views(r@).contains(x) <==> emitted(
            record_views(previous@),
            record_views(current@),
            x,
        ),
        record_views(r@) == changelog_of(record_views(previous@), record_views(current@)),
{
    let ghost pv = record_views(previous@);
    let ghost cv = record_views(current@);
    let prev = fold_last_wins(previous);
    let cur = fold_last_wins(current);
    let ghost p = folded(pv);
    let ghost c = folded(cv);
    proof {
        lemma_folded_distinct(pv);
        lemma_folded_distinct(cv);
    }
    let mut out: Vec<ObjectRecord> = Vec::new();
    assert(record_views(out@) =~= Seq::<RecordView>::empty());
    let mut i: usize = 0;
    while i < prev.len()
        invariant
            i <= prev@.len(),
            record_views(prev@) == p,
            record_views(cur@) == c,
            distinct_identities(p),
            distinct_identities(c),
            identity_sorted(record_views(out@)),
            forall|y: RecordView| #[trigger] record_views(out@).contains(y) <==> hide_among(p, c, y, i as int),
        decreases prev@.len() - i,
    {
        let o = &prev[i];
        assert(p[i as int] == o@);
        let found = find_identity(&cur, o.kind.as_str(), o.key.as_str());
        if !o.hidden && found.is_none() {
            let mut h = o.clone();
            h.hidden = true;
            let ghost ov = record_views(out@);
            let ghost hv = h@;
            proof {
                assert(hv == hidden_copy(p[i as int]));
                assert(!has_identity(c, p[i as int])) by {
                    if has_identity(c, p[i as int]) {
                        let q = choose|q: int| 0 <= q < c.len() && same_identity(#[trigger] c[q], p[i as int]);
                        assert(c[q] == cur@[q]@);
                    }
                }
                if has_identity(ov, hv) {
                    let m = choose|m: int| 0 <= m < ov.len() && same_identity(#[trigger] ov[m], hv);
                    assert(ov.contains(ov[m]));
                    let k = choose|k: int| 0 <= k < i && !(#[trigger] p[k]).hidden && !has_identity(c, p[k])
                        && ov[m] == hidden_copy(p[k]);
                    assert(!same_identity(p[k], p[i as int]));
                }
            }
            insert_by_identity(&mut out, h);
            proof {
                let nv = record_views(out@);
                assert forall|y: RecordView| #[trigger] nv.contains(y) <==> hide_among(p, c, y, i + 1) by {
                    assert(nv.to_set().contains(y) == nv.contains(y));
                    assert(ov.to_set().contains(y) == ov.contains(y));
                    if hide_among(p, c, y, i + 1) {
                        let k = choose|k: int| 0 <= k < i + 1 && !(#[trigger] p[k]).hidden && !has_identity(c, p[k])
                            && y == hidden_copy(p[k]);
                        if k < i {
                            assert(hide_among(p, c, y, i as int));
                        }
                    }
                    if ov.contains(y) {
                        assert(hide_among(p, c, y, i as int));
                        let k = choose|k: int| 0 <= k < i && !(#[trigger] p[k]).hidden && !has_identity(c, p[k])
                            && y == hidden_copy(p[k]);
                        assert(hide_among(p, c, y, i + 1));
                    }
                    if y == hv {
                        assert(hide_among(p, c, y, i + 1));
                    }
                }
            }
        } else {
            proof {
                let ov = record_views(out@);
                assert forall|y: RecordView| #[trigger] ov.contains(y) <==> hide_among(p, c, y, i + 1) by {
                    if hide_among(p, c, y, i + 1) {
                        let k = choose|k: int| 0 <= k < i + 1 && !(#[trigger] p[k]).hidden && !has_identity(c, p[k])
                            && y == hidden_copy(p[k]);
                        if k == i && !o.hidden {
                            match found {
                                Some(q) => {
                                    assert(c[q as int] == cur@[q as int]@);
                                    assert(same_identity(c[q as int], p[k]));
                                },
                                None => {},
                            }
                        }
                        assert(k < i);
                        assert(hide_among(p, c, y, i as int));
                    }
                    if hide_among(p, c, y, i as int) {
                        let k = choose|k: int| 0 <= k < i && !(#[trigger] p[k]).hidden && !has_identity(c, p[k])
                            && y == hidden_copy(p[k]);
                        assert(hide_among(p, c, y, i + 1));
                    }
                }
            }
        }
        i = i + 1;
    }
    let mut j: usize = 0;
    while j < cur.len()
        invariant
            j <= cur@.len(),
            record_views(prev@) == p,
            record_views(cur@) == c,
            distinct_identities(p),
            distinct_identities(c),
            identity_sorted(record_views(out@)),
            forall|y: RecordView| #[trigger] record_views(out@).contains(y) <==> (hide_among(p, c, y, p.len() as int)
                || change_among(p, c, y, j as int)),
        decreases cur@.len() - j,
    {
        let n = &cur[j];
        assert(c[j as int] == n@);
        let found = find_identity(&prev, n.kind.as_str(), n.key.as_str());
        let changed = match found {
            None => true,
            Some(k) => !source_payload_eq(&prev[k], n),
        };
        proof {
            match found {
                None => {
                    if unchanged_in(p, n@) {
                        let q = choose|q: int| 0 <= q < p.len() && same_identity(#[trigger] p[q], n@) && payload_eq(p[q], n@);
                        assert(p[q] == prev@[q]@);
                    }
                },
                Some(k) => {
                    assert(p[k as int] == prev@[k as int]@);
                    if unchanged_in(p, n@) {
                        let q = choose|q: int| 0 <= q < p.len() && same_identity(#[trigger] p[q], n@) && payload_eq(p[q], n@);
                        if q < k {
                            assert(!same_identity(p[q], p[k as int]));
                        } else if k < q {
                            assert(!same_identity(p[k as int], p[q]));
                        }
                    }
                    if !changed {
                        assert(same_identity(p[k as int], n@));
                        assert(unchanged_in(p, n@));
                    }
                },
            }
            assert(changed == !unchanged_in(p, n@));
        }
        let ghost ov = record_views(out@);
        if changed {
            proof {
                if has_identity(ov, n@) {
                    let m = choose|m: int| 0 <= m < ov.len() && same_identity(#[trigger] ov[m], n@);
                    assert(ov.contains(ov[m]));
                    if hide_among(p, c, ov[m], p.len() as int) {
                        let k = choose|k: int| 0 <= k < p.len() && !(#[trigger] p[k]).hidden && !has_identity(c, p[k])
                            && ov[m] == hidden_copy(p[k]);
                        assert(same_identity(c[j as int], p[k]));
                    } else {
                        let k = choose|k: int| 0 <= k < j && #[trigger] c[k] == ov[m] && !unchanged_in(p, ov[m]);
                        assert(!same_identity(c[k], c[j as int]));
                    }
                }
            }
            insert_by_identity(&mut out, n.clone());
            proof {
                let nv = record_views(out@);
                assert forall|y: RecordView| #[trigger] nv.contains(y) <==> (hide_among(p, c, y, p.len() as int)
                    || change_among(p, c, y, j + 1)) by {
                    assert(nv.to_set().contains(y) == nv.contains(y));
                    assert(ov.to_set().contains(y) == ov.contains(y));
                    if change_among(p, c, y, j + 1) {
                        let k = choose|k: int| 0 <= k < j + 1 && #[trigger] c[k] == y && !unchanged_in(p, y);
                        if k < j {
                            assert(change_among(p, c, y, j as int));
                        }
                    }
                    if change_among(p, c, y, j as int) {
                        let k = choose|k: int| 0 <= k < j && #[trigger] c[k] == y && !unchanged_in(p, y);
                        assert(change_among(p, c, y, j + 1));
                    }
                    if y == n@ {
                        assert(change_among(p, c, y, j + 1));
                    }
                }
            }
        } else {
            proof {
                assert forall|y: RecordView| #[trigger] ov.contains(y) <==> (hide_among(p, c, y, p.len() as int)
                    || change_among(p, c, y, j + 1)) by {
                    if change_among(p, c, y, j + 1) {
                        let k = choose|k: int| 0 <= k < j + 1 && #[trigger] c[k] == y && !unchanged_in(p, y);
                        assert(k < j);
                        assert(change_among(p, c, y, j as int));
                    }
                    if change_among(p, c, y, j as int) {
                        let k = choose|k: int| 0 <= k < j && #[trigger] c[k] == y && !unchanged_in(p, y);
                        assert(change_among(p, c, y, j + 1));
                    }
                }
            }
        }
        j = j + 1;
    }
    assert forall|x: RecordView| #[trigger] record_views(out@).contains(x) <==> emitted(pv, cv, x) by {
    }
    proof {
        lemma_changelog_of(record_views(out@), pv, cv);
    }
    out
}

/// Two records lists whose objects strictly increase and that hold the same
/// records are equal.
proof fn lemma_identity_sorted_unique(a: Seq<RecordView>, b: Seq<RecordView>)
    requires
        identity_sorted(a),
        identity_sorted(b),
        forall|x: RecordView| a.contains(x) <==> b.contains(x),
    ensures
        a == b,
    decreases a.len(),
{
    if a.len() == 0 {
        if b.len() > 0 {
            assert(b.contains(b[0]));
        }
        assert(a =~= b);
    } else {
        if b.len() == 0 {
            assert(a.contains(a[0]));
        }
        assert(a.contains(a[0]));
        assert(b.contains(b[0]));
        let j = choose|j: int| 0 <= j < b.len() && b[j] == a[0];
        let i = choose|i: int| 0 <= i < a.len() && a[i] == b[0];
        if i > 0 {
            assert(identity_lt(a[0], a[i]));
            lemma_identity_lt_distinct(a[0], a[i]);
            if j > 0 {
                assert(identity_lt(b[0], b[j]));
            } else {
                assert(same_identity(a[0], a[0]));
            }
        } else if j > 0 {
            assert(identity_lt(b[0], b[j]));
            lemma_identity_lt_distinct(b[0], b[j]);
        }
        assert(a[0] == b[0]);
        let a1 = a.drop_first();
        let b1 = b.drop_first();
        assert forall|x: RecordView| a1.contains(x) <==> b1.contains(x) by {
            if a1.contains(x) {
                let k = choose|k: int| 0 <= k < a1.len() && a1[k] == x;
                assert(identity_lt(a[0], a[k + 1]));
                lemma_identity_lt_distinct(a[0], a[k + 1]);
                assert(a.contains(x));
                let m = choose|m: int| 0 <= m < b.len() && b[m] == x;
                assert(m != 0);
                assert(b1[m - 1] == x);
            }
            if b1.contains(x) {
                let k = choose|k: int| 0 <= k < b1.len() && b1[k] == x;
                assert(identity_lt(b[0], b[k + 1]));
                lemma_identity_lt_distinct(b[0], b[k + 1]);
                assert(b.contains(x));
                let m = choose|m: int| 0 <= m < a.len() && a[m] == x;
                assert(m != 0);
                assert(a1[m - 1] == x);
            }
        }
        assert(identity_sorted(a1));
        assert(identity_sorted(b1));
        lemma_identity_sorted_unique(a1, b1);
        assert(a =~= b) by {
            assert forall|k: int| 0 <= k < a.len() implies a[k] == b[k] by {
                if k > 0 {
                    assert(a1[k - 1] == b1[k - 1]);
                }
            }
        }
    }
}

/// The diff from snapshot `previous` to snapshot `current`: the records it
/// emits, in the order of their objects.
pub open spec fn changelog_of(previous: Seq<RecordView>, current: Seq<RecordView>) -> Seq<RecordView> {
    choose|s: Seq<RecordView>| identity_sorted(s) && forall|x: RecordView| #[trigger] s.contains(x) <==> emitted(
        previous,
        current,
        x,
    )
}

/// A list in the order of objects holding what the diff emits is the diff.
proof fn lemma_changelog_of(s: Seq<RecordView>, previous: Seq<RecordView>, current: Seq<RecordView>)
    requires
        identity_sorted(s),
        forall|x: RecordView| #[trigger] s.contains(x) <==> emitted(previous, current, x),
    ensures
        s == changelog_of(previous, current),
{
    let t = changelog_of(previous, current);
    assert(identity_sorted(t) && forall|x: RecordView| #[trigger] t.contains(x) <==> emitted(previous, current, x));
    lemma_identity_sorted_unique(s, t);
}

/// Identical snapshots emit nothing.
pub proof fn law_identical_snapshots_emit_nothing(snapshot: Seq<RecordView>)
    ensures
        forall|x: RecordView| !emitted(snapshot, snapshot, x),
        changelog_of(snapshot, snapshot).len() == 0,
{
    let p = folded(snapshot);
    assert forall|x: RecordView| !emitted(snapshot, snapshot, x) by {
        if hide_among(p, p, x, p.len() as int) {
            let k = choose|k: int| 0 <= k < p.len() && !(#[trigger] p[k]).hidden && !has_identity(p, p[k])
                && x == hidden_copy(p[k]);
            assert(same_identity(p[k], p[k]));
        }
        if change_among(p, p, x, p.len() as int) {
            let k = choose|k: int| 0 <= k < p.len() && #[trigger] p[k] == x && !unchanged_in(p, x);
            assert(same_identity(p[k], x) && payload_eq(p[k], x));
        }
    }
    let e = Seq::<RecordView>::empty();
    assert forall|x: RecordView| #[trigger] e.contains(x) <==> emitted(snapshot, snapshot, x) by {}
    lemma_changelog_of(e, snapshot, snapshot);
}

/// What merging hands on: every object given keeps exactly one record,
/// every record handed on is one that was given, and for each object it is
/// the last edit given for it, or the last source record when no edit names
/// the object.
pub proof fn law_merge_edits_win(source: Seq<RecordView>, edits: Seq<RecordView>)
    ensures
        distinct_identities(folded(source + edits)),
        forall|j: int| 0 <= j < edits.len() && is_last(edits, j) ==> folded(source + edits).contains(#[trigger] edits[j]),
        forall|j: int| 0 <= j < source.len() && is_last(source, j) && !has_identity(edits, source[j])
            ==> folded(source + edits).contains(#[trigger] source[j]),
        forall|x: RecordView| #[trigger] folded(source + edits).contains(x) ==> source.contains(x) || edits.contains(x),
        forall|j: int| 0 <= j < source.len() ==> has_identity(folded(source + edits), #[trigger] source[j]),
{
    let all = source + edits;
    let f = folded(all);
    lemma_folded_distinct(all);
    lemma_folded_last(all);
    lemma_folded_covers(all);
    assert forall|j: int| 0 <= j < edits.len() && is_last(edits, j) implies f.contains(#[trigger] edits[j]) by {
        let q = source.len() + j;
        assert(all[q] == edits[j]);
        assert forall|k: int| q < k < all.len() implies !same_identity(#[trigger] all[k], all[q]) by {
            assert(all[k] == edits[k - source.len()]);
        }
        lemma_folded_keeps_last(all, q);
    }
    assert forall|j: int| 0 <= j < source.len() && is_last(source, j) && !has_identity(edits, source[j])
        implies f.contains(#[trigger] source[j]) by {
        assert(all[j] == source[j]);
        assert forall|k: int| j < k < all.len() implies !same_identity(#[trigger] all[k], all[j]) by {
            if k < source.len() {
                assert(all[k] == source[k]);
            } else {
                assert(all[k] == edits[k - source.len()]);
                if same_identity(all[k], all[j]) {
                    assert(same_identity(edits[k - source.len()], source[j]));
                }
            }
        }
        lemma_folded_keeps_last(all, j);
    }
    assert forall|x: RecordView| #[trigger] f.contains(x) implies source.contains(x) || edits.contains(x) by {
        let i = choose|i: int| 0 <= i < f.len() && f[i] == x;
        let j = choose|j: int| 0 <= j < all.len() && all[j] == #[trigger] f[i] && is_last(all, j);
        if j < source.len() {
            assert(source[j] == x);
        } else {
            assert(edits[j - source.len()] == x);
        }
    }
    assert forall|j: int| 0 <= j < source.len() implies has_identity(f, #[trigger] source[j]) by {
        assert(all[j] == source[j]);
    }
}

/// Appends a list of records to a store as one unit.
#[derive(Debug)]
pub struct BatchIngest;

impl BatchIngest {
    /// Append `records` and commit them as one unit. Any refusal drops the
    /// whole batch and leaves the store as it was.
    pub fn run(store: &mut Store, records: Vec<ObjectRecord>) -> (r: Result<Vec<LogWrite>, String>)
        requires
            old(store).wf(),
        ensures
            final(store).wf(),
            batch_applied(old(store)@, old(store).spec_claims(), record_views(records@)) is None ==> r is Err,
            r is Err ==> final(store)@ == old(store)@ && final(store).spec_writer().spec_committed()
                == old(store).spec_writer().spec_committed() && final(store).spec_writer().spec_written()
                == old(store).spec_writer().spec_written() && final(store).spec_writer().pending_records()
                == old(store).spec_writer().pending_records(),
            r is Ok ==> batch_applied(old(store)@, old(store).spec_claims(), record_views(records@)) == Some(final(store)@)
                && final(store).spec_writer().spec_committed() == final(store).spec_writer().spec_written(),
            old(store).batch_succeeds(record_views(records@)) ==> r is Ok,
    {
        store.append_batch(records)
    }
}

/// Diffs two snapshots and appends what changed.
#[derive(Debug)]
pub struct ChangelogIngest;

impl ChangelogIngest {
    /// Diff two snapshots and commit only the records that changed, as one
    /// unit. An empty diff appends nothing.
    pub fn run(store: &mut Store, previous: Vec<ObjectRecord>, current: Vec<ObjectRecord>) -> (r: Result<Vec<LogWrite>, String>)
        requires
            old(store).wf(),
        ensures
            final(store).wf(),
            ({
                let d = changelog_of(record_views(previous@), record_views(current@));
                &&& d.len() == 0 ==> (r matches Ok(ws) && ws@.len() == 0 && *final(store) == *old(store))
                &&& d.len() > 0 ==> {
                    &&& batch_applied(old(store)@, old(store).spec_claims(), d) is None ==> r is Err
                    &&& r is Err ==> final(store)@ == old(store)@ && final(store).spec_writer().spec_committed()
                        == old(store).spec_writer().spec_committed() && final(store).spec_writer().spec_written()
                        == old(store).spec_writer().spec_written() && final(store).spec_writer().pending_records()
                        == old(store).spec_writer().pending_records()
                    &&& r is Ok ==> batch_applied(old(store)@, old(store).spec_claims(), d) == Some(final(store)@)
                        && final(store).spec_writer().spec_committed() == final(store).spec_writer().spec_written()
                    &&& old(store).batch_succeeds(d) ==> r is Ok
                }
            }),
    {
        let records = snapshot_changelog(previous, current);
        if records.len() == 0 {
            return Ok(Vec::new());
        }
        BatchIngest::run(store, records)
    }
}

/// Merges source rows with admitted edits and appends the result.
#[derive(Debug)]
pub struct MergeIngest;

impl MergeIngest {
    /// Merge source records and admitted edits, then commit the result as
    /// one unit.
    pub fn run(store: &mut Store, source: Vec<ObjectRecord>, edits: Vec<ObjectRecord>) -> (r: Result<Vec<LogWrite>, String>)
        requires
            old(store).wf(),
        ensures
            final(store).wf(),
            ({
                let m = folded(record_views(source@) + record_views(edits@));
                &&& batch_applied(old(store)@, old(store).spec_claims(), m) is None ==> r is Err
                &&& r is Err ==> final(store)@ == old(store)@ && final(store).spec_writer().spec_committed()
                    == old(store).spec_writer().spec_committed() && final(store).spec_writer().spec_written()
                    == old(store).spec_writer().spec_written() && final(store).spec_writer().pending_records()
                    == old(store).spec_writer().pending_records()
                &&& r is Ok ==> batch_applied(old(store)@, old(store).spec_claims(), m) == Some(final(store)@)
                    && final(store).spec_writer().spec_committed() == final(store).spec_writer().spec_written()
                &&& old(store).batch_succeeds(m) ==> r is Ok
            }),
    {
        BatchIngest::run(store, merge_source_and_edits(source, edits))
    }
}

/// The refusal of a push beyond the bound `b`.
pub open spec fn bound_message(b: nat) -> Seq<char> {
    "stream ingest bound "@ + decimal(b) + " exceeded; flush before pushing more"@
}

/// Appends records one at a time without committing them, with at most a
/// bounded number outstanding.
#[derive(Debug)]
pub struct StreamIngest {
    bound: usize,
    uncommitted: usize,
}

impl StreamIngest {
    #[verifier::type_invariant]
    spec fn within_bound(self) -> bool {
        0 < self.bound && self.uncommitted <= self.bound
    }

    /// The most records that may be outstanding.
    pub closed spec fn spec_bound(self) -> usize {
        self.bound
    }

    /// The records pushed since the last flush.
    pub closed spec fn spec_uncommitted(self) -> usize {
        self.uncommitted
    }

    /// Bound the outstanding uncommitted records by `bound`, which must be
    /// greater than 0.
    pub fn new(bound: usize) -> (r: Result<StreamIngest, String>)
        ensures
            bound == 0 <==> r is Err,
            r matches Err(e) ==> e@ == "stream ingest bound must be greater than 0"@,
            r matches Ok(s) ==> s.spec_bound() == bound && s.spec_uncommitted() == 0,
    {
        if bound == 0 {
            return Err(String::from_str("stream ingest bound must be greater than 0"));
        }
        Ok(StreamIngest { bound, uncommitted: 0 })
    }

    /// The most records that may be outstanding.
    pub fn bound(&self) -> (n: usize)
        ensures
            n == self.spec_bound(),
            n > 0,
    {
        proof {
            use_type_invariant(self);
        }
        self.bound
    }

    /// The records pushed since the last flush; never more than the bound.
    pub fn uncommitted(&self) -> (n: usize)
        ensures
            n == self.spec_uncommitted(),
            n <= self.spec_bound(),
    {
        proof {
            use_type_invariant(self);
        }
        self.uncommitted
    }

    /// Append `record` without committing it; the store's live maps see it
    /// at once. At the bound, refuse and append nothing.
    pub fn push(&mut self, store: &mut Store, record: ObjectRecord) -> (r: Result<Vec<LogWrite>, String>)
        requires
            old(store).wf(),
        ensures
            final(store).wf(),
            final(self).spec_bound() == old(self).spec_bound(),
            final(self).spec_uncommitted() <= final(self).spec_bound(),
            old(self).spec_uncommitted() >= old(self).spec_bound() ==> (r matches Err(e) && e@ == bound_message(
                old(self).spec_bound() as nat,
            )),
            logged_step(old(store)@, old(store).spec_claims(), record@) is None ==> r is Err,
            write_refusal(old(store)@, old(store).spec_claims(), record@) is Some ==> r is Err,
            old(self).spec_uncommitted() < old(self).spec_bound() ==> ((logged_step(
                old(store)@,
                old(store).spec_claims(),
                record@,
            ) matches Some((t, tc, w)) && (w is None || takes(old(store).spec_writer(), w->0))) ==> r is Ok),
            r is Err ==> *final(store) == *old(store) && *final(self) == *old(self),
            r is Ok ==> old(self).spec_uncommitted() < old(self).spec_bound() && final(self).spec_uncommitted()
                == old(self).spec_uncommitted() + 1,
            r is Ok ==> (logged_step(old(store)@, old(store).spec_claims(), record@) matches Some((t, tc, w))
                && final(store)@ == t && final(store).spec_claims() == tc),
    {
        proof {
            use_type_invariant(&*self);
        }
        if self.uncommitted >= self.bound {
            let mut m = concat_str("stream ingest bound ", decimal_string(self.bound as u64).as_str());
            m.append(" exceeded; flush before pushing more");
            proof {
                reveal_strlit("stream ingest bound ");
                reveal_strlit(" exceeded; flush before pushing more");
            }
            return Err(m);
        }
        let writes = match store.append_uncommitted(record) {
            Ok(w) => w,
            Err(e) => return Err(e),
        };
        self.uncommitted = self.uncommitted + 1;
        Ok(writes)
    }

    /// Commit the outstanding records as one unit.
    pub fn flush(&mut self, store: &mut Store) -> (r: Result<Vec<LogWrite>, String>)
        requires
            old(store).wf(),
        ensures
            final(store).wf(),
            final(store)@ == old(store)@,
            final(self).spec_bound() == old(self).spec_bound(),
            r is Ok ==> final(self).spec_uncommitted() == 0 && final(store).spec_writer().spec_committed()
                == final(store).spec_writer().spec_written(),
            r is Err ==> *final(self) == *old(self),
            old(store).spec_writer().spec_used() > 0 && old(store).spec_writer().spec_written() == u32::MAX
                ==> r is Err,
            !(old(store).spec_writer().spec_used() > 0 && old(store).spec_writer().spec_written() == u32::MAX)
                && projection_fits(old(store)@) && old(store).spec_dirty().len() <= u32::MAX ==> r is Ok,
    {
        proof {
            use_type_invariant(&*self);
        }
        let writes = match store.commit() {
            Ok(w) => w,
            Err(e) => return Err(e),
        };
        self.uncommitted = 0;
        Ok(writes)
    }
}

} // verus!
