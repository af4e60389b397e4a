//! The projection is a cache of the log: a store reopened from a checkpoint
//! of a replayed state holds what that state holds.

use vstd::prelude::*;

use crate::acl::PropertyAcl;
use crate::joins::{identities_unique, lemma_row_index_unique, row_index, row_prop, visible, without, RowView};
use crate::logfmt::{last_value, lemma_last_value_sorted};
use crate::pagelog::LogWrite;
use crate::props::{lemma_props_ext, prop_get, sorted_keys};
use crate::record::RecordView;
use crate::store::{
    applied, checkpoint_written, delta_written, dirty_snapshot, empty_state, ids_unique, lemma_replayed_append,
    loaded, meta_of, props_of, replayed, schema_of, sidecar_records, snap_of, snap_record, snap_records,
    store_snapshot, upsert, MetaView, StoreView,
};
use crate::schema::schema_kind;

verus! {

/// The properties of the visible row of `(kind, key)`, when it has one.
pub open spec fn row_props_of(v: Seq<RowView>, kind: Seq<char>, key: Seq<char>) -> Option<
    Seq<(Seq<char>, Seq<char>)>,
> {
    if visible(v, kind, key) {
        Some(v[row_index(v, kind, key)].props)
    } else {
        None
    }
}

/// The row an identity has: its latest properties, unless it is hidden or
/// was never written.
pub open spec fn expected_row(m: Option<MetaView>) -> Option<Seq<(Seq<char>, Seq<char>)>> {
    match m {
        Some(x) => if x.hidden {
            None
        } else {
            Some(x.props)
        },
        None => None,
    }
}

/// The rows of `s` are its identities that are not hidden, each once, with
/// its latest properties.
pub open spec fn rows_match(s: StoreView) -> bool {
    &&& identities_unique(s.rows)
    &&& ids_unique(s.ids)
    &&& forall|kind: Seq<char>, key: Seq<char>| #[trigger] row_props_of(s.rows, kind, key) == expected_row(
        meta_of(s.ids, kind, key),
    )
}

/// Every identity's properties are in increasing name order.
pub open spec fn metas_sorted(ids: Seq<MetaView>) -> bool {
    forall|i: int| 0 <= i < ids.len() ==> sorted_keys(#[trigger] ids[i].props)
}

proof fn lemma_meta_of_at(ids: Seq<MetaView>, i: int)
    requires
        ids_unique(ids),
        0 <= i < ids.len(),
    ensures
        meta_of(ids, ids[i].kind, ids[i].key) == Some(ids[i]),
{
    let kind = ids[i].kind;
    let key = ids[i].key;
    assert(0 <= i < ids.len() && ids[i].kind == kind && ids[i].key == key);
    let j = choose|j: int| 0 <= j < ids.len() && (#[trigger] ids[j]).kind == kind && ids[j].key == key;
    if j < i {
        assert(!(ids[j].kind == ids[i].kind && ids[j].key == ids[i].key));
    } else if j > i {
        assert(!(ids[i].kind == ids[j].kind && ids[i].key == ids[j].key));
    }
}

/// Setting an identity changes what is known of it and nothing else.
proof fn lemma_meta_of_upsert(ids: Seq<MetaView>, m: MetaView, kind: Seq<char>, key: Seq<char>)
    requires
        ids_unique(ids),
    ensures
        ids_unique(upsert(ids, m)),
        meta_of(upsert(ids, m), kind, key) == if kind == m.kind && key == m.key {
            Some(m)
        } else {
            meta_of(ids, kind, key)
        },
{
    let u = upsert(ids, m);
    if exists|i: int| 0 <= i < ids.len() && (#[trigger] ids[i]).kind == m.kind && ids[i].key == m.key {
        let c = choose|i: int| 0 <= i < ids.len() && (#[trigger] ids[i]).kind == m.kind && ids[i].key == m.key;
        assert(u == ids.update(c, m));
        assert forall|a: int, b: int| 0 <= a < b < u.len() implies !((#[trigger] u[a]).kind == (#[trigger] u[b]).kind
            && u[a].key == u[b].key) by {
            assert(!(ids[a].kind == ids[b].kind && ids[a].key == ids[b].key));
        }
        if kind == m.kind && key == m.key {
            lemma_meta_of_at(u, c);
        } else if exists|i: int| 0 <= i < ids.len() && (#[trigger] ids[i]).kind == kind && ids[i].key == key {
            let j = choose|i: int| 0 <= i < ids.len() && (#[trigger] ids[i]).kind == kind && ids[i].key == key;
            assert(j != c);
            assert(u[j] == ids[j]);
            lemma_meta_of_at(u, j);
            lemma_meta_of_at(ids, j);
        } else {
            assert forall|i: int| 0 <= i < u.len() implies !((#[trigger] u[i]).kind == kind && u[i].key == key) by {
                if i != c {
                    assert(u[i] == ids[i]);
                }
            }
        }
    } else {
        assert(u == ids.push(m));
        assert forall|a: int, b: int| 0 <= a < b < u.len() implies !((#[trigger] u[a]).kind == (#[trigger] u[b]).kind
            && u[a].key == u[b].key) by {
            if b < ids.len() {
                assert(!(ids[a].kind == ids[b].kind && ids[a].key == ids[b].key));
            } else {
                assert(u[b] == m);
                assert(u[a] == ids[a]);
            }
        }
        if kind == m.kind && key == m.key {
            lemma_meta_of_at(u, ids.len() as int);
        } else if exists|i: int| 0 <= i < ids.len() && (#[trigger] ids[i]).kind == kind && ids[i].key == key {
            let j = choose|i: int| 0 <= i < ids.len() && (#[trigger] ids[i]).kind == kind && ids[i].key == key;
            assert(u[j] == ids[j]);
            lemma_meta_of_at(u, j);
            lemma_meta_of_at(ids, j);
        } else {
            assert forall|i: int| 0 <= i < u.len() implies !((#[trigger] u[i]).kind == kind && u[i].key == key) by {
                if i < ids.len() {
                    assert(u[i] == ids[i]);
                }
            }
        }
    }
}

/// Taking one identity's row out leaves every other identity's row.
proof fn lemma_without_keeps_others(v: Seq<RowView>, kind: Seq<char>, key: Seq<char>, k2: Seq<char>, y2: Seq<char>)
    requires
        identities_unique(v),
    ensures
        identities_unique(without(v, kind, key)),
        !visible(without(v, kind, key), kind, key),
        !(k2 == kind && y2 == key) ==> row_props_of(without(v, kind, key), k2, y2) == row_props_of(v, k2, y2),
{
    crate::joins::lemma_without_twice(v, kind, key);
    if visible(v, kind, key) {
        let i = row_index(v, kind, key);
        let w = v.remove(i);
        assert forall|a: int, b: int| 0 <= a < b < w.len() implies !((#[trigger] w[a]).kind == (#[trigger] w[b]).kind
            && w[a].key == w[b].key) by {
            let ao = if a < i { a } else { a + 1 };
            let bo = if b < i { b } else { b + 1 };
            assert(w[a] == v[ao] && w[b] == v[bo]);
            assert(!(v[ao].kind == v[bo].kind && v[ao].key == v[bo].key));
        }
        if !(k2 == kind && y2 == key) {
            if visible(v, k2, y2) {
                let j = row_index(v, k2, y2);
                assert(j != i);
                let jw = if j < i { j } else { j - 1 };
                assert(w[jw] == v[j]);
                lemma_row_index_unique(w, jw);
            } else {
                assert forall|q: int| 0 <= q < w.len() implies !((#[trigger] w[q]).kind == k2 && w[q].key == y2) by {
                    let qo = if q < i { q } else { q + 1 };
                    assert(w[q] == v[qo]);
                }
            }
        }
    }
}

/// Adding the row of an identity that has none gives it that row and
/// leaves every other identity's row.
proof fn lemma_push_row(v: Seq<RowView>, row: RowView, k2: Seq<char>, y2: Seq<char>)
    requires
        identities_unique(v),
        !visible(v, row.kind, row.key),
    ensures
        identities_unique(v.push(row)),
        row_props_of(v.push(row), k2, y2) == if k2 == row.kind && y2 == row.key {
            Some(row.props)
        } else {
            row_props_of(v, k2, y2)
        },
{
    let w = v.push(row);
    assert forall|a: int, b: int| 0 <= a < b < w.len() implies !((#[trigger] w[a]).kind == (#[trigger] w[b]).kind
        && w[a].key == w[b].key) by {
        if b < v.len() {
            assert(!(v[a].kind == v[b].kind && v[a].key == v[b].key));
        } else {
            assert(w[a] == v[a]);
        }
    }
    if k2 == row.kind && y2 == row.key {
        lemma_row_index_unique(w, v.len() as int);
    } else if visible(v, k2, y2) {
        let j = row_index(v, k2, y2);
        assert(w[j] == v[j]);
        lemma_row_index_unique(w, j);
    } else {
        assert forall|q: int| 0 <= q < w.len() implies !((#[trigger] w[q]).kind == k2 && w[q].key == y2) by {
            if q < v.len() {
                assert(w[q] == v[q]);
            }
        }
    }
}

/// Applying a record keeps the rows matching the identities.
proof fn lemma_applied_rows_match(s: StoreView, r: RecordView)
    requires
        rows_match(s),
    ensures
        rows_match(applied(s, r)),
{
    let t = applied(s, r);
    let m = MetaView { kind: r.kind, key: r.key, gen: r.gen, hidden: r.hidden, action_id: r.action_id, props: r.props };
    let w = without(s.rows, r.kind, r.key);
    let row = RowView { kind: r.kind, key: r.key, props: r.props };
    lemma_meta_of_upsert(s.ids, m, r.kind, r.key);
    lemma_without_keeps_others(s.rows, r.kind, r.key, r.kind, r.key);
    if !r.hidden {
        lemma_push_row(w, row, r.kind, r.key);
    }
    assert forall|kind: Seq<char>, key: Seq<char>| #[trigger] row_props_of(t.rows, kind, key) == expected_row(
        meta_of(t.ids, kind, key),
    ) by {
        lemma_meta_of_upsert(s.ids, m, kind, key);
        lemma_without_keeps_others(s.rows, r.kind, r.key, kind, key);
        if !r.hidden {
            lemma_push_row(w, row, kind, key);
        }
        assert(row_props_of(s.rows, kind, key) == expected_row(meta_of(s.ids, kind, key)));
    }
}

/// Replaying records from the empty state keeps the rows matching the
/// identities, and properties in name order when every record has them so.
proof fn lemma_replayed_rows_match(rs: Seq<RecordView>)
    ensures
        rows_match(replayed(empty_state(), rs)),
        (forall|i: int| 0 <= i < rs.len() ==> sorted_keys(#[trigger] rs[i].props)) ==> metas_sorted(
            replayed(empty_state(), rs).ids,
        ),
    decreases rs.len(),
{
    if rs.len() == 0 {
        let e = empty_state();
        assert forall|kind: Seq<char>, key: Seq<char>| #[trigger] row_props_of(e.rows, kind, key) == expected_row(
            meta_of(e.ids, kind, key),
        ) by {}
    } else {
        let init = rs.drop_last();
        lemma_replayed_rows_match(init);
        let s = replayed(empty_state(), init);
        lemma_applied_rows_match(s, rs.last());
        if forall|i: int| 0 <= i < rs.len() ==> sorted_keys(#[trigger] rs[i].props) {
            assert forall|i: int| 0 <= i < init.len() implies sorted_keys(#[trigger] init[i].props) by {
                assert(init[i] == rs[i]);
            }
            let r = rs.last();
            assert(sorted_keys(rs[rs.len() - 1].props));
            let m = MetaView { kind: r.kind, key: r.key, gen: r.gen, hidden: r.hidden, action_id: r.action_id, props: r.props };
            let u = upsert(s.ids, m);
            assert forall|i: int| 0 <= i < u.len() implies sorted_keys(#[trigger] u[i].props) by {
                if exists|j: int| 0 <= j < s.ids.len() && (#[trigger] s.ids[j]).kind == m.kind && s.ids[j].key == m.key {
                    let c = choose|j: int| 0 <= j < s.ids.len() && (#[trigger] s.ids[j]).kind == m.kind && s.ids[j].key
                        == m.key;
                    if i != c {
                        assert(u[i] == s.ids[i]);
                    }
                } else {
                    if i < s.ids.len() {
                        assert(u[i] == s.ids[i]);
                    }
                }
            }
        }
    }
}

/// The properties restored from entries already in name order are those
/// entries.
proof fn lemma_props_of_sorted(p: Seq<(Seq<char>, Seq<char>)>)
    requires
        sorted_keys(p),
    ensures
        props_of(p) == p,
{
    assert forall|k: Seq<char>| #[trigger] prop_get(p, k) == last_value(p, k) by {
        lemma_last_value_sorted(p, k);
    }
    let q = props_of(p);
    assert(sorted_keys(q) && forall|k: Seq<char>| #[trigger] prop_get(q, k) == last_value(p, k));
    lemma_props_ext(q, p);
}

/// The records that restore the first `n` identities of `ids`.
spec fn restore_records(ids: Seq<MetaView>, n: int) -> Seq<RecordView> {
    snap_records(ids.subrange(0, n).map_values(|m: MetaView| snap_of(m)))
}

/// Replaying the snapshot of distinct identities gives those identities back,
/// in order.
proof fn lemma_restore_ids(ids: Seq<MetaView>, n: int)
    requires
        ids_unique(ids),
        metas_sorted(ids),
        0 <= n <= ids.len(),
    ensures
        replayed(empty_state(), restore_records(ids, n)).ids == ids.subrange(0, n),
    decreases n,
{
    if n == 0 {
        assert(restore_records(ids, 0) =~= Seq::<RecordView>::empty());
        assert(ids.subrange(0, 0) =~= Seq::<MetaView>::empty());
    } else {
        lemma_restore_ids(ids, n - 1);
        let qs = restore_records(ids, n);
        assert(qs.drop_last() =~= restore_records(ids, n - 1));
        let m = ids[n - 1];
        assert(qs.last() == snap_record(snap_of(m)));
        assert(sorted_keys(ids[n - 1].props));
        lemma_props_of_sorted(m.props);
        let prev = ids.subrange(0, n - 1);
        let r = qs.last();
        let mr = MetaView { kind: r.kind, key: r.key, gen: r.gen, hidden: r.hidden, action_id: r.action_id, props: r.props };
        assert(mr == m);
        assert(!exists|i: int| 0 <= i < prev.len() && (#[trigger] prev[i]).kind == m.kind && prev[i].key == m.key) by {
            assert forall|i: int| 0 <= i < prev.len() implies !((#[trigger] prev[i]).kind == m.kind && prev[i].key
                == m.key) by {
                assert(prev[i] == ids[i]);
                assert(!(ids[i].kind == ids[n - 1].kind && ids[i].key == ids[n - 1].key));
            }
        }
        assert(upsert(prev, m) == prev.push(m));
        assert(prev.push(m) =~= ids.subrange(0, n));
    }
}

/// The log is the store of record and the join projection a cache of it. A
/// store reopened from the checkpoint written from a state replayed from the
/// log holds that state's identities, in order, and every identity has the
/// same visible row with the same properties: every load, and every schema
/// lookup, answers alike.
pub proof fn law_checkpoint_reopen_restores(rs: Seq<RecordView>, ws: Seq<LogWrite>, pages: u32)
    requires
        forall|i: int| 0 <= i < rs.len() ==> sorted_keys(#[trigger] rs[i].props),
        checkpoint_written(ws, pages, replayed(empty_state(), rs)),
    ensures
        ws[0] matches LogWrite::Checkpoint(b) && sidecar_records(pages, Some(b@), None) matches Some(qs)
            && replayed(empty_state(), qs).ids == replayed(empty_state(), rs).ids
            && (forall|acl: PropertyAcl, kind: Seq<char>, key: Seq<char>| #[trigger] loaded(
                replayed(empty_state(), qs),
                acl,
                kind,
                key,
            ) == loaded(replayed(empty_state(), rs), acl, kind, key))
            && (forall|kind: Seq<char>, key: Seq<char>| #[trigger] row_props_of(
                replayed(empty_state(), qs).rows,
                kind,
                key,
            ) == row_props_of(replayed(empty_state(), rs).rows, kind, key))
            && (forall|kind: Seq<char>| #[trigger] schema_of(replayed(empty_state(), qs).rows, kind) == schema_of(
                replayed(empty_state(), rs).rows,
                kind,
            )),
{
    let s = replayed(empty_state(), rs);
    lemma_replayed_rows_match(rs);
    let b = ws[0]->Checkpoint_0;
    let qs = snap_records(store_snapshot(s));
    assert(sidecar_records(pages, Some(b@), None) == Some(qs));
    let n = s.ids.len() as int;
    assert(s.ids.subrange(0, n) =~= s.ids);
    assert(restore_records(s.ids, n) == qs);
    lemma_restore_ids(s.ids, n);
    let t = replayed(empty_state(), qs);
    lemma_replayed_rows_match(qs);
    assert forall|kind: Seq<char>, key: Seq<char>| #[trigger] row_props_of(t.rows, kind, key) == row_props_of(
        s.rows,
        kind,
        key,
    ) by {
        assert(row_props_of(t.rows, kind, key) == expected_row(meta_of(t.ids, kind, key)));
        assert(row_props_of(s.rows, kind, key) == expected_row(meta_of(s.ids, kind, key)));
    }
    assert forall|kind: Seq<char>| #[trigger] schema_of(t.rows, kind) == schema_of(s.rows, kind) by {
        assert(row_props_of(t.rows, schema_kind(), kind) == row_props_of(s.rows, schema_kind(), kind));
    }
}

/// Replaying more records keeps the rows matching the identities.
proof fn lemma_replayed_from_rows_match(s: StoreView, rs: Seq<RecordView>)
    requires
        rows_match(s),
    ensures
        rows_match(replayed(s, rs)),
    decreases rs.len(),
{
    if rs.len() > 0 {
        lemma_replayed_from_rows_match(s, rs.drop_last());
        lemma_applied_rows_match(replayed(s, rs.drop_last()), rs.last());
    }
}

/// What is known of an identity that no record writes is what was known.
proof fn lemma_unwritten_kept(s: StoreView, rs: Seq<RecordView>, kind: Seq<char>, key: Seq<char>)
    requires
        ids_unique(s.ids),
        forall|i: int| 0 <= i < rs.len() ==> !((#[trigger] rs[i]).kind == kind && rs[i].key == key),
    ensures
        ids_unique(replayed(s, rs).ids),
        meta_of(replayed(s, rs).ids, kind, key) == meta_of(s.ids, kind, key),
    decreases rs.len(),
{
    if rs.len() > 0 {
        let init = rs.drop_last();
        assert forall|i: int| 0 <= i < init.len() implies !((#[trigger] init[i]).kind == kind && init[i].key == key) by {
            assert(init[i] == rs[i]);
        }
        lemma_unwritten_kept(s, init, kind, key);
        let r = rs.last();
        assert(!(rs[rs.len() - 1].kind == kind && rs[rs.len() - 1].key == key));
        let m = MetaView { kind: r.kind, key: r.key, gen: r.gen, hidden: r.hidden, action_id: r.action_id, props: r.props };
        lemma_meta_of_upsert(replayed(s, init).ids, m, kind, key);
    }
}

/// What `meta_of` finds is the identity asked for.
proof fn lemma_meta_of_names(ids: Seq<MetaView>, kind: Seq<char>, key: Seq<char>)
    ensures
        meta_of(ids, kind, key) matches Some(m) ==> m.kind == kind && m.key == key,
{
}

/// Replaying the rows a delta keeps for the identities `d` sets each of them
/// to what `s` knows of it and leaves every other identity.
proof fn lemma_delta_records(t: StoreView, s: StoreView, d: Seq<(Seq<char>, Seq<char>)>, n: int, kind: Seq<char>, key: Seq<char>)
    requires
        ids_unique(t.ids),
        metas_sorted(s.ids),
        forall|j: int| 0 <= j < d.len() ==> meta_of(s.ids, (#[trigger] d[j]).0, d[j].1) is Some,
        0 <= n <= d.len(),
    ensures
        ids_unique(replayed(t, snap_records(dirty_snapshot(s, d.subrange(0, n)))).ids),
        meta_of(replayed(t, snap_records(dirty_snapshot(s, d.subrange(0, n)))).ids, kind, key) == if d.subrange(
            0,
            n,
        ).contains((kind, key)) {
            meta_of(s.ids, kind, key)
        } else {
            meta_of(t.ids, kind, key)
        },
    decreases n,
{
    let dn = d.subrange(0, n);
    let bs = snap_records(dirty_snapshot(s, dn));
    if n == 0 {
        assert(bs =~= Seq::<RecordView>::empty());
        assert(!dn.contains((kind, key)));
    } else {
        let dp = d.subrange(0, n - 1);
        lemma_delta_records(t, s, d, n - 1, kind, key);
        lemma_delta_records(t, s, d, n - 1, d[n - 1].0, d[n - 1].1);
        assert(bs.drop_last() =~= snap_records(dirty_snapshot(s, dp)));
        let e = d[n - 1];
        assert(meta_of(s.ids, d[n - 1].0, d[n - 1].1) is Some);
        let sm = meta_of(s.ids, e.0, e.1).unwrap();
        lemma_meta_of_names(s.ids, e.0, e.1);
        let c = choose|i: int| 0 <= i < s.ids.len() && (#[trigger] s.ids[i]).kind == e.0 && s.ids[i].key == e.1;
        assert(sm == s.ids[c]);
        assert(sorted_keys(s.ids[c].props));
        lemma_props_of_sorted(sm.props);
        let r = bs.last();
        assert(r == snap_record(snap_of(sm)));
        let m = MetaView { kind: r.kind, key: r.key, gen: r.gen, hidden: r.hidden, action_id: r.action_id, props: r.props };
        assert(m == sm);
        let before = replayed(t, bs.drop_last());
        lemma_meta_of_upsert(before.ids, m, kind, key);
        assert(dn =~= dp.push(e));
        if kind == e.0 && key == e.1 {
            assert(dn.contains((kind, key))) by {
                assert(dn[n - 1] == e);
            }
        } else {
            assert(dn.contains((kind, key)) == dp.contains((kind, key))) by {
                if dn.contains((kind, key)) {
                    let j = choose|j: int| 0 <= j < dn.len() && dn[j] == (kind, key);
                    assert(j != n - 1);
                    assert(dp[j] == dn[j]);
                }
                if dp.contains((kind, key)) {
                    let j = choose|j: int| 0 <= j < dp.len() && dp[j] == (kind, key);
                    assert(dn[j] == dp[j]);
                }
            }
        }
    }
}

/// A store reopened from a checkpoint and a delta answers like the state the
/// delta was written from. The checkpoint was written at `cp` committed pages
/// from a state replayed from the log; the log went on with `more` records;
/// at `pages` committed pages the delta was written of the identities `d`,
/// which name every identity those records wrote and each is known. Every
/// identity then has the same facts and latest properties, and the same
/// visible row with the same properties: every load and every schema lookup
/// answers alike.
pub proof fn law_delta_reopen_restores(
    rs: Seq<RecordView>,
    more: Seq<RecordView>,
    d: Seq<(Seq<char>, Seq<char>)>,
    ck: Seq<LogWrite>,
    dw: Seq<LogWrite>,
    cp: u32,
    pages: u32,
)
    requires
        forall|i: int| 0 <= i < rs.len() ==> sorted_keys(#[trigger] rs[i].props),
        forall|i: int| 0 <= i < more.len() ==> sorted_keys(#[trigger] more[i].props),
        cp <= pages,
        checkpoint_written(ck, cp, replayed(empty_state(), rs)),
        forall|i: int| 0 <= i < more.len() ==> d.contains(((#[trigger] more[i]).kind, more[i].key)),
        forall|j: int| 0 <= j < d.len() ==> meta_of(
            replayed(empty_state(), rs + more).ids,
            (#[trigger] d[j]).0,
            d[j].1,
        ) is Some,
        delta_written(dw, pages, dirty_snapshot(replayed(empty_state(), rs + more), d)),
    ensures
        ck[0] matches LogWrite::Checkpoint(b) && dw[0] matches LogWrite::Delta(db) && sidecar_records(
            pages,
            Some(b@),
            Some(db@),
        ) matches Some(qs) && (forall|kind: Seq<char>, key: Seq<char>| #[trigger] meta_of(
            replayed(empty_state(), qs).ids,
            kind,
            key,
        ) == meta_of(replayed(empty_state(), rs + more).ids, kind, key)) && (forall|
            acl: PropertyAcl,
            kind: Seq<char>,
            key: Seq<char>,
        | #[trigger] loaded(replayed(empty_state(), qs), acl, kind, key) == loaded(
            replayed(empty_state(), rs + more),
            acl,
            kind,
            key,
        )) && (forall|kind: Seq<char>, key: Seq<char>| #[trigger] row_props_of(
            replayed(empty_state(), qs).rows,
            kind,
            key,
        ) == row_props_of(replayed(empty_state(), rs + more).rows, kind, key)) && (forall|kind: Seq<char>|
            #[trigger] schema_of(replayed(empty_state(), qs).rows, kind) == schema_of(
                replayed(empty_state(), rs + more).rows,
                kind,
            )),
{
    let s0 = replayed(empty_state(), rs);
    let s = replayed(empty_state(), rs + more);
    lemma_replayed_append(empty_state(), rs, more);
    assert forall|i: int| 0 <= i < (rs + more).len() implies sorted_keys(#[trigger] (rs + more)[i].props) by {
        if i < rs.len() {
            assert((rs + more)[i] == rs[i]);
        } else {
            assert((rs + more)[i] == more[i - rs.len()]);
        }
    }
    lemma_replayed_rows_match(rs);
    lemma_replayed_rows_match(rs + more);
    let a = snap_records(store_snapshot(s0));
    let bs = snap_records(dirty_snapshot(s, d));
    let b = ck[0]->Checkpoint_0;
    let db = dw[0]->Delta_0;
    let qs = a + bs;
    assert(sidecar_records(pages, Some(b@), Some(db@)) == Some(qs));
    let n = s0.ids.len() as int;
    assert(s0.ids.subrange(0, n) =~= s0.ids);
    assert(restore_records(s0.ids, n) == a);
    lemma_restore_ids(s0.ids, n);
    let t0 = replayed(empty_state(), a);
    lemma_replayed_rows_match(a);
    lemma_replayed_append(empty_state(), a, bs);
    let t = replayed(empty_state(), qs);
    assert(t == replayed(t0, bs));
    assert(d.subrange(0, d.len() as int) =~= d);
    lemma_replayed_rows_match(qs);
    assert forall|kind: Seq<char>, key: Seq<char>| #[trigger] meta_of(t.ids, kind, key) == meta_of(s.ids, kind, key) by {
        lemma_delta_records(t0, s, d, d.len() as int, kind, key);
        if !d.contains((kind, key)) {
            assert forall|i: int| 0 <= i < more.len() implies !((#[trigger] more[i]).kind == kind && more[i].key
                == key) by {
                assert(d.contains((more[i].kind, more[i].key)));
            }
            lemma_unwritten_kept(s0, more, kind, key);
        }
    }
    assert forall|kind: Seq<char>, key: Seq<char>| #[trigger] row_props_of(t.rows, kind, key) == row_props_of(
        s.rows,
        kind,
        key,
    ) by {
        assert(meta_of(t.ids, kind, key) == meta_of(s.ids, kind, key));
        assert(row_props_of(t.rows, kind, key) == expected_row(meta_of(t.ids, kind, key)));
        assert(row_props_of(s.rows, kind, key) == expected_row(meta_of(s.ids, kind, key)));
    }
    assert forall|acl: PropertyAcl, kind: Seq<char>, key: Seq<char>| #[trigger] loaded(t, acl, kind, key) == loaded(
        s,
        acl,
        kind,
        key,
    ) by {
        assert(meta_of(t.ids, kind, key) == meta_of(s.ids, kind, key));
    }
    assert forall|kind: Seq<char>| #[trigger] schema_of(t.rows, kind) == schema_of(s.rows, kind) by {
        assert(row_props_of(t.rows, schema_kind(), kind) == row_props_of(s.rows, schema_kind(), kind));
    }
}

/// The last write of `(kind, key)` in a history, if any.
pub open spec fn last_write(rs: Seq<RecordView>, kind: Seq<char>, key: Seq<char>) -> Option<RecordView>
    decreases rs.len(),
{
    if rs.len() == 0 {
        None
    } else if rs.last().kind == kind && rs.last().key == key {
        Some(rs.last())
    } else {
        last_write(rs.drop_last(), kind, key)
    }
}

/// The identity facts the last write of `(kind, key)` leaves.
pub open spec fn last_meta(rs: Seq<RecordView>, kind: Seq<char>, key: Seq<char>) -> Option<MetaView> {
    match last_write(rs, kind, key) {
        Some(w) => Some(
            MetaView { kind: w.kind, key: w.key, gen: w.gen, hidden: w.hidden, action_id: w.action_id, props: w.props },
        ),
        None => None,
    }
}

/// After a history of writes, what is known of an object is its last write:
/// its generation, hidden flag, Action id and properties, and nothing when it
/// was never written; its row is visible exactly when that write is not
/// hidden, with that write's properties; a property of the row is that
/// write's value, a later write without it replacing rather than merging. A
/// load and the projection's lookups read these facts.
pub proof fn law_history_gives_last_write(rs: Seq<RecordView>, kind: Seq<char>, key: Seq<char>)
    ensures
        meta_of(replayed(empty_state(), rs).ids, kind, key) == last_meta(rs, kind, key),
        row_props_of(replayed(empty_state(), rs).rows, kind, key) == expected_row(last_meta(rs, kind, key)),
        ids_unique(replayed(empty_state(), rs).ids),
        visible(replayed(empty_state(), rs).rows, kind, key) <==> (last_write(rs, kind, key) matches Some(w)
            && !w.hidden),
        forall|p: Seq<char>| #[trigger] row_prop(replayed(empty_state(), rs).rows, kind, key, p) == match last_write(
            rs,
            kind,
            key,
        ) {
            Some(w) => if w.hidden {
                None
            } else {
                prop_get(w.props, p)
            },
            None => None,
        },
    decreases rs.len(),
{
    lemma_replayed_rows_match(rs);
    if rs.len() > 0 {
        let init = rs.drop_last();
        law_history_gives_last_write(init, kind, key);
        let s = replayed(empty_state(), init);
        let r = rs.last();
        let m = MetaView { kind: r.kind, key: r.key, gen: r.gen, hidden: r.hidden, action_id: r.action_id, props: r.props };
        lemma_meta_of_upsert(s.ids, m, kind, key);
    }
}

} // verus!
