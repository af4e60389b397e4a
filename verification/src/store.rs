//! The live store: the identity facts and latest properties of every object,
//! the join projection of the visible ones, and the log writer that records
//! each accepted write.
//!
//! The store decides; the caller performs the returned [`LogWrite`] steps on
//! the log file in order.

use vstd::prelude::*;

use crate::acl::{pairs_view, PropertyAcl};
use crate::actions::Action;
use crate::joins::{visible, row_index, without, JoinMaps, RowView};
use crate::pagelog::{takes, LogWrite, PageLog, SyncPolicy};
use crate::props::{lemma_props_ext, prop_get, sorted_keys, Props};
use crate::logfmt::{body_bytes, body_fits, last_value, PAGE, PAGE_HDR};
use crate::sidecar::{
    decode_checkpoint, decode_delta, delta_fits, encode_checkpoint, encode_delta, frame_checksummed,
    checkpoint_magic, checkpoint_trailing, parse_checkpoint, parse_delta, read_checksummed, row_fits, snap_rows, total_strings, unframed, SidecarRow, SnapRow,
};
use crate::record::{clone_opt_str, opt_str_view, ObjectRecord, RecordView};
use crate::schema::{
    descriptor_ok, instance_ok, lemma_schema_kind, property_type_of, schema_kind, schema_record_ok,
    schema_view, writable, written_props, DescriptorView, SchemaDescriptor, SCHEMA_KIND,
};
use crate::text::{concat_str, str_eq};

verus! {

/// The identity facts of one object and its latest properties.
pub struct MetaView {
    pub kind: Seq<char>,
    pub key: Seq<char>,
    pub gen: u64,
    pub hidden: bool,
    pub action_id: Option<Seq<char>>,
    pub props: Seq<(Seq<char>, Seq<char>)>,
}

struct Meta {
    kind: String,
    key: String,
    gen: u64,
    hidden: bool,
    action_id: Option<String>,
    props: Props,
}

spec fn meta_view(m: Meta) -> MetaView {
    MetaView {
        kind: m.kind@,
        key: m.key@,
        gen: m.gen,
        hidden: m.hidden,
        action_id: opt_str_view(m.action_id),
        props: m.props@,
    }
}

/// The live state: identity facts and visible rows.
pub struct StoreView {
    pub ids: Seq<MetaView>,
    pub rows: Seq<RowView>,
}

/// In-memory store over one object log.
pub struct Store {
    writer: PageLog,
    /// The identity facts, one entry per identity ever written, found by a
    /// scan (see [`JoinMaps`] for why a vector rather than a map).
    ids: Vec<Meta>,
    joins: JoinMaps,
    /// Identities written since the last checkpoint, each once.
    dirty: Vec<(String, String)>,
    /// Whether a checkpoint of this store's projection was written or read.
    has_checkpoint: bool,
    /// Every Action id the log holds, with the write that first claimed it.
    claims: Vec<Claim>,
}

/// An Action id and the write that first claimed it.
pub struct ClaimView {
    pub id: Seq<char>,
    pub kind: Seq<char>,
    pub key: Seq<char>,
    pub props: Seq<(Seq<char>, Seq<char>)>,
}

struct Claim {
    id: String,
    kind: String,
    key: String,
    props: Props,
}

spec fn claim_view(c: Claim) -> ClaimView {
    ClaimView { id: c.id@, kind: c.kind@, key: c.key@, props: c.props@ }
}

/// The claim of Action id `a`, if a write claimed it: the last in `cs`.
pub open spec fn claim_of(cs: Seq<ClaimView>, a: Seq<char>) -> Option<ClaimView>
    decreases cs.len(),
{
    if cs.len() == 0 {
        None
    } else if cs.last().id == a {
        Some(cs.last())
    } else {
        claim_of(cs.drop_last(), a)
    }
}

/// The claims after the write `w`: its Action id, unless already claimed,
/// is claimed by it.
pub open spec fn claim_step(cs: Seq<ClaimView>, w: RecordView) -> Seq<ClaimView> {
    match w.action_id {
        Some(a) => if claim_of(cs, a) is None {
            cs.push(ClaimView { id: a, kind: w.kind, key: w.key, props: w.props })
        } else {
            cs
        },
        None => cs,
    }
}

/// The claims a history of writes makes, in order.
pub open spec fn claims_of(rs: Seq<RecordView>) -> Seq<ClaimView>
    decreases rs.len(),
{
    if rs.len() == 0 {
        Seq::empty()
    } else {
        claim_step(claims_of(rs.drop_last()), rs.last())
    }
}

/// The first write of a history that carries Action id `a`, if any.
pub open spec fn first_claimant(rs: Seq<RecordView>, a: Seq<char>) -> Option<RecordView>
    decreases rs.len(),
{
    if rs.len() == 0 {
        None
    } else if first_claimant(rs.drop_last(), a) is Some {
        first_claimant(rs.drop_last(), a)
    } else if rs.last().action_id == Some(a) {
        Some(rs.last())
    } else {
        None
    }
}

/// An Action id is claimed by the first write of the history that carries
/// it, with that write's object and properties, whatever was written after
/// it; an id no write carries is unclaimed.
pub proof fn law_first_write_claims(rs: Seq<RecordView>, a: Seq<char>)
    ensures
        claim_of(claims_of(rs), a) == match first_claimant(rs, a) {
            Some(w) => Some(ClaimView { id: a, kind: w.kind, key: w.key, props: w.props }),
            None => None,
        },
    decreases rs.len(),
{
    if rs.len() > 0 {
        let init = rs.drop_last();
        law_first_write_claims(init, a);
        let cs = claims_of(init);
        let w = rs.last();
        match w.action_id {
            Some(b) => {
                if claim_of(cs, b) is None {
                    let x = ClaimView { id: b, kind: w.kind, key: w.key, props: w.props };
                    assert(cs.push(x).drop_last() =~= cs);
                    if b != a {
                        law_first_write_claims(init, b);
                    }
                }
            },
            None => {},
        }
    }
}

/// Whether writing the accepted form `c` is a replay of the write that
/// claimed its Action id: the same object, visible, with the same
/// properties. A replay writes nothing.
pub open spec fn action_replay(cs: Seq<ClaimView>, c: RecordView) -> bool {
    &&& c.action_id matches Some(a)
    &&& claim_of(cs, a) matches Some(cl)
    &&& cl.kind == c.kind && cl.key == c.key
    &&& !c.hidden
    &&& cl.props == c.props
}

/// The refusal of the accepted form `c` for its Action id: the id was
/// claimed for another object, or for this object with other properties
/// (a hide under the claimed id is written).
pub open spec fn action_refusal(cs: Seq<ClaimView>, c: RecordView) -> Option<Seq<char>> {
    match c.action_id {
        None => None,
        Some(a) => match claim_of(cs, a) {
            None => None,
            Some(cl) => if cl.kind != c.kind || cl.key != c.key {
                Some("action id "@ + a + " already committed for "@ + cl.kind + " "@ + cl.key)
            } else if c.hidden || cl.props == c.props {
                None
            } else {
                Some("action id "@ + a + " body conflict"@)
            },
        },
    }
}

/// The refusal of a write of `r` for its Action id, once the store accepts
/// its form.
pub open spec fn write_refusal(s: StoreView, cs: Seq<ClaimView>, r: RecordView) -> Option<Seq<char>> {
    match accepted_form(s.rows, r) {
        Some(c) => action_refusal(cs, c),
        None => None,
    }
}

/// One write of `r`: `None` when it is refused; otherwise the state and
/// claims after it and the record logged, `None` for a replay.
pub open spec fn logged_step(s: StoreView, cs: Seq<ClaimView>, r: RecordView) -> Option<
    (StoreView, Seq<ClaimView>, Option<RecordView>),
> {
    match accepted_form(s.rows, r) {
        None => None,
        Some(c) => if action_refusal(cs, c) is Some {
            None
        } else if action_replay(cs, c) {
            Some((s, cs, None))
        } else {
            match next_gen(s.ids, c) {
                None => None,
                Some(g) => Some(
                    (applied(s, RecordView { gen: g, ..c }), claim_step(cs, RecordView { gen: g, ..c }), Some(
                        RecordView { gen: g, ..c },
                    )),
                ),
            }
        },
    }
}

/// Each identity is listed once.
pub open spec fn ids_unique(ids: Seq<MetaView>) -> bool {
    forall|i: int, j: int|
        0 <= i < j < ids.len() ==> !((#[trigger] ids[i]).kind == (#[trigger] ids[j]).kind && ids[i].key
            == ids[j].key)
}

/// Every identity in `dirty` has identity facts.
pub open spec fn dirty_known(ids: Seq<MetaView>, dirty: Seq<(Seq<char>, Seq<char>)>) -> bool {
    forall|i: int| 0 <= i < dirty.len() ==> meta_of(ids, (#[trigger] dirty[i]).0, dirty[i].1) is Some
}

/// Setting an identity keeps every identity known and makes it known.
proof fn lemma_upsert_known(ids: Seq<MetaView>, m: MetaView, kind: Seq<char>, key: Seq<char>)
    requires
        meta_of(ids, kind, key) is Some || (kind == m.kind && key == m.key),
    ensures
        meta_of(upsert(ids, m), kind, key) is Some,
{
    let u = upsert(ids, m);
    if kind == m.kind && key == m.key {
        if exists|i: int| 0 <= i < ids.len() && (#[trigger] ids[i]).kind == m.kind && ids[i].key == m.key {
            let c = choose|i: int| 0 <= i < ids.len() && (#[trigger] ids[i]).kind == m.kind && ids[i].key == m.key;
            assert(u[c] == m);
        } else {
            assert(u[ids.len() as int] == m);
        }
    } else {
        let j = choose|i: int| 0 <= i < ids.len() && (#[trigger] ids[i]).kind == kind && ids[i].key == key;
        if exists|i: int| 0 <= i < ids.len() && (#[trigger] ids[i]).kind == m.kind && ids[i].key == m.key {
            let c = choose|i: int| 0 <= i < ids.len() && (#[trigger] ids[i]).kind == m.kind && ids[i].key == m.key;
            assert(c != j);
            assert(u[j] == ids[j]);
        } else {
            assert(u[j] == ids[j]);
        }
    }
}

/// The identity facts of `(kind, key)`, if it was ever written.
pub open spec fn meta_of(ids: Seq<MetaView>, kind: Seq<char>, key: Seq<char>) -> Option<MetaView> {
    if exists|i: int| 0 <= i < ids.len() && (#[trigger] ids[i]).kind == kind && ids[i].key == key {
        Some(ids[choose|i: int| 0 <= i < ids.len() && (#[trigger] ids[i]).kind == kind && ids[i].key == key])
    } else {
        None
    }
}

/// The identity list with `(kind, key)` set to `m`.
pub open spec fn upsert(ids: Seq<MetaView>, m: MetaView) -> Seq<MetaView> {
    if exists|i: int| 0 <= i < ids.len() && (#[trigger] ids[i]).kind == m.kind && ids[i].key == m.key {
        ids.update(choose|i: int| 0 <= i < ids.len() && (#[trigger] ids[i]).kind == m.kind && ids[i].key == m.key, m)
    } else {
        ids.push(m)
    }
}

/// The state after applying `r`: its identity facts replaced, its row
/// replaced by its properties when visible and dropped when hidden.
pub open spec fn applied(s: StoreView, r: RecordView) -> StoreView {
    StoreView {
        ids: upsert(
            s.ids,
            MetaView { kind: r.kind, key: r.key, gen: r.gen, hidden: r.hidden, action_id: r.action_id, props: r.props },
        ),
        rows: if r.hidden {
            without(s.rows, r.kind, r.key)
        } else {
            without(s.rows, r.kind, r.key).push(RowView { kind: r.kind, key: r.key, props: r.props })
        },
    }
}

/// The state after applying every record in order.
pub open spec fn replayed(s: StoreView, rs: Seq<RecordView>) -> StoreView
    decreases rs.len(),
{
    if rs.len() == 0 {
        s
    } else {
        applied(replayed(s, rs.drop_last()), rs.last())
    }
}

/// The descriptor of `kind`'s visible schema row: none without one, an error
/// (`None`) when that row does not decode.
pub open spec fn schema_of(rows: Seq<RowView>, kind: Seq<char>) -> Option<Option<DescriptorView>> {
    if visible(rows, schema_kind(), kind) {
        let r = RecordView {
            gen: 0,
            kind: schema_kind(),
            key: kind,
            hidden: false,
            action_id: None,
            props: rows[row_index(rows, schema_kind(), kind)].props,
        };
        if schema_record_ok(r) {
            Some(Some(schema_view(r)))
        } else {
            None
        }
    } else {
        Some(None)
    }
}

/// A new descriptor keeps the type of every property both declare, and the
/// far kind of every outgoing link both declare.
pub open spec fn evolution_ok(old: DescriptorView, new: DescriptorView) -> bool {
    &&& forall|i: int|
        0 <= i < old.properties.len() && new.properties.contains(#[trigger] old.properties[i])
            ==> property_type_of(old, old.properties[i]) == property_type_of(new, old.properties[i])
    &&& forall|i: int, j: int|
        0 <= i < old.links.len() && 0 <= j < new.links.len() && (#[trigger] old.links[i]).outgoing
            && (#[trigger] new.links[j]).outgoing && old.links[i].name == new.links[j].name
            ==> old.links[i].far_kind == new.links[j].far_kind
}

/// The form in which the store accepts `r`, if it does. A schema row must
/// decode and keep the earlier descriptor's types and link targets; a
/// visible instance of a kind with a schema is canonicalized and validated.
pub open spec fn accepted_form(rows: Seq<RowView>, r: RecordView) -> Option<RecordView> {
    if !action_id_ok(r) {
        None
    } else if r.hidden {
        Some(r)
    } else if r.kind == schema_kind() {
        match schema_of(rows, r.key) {
            None => None,
            Some(prev) => if schema_record_ok(r) && (prev matches Some(old) ==> evolution_ok(
                old,
                schema_view(r),
            )) {
                Some(r)
            } else {
                None
            },
        }
    } else {
        match schema_of(rows, r.kind) {
            None => None,
            Some(None) => Some(r),
            Some(Some(d)) => if descriptor_ok(d) && r.kind == d.kind && writable(d, r.props) {
                let c = RecordView { props: written_props(d, r.props), ..r };
                if instance_ok(d, c) {
                    Some(c)
                } else {
                    None
                }
            } else {
                None
            },
        }
    }
}

/// A write names no empty Action id.
pub open spec fn action_id_ok(r: RecordView) -> bool {
    !(r.action_id matches Some(a) && a.len() == 0)
}

/// The generation a write of `r` gets: one past the identity's last (at
/// least 1), or 1 for a new identity written with generation 0.
pub open spec fn next_gen(ids: Seq<MetaView>, r: RecordView) -> Option<u64> {
    match meta_of(ids, r.kind, r.key) {
        Some(m) => if m.gen < u64::MAX {
            Some(if m.gen < 1 { 2u64 } else { (m.gen + 1) as u64 })
        } else {
            None
        },
        None => Some(if r.gen == 0 { 1u64 } else { r.gen }),
    }
}

/// The state and claims after writing every record in order, if each is
/// accepted.
pub open spec fn batch_logged(s: StoreView, cs: Seq<ClaimView>, rs: Seq<RecordView>) -> Option<(StoreView, Seq<ClaimView>)>
    decreases rs.len(),
{
    if rs.len() == 0 {
        Some((s, cs))
    } else {
        match batch_logged(s, cs, rs.drop_last()) {
            None => None,
            Some((t, tc)) => match logged_step(t, tc, rs.last()) {
                None => None,
                Some((u, uc, _)) => Some((u, uc)),
            },
        }
    }
}

/// The state after writing every record in order, if each is accepted.
pub open spec fn batch_applied(s: StoreView, cs: Seq<ClaimView>, rs: Seq<RecordView>) -> Option<StoreView> {
    match batch_logged(s, cs, rs) {
        Some((t, _)) => Some(t),
        None => None,
    }
}

/// Whether every record a batch logs fits one page.
pub open spec fn batch_fits(s: StoreView, cs: Seq<ClaimView>, rs: Seq<RecordView>) -> bool
    decreases rs.len(),
{
    if rs.len() == 0 {
        true
    } else {
        &&& batch_fits(s, cs, rs.drop_last())
        &&& match batch_logged(s, cs, rs.drop_last()) {
            Some((t, tc)) => match logged_step(t, tc, rs.last()) {
                Some((_, _, Some(w))) => page_fits(w),
                _ => true,
            },
            None => true,
        }
    }
}

/// The write an Action makes: its properties on its object, visible, under
/// its id, at the identity's next generation.
pub open spec fn action_write(a: Action) -> RecordView {
    RecordView { gen: 0, kind: a.kind@, key: a.key@, hidden: false, action_id: Some(a.id@), props: a.props@ }
}

/// Whether a logged record fits one page: its body can be written and its
/// frame fits after the page header.
pub open spec fn page_fits(r: RecordView) -> bool {
    body_fits(r) && PAGE_HDR + 2 + body_bytes(r).len() <= PAGE
}

/// Whether the projection of `s` can be written beside the log: its rows fit
/// as a delta and an intern table of their strings fits a checkpoint.
pub open spec fn projection_fits(s: StoreView) -> bool {
    delta_fits(store_snapshot(s)) && total_strings(store_snapshot(s)) <= u32::MAX
}

/// The identities `d` of a store whose projection fits are rows that fit a
/// delta, when there are few enough of them.
proof fn lemma_dirty_fits(s: StoreView, d: Seq<(Seq<char>, Seq<char>)>)
    requires
        projection_fits(s),
        dirty_known(s.ids, d),
        d.len() <= u32::MAX,
    ensures
        delta_fits(dirty_snapshot(s, d)),
{
    let snap = store_snapshot(s);
    let rows = dirty_snapshot(s, d);
    assert forall|i: int| 0 <= i < rows.len() implies row_fits(#[trigger] rows[i]) by {
        assert(meta_of(s.ids, d[i].0, d[i].1) is Some);
        let j = choose|j: int| 0 <= j < s.ids.len() && (#[trigger] s.ids[j]).kind == d[i].0 && s.ids[j].key == d[i].1;
        assert(snap[j] == snap_of(s.ids[j]));
        assert(row_fits(snap[j]));
    }
}

/// A batch of one record is logged as that record's one write.
proof fn lemma_single_logged(s: StoreView, cs: Seq<ClaimView>, r: RecordView)
    ensures
        batch_logged(s, cs, seq![r]) == match logged_step(s, cs, r) {
            None => None,
            Some((u, uc, _)) => Some((u, uc)),
        },
        batch_fits(s, cs, seq![r]) == match logged_step(s, cs, r) {
            Some((_, _, Some(w))) => page_fits(w),
            _ => true,
        },
{
    let one = seq![r];
    assert(one.drop_last() =~= Seq::<RecordView>::empty());
    assert(one.last() == r);
    assert(batch_logged(s, cs, Seq::<RecordView>::empty()) == Some((s, cs)));
    assert(batch_fits(s, cs, Seq::<RecordView>::empty()));
}

/// A prefix of a batch that is logged, and fits, is logged and fits.
proof fn lemma_batch_prefix(s: StoreView, cs: Seq<ClaimView>, rs: Seq<RecordView>, i: int)
    requires
        batch_logged(s, cs, rs) is Some,
        batch_fits(s, cs, rs),
        0 <= i <= rs.len(),
    ensures
        batch_logged(s, cs, rs.subrange(0, i)) is Some,
        batch_fits(s, cs, rs.subrange(0, i)),
    decreases rs.len(),
{
    if i == rs.len() {
        assert(rs.subrange(0, i) =~= rs);
    } else {
        let init = rs.drop_last();
        lemma_batch_prefix(s, cs, init, i);
        assert(init.subrange(0, i) =~= rs.subrange(0, i));
    }
}

/// Whether `rec` is what a load of `(kind, key)` by a request with `acl`
/// gives: the latest write, without the properties the request denies.
pub open spec fn load_gives(s: StoreView, acl: PropertyAcl, kind: Seq<char>, key: Seq<char>, rec: RecordView) -> bool {
    &&& loaded(s, acl, kind, key) matches Some(m)
    &&& rec.kind == kind
    &&& rec.key == key
    &&& rec.gen == m.gen
    &&& rec.hidden == m.hidden
    &&& rec.action_id == m.action_id
    &&& forall|name: Seq<char>| #[trigger] prop_get(rec.props, name) == if acl.allows(kind, name) {
        prop_get(m.props, name)
    } else {
        None
    }
}

/// The object a request sees at `(kind, key)`, if it sees one: the latest
/// write of a known identity the request does not hide, hidden or not.
pub open spec fn loaded(s: StoreView, acl: PropertyAcl, kind: Seq<char>, key: Seq<char>) -> Option<MetaView> {
    match meta_of(s.ids, kind, key) {
        Some(m) => if acl.shows(kind, key) {
            Some(m)
        } else {
            None
        },
        None => None,
    }
}

impl Store {
    pub closed spec fn wf(&self) -> bool {
        &&& self.writer.wf()
        &&& ids_unique(self@.ids)
        &&& dirty_known(self@.ids, pairs_view(self.dirty@))
    }

    /// Identities written since the last checkpoint.
    pub closed spec fn spec_dirty(&self) -> Seq<(Seq<char>, Seq<char>)> {
        pairs_view(self.dirty@)
    }

    /// Whether a checkpoint was written or read.
    pub closed spec fn spec_has_checkpoint(&self) -> bool {
        self.has_checkpoint
    }

    /// Whether the next persist writes a full checkpoint: none was written
    /// yet, or more than a quarter of the identities were written since.
    pub closed spec fn needs_checkpoint(&self) -> bool {
        !self.has_checkpoint || (if self.dirty@.len() * 4 > usize::MAX {
            usize::MAX as int
        } else {
            (self.dirty@.len() * 4) as int
        }) > (if self.ids@.len() > 1 {
            self.ids@.len() as int
        } else {
            1
        })
    }

    /// The writer position a page cursor binds.
    pub closed spec fn spec_stamp(&self) -> (u32, u32, u32) {
        (self.writer.spec_committed(), self.writer.spec_written(), self.writer.spec_used() as u32)
    }

    pub closed spec fn spec_writer(&self) -> PageLog {
        self.writer
    }

    /// The Action ids the log holds, each with the write that claimed it.
    pub closed spec fn spec_claims(&self) -> Seq<ClaimView> {
        self.claims@.map_values(|c: Claim| claim_view(c))
    }

    /// Whether appending `rs` in order and committing them succeeds: each is
    /// accepted and its logged form fits a page, the log has page numbers
    /// left for them, and the projection after them fits beside the log.
    pub open spec fn batch_succeeds(&self, rs: Seq<RecordView>) -> bool {
        &&& batch_logged(self@, self.spec_claims(), rs) matches Some((t, tc))
        &&& batch_fits(self@, self.spec_claims(), rs)
        &&& projection_fits(t)
        &&& self.spec_writer().spec_written() + rs.len() < u32::MAX
        &&& self.spec_dirty().len() + rs.len() <= u32::MAX
    }

    /// A store over a new, empty log; the steps write its superblock.
    pub fn create(sync: SyncPolicy) -> (r: (Store, Vec<LogWrite>))
        ensures
            r.0.wf(),
            r.0@.ids == Seq::<MetaView>::empty(),
            r.0@.rows == Seq::<RowView>::empty(),
            r.0.spec_writer().spec_sync() == sync,
            r.0.spec_claims() == Seq::<ClaimView>::empty(),
    {
        let (writer, steps) = PageLog::create(sync);
        let s = Store {
            writer,
            ids: Vec::new(),
            joins: JoinMaps::new(),
            dirty: Vec::new(),
            has_checkpoint: false,
            claims: Vec::new(),
        };
        assert(s.spec_claims() =~= Seq::<ClaimView>::empty());
        assert(s@.ids =~= Seq::<MetaView>::empty());
        (s, steps)
    }

    /// A store over an existing log with `committed` pages holding `records`,
    /// rebuilt by replaying them in order.
    pub fn open(sync: SyncPolicy, committed: u32, records: Vec<ObjectRecord>) -> (s: Store)
        ensures
            s.wf(),
            s@ == replayed(
                StoreView { ids: Seq::empty(), rows: Seq::empty() },
                records@.map_values(|r: ObjectRecord| r@),
            ),
            s.spec_writer().spec_committed() == committed,
            s.spec_writer().spec_sync() == sync,
            !s.spec_has_checkpoint(),
            s.spec_claims() == claims_of(records@.map_values(|r: ObjectRecord| r@)),
    {
        let mut s = Store {
            writer: PageLog::open(sync, committed),
            ids: Vec::new(),
            joins: JoinMaps::new(),
            dirty: Vec::new(),
            has_checkpoint: false,
            claims: Vec::new(),
        };
        let ghost start = StoreView { ids: Seq::empty(), rows: Seq::empty() };
        assert(s@.ids =~= start.ids);
        let ghost rv = records@.map_values(|r: ObjectRecord| r@);
        let n = records.len();
        let mut i: usize = 0;
        assert(rv.subrange(0, 0) =~= Seq::<RecordView>::empty());
        while i < n
            invariant
                s.wf(),
                s.writer.spec_committed() == committed,
                s.writer.spec_sync() == sync,
                !s.has_checkpoint,
                s.spec_claims() == Seq::<ClaimView>::empty(),
                i <= n,
                n == rv.len(),
                n == records@.len(),
                rv == records@.map_values(|r: ObjectRecord| r@),
                s@ == replayed(start, rv.subrange(0, i as int)),
            decreases n - i,
        {
            let r = records[i].clone();
            assert(r@ == rv[i as int]);
            s.apply_record(r);
            assert(rv.subrange(0, i + 1).drop_last() =~= rv.subrange(0, i as int));
            i = i + 1;
        }
        assert(rv.subrange(0, n as int) =~= rv);
        assert(s.spec_claims() =~= Seq::<ClaimView>::empty());
        s.claim_all(&records);
        s
    }

    /// The index of the claim of Action id `id`, if any.
    fn find_claim(&self, id: &str) -> (r: Option<usize>)
        ensures
            match r {
                Some(i) => i < self.spec_claims().len() && claim_of(self.spec_claims(), id@) == Some(
                    self.spec_claims()[i as int],
                ),
                None => claim_of(self.spec_claims(), id@) is None,
            },
    {
        let ghost cs = self.spec_claims();
        let mut i: usize = self.claims.len();
        assert(cs.subrange(0, i as int) =~= cs);
        while i > 0
            invariant
                i <= self.claims@.len(),
                cs == self.spec_claims(),
                cs.len() == self.claims@.len(),
                claim_of(cs, id@) == claim_of(cs.subrange(0, i as int), id@),
            decreases i,
        {
            i = i - 1;
            let ghost pre = cs.subrange(0, i + 1);
            assert(pre.drop_last() =~= cs.subrange(0, i as int));
            assert(pre.last() == cs[i as int]);
            assert(cs[i as int] == claim_view(self.claims@[i as int]));
            if str_eq(self.claims[i].id.as_str(), id) {
                return Some(i);
            }
        }
        assert(cs.subrange(0, 0) =~= Seq::<ClaimView>::empty());
        None
    }

    /// Note the write `w` in the claims: its Action id, unless already
    /// claimed, is claimed by it.
    fn claim_write(&mut self, w: &ObjectRecord)
        requires
            old(self).wf(),
        ensures
            final(self).wf(),
            final(self)@ == old(self)@,
            final(self).spec_writer() == old(self).spec_writer(),
            final(self).spec_dirty() == old(self).spec_dirty(),
            final(self).spec_has_checkpoint() == old(self).spec_has_checkpoint(),
            final(self).spec_claims() == claim_step(old(self).spec_claims(), w@),
    {
        match &w.action_id {
            Some(a) => {
                if self.find_claim(a.as_str()).is_none() {
                    let c = Claim { id: a.clone(), kind: w.kind.clone(), key: w.key.clone(), props: w.props.clone() };
                    let ghost before = self.spec_claims();
                    self.claims.push(c);
                    assert(self.spec_claims() =~= before.push(claim_view(c)));
                }
            },
            None => {},
        }
    }

    /// Note every write of `records`, in order, in empty claims.
    fn claim_all(&mut self, records: &Vec<ObjectRecord>)
        requires
            old(self).wf(),
            old(self).spec_claims() == Seq::<ClaimView>::empty(),
        ensures
            final(self).wf(),
            final(self)@ == old(self)@,
            final(self).spec_writer() == old(self).spec_writer(),
            final(self).spec_dirty() == old(self).spec_dirty(),
            final(self).spec_has_checkpoint() == old(self).spec_has_checkpoint(),
            final(self).spec_claims() == claims_of(records@.map_values(|r: ObjectRecord| r@)),
    {
        let ghost rv = records@.map_values(|r: ObjectRecord| r@);
        let mut i: usize = 0;
        assert(rv.subrange(0, 0) =~= Seq::<RecordView>::empty());
        while i < records.len()
            invariant
                i <= records@.len(),
                rv == records@.map_values(|r: ObjectRecord| r@),
                self.wf(),
                self@ == old(self)@,
                self.spec_writer() == old(self).spec_writer(),
                self.spec_dirty() == old(self).spec_dirty(),
                self.spec_has_checkpoint() == old(self).spec_has_checkpoint(),
                self.spec_claims() == claims_of(rv.subrange(0, i as int)),
            decreases records@.len() - i,
        {
            assert(records@[i as int]@ == rv[i as int]);
            self.claim_write(&records[i]);
            assert(rv.subrange(0, i + 1).drop_last() =~= rv.subrange(0, i as int));
            i = i + 1;
        }
        assert(rv.subrange(0, rv.len() as int) =~= rv);
    }

    /// A store over an existing log with `committed` pages holding
    /// `records`, reading its projection from the sidecar files when they
    /// serve (see [`sidecar_records`]) and otherwise replaying `records` and
    /// persisting a fresh checkpoint. A delta without a checkpoint is
    /// dropped. Fails closed when a checkpoint is present but does not read
    /// back (see [`sidecar_broken`]; [`checkpoint_refusal`] gives the answer
    /// for each cause), and when the fresh checkpoint cannot be encoded. A
    /// delta that does not read back is not trusted: it only caches writes the
    /// log holds, so the projection is rebuilt from the log instead.
    pub fn open_projection(
        sync: SyncPolicy,
        committed: u32,
        checkpoint: Option<Vec<u8>>,
        delta: Option<Vec<u8>>,
        records: Vec<ObjectRecord>,
    ) -> (r: Result<(Store, Vec<LogWrite>), String>)
        ensures
            sidecar_broken(opt_bytes(checkpoint)) ==> r is Err,
            checkpoint_refusal(opt_bytes(checkpoint)) is Some ==> (r matches Err(e) && Some(e@)
                == checkpoint_refusal(opt_bytes(checkpoint))),
            sidecar_records(committed, opt_bytes(checkpoint), opt_bytes(delta)) is Some ==> (r matches Ok((s, ws))
                && ws@.len() == 0),
            r matches Ok((s, ws)) ==> s.spec_claims() == claims_of(records@.map_values(|x: ObjectRecord| x@)),
            r matches Ok((s, ws)) ==> s.wf() && s.spec_writer().spec_committed() == committed
                && s.spec_writer().spec_sync() == sync && s@ == match sidecar_records(
                committed,
                opt_bytes(checkpoint),
                opt_bytes(delta),
            ) {
                Some(rs) => replayed(empty_state(), rs),
                None => replayed(empty_state(), records@.map_values(|x: ObjectRecord| x@)),
            },
            (!sidecar_broken(opt_bytes(checkpoint)) && sidecar_records(
                committed,
                opt_bytes(checkpoint),
                opt_bytes(delta),
            ) is None && delta_fits(
                store_snapshot(replayed(empty_state(), records@.map_values(|x: ObjectRecord| x@))),
            ) && total_strings(store_snapshot(replayed(empty_state(), records@.map_values(|x: ObjectRecord| x@))))
                <= u32::MAX) ==> r is Ok,
    {
        match try_sidecar(committed, &checkpoint, &delta)? {
            Some((ck_rows, d_rows)) => {
                let mut s = Store {
                    writer: PageLog::open(sync, committed),
                    ids: Vec::new(),
                    joins: JoinMaps::new(),
                    dirty: Vec::new(),
                    has_checkpoint: false,
                    claims: Vec::new(),
                };
                assert(s@.ids =~= empty_state().ids);
                assert(pairs_view(s.dirty@) =~= Seq::<(Seq<char>, Seq<char>)>::empty());
                assert(s.spec_claims() =~= Seq::<ClaimView>::empty());
                s.restore_rows(&ck_rows);
                s.dirty = Vec::new();
                assert(pairs_view(s.dirty@) =~= Seq::<(Seq<char>, Seq<char>)>::empty());
                s.restore_rows(&d_rows);
                s.has_checkpoint = true;
                s.claim_all(&records);
                proof {
                    lemma_replayed_append(
                        empty_state(),
                        snap_records(snap_rows(ck_rows@)),
                        snap_records(snap_rows(d_rows@)),
                    );
                }
                Ok((s, Vec::new()))
            },
            None => {
                let mut writes: Vec<LogWrite> = Vec::new();
                if checkpoint.is_none() && delta.is_some() {
                    writes.push(LogWrite::DropDelta);
                }
                let mut s = Store::open(sync, committed, records);
                proof {
                    assert(s.needs_checkpoint());
                }
                let mut more = s.persist_projection()?;
                writes.append(&mut more);
                Ok((s, writes))
            },
        }
    }

    fn find_meta(&self, kind: &str, key: &str) -> (r: Option<usize>)
        requires
            self.wf(),
        ensures
            match r {
                Some(i) => i < self@.ids.len() && meta_of(self@.ids, kind@, key@) == Some(self@.ids[i as int])
                    && self@.ids[i as int].kind == kind@ && self@.ids[i as int].key == key@,
                None => meta_of(self@.ids, kind@, key@) is None,
            },
    {
        let mut i: usize = 0;
        while i < self.ids.len()
            invariant
                i <= self.ids@.len(),
                self@.ids.len() == self.ids@.len(),
                self.wf(),
                forall|k: int| 0 <= k < i ==> !((#[trigger] self@.ids[k]).kind == kind@ && self@.ids[k].key == key@),
            decreases self.ids@.len() - i,
        {
            assert(self@.ids[i as int] == meta_view(self.ids@[i as int]));
            if str_eq(self.ids[i].kind.as_str(), kind) && str_eq(self.ids[i].key.as_str(), key) {
                proof {
                    let ids = self@.ids;
                    let j = choose|j: int| 0 <= j < ids.len() && (#[trigger] ids[j]).kind == kind@ && ids[j].key == key@;
                    if j != i {
                        if j < i {
                            assert(!(ids[j].kind == ids[i as int].kind && ids[j].key == ids[i as int].key));
                        } else {
                            assert(!(ids[i as int].kind == ids[j].kind && ids[i as int].key == ids[j].key));
                        }
                    }
                }
                return Some(i);
            }
            i = i + 1;
        }
        None
    }

    /// Apply an already-logged record to the live state.
    pub fn apply_record(&mut self, record: ObjectRecord)
        requires
            old(self).wf(),
        ensures
            final(self).wf(),
            final(self)@ == applied(old(self)@, record@),
            final(self).spec_writer() == old(self).spec_writer(),
            final(self).spec_has_checkpoint() == old(self).spec_has_checkpoint(),
            final(self).spec_dirty().len() <= old(self).spec_dirty().len() + 1,
            final(self).spec_claims() == old(self).spec_claims(),
    {
        let ghost old_view = self@;
        let ghost rv = record@;
        self.joins.rows_unique();
        proof {
            crate::joins::lemma_without_twice(self.joins@, record.kind@, record.key@);
        }
        self.joins.remove(record.kind.as_str(), record.key.as_str());
        let meta = Meta {
            kind: record.kind.clone(),
            key: record.key.clone(),
            gen: record.gen,
            hidden: record.hidden,
            action_id: clone_opt_str(&record.action_id),
            props: record.props.clone(),
        };
        let ghost mv = meta_view(meta);
        match self.find_meta(record.kind.as_str(), record.key.as_str()) {
            Some(i) => {
                self.ids.set(i, meta);
                proof {
                    let ids = old_view.ids;
                    let j = choose|j: int| 0 <= j < ids.len() && (#[trigger] ids[j]).kind == mv.kind && ids[j].key == mv.key;
                    if j != i {
                        if j < i {
                            assert(!(ids[j].kind == ids[i as int].kind && ids[j].key == ids[i as int].key));
                        } else {
                            assert(!(ids[i as int].kind == ids[j].kind && ids[i as int].key == ids[j].key));
                        }
                    }
                    assert(self@.ids =~= upsert(ids, mv));
                    assert forall|a: int, b: int| 0 <= a < b < self@.ids.len() implies !((#[trigger] self@.ids[a]).kind
                        == (#[trigger] self@.ids[b]).kind && self@.ids[a].key == self@.ids[b].key) by {
                        if a != i && b != i {
                            assert(self@.ids[a] == ids[a] && self@.ids[b] == ids[b]);
                        } else if a == i {
                            assert(self@.ids[b] == ids[b]);
                            assert(!(ids[a].kind == ids[b].kind && ids[a].key == ids[b].key));
                        } else {
                            assert(self@.ids[a] == ids[a]);
                            assert(!(ids[a].kind == ids[b].kind && ids[a].key == ids[b].key));
                        }
                    }
                }
            },
            None => {
                self.ids.push(meta);
                proof {
                    let ids = old_view.ids;
                    assert(self@.ids =~= upsert(ids, mv));
                    assert forall|a: int, b: int| 0 <= a < b < self@.ids.len() implies !((#[trigger] self@.ids[a]).kind
                        == (#[trigger] self@.ids[b]).kind && self@.ids[a].key == self@.ids[b].key) by {
                        if b < ids.len() {
                            assert(self@.ids[a] == ids[a] && self@.ids[b] == ids[b]);
                        } else {
                            assert(self@.ids[a] == ids[a]);
                            assert(!(0 <= a < ids.len() && ids[a].kind == mv.kind && ids[a].key == mv.key));
                        }
                    }
                }
            },
        }
        proof {
            let d = pairs_view(self.dirty@);
            assert forall|i: int| 0 <= i < d.len() implies meta_of(self@.ids, (#[trigger] d[i]).0, d[i].1) is Some by {
                lemma_upsert_known(old_view.ids, mv, d[i].0, d[i].1);
            }
            lemma_upsert_known(old_view.ids, mv, rv.kind, rv.key);
        }
        if !has_pair(&self.dirty, record.kind.as_str(), record.key.as_str()) {
            let ghost before = self.dirty@;
            let a = record.kind.clone();
            let b = record.key.clone();
            self.dirty.push((a, b));
            proof {
                let d = pairs_view(self.dirty@);
                assert(d =~= pairs_view(before).push((rv.kind, rv.key)));
                assert forall|i: int| 0 <= i < d.len() implies meta_of(self@.ids, (#[trigger] d[i]).0, d[i].1) is Some by {
                    if i < pairs_view(before).len() {
                        assert(d[i] == pairs_view(before)[i]);
                    }
                }
            }
        }
        let ObjectRecord { gen: _, kind, key, hidden, action_id: _, props } = record;
        self.joins.index(kind, key, hidden, props);
    }

    /// The join projection of the visible objects.
    pub fn joins(&self) -> (j: &JoinMaps)
        ensures
            j@ == self@.rows,
    {
        &self.joins
    }

    /// Data syncs the log writer issued so far.
    pub fn log_fsync_count(&self) -> (n: u64)
        requires
            self.wf(),
        ensures
            n == self.spec_writer().spec_fsync_count(),
    {
        self.writer.fsync_count()
    }

    /// Payloads held beside the projection; this store keeps none.
    pub fn hot_payloads(&self) -> (n: usize)
        ensures
            n == 0,
    {
        0
    }

    /// The writer position a page cursor binds: committed pages, written
    /// pages, and bytes used in the current page.
    pub fn snapshot_stamp(&self) -> (r: (u32, u32, u32))
        requires
            self.wf(),
        ensures
            r == self.spec_stamp(),
            r.0 == self.spec_writer().spec_committed(),
            r.1 == self.spec_writer().spec_written(),
            r.2 == self.spec_writer().spec_used(),
    {
        let used = self.writer.used_bytes();
        proof {
            self.writer.lemma_used_bound();
        }
        (self.writer.committed_pages(), self.writer.written_pages(), used as u32)
    }

    /// The descriptor of `kind`'s visible schema row, if any.
    pub fn schema(&self, kind: &str) -> (r: Result<Option<SchemaDescriptor>, String>)
        ensures
            match r {
                Ok(Some(d)) => schema_of(self@.rows, kind@) == Some(Some(d@)),
                Ok(None) => schema_of(self@.rows, kind@) == Some(None::<DescriptorView>),
                Err(_) => schema_of(self@.rows, kind@) is None,
            },
    {
        proof {
            lemma_schema_kind();
        }
        if !self.joins.is_visible(SCHEMA_KIND, kind) {
            return Ok(None);
        }
        let props = self.joins.row_props(SCHEMA_KIND, kind);
        let row = ObjectRecord {
            gen: 0,
            kind: SCHEMA_KIND.to_owned(),
            key: kind.to_owned(),
            hidden: false,
            action_id: None,
            props,
        };
        match SchemaDescriptor::from_record(&row) {
            Ok(d) => Ok(Some(d)),
            Err(e) => Err(e),
        }
    }

    /// The current object at `(kind, key)` as the request sees it: its
    /// latest write, hidden or not, without the properties the request
    /// denies. Fails with `unknown identity` when it was never written or the
    /// request hides it.
    pub fn load(&self, kind: &str, key: &str, acl: &PropertyAcl) -> (r: Result<ObjectRecord, String>)
        requires
            self.wf(),
        ensures
            match r {
                Ok(rec) => load_gives(self@, *acl, kind@, key@, rec@),
                Err(_) => loaded(self@, *acl, kind@, key@) is None,
            },
    {
        let missing = {
            let mut m = concat_str("unknown identity ", kind);
            m.append("/");
            m.append(key);
            m
        };
        let i = match self.find_meta(kind, key) {
            None => return Err(missing),
            Some(i) => i,
        };
        let meta = &self.ids[i];
        assert(self@.ids[i as int] == meta_view(*meta));
        if !acl.object_visible(kind, key) {
            return Err(missing);
        }
        let props = acl.omit_denied(kind, meta.props.clone());
        Ok(ObjectRecord {
            gen: meta.gen,
            kind: kind.to_owned(),
            key: key.to_owned(),
            hidden: meta.hidden,
            action_id: clone_opt_str(&meta.action_id),
            props,
        })
    }
}

/// Fail unless `new` keeps the type of every property `old` also declares
/// and the far kind of every outgoing link both declare.
fn check_evolution(old: &SchemaDescriptor, new: &SchemaDescriptor) -> (r: Result<(), String>)
    ensures
        r is Ok <==> evolution_ok(old@, new@),
{
    let ghost ov = old@;
    let ghost nv = new@;
    let mut i: usize = 0;
    while i < old.properties.len()
        invariant
            i <= old.properties@.len(),
            ov == old@,
            nv == new@,
            forall|k: int|
                0 <= k < i && nv.properties.contains(#[trigger] ov.properties[k]) ==> property_type_of(
                    ov,
                    ov.properties[k],
                ) == property_type_of(nv, ov.properties[k]),
        decreases old.properties@.len() - i,
    {
        let name = old.properties[i].as_str();
        assert(ov.properties[i as int] == name@);
        if crate::strs::contains_str(&new.properties, name) {
            let a = old.property_type(name);
            let b = new.property_type(name);
            let same = match (a, b) {
                (Some(x), Some(y)) => x == y,
                (None, None) => true,
                _ => false,
            };
            if !same {
                let mut m = concat_str("schema ", new.kind.as_str());
                m.append(" cannot recast ");
                m.append(name);
                return Err(m);
            }
        }
        i = i + 1;
    }
    let mut i: usize = 0;
    while i < old.links.len()
        invariant
            i <= old.links@.len(),
            ov == old@,
            nv == new@,
            forall|k: int, j: int|
                0 <= k < i && 0 <= j < nv.links.len() && (#[trigger] ov.links[k]).outgoing
                    && (#[trigger] nv.links[j]).outgoing && ov.links[k].name == nv.links[j].name
                    ==> ov.links[k].far_kind == nv.links[j].far_kind,
        decreases old.links@.len() - i,
    {
        let a = &old.links[i];
        assert(ov.links[i as int] == crate::schema::link_view(*a));
        if a.outgoing {
            let mut j: usize = 0;
            while j < new.links.len()
                invariant
                    j <= new.links@.len(),
                    i < old.links@.len(),
                    ov == old@,
                    nv == new@,
                    ov.links[i as int] == crate::schema::link_view(*a),
                    a.outgoing,
                    forall|q: int|
                        0 <= q < j && (#[trigger] nv.links[q]).outgoing && a.name@ == nv.links[q].name
                            ==> a.far_kind@ == nv.links[q].far_kind,
                decreases new.links@.len() - j,
            {
                let b = &new.links[j];
                assert(nv.links[j as int] == crate::schema::link_view(*b));
                if b.outgoing && str_eq(a.name.as_str(), b.name.as_str()) && !str_eq(a.far_kind.as_str(), b.far_kind.as_str()) {
                    let mut m = concat_str("schema ", new.kind.as_str());
                    m.append(" cannot retarget outgoing link ");
                    m.append(a.name.as_str());
                    return Err(m);
                }
                j = j + 1;
            }
        }
        i = i + 1;
    }
    Ok(())
}

impl Store {
    /// Check `record` against the store's rules and put it in the form the
    /// store accepts.
    fn accept_form(&self, record: ObjectRecord) -> (r: Result<ObjectRecord, String>)
        requires
            self.wf(),
        ensures
            match r {
                Ok(c) => accepted_form(self@.rows, record@) == Some(c@),
                Err(_) => accepted_form(self@.rows, record@) is None,
            },
    {
        proof {
            lemma_schema_kind();
        }
        let mut record = record;
        match &record.action_id {
            Some(a) => {
                if a.unicode_len() == 0 {
                    return Err(String::from_str("empty action id"));
                }
            },
            None => {},
        }
        if record.hidden {
            return Ok(record);
        }
        if str_eq(record.kind.as_str(), SCHEMA_KIND) {
            let next = match SchemaDescriptor::from_record(&record) {
                Ok(d) => d,
                Err(e) => return Err(e),
            };
            match self.schema(record.key.as_str()) {
                Err(e) => return Err(e),
                Ok(None) => {},
                Ok(Some(prev)) => {
                    match check_evolution(&prev, &next) {
                        Ok(()) => {},
                        Err(e) => return Err(e),
                    }
                },
            }
            return Ok(record);
        }
        match self.schema(record.kind.as_str()) {
            Err(e) => Err(e),
            Ok(None) => Ok(record),
            Ok(Some(d)) => {
                match d.canonicalize_instance(&mut record) {
                    Ok(()) => {},
                    Err(e) => return Err(e),
                }
                match d.validate(&record) {
                    Ok(()) => Ok(record),
                    Err(e) => Err(e),
                }
            },
        }
    }

    /// Accept `record`: check it and its Action id; for a replay write
    /// nothing and answer `None`; otherwise give it the identity's next
    /// generation, buffer it on the log writer, apply it and note its claim.
    /// On failure nothing changes.
    fn take_write(&mut self, record: ObjectRecord) -> (r: Result<Option<Vec<LogWrite>>, String>)
        requires
            old(self).wf(),
        ensures
            final(self).wf(),
            logged_step(old(self)@, old(self).spec_claims(), record@) is None ==> r is Err,
            write_refusal(old(self)@, old(self).spec_claims(), record@) is Some ==> (r matches Err(e) && Some(e@)
                == write_refusal(old(self)@, old(self).spec_claims(), record@)),
            (logged_step(old(self)@, old(self).spec_claims(), record@) matches Some((t, tc, w)) && w is None) ==> (
            r matches Ok(None) && *final(self) == *old(self)),
            (logged_step(old(self)@, old(self).spec_claims(), record@) matches Some((t, tc, w)) && w is Some && takes(
                old(self).spec_writer(),
                w->0,
            )) ==> r is Ok,
            (logged_step(old(self)@, old(self).spec_claims(), record@) matches Some((t, tc, w)) && w is Some
                && body_fits(w->0) && PAGE_HDR + 2 + body_bytes(w->0).len() > PAGE && body_bytes(w->0).len() <= 0xffff)
                ==> (r matches Err(e) && e@ == "record larger than a page"@),
            r is Err ==> *final(self) == *old(self),
            r matches Ok(None) ==> *final(self) == *old(self),
            r is Ok ==> (logged_step(old(self)@, old(self).spec_claims(), record@) matches Some((t, tc, w)) && final(self)@
                == t && final(self).spec_claims() == tc && (w is None <==> (r matches Ok(None)))),
            r is Ok ==> final(self).spec_writer().spec_written() <= old(self).spec_writer().spec_written() + 1
                && final(self).spec_dirty().len() <= old(self).spec_dirty().len() + 1,
    {
        let mut record = match self.accept_form(record) {
            Ok(c) => c,
            Err(e) => return Err(e),
        };
        let ghost c = record@;
        match &record.action_id {
            Some(a) => match self.find_claim(a.as_str()) {
                Some(i) => {
                    let cl = &self.claims[i];
                    assert(self.spec_claims()[i as int] == claim_view(*cl));
                    if !(str_eq(cl.kind.as_str(), record.kind.as_str()) && str_eq(cl.key.as_str(), record.key.as_str())) {
                        let mut m = concat_str("action id ", a.as_str());
                        m.append(" already committed for ");
                        m.append(cl.kind.as_str());
                        m.append(" ");
                        m.append(cl.key.as_str());
                        return Err(m);
                    }
                    if !record.hidden {
                        if cl.props.same(&record.props) {
                            return Ok(None);
                        }
                        let mut m = concat_str("action id ", a.as_str());
                        m.append(" body conflict");
                        return Err(m);
                    }
                },
                None => {},
            },
            None => {},
        }
        match self.find_meta(record.kind.as_str(), record.key.as_str()) {
            Some(i) => {
                let g = self.ids[i].gen;
                assert(self@.ids[i as int] == meta_view(self.ids@[i as int]));
                if g == u64::MAX {
                    return Err(String::from_str("generation overflow"));
                }
                record.gen = if g < 1 { 2 } else { g + 1 };
            },
            None => {
                if record.gen == 0 {
                    record.gen = 1;
                }
            },
        }
        assert(record@ == (RecordView { gen: next_gen(self@.ids, c).unwrap(), ..c }));
        let writes = match self.writer.append_record(&record) {
            Ok(w) => w,
            Err(e) => return Err(e),
        };
        self.claim_write(&record);
        self.apply_record(record);
        Ok(Some(writes))
    }

    /// Accept `record`: check it and its Action id, give it the identity's
    /// next generation, buffer it on the log writer and apply it. A replay of
    /// the write that claimed its Action id writes nothing. Durability
    /// requires [`Self::commit`]. On failure nothing changes.
    pub fn append_uncommitted(&mut self, record: ObjectRecord) -> (r: Result<Vec<LogWrite>, String>)
        requires
            old(self).wf(),
        ensures
            final(self).wf(),
            logged_step(old(self)@, old(self).spec_claims(), record@) is None ==> r is Err,
            write_refusal(old(self)@, old(self).spec_claims(), record@) is Some ==> (r matches Err(e) && Some(e@)
                == write_refusal(old(self)@, old(self).spec_claims(), record@)),
            (logged_step(old(self)@, old(self).spec_claims(), record@) matches Some((t, tc, w)) && w is None) ==> (
            r matches Ok(ws) && ws@.len() == 0 && *final(self) == *old(self)),
            (logged_step(old(self)@, old(self).spec_claims(), record@) matches Some((t, tc, w)) && w is Some && takes(
                old(self).spec_writer(),
                w->0,
            )) ==> r is Ok,
            (logged_step(old(self)@, old(self).spec_claims(), record@) matches Some((t, tc, w)) && w is Some
                && body_fits(w->0) && PAGE_HDR + 2 + body_bytes(w->0).len() > PAGE && body_bytes(w->0).len() <= 0xffff)
                ==> (r matches Err(e) && e@ == "record larger than a page"@),
            r is Err ==> *final(self) == *old(self),
            r is Ok ==> (logged_step(old(self)@, old(self).spec_claims(), record@) matches Some((t, tc, w)) && final(self)@
                == t && final(self).spec_claims() == tc),
            r is Ok ==> final(self).spec_writer().spec_written() <= old(self).spec_writer().spec_written() + 1
                && final(self).spec_dirty().len() <= old(self).spec_dirty().len() + 1,
    {
        match self.take_write(record) {
            Ok(Some(w)) => Ok(w),
            Ok(None) => Ok(Vec::new()),
            Err(e) => Err(e),
        }
    }

    /// Write out the current page, commit every written page, and persist
    /// the projection beside the log as of the new committed count.
    pub fn commit(&mut self) -> (r: Result<Vec<LogWrite>, String>)
        requires
            old(self).wf(),
        ensures
            final(self).wf(),
            final(self)@ == old(self)@,
            final(self).spec_claims() == old(self).spec_claims(),
            old(self).spec_writer().spec_used() > 0 && old(self).spec_writer().spec_written() == u32::MAX ==> r is Err,
            !(old(self).spec_writer().spec_used() > 0 && old(self).spec_writer().spec_written() == u32::MAX) && (
            if old(self).needs_checkpoint() {
                delta_fits(store_snapshot(old(self)@)) && total_strings(store_snapshot(old(self)@)) <= u32::MAX
            } else {
                delta_fits(dirty_snapshot(old(self)@, old(self).spec_dirty()))
            }) ==> r is Ok,
            !(old(self).spec_writer().spec_used() > 0 && old(self).spec_writer().spec_written() == u32::MAX)
                && projection_fits(old(self)@) && old(self).spec_dirty().len() <= u32::MAX ==> r is Ok,
            r is Ok ==> final(self).spec_writer().spec_committed() == final(self).spec_writer().spec_written(),
            r matches Ok(ws) ==> (old(self).needs_checkpoint() ==> ws@.len() >= 2 && checkpoint_written(
                ws@.subrange(ws@.len() - 2, ws@.len() as int),
                final(self).spec_writer().spec_committed(),
                old(self)@,
            )),
            r matches Ok(ws) ==> (!old(self).needs_checkpoint() ==> ws@.len() >= 1 && delta_written(
                ws@.subrange(ws@.len() - 1, ws@.len() as int),
                final(self).spec_writer().spec_committed(),
                dirty_snapshot(old(self)@, old(self).spec_dirty()),
            )),
    {
        proof {
            if projection_fits(self@) && self.spec_dirty().len() <= u32::MAX {
                lemma_dirty_fits(self@, self.spec_dirty());
            }
        }
        let mut writes = self.writer.flush()?;
        let mut more = self.persist_projection()?;
        let ghost tail = more@;
        writes.append(&mut more);
        proof {
            if tail.len() == 2 {
                assert(writes@.subrange(writes@.len() - 2, writes@.len() as int) =~= tail);
            }
            if tail.len() == 1 {
                assert(writes@.subrange(writes@.len() - 1, writes@.len() as int) =~= tail);
            }
        }
        Ok(writes)
    }

    /// Every identity as a sidecar row.
    fn snapshot_rows(&self) -> (r: Vec<SidecarRow>)
        requires
            self.wf(),
        ensures
            snap_rows(r@) == store_snapshot(self@),
    {
        let ghost snap = store_snapshot(self@);
        let mut out: Vec<SidecarRow> = Vec::new();
        let mut i: usize = 0;
        assert(snap_rows(out@) =~= snap.subrange(0, 0));
        while i < self.ids.len()
            invariant
                i <= self.ids@.len(),
                self@.ids.len() == self.ids@.len(),
                snap == store_snapshot(self@),
                snap_rows(out@) == snap.subrange(0, i as int),
            decreases self.ids@.len() - i,
        {
            let m = &self.ids[i];
            assert(self@.ids[i as int] == meta_view(self.ids@[i as int]));
            let row = self.sidecar_row(m);
            let ghost before = out@;
            let ghost rv = row@;
            out.push(row);
            assert(snap_rows(out@) =~= snap_rows(before).push(rv));
            assert(snap_rows(out@) =~= snap.subrange(0, i + 1));
            i = i + 1;
        }
        assert(snap.subrange(0, snap.len() as int) =~= snap);
        out
    }

    /// The sidecar row of one identity.
    fn sidecar_row(&self, m: &Meta) -> (r: SidecarRow)
        ensures
            r@ == snap_of(meta_view(*m)),
    {
        SidecarRow {
            kind: m.kind.clone(),
            key: m.key.clone(),
            gen: m.gen,
            hidden: m.hidden,
            action_id: clone_opt_str(&m.action_id),
            props: props_pairs(&m.props),
        }
    }

    /// The identities written since the last checkpoint as sidecar rows.
    fn dirty_rows(&self) -> (r: Vec<SidecarRow>)
        requires
            self.wf(),
        ensures
            snap_rows(r@) == dirty_snapshot(self@, self.spec_dirty()),
    {
        let ghost snap = dirty_snapshot(self@, self.spec_dirty());
        let ghost d = pairs_view(self.dirty@);
        let mut out: Vec<SidecarRow> = Vec::new();
        let mut i: usize = 0;
        assert(snap_rows(out@) =~= snap.subrange(0, 0));
        while i < self.dirty.len()
            invariant
                i <= self.dirty@.len(),
                self.wf(),
                d == pairs_view(self.dirty@),
                snap == dirty_snapshot(self@, d),
                snap_rows(out@) == snap.subrange(0, i as int),
            decreases self.dirty@.len() - i,
        {
            assert(d[i as int] == (self.dirty@[i as int].0@, self.dirty@[i as int].1@));
            assert(meta_of(self@.ids, d[i as int].0, d[i as int].1) is Some);
            let j = match self.find_meta(self.dirty[i].0.as_str(), self.dirty[i].1.as_str()) {
                Some(j) => j,
                None => {
                    assert(false);
                    0
                },
            };
            assert(self@.ids[j as int] == meta_view(self.ids@[j as int]));
            let row = self.sidecar_row(&self.ids[j]);
            let ghost before = out@;
            let ghost rv = row@;
            out.push(row);
            assert(snap_rows(out@) =~= snap_rows(before).push(rv));
            assert(snap_rows(out@) =~= snap.subrange(0, i + 1));
            i = i + 1;
        }
        assert(snap.subrange(0, snap.len() as int) =~= snap);
        out
    }

    /// Apply the records that restore `rows`, in order.
    fn restore_rows(&mut self, rows: &Vec<SidecarRow>)
        requires
            old(self).wf(),
        ensures
            final(self).wf(),
            final(self)@ == replayed(old(self)@, snap_records(snap_rows(rows@))),
            final(self).spec_writer() == old(self).spec_writer(),
            final(self).spec_claims() == old(self).spec_claims(),
    {
        let ghost start = self@;
        let ghost rs = snap_records(snap_rows(rows@));
        let mut i: usize = 0;
        assert(rs.subrange(0, 0) =~= Seq::<RecordView>::empty());
        while i < rows.len()
            invariant
                i <= rows@.len(),
                rs == snap_records(snap_rows(rows@)),
                rs.len() == rows@.len(),
                self.wf(),
                self@ == replayed(start, rs.subrange(0, i as int)),
                self.spec_writer() == old(self).spec_writer(),
                self.spec_claims() == old(self).spec_claims(),
            decreases rows@.len() - i,
        {
            let rec = row_record(&rows[i]);
            assert(rec@ == rs[i as int]);
            self.apply_record(rec);
            assert(rs.subrange(0, i + 1).drop_last() =~= rs.subrange(0, i as int));
            i = i + 1;
        }
        assert(rs.subrange(0, rs.len() as int) =~= rs);
    }

    /// Persist the projection beside the log as of the committed page count:
    /// a full checkpoint, which drops the delta, when [`Self::needs_checkpoint`];
    /// otherwise a delta of the identities written since the checkpoint.
    pub fn persist_projection(&mut self) -> (r: Result<Vec<LogWrite>, String>)
        requires
            old(self).wf(),
        ensures
            final(self).wf(),
            final(self)@ == old(self)@,
            final(self).spec_writer() == old(self).spec_writer(),
            final(self).spec_claims() == old(self).spec_claims(),
            old(self).needs_checkpoint() ==> (delta_fits(store_snapshot(old(self)@)) && total_strings(
                store_snapshot(old(self)@),
            ) <= u32::MAX ==> r is Ok),
            old(self).needs_checkpoint() ==> (r matches Ok(ws) ==> checkpoint_written(
                ws@,
                old(self).spec_writer().spec_committed(),
                old(self)@,
            ) && final(self).spec_dirty().len() == 0 && final(self).spec_has_checkpoint()),
            !old(self).needs_checkpoint() ==> (delta_fits(dirty_snapshot(old(self)@, old(self).spec_dirty()))
                ==> r is Ok),
            !old(self).needs_checkpoint() ==> (r matches Ok(ws) ==> delta_written(
                ws@,
                old(self).spec_writer().spec_committed(),
                dirty_snapshot(old(self)@, old(self).spec_dirty()),
            ) && final(self).spec_dirty() == old(self).spec_dirty() && final(self).spec_has_checkpoint()),
            r is Err ==> *final(self) == *old(self),
    {
        let pages = self.writer.committed_pages();
        let d4 = match self.dirty.len().checked_mul(4) {
            Some(v) => v,
            None => usize::MAX,
        };
        let floor = if self.ids.len() > 1 {
            self.ids.len()
        } else {
            1
        };
        if !self.has_checkpoint || d4 > floor {
            let rows = self.snapshot_rows();
            let body = encode_checkpoint(pages, &rows)?;
            proof {
                crate::sidecar::law_frame_roundtrip(body@);
            }
            let framed = frame_checksummed(body.as_slice());
            self.dirty = Vec::new();
            self.has_checkpoint = true;
            proof {
                assert(pairs_view(self.dirty@) =~= Seq::<(Seq<char>, Seq<char>)>::empty());
            }
            let mut ws: Vec<LogWrite> = Vec::new();
            ws.push(LogWrite::Checkpoint(framed));
            ws.push(LogWrite::DropDelta);
            Ok(ws)
        } else {
            let rows = self.dirty_rows();
            let body = encode_delta(pages, &rows)?;
            proof {
                crate::sidecar::law_delta_roundtrip(pages, snap_rows(rows@));
                crate::sidecar::law_frame_roundtrip(body@);
            }
            let framed = frame_checksummed(body.as_slice());
            self.has_checkpoint = true;
            let mut ws: Vec<LogWrite> = Vec::new();
            ws.push(LogWrite::Delta(framed));
            Ok(ws)
        }
    }

    /// Accept `record` and commit it. A replay of the write that claimed its
    /// Action id writes and commits nothing.
    pub fn append(&mut self, record: ObjectRecord) -> (r: Result<Vec<LogWrite>, String>)
        requires
            old(self).wf(),
        ensures
            final(self).wf(),
            logged_step(old(self)@, old(self).spec_claims(), record@) is None ==> (r is Err && *final(self)
                == *old(self)),
            write_refusal(old(self)@, old(self).spec_claims(), record@) is Some ==> (r matches Err(e) && Some(e@)
                == write_refusal(old(self)@, old(self).spec_claims(), record@)),
            (logged_step(old(self)@, old(self).spec_claims(), record@) matches Some((t, tc, w)) && w is None) ==> (
            r matches Ok(ws) && ws@.len() == 0 && *final(self) == *old(self)),
            r is Ok ==> (logged_step(old(self)@, old(self).spec_claims(), record@) matches Some((t, tc, w)) && final(self)@
                == t && final(self).spec_claims() == tc && (w is Some ==> final(self).spec_writer().spec_committed()
                == final(self).spec_writer().spec_written())),
            old(self).batch_succeeds(seq![record@]) ==> r is Ok,
    {
        let ghost start = self@;
        let ghost cs = self.spec_claims();
        let ghost fits = old(self).batch_succeeds(seq![record@]);
        proof {
            lemma_single_logged(start, cs, record@);
        }
        let writes = match self.take_write(record) {
            Ok(Some(w)) => w,
            Ok(None) => return Ok(Vec::new()),
            Err(e) => return Err(e),
        };
        let mut writes = writes;
        let mut more = match self.commit() {
            Ok(w) => w,
            Err(e) => return Err(e),
        };
        writes.append(&mut more);
        Ok(writes)
    }

    /// Write the properties of `action` to its identity under its id. A
    /// repeat of the write that claimed the id writes nothing.
    pub fn apply_action(&mut self, action: Action) -> (r: Result<Vec<LogWrite>, String>)
        requires
            old(self).wf(),
        ensures
            final(self).wf(),
            action.id@.len() == 0 ==> (r is Err && *final(self) == *old(self)),
            action.id@.len() > 0 && logged_step(old(self)@, old(self).spec_claims(), action_write(action)) is None
                ==> (r is Err && *final(self) == *old(self)),
            action.id@.len() > 0 && write_refusal(old(self)@, old(self).spec_claims(), action_write(action)) is Some
                ==> (r matches Err(e) && Some(e@) == write_refusal(
                old(self)@,
                old(self).spec_claims(),
                action_write(action),
            )),
            (action.id@.len() > 0 && logged_step(old(self)@, old(self).spec_claims(), action_write(action)) is Some
                && (logged_step(old(self)@, old(self).spec_claims(), action_write(action))->0).2 is None) ==> (r matches Ok(
                ws,
            ) && ws@.len() == 0 && *final(self) == *old(self)),
            r is Ok ==> action.id@.len() > 0 && (logged_step(old(self)@, old(self).spec_claims(), action_write(action))
                matches Some((t, tc, w)) && final(self)@ == t && final(self).spec_claims() == tc),
            action.id@.len() > 0 && old(self).batch_succeeds(seq![action_write(action)]) ==> r is Ok,
    {
        if action.id.unicode_len() == 0 {
            return Err(String::from_str("action id must not be empty"));
        }
        let Action { id, kind, key, props } = action;
        self.append(ObjectRecord { gen: 0, kind, key, hidden: false, action_id: Some(id), props })
    }
}

impl Meta {
    fn duplicate(&self) -> (r: Meta)
        ensures
            meta_view(r) == meta_view(*self),
    {
        Meta {
            kind: self.kind.clone(),
            key: self.key.clone(),
            gen: self.gen,
            hidden: self.hidden,
            action_id: clone_opt_str(&self.action_id),
            props: self.props.clone(),
        }
    }
}

impl Store {
    /// A store in the same state.
    fn duplicate(&self) -> (r: Store)
        requires
            self.wf(),
        ensures
            r.wf(),
            r@ == self@,
            r.spec_writer().pending_records() == self.spec_writer().pending_records(),
            r.spec_writer().spec_written() == self.spec_writer().spec_written(),
            r.spec_writer().spec_committed() == self.spec_writer().spec_committed(),
            r.spec_writer().spec_used() == self.spec_writer().spec_used(),
            r.spec_writer().spec_sync() == self.spec_writer().spec_sync(),
            r.spec_writer().spec_fsync_count() == self.spec_writer().spec_fsync_count(),
            r.spec_claims() == self.spec_claims(),
    {
        let mut ids: Vec<Meta> = Vec::new();
        let mut i: usize = 0;
        while i < self.ids.len()
            invariant
                i <= self.ids@.len(),
                ids@.map_values(|m: Meta| meta_view(m)) == self@.ids.subrange(0, i as int),
                self@.ids.len() == self.ids@.len(),
            decreases self.ids@.len() - i,
        {
            let ghost before = ids@;
            let d = self.ids[i].duplicate();
            ids.push(d);
            assert(ids@ == before.push(d));
            assert(self@.ids[i as int] == meta_view(self.ids@[i as int]));
            let ghost now = ids@.map_values(|m: Meta| meta_view(m));
            let ghost was = before.map_values(|m: Meta| meta_view(m));
            let ghost want = self@.ids.subrange(0, i + 1);
            assert(was.len() == i);
            assert(now.len() == i + 1);
            assert(want.len() == i + 1);
            assert(now.drop_last() =~= was);
            assert forall|j: int| 0 <= j <= i implies #[trigger] now[j] == want[j] by {
                if j < i {
                    assert(was[j] == self@.ids.subrange(0, i as int)[j]);
                }
            }
            assert(now =~= want);
            i = i + 1;
        }
        assert(self@.ids.subrange(0, self.ids@.len() as int) =~= self@.ids);
        Store {
            writer: self.writer.duplicate(),
            ids,
            joins: self.joins.duplicate(),
            dirty: clone_pairs(&self.dirty),
            has_checkpoint: self.has_checkpoint,
            claims: clone_claims(&self.claims),
        }
    }

    /// Append every record and commit them as one unit. Any refusal drops
    /// the whole batch and leaves the store as it was.
    pub fn append_batch(&mut self, records: Vec<ObjectRecord>) -> (r: Result<Vec<LogWrite>, String>)
        requires
            old(self).wf(),
        ensures
            final(self).wf(),
            batch_applied(old(self)@, old(self).spec_claims(), records@.map_values(|x: ObjectRecord| x@)) is None
                ==> r is Err,
            r is Err ==> final(self)@ == old(self)@ && final(self).spec_claims() == old(self).spec_claims()
                && final(self).spec_writer().spec_committed() == old(self).spec_writer().spec_committed()
                && final(self).spec_writer().spec_written() == old(self).spec_writer().spec_written()
                && final(self).spec_writer().pending_records() == old(self).spec_writer().pending_records(),
            r is Ok ==> batch_logged(old(self)@, old(self).spec_claims(), records@.map_values(|x: ObjectRecord| x@))
                == Some((final(self)@, final(self).spec_claims())) && final(self).spec_writer().spec_committed()
                == final(self).spec_writer().spec_written(),
            old(self).batch_succeeds(records@.map_values(|x: ObjectRecord| x@)) ==> r is Ok,
    {
        let backup = self.duplicate();
        let ghost start = self@;
        let ghost cs0 = self.spec_claims();
        let ghost rv = records@.map_values(|x: ObjectRecord| x@);
        let ghost fits = old(self).batch_succeeds(rv);
        let ghost w0 = old(self).spec_writer().spec_written();
        let ghost d0 = old(self).spec_dirty().len();
        let mut writes: Vec<LogWrite> = Vec::new();
        let mut i: usize = 0;
        assert(rv.subrange(0, 0) =~= Seq::<RecordView>::empty());
        while i < records.len()
            invariant
                i <= records@.len(),
                rv == records@.map_values(|x: ObjectRecord| x@),
                self.wf(),
                backup.wf(),
                backup@ == start,
                backup.spec_claims() == cs0,
                backup.spec_writer().spec_committed() == old(self).spec_writer().spec_committed(),
                backup.spec_writer().spec_written() == old(self).spec_writer().spec_written(),
                backup.spec_writer().pending_records() == old(self).spec_writer().pending_records(),
                start == old(self)@,
                cs0 == old(self).spec_claims(),
                batch_logged(start, cs0, rv.subrange(0, i as int)) == Some((self@, self.spec_claims())),
                fits == old(self).batch_succeeds(rv),
                w0 == old(self).spec_writer().spec_written(),
                d0 == old(self).spec_dirty().len(),
                self.spec_writer().spec_written() <= w0 + i,
                self.spec_dirty().len() <= d0 + i,
            decreases records@.len() - i,
        {
            let r = records[i].clone();
            assert(r@ == rv[i as int]);
            assert(rv.subrange(0, i + 1).drop_last() =~= rv.subrange(0, i as int));
            assert(rv.subrange(0, i + 1).last() == rv[i as int]);
            proof {
                if fits {
                    lemma_batch_prefix(start, cs0, rv, i + 1);
                }
            }
            match self.append_uncommitted(r) {
                Ok(mut ws) => {
                    writes.append(&mut ws);
                },
                Err(e) => {
                    *self = backup;
                    return Err(e);
                },
            }
            i = i + 1;
        }
        assert(rv.subrange(0, rv.len() as int) =~= rv);
        match self.commit() {
            Ok(mut ws) => {
                writes.append(&mut ws);
                Ok(writes)
            },
            Err(e) => {
                *self = backup;
                Err(e)
            },
        }
    }
}

/// The sidecar row of identity `m`: its facts and latest properties.
pub open spec fn snap_of(m: MetaView) -> SnapRow {
    SnapRow { kind: m.kind, key: m.key, gen: m.gen, hidden: m.hidden, action_id: m.action_id, props: m.props }
}

/// Every identity of `s` as a sidecar row, in identity order.
pub open spec fn store_snapshot(s: StoreView) -> Seq<SnapRow> {
    s.ids.map_values(|m: MetaView| snap_of(m))
}

/// The identities `dirty` of `s` as sidecar rows.
pub open spec fn dirty_snapshot(s: StoreView, dirty: Seq<(Seq<char>, Seq<char>)>) -> Seq<SnapRow> {
    dirty.map_values(|d: (Seq<char>, Seq<char>)| snap_of(meta_of(s.ids, d.0, d.1).unwrap()))
}

/// Entries in name order holding, for each name, the last value `pairs` gives it.
pub open spec fn props_of(pairs: Seq<(Seq<char>, Seq<char>)>) -> Seq<(Seq<char>, Seq<char>)> {
    choose|q: Seq<(Seq<char>, Seq<char>)>| sorted_keys(q) && forall|k: Seq<char>| #[trigger] prop_get(q, k) == last_value(pairs, k)
}

/// The record that restores a sidecar row.
pub open spec fn snap_record(r: SnapRow) -> RecordView {
    RecordView { gen: r.gen, kind: r.kind, key: r.key, hidden: r.hidden, action_id: r.action_id, props: props_of(r.props) }
}

/// The records that restore sidecar rows, in order.
pub open spec fn snap_records(rows: Seq<SnapRow>) -> Seq<RecordView> {
    rows.map_values(|r: SnapRow| snap_record(r))
}

/// What a store reads from its sidecar files instead of replaying the log:
/// a checkpoint taken at the committed page count and no delta, or a
/// checkpoint taken no later and a delta taken at the committed page count.
/// `None` when the files are missing, do not read back, or are stale.
pub open spec fn sidecar_records(committed: u32, checkpoint: Option<Seq<u8>>, delta: Option<Seq<u8>>) -> Option<
    Seq<RecordView>,
> {
    match checkpoint {
        None => None,
        Some(ck) => match unframed(ck) {
            None => None,
            Some(body) => match parse_checkpoint(body) {
                None => None,
                Some((cp, rows)) => if cp > committed {
                    None
                } else {
                    match delta {
                        None => if cp == committed {
                            Some(snap_records(rows))
                        } else {
                            None
                        },
                        Some(d) => match unframed(d) {
                            None => None,
                            Some(db) => match parse_delta(db) {
                                None => None,
                                Some((dp, drows)) => if dp == committed {
                                    Some(snap_records(rows) + snap_records(drows))
                                } else {
                                    None
                                },
                            },
                        },
                    }
                },
            },
        },
    }
}

/// Why a present checkpoint does not read back, where the cause has a fixed
/// answer: too short for a frame, a checksum that does not match, a wrong
/// magic, or bytes left after its last identity.
pub open spec fn checkpoint_refusal(checkpoint: Option<Seq<u8>>) -> Option<Seq<char>> {
    match checkpoint {
        None => None,
        Some(ck) => if ck.len() < 12 {
            Some("join sidecar too short"@)
        } else {
            match unframed(ck) {
                None => Some("join checksum mismatch"@),
                Some(body) => if body.len() < 12 || body.subrange(0, 8) != checkpoint_magic() {
                    Some("bad join magic"@)
                } else if checkpoint_trailing(body) {
                    Some("trailing join bytes"@)
                } else {
                    None
                },
            }
        },
    }
}

/// Whether a checkpoint is present but does not read back: its frame or
/// its body is bad. (A delta that does not read back is not trusted; the
/// projection is then rebuilt from the log.)
pub open spec fn sidecar_broken(checkpoint: Option<Seq<u8>>) -> bool {
    match checkpoint {
        None => false,
        Some(ck) => match unframed(ck) {
            None => true,
            Some(body) => parse_checkpoint(body) is None,
        },
    }
}

/// The steps that replace the checkpoint with the rows of `s` at `pages`
/// committed pages and drop the delta.
pub open spec fn checkpoint_written(ws: Seq<LogWrite>, pages: u32, s: StoreView) -> bool {
    &&& ws.len() == 2
    &&& ws[0] matches LogWrite::Checkpoint(b)
    &&& unframed(b@) matches Some(body)
    &&& parse_checkpoint(body) == Some((pages, store_snapshot(s)))
    &&& ws[1] is DropDelta
}

/// The step that replaces the delta with `rows` at `pages` committed pages.
pub open spec fn delta_written(ws: Seq<LogWrite>, pages: u32, rows: Seq<SnapRow>) -> bool {
    &&& ws.len() == 1
    &&& ws[0] matches LogWrite::Delta(b)
    &&& unframed(b@) matches Some(body)
    &&& parse_delta(body) == Some((pages, rows))
}

/// The empty state.
pub open spec fn empty_state() -> StoreView {
    StoreView { ids: Seq::empty(), rows: Seq::empty() }
}

/// The properties of a list of entries: the last value of each name.
pub fn props_from_pairs(pairs: &Vec<(String, String)>) -> (p: Props)
    ensures
        p@ == props_of(pairs_view(pairs@)),
{
    let ghost pv = pairs_view(pairs@);
    let mut p = Props::new();
    let mut i: usize = 0;
    while i < pairs.len()
        invariant
            i <= pairs@.len(),
            pv == pairs_view(pairs@),
            forall|k: Seq<char>| #[trigger] prop_get(p@, k) == last_value(pv.subrange(0, i as int), k),
        decreases pairs@.len() - i,
    {
        let ghost before = p@;
        p.insert(pairs[i].0.clone(), pairs[i].1.clone());
        proof {
            assert(pv.subrange(0, i + 1).drop_last() =~= pv.subrange(0, i as int));
            assert(pv.subrange(0, i + 1).last() == pv[i as int]);
        }
        i = i + 1;
    }
    assert(pv.subrange(0, pv.len() as int) =~= pv);
    let e = p.entries();
    proof {
        let q = props_of(pv);
        assert(sorted_keys(p@) && forall|k: Seq<char>| #[trigger] prop_get(p@, k) == last_value(pv, k));
        assert(sorted_keys(q) && forall|k: Seq<char>| #[trigger] prop_get(q, k) == last_value(pv, k));
        lemma_props_ext(p@, q);
    }
    p
}

/// The entries of `p` as a list of pairs.
fn props_pairs(p: &Props) -> (r: Vec<(String, String)>)
    ensures
        pairs_view(r@) == p@,
{
    let e = p.entries();
    let mut out: Vec<(String, String)> = Vec::new();
    let mut i: usize = 0;
    while i < e.len()
        invariant
            i <= e@.len(),
            e@.map_values(|x: (String, String)| (x.0@, x.1@)) == p@,
            pairs_view(out@) == p@.subrange(0, i as int),
        decreases e@.len() - i,
    {
        let ghost before = out@;
        let a = e[i].0.clone();
        let b = e[i].1.clone();
        assert(p@[i as int] == (e@[i as int].0@, e@[i as int].1@));
        out.push((a, b));
        assert(pairs_view(out@) =~= pairs_view(before).push(p@[i as int]));
        assert(pairs_view(out@) =~= p@.subrange(0, i + 1));
        i = i + 1;
    }
    assert(p@.subrange(0, p@.len() as int) =~= p@);
    out
}

/// The record that restores a sidecar row.
pub fn row_record(row: &SidecarRow) -> (r: ObjectRecord)
    ensures
        r@ == snap_record(row@),
{
    ObjectRecord {
        gen: row.gen,
        kind: row.kind.clone(),
        key: row.key.clone(),
        hidden: row.hidden,
        action_id: clone_opt_str(&row.action_id),
        props: props_from_pairs(&row.props),
    }
}

/// Replaying `a` and then `b` is replaying `a + b`.
pub proof fn lemma_replayed_append(s: StoreView, a: Seq<RecordView>, b: Seq<RecordView>)
    ensures
        replayed(replayed(s, a), b) == replayed(s, a + b),
    decreases b.len(),
{
    if b.len() == 0 {
        assert(a + b =~= a);
    } else {
        lemma_replayed_append(s, a, b.drop_last());
        assert((a + b).drop_last() =~= a + b.drop_last());
        assert((a + b).last() == b.last());
    }
}

/// The bytes of an optional file.
pub open spec fn opt_bytes(o: Option<Vec<u8>>) -> Option<Seq<u8>> {
    match o {
        Some(v) => Some(v@),
        None => None,
    }
}

/// The checkpoint rows and delta rows a store reads instead of replaying the
/// log, when the sidecar files serve.
fn try_sidecar(committed: u32, checkpoint: &Option<Vec<u8>>, delta: &Option<Vec<u8>>) -> (r: Result<Option<
    (Vec<SidecarRow>, Vec<SidecarRow>),
>, String>)
    ensures
        r is Err <==> sidecar_broken(opt_bytes(*checkpoint)),
        match r {
            Ok(Some((a, b))) => sidecar_records(committed, opt_bytes(*checkpoint), opt_bytes(*delta)) == Some(
                snap_records(snap_rows(a@)) + snap_records(snap_rows(b@)),
            ),
            Ok(None) => sidecar_records(committed, opt_bytes(*checkpoint), opt_bytes(*delta)) is None,
            Err(_) => true,
        },
        checkpoint_refusal(opt_bytes(*checkpoint)) is Some ==> (r matches Err(e) && Some(e@) == checkpoint_refusal(
            opt_bytes(*checkpoint),
        )),
{
    let ck = match checkpoint {
        Some(ck) => ck,
        None => return Ok(None),
    };
    let body = read_checksummed(ck.as_slice())?;
    let (cp, rows) = decode_checkpoint(body.as_slice())?;
    if cp > committed {
        return Ok(None);
    }
    match delta {
        None => {
            if cp == committed {
                let empty: Vec<SidecarRow> = Vec::new();
                proof {
                    let a = snap_records(snap_rows(rows@));
                    assert(snap_records(snap_rows(empty@)) =~= Seq::<RecordView>::empty());
                    assert(a + Seq::<RecordView>::empty() =~= a);
                }
                Ok(Some((rows, empty)))
            } else {
                Ok(None)
            }
        },
        Some(d) => {
            let dbody = match read_checksummed(d.as_slice()) {
                Ok(b) => b,
                Err(_) => return Ok(None),
            };
            let (dp, drows) = match decode_delta(dbody.as_slice()) {
                Ok(x) => x,
                Err(_) => return Ok(None),
            };
            if dp == committed {
                Ok(Some((rows, drows)))
            } else {
                Ok(None)
            }
        },
    }
}


/// A copy of the claims.
fn clone_claims(cs: &Vec<Claim>) -> (r: Vec<Claim>)
    ensures
        r@.map_values(|c: Claim| claim_view(c)) == cs@.map_values(|c: Claim| claim_view(c)),
{
    let ghost want = cs@.map_values(|c: Claim| claim_view(c));
    let mut out: Vec<Claim> = Vec::new();
    let mut i: usize = 0;
    while i < cs.len()
        invariant
            i <= cs@.len(),
            want == cs@.map_values(|c: Claim| claim_view(c)),
            out@.map_values(|c: Claim| claim_view(c)) == want.subrange(0, i as int),
        decreases cs@.len() - i,
    {
        let c = &cs[i];
        let d = Claim { id: c.id.clone(), kind: c.kind.clone(), key: c.key.clone(), props: c.props.clone() };
        let ghost before = out@;
        out.push(d);
        assert(out@.map_values(|c: Claim| claim_view(c)) =~= before.map_values(|c: Claim| claim_view(c)).push(
            claim_view(d),
        ));
        assert(want[i as int] == claim_view(*c));
        assert(want.subrange(0, i + 1) =~= want.subrange(0, i as int).push(want[i as int]));
        i = i + 1;
    }
    assert(want.subrange(0, cs@.len() as int) =~= want);
    out
}

/// Whether `(a, b)` is among `pairs`.
fn has_pair(pairs: &Vec<(String, String)>, a: &str, b: &str) -> (r: bool)
    ensures
        r == pairs_view(pairs@).contains((a@, b@)),
{
    let ghost pv = pairs_view(pairs@);
    let mut i: usize = 0;
    while i < pairs.len()
        invariant
            i <= pairs@.len(),
            pv == pairs_view(pairs@),
            forall|k: int| 0 <= k < i ==> pv[k] != (a@, b@),
        decreases pairs@.len() - i,
    {
        assert(pv[i as int] == (pairs@[i as int].0@, pairs@[i as int].1@));
        if str_eq(pairs[i].0.as_str(), a) && str_eq(pairs[i].1.as_str(), b) {
            assert(pv.contains((a@, b@)));
            return true;
        }
        i = i + 1;
    }
    false
}

/// A copy of a list of string pairs.
fn clone_pairs(pairs: &Vec<(String, String)>) -> (r: Vec<(String, String)>)
    ensures
        pairs_view(r@) == pairs_view(pairs@),
{
    let mut out: Vec<(String, String)> = Vec::new();
    let mut i: usize = 0;
    while i < pairs.len()
        invariant
            i <= pairs@.len(),
            pairs_view(out@) == pairs_view(pairs@).subrange(0, i as int),
        decreases pairs@.len() - i,
    {
        let ghost before = out@;
        let a = pairs[i].0.clone();
        let b = pairs[i].1.clone();
        assert(a@ == pairs@[i as int].0@ && b@ == pairs@[i as int].1@);
        out.push((a, b));
        assert(pairs_view(out@) =~= pairs_view(before).push((pairs@[i as int].0@, pairs@[i as int].1@)));
        assert(pairs_view(out@) =~= pairs_view(pairs@).subrange(0, i + 1));
        i = i + 1;
    }
    assert(pairs_view(pairs@).subrange(0, pairs@.len() as int) =~= pairs_view(pairs@));
    out
}

impl View for Store {
    type V = StoreView;

    closed spec fn view(&self) -> StoreView {
        StoreView { ids: self.ids@.map_values(|m: Meta| meta_view(m)), rows: self.joins@ }
    }
}

} // verus!
