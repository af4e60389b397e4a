//! The join sidecar: a checksummed snapshot of the store's identities (their
//! generation, hidden flag, action id and latest properties) beside the log,
//! as a full checkpoint with an intern table or as a delta of the identities
//! written since.

use vstd::bytes::*;
use vstd::prelude::*;

use crate::acl::pairs_view;
use crate::strs::strs;
use crate::codec::{
    fits_str_field, lemma_opt_str_field_roundtrip, lemma_str_field_roundtrip, lemma_u32_roundtrip,
    lemma_u64_roundtrip, opt_fits, opt_str_field, parse_opt_str_at, parse_str_at, parse_u32_at, parse_u64_at,
    push_bytes, read_opt_str, read_str, read_u32, read_u64, str_field, take, write_opt_str, write_str,
};
use crate::record::{clone_opt_str, opt_str_view};
use crate::logfmt::{checksum, crc32, lemma_parse_pairs_roundtrip, lemma_props_fields_push, parse_pairs, props_fields, props_fit};

verus! {

/// One identity of a sidecar: its generation, its hidden flag, the action
/// that wrote it last, and its latest properties.
pub struct SnapRow {
    pub kind: Seq<char>,
    pub key: Seq<char>,
    pub gen: u64,
    pub hidden: bool,
    pub action_id: Option<Seq<char>>,
    pub props: Seq<(Seq<char>, Seq<char>)>,
}

/// One identity of a sidecar, as it is written and read.
#[derive(Debug)]
pub struct SidecarRow {
    pub kind: String,
    pub key: String,
    pub gen: u64,
    pub hidden: bool,
    pub action_id: Option<String>,
    pub props: Vec<(String, String)>,
}

impl View for SidecarRow {
    type V = SnapRow;

    open spec fn view(&self) -> SnapRow {
        SnapRow {
            kind: self.kind@,
            key: self.key@,
            gen: self.gen,
            hidden: self.hidden,
            action_id: opt_str_view(self.action_id),
            props: pairs_view(self.props@),
        }
    }
}

/// The views of a list of sidecar rows.
pub open spec fn snap_rows(v: Seq<SidecarRow>) -> Seq<SnapRow> {
    v.map_values(|r: SidecarRow| r@)
}

/// The delta magic, `MKJOIN4D`.
pub open spec fn delta_magic() -> Seq<u8> {
    seq![77u8, 75u8, 74u8, 79u8, 73u8, 78u8, 52u8, 68u8]
}

/// The byte that stands for a hidden flag.
pub open spec fn flag_byte(h: bool) -> u8 {
    if h {
        1u8
    } else {
        0u8
    }
}

/// One delta row: kind, key, generation, hidden flag, optional action id,
/// property count, and each property as name and value.
pub open spec fn delta_row(r: SnapRow) -> Seq<u8> {
    str_field(r.kind) + str_field(r.key) + spec_u64_to_le_bytes(r.gen) + seq![flag_byte(r.hidden)] + opt_str_field(
        r.action_id,
    ) + spec_u32_to_le_bytes(r.props.len() as u32) + props_fields(r.props)
}

/// Delta rows one after another.
pub open spec fn delta_rows(rows: Seq<SnapRow>) -> Seq<u8>
    decreases rows.len(),
{
    if rows.len() == 0 {
        seq![]
    } else {
        delta_row(rows[0]) + delta_rows(rows.drop_first())
    }
}

/// A delta: the magic, the committed page count it reflects, the row count,
/// then the rows.
pub open spec fn delta_bytes(pages: u32, rows: Seq<SnapRow>) -> Seq<u8> {
    delta_magic() + spec_u32_to_le_bytes(pages) + spec_u32_to_le_bytes(rows.len() as u32) + delta_rows(rows)
}

/// Whether a row can be written: its strings fit their length prefixes and
/// its property count fits a `u32`.
pub open spec fn row_fits(r: SnapRow) -> bool {
    &&& fits_str_field(r.kind)
    &&& fits_str_field(r.key)
    &&& opt_fits(r.action_id)
    &&& r.props.len() <= u32::MAX
    &&& props_fit(r.props)
}

/// Whether a list of rows can be written as a delta.
pub open spec fn delta_fits(rows: Seq<SnapRow>) -> bool {
    rows.len() <= u32::MAX && forall|i: int| 0 <= i < rows.len() ==> row_fits(#[trigger] rows[i])
}

/// The delta row at `pos` and the position after it. Any nonzero flag byte
/// reads as hidden.
pub open spec fn parse_delta_row(b: Seq<u8>, pos: int) -> Option<(SnapRow, int)> {
    match parse_str_at(b, pos) {
        None => None,
        Some((kind, p1)) => match parse_str_at(b, p1) {
            None => None,
            Some((key, p2)) => match parse_u64_at(b, p2) {
                None => None,
                Some((gen, p3)) => if p3 + 1 > b.len() {
                    None
                } else {
                    match parse_opt_str_at(b, p3 + 1) {
                        None => None,
                        Some((action_id, pa)) => match parse_u32_at(b, pa) {
                            None => None,
                            Some((cn, p4)) => match parse_pairs(b, p4, cn as nat) {
                                None => None,
                                Some((props, p5)) => Some(
                                    (SnapRow { kind, key, gen, hidden: b[p3] != 0, action_id, props }, p5),
                                ),
                            },
                        },
                    }
                },
            },
        },
    }
}

/// `count` delta rows read from `pos`, and the position after them.
pub open spec fn parse_delta_rows(b: Seq<u8>, pos: int, count: nat) -> Option<(Seq<SnapRow>, int)>
    decreases count,
{
    if count == 0 {
        if 0 <= pos <= b.len() {
            Some((seq![], pos))
        } else {
            None
        }
    } else {
        match parse_delta_row(b, pos) {
            None => None,
            Some((r, p1)) => match parse_delta_rows(b, p1, (count - 1) as nat) {
                None => None,
                Some((rest, p2)) => Some((seq![r] + rest, p2)),
            },
        }
    }
}

/// A delta read back: its page count and rows; `None` when the magic is
/// wrong, the bytes run short or are not UTF-8, or bytes are left over.
pub open spec fn parse_delta(b: Seq<u8>) -> Option<(u32, Seq<SnapRow>)> {
    if b.len() < 12 || b.subrange(0, 8) != delta_magic() {
        None
    } else {
        match parse_u32_at(b, 8) {
            None => None,
            Some((pages, p1)) => match parse_u32_at(b, p1) {
                None => None,
                Some((n, p2)) => match parse_delta_rows(b, p2, n as nat) {
                    None => None,
                    Some((rows, end)) => if end == b.len() {
                        Some((pages, rows))
                    } else {
                        None
                    },
                },
            },
        }
    }
}

proof fn lemma_delta_rows_push(rows: Seq<SnapRow>, r: SnapRow)
    ensures
        delta_rows(rows.push(r)) == delta_rows(rows) + delta_row(r),
    decreases rows.len(),
{
    if rows.len() == 0 {
        let q = rows.push(r);
        assert(q.drop_first() =~= Seq::<SnapRow>::empty());
        assert(q[0] == r);
        assert(delta_rows(q) == delta_row(q[0]) + delta_rows(q.drop_first()));
        assert(delta_rows(q.drop_first()) == Seq::<u8>::empty());
        assert(delta_rows(q) =~= delta_rows(rows) + delta_row(r));
    } else {
        let q = rows.push(r);
        assert(q.drop_first() =~= rows.drop_first().push(r));
        assert(q[0] == rows[0]);
        lemma_delta_rows_push(rows.drop_first(), r);
        assert(delta_rows(q) == delta_row(q[0]) + delta_rows(q.drop_first()));
        assert(delta_rows(rows) == delta_row(rows[0]) + delta_rows(rows.drop_first()));
        assert(delta_rows(q) =~= delta_rows(rows) + delta_row(r));
    }
}

/// The kind, key, generation and flag that open a delta row read back.
proof fn lemma_delta_head(prefix: Seq<u8>, r: SnapRow, rest: Seq<u8>)
    requires
        fits_str_field(r.kind),
        fits_str_field(r.key),
    ensures
        ({
            let head = str_field(r.kind) + str_field(r.key) + spec_u64_to_le_bytes(r.gen) + seq![flag_byte(r.hidden)];
            let b = prefix + head + rest;
            let p1 = (prefix.len() + str_field(r.kind).len()) as int;
            let p2 = p1 + str_field(r.key).len();
            let p3 = p2 + 8;
            &&& parse_str_at(b, prefix.len() as int) == Some((r.kind, p1))
            &&& parse_str_at(b, p1) == Some((r.key, p2))
            &&& parse_u64_at(b, p2) == Some((r.gen, p3))
            &&& p3 + 1 == prefix.len() + head.len()
            &&& b[p3] == flag_byte(r.hidden)
        }),
{
    let fk = str_field(r.kind);
    let fy = str_field(r.key);
    let g = spec_u64_to_le_bytes(r.gen);
    let h: Seq<u8> = seq![flag_byte(r.hidden)];
    let b = prefix + (fk + fy + g + h) + rest;
    assert(b =~= prefix + fk + (fy + g + h + rest));
    lemma_str_field_roundtrip(prefix, r.kind, fy + g + h + rest);
    assert(b =~= (prefix + fk) + fy + (g + h + rest));
    lemma_str_field_roundtrip(prefix + fk, r.key, g + h + rest);
    assert(b =~= (prefix + fk + fy) + g + (h + rest));
    lemma_u64_roundtrip(prefix + fk + fy, r.gen, h + rest);
}

#[verifier::rlimit(60)]
proof fn lemma_delta_row_roundtrip(prefix: Seq<u8>, r: SnapRow, suffix: Seq<u8>)
    requires
        row_fits(r),
    ensures
        parse_delta_row(prefix + delta_row(r) + suffix, prefix.len() as int) == Some(
            (r, (prefix.len() + delta_row(r).len()) as int),
        ),
{
    let head = str_field(r.kind) + str_field(r.key) + spec_u64_to_le_bytes(r.gen) + seq![flag_byte(r.hidden)];
    let a = opt_str_field(r.action_id);
    let n = spec_u32_to_le_bytes(r.props.len() as u32);
    let pf = props_fields(r.props);
    assert(delta_row(r) =~= head + a + n + pf);
    let b = prefix + delta_row(r) + suffix;
    assert(b =~= prefix + head + (a + n + pf + suffix));
    lemma_delta_head(prefix, r, a + n + pf + suffix);
    assert(b =~= (prefix + head) + a + (n + pf + suffix));
    lemma_opt_str_field_roundtrip(prefix + head, r.action_id, n + pf + suffix);
    assert(b =~= (prefix + head + a) + n + (pf + suffix));
    lemma_u32_roundtrip(prefix + head + a, r.props.len() as u32, pf + suffix);
    assert(b =~= (prefix + head + a + n) + pf + suffix);
    lemma_parse_pairs_roundtrip(prefix + head + a + n, r.props, suffix);
    assert(r.props.len() as u32 as nat == r.props.len());
}

#[verifier::rlimit(50)]
proof fn lemma_delta_rows_roundtrip(prefix: Seq<u8>, rows: Seq<SnapRow>, suffix: Seq<u8>)
    requires
        forall|i: int| 0 <= i < rows.len() ==> row_fits(#[trigger] rows[i]),
    ensures
        parse_delta_rows(prefix + delta_rows(rows) + suffix, prefix.len() as int, rows.len()) == Some(
            (rows, (prefix.len() + delta_rows(rows).len()) as int),
        ),
    decreases rows.len(),
{
    let b = prefix + delta_rows(rows) + suffix;
    if rows.len() == 0 {
        assert(rows =~= seq![]);
    } else {
        let r = rows[0];
        let rest = rows.drop_first();
        assert forall|i: int| 0 <= i < rest.len() implies row_fits(#[trigger] rest[i]) by {
            assert(rest[i] == rows[i + 1]);
        }
        assert(row_fits(rows[0]));
        let tail = delta_rows(rest);
        assert(b =~= prefix + delta_row(r) + (tail + suffix));
        lemma_delta_row_roundtrip(prefix, r, tail + suffix);
        assert(b =~= (prefix + delta_row(r)) + tail + suffix);
        lemma_delta_rows_roundtrip(prefix + delta_row(r), rest, suffix);
        assert(seq![r] + rest =~= rows);
    }
}

/// A delta reads back as the page count and rows it was written from.
pub proof fn law_delta_roundtrip(pages: u32, rows: Seq<SnapRow>)
    requires
        delta_fits(rows),
    ensures
        parse_delta(delta_bytes(pages, rows)) == Some((pages, rows)),
{
    let b = delta_bytes(pages, rows);
    let m = delta_magic();
    let pg = spec_u32_to_le_bytes(pages);
    let n = spec_u32_to_le_bytes(rows.len() as u32);
    let body = delta_rows(rows);
    let empty = Seq::<u8>::empty();
    lemma_u32_roundtrip(m, pages, n + body);
    assert(b =~= m + pg + (n + body));
    lemma_u32_roundtrip(m + pg, rows.len() as u32, body);
    assert(b =~= (m + pg) + n + body);
    assert(b.subrange(0, 8) =~= m);
    assert(b =~= (m + pg + n) + body + empty);
    lemma_delta_rows_roundtrip(m + pg + n, rows, empty);
    assert(rows.len() as u32 as nat == rows.len());
}

/// Append one delta row; refuses a string over `u16::MAX` bytes or more than
/// `u32::MAX` properties.
fn write_delta_row(body: &mut Vec<u8>, row: &SidecarRow) -> (r: Result<(), String>)
    ensures
        r is Ok <==> row_fits(row@),
        r is Ok ==> final(body)@ == old(body)@ + delta_row(row@),
{
    let ghost start = body@;
    let ghost p = pairs_view(row.props@);
    match write_str(body, row.kind.as_str()) {
        Ok(()) => {},
        Err(e) => {
            assert(!fits_str_field(row.kind@));
            return Err(e);
        },
    }
    match write_str(body, row.key.as_str()) {
        Ok(()) => {},
        Err(e) => {
            assert(!fits_str_field(row.key@));
            return Err(e);
        },
    }
    let g = u64_to_le_bytes(row.gen);
    push_bytes(body, g.as_slice());
    body.push(if row.hidden { 1u8 } else { 0u8 });
    match write_opt_str(body, &row.action_id) {
        Ok(()) => {},
        Err(e) => {
            return Err(e);
        },
    }
    if row.props.len() > 0xffff_ffff {
        assert(p.len() > u32::MAX);
        return Err(String::from_str("too many properties"));
    }
    let cn = u32_to_le_bytes(row.props.len() as u32);
    push_bytes(body, cn.as_slice());
    let ghost header = body@;
    assert(header =~= start + str_field(row.kind@) + str_field(row.key@) + spec_u64_to_le_bytes(row.gen) + seq![
        flag_byte(row.hidden),
    ] + opt_str_field(opt_str_view(row.action_id)) + spec_u32_to_le_bytes(p.len() as u32));
    let mut i: usize = 0;
    assert(p.subrange(0, 0) =~= Seq::<(Seq<char>, Seq<char>)>::empty());
    assert(props_fit(p.subrange(0, 0)));
    while i < row.props.len()
        invariant
            i <= row.props@.len(),
            p == pairs_view(row.props@),
            p.len() == row.props@.len(),
            fits_str_field(row.kind@),
            fits_str_field(row.key@),
            opt_fits(opt_str_view(row.action_id)),
            body@ == header + props_fields(p.subrange(0, i as int)),
            props_fit(p.subrange(0, i as int)),
        decreases row.props@.len() - i,
    {
        let e = &row.props[i];
        assert(p[i as int] == (e.0@, e.1@));
        match write_str(body, e.0.as_str()) {
            Ok(()) => {},
            Err(err) => {
                assert(!fits_str_field(p[i as int].0));
                assert(!props_fit(p));
                return Err(err);
            },
        }
        match write_str(body, e.1.as_str()) {
            Ok(()) => {},
            Err(err) => {
                assert(p[i as int].0 == e.0@);
                assert(!fits_str_field(p[i as int].1));
                assert(!props_fit(p));
                return Err(err);
            },
        }
        proof {
            assert(fits_str_field(p[i as int].0) && fits_str_field(p[i as int].1));
            let done = p.subrange(0, i as int);
            let more = p.subrange(0, i + 1);
            assert forall|j: int| 0 <= j < more.len() implies fits_str_field(#[trigger] more[j].0) && fits_str_field(
                more[j].1,
            ) by {
                if j < i {
                    assert(more[j] == done[j]);
                    assert(fits_str_field(done[j].0) && fits_str_field(done[j].1));
                } else {
                    assert(more[j] == p[i as int]);
                }
            }
            assert(props_fit(more));
            assert(p.subrange(0, i + 1) =~= p.subrange(0, i as int).push(p[i as int]));
            lemma_props_fields_push(p.subrange(0, i as int), p[i as int]);
        }
        i = i + 1;
    }
    assert(p.subrange(0, p.len() as int) =~= p);
    assert(props_fit(p));
    assert(row_fits(row@));
    assert(body@ =~= start + delta_row(row@));
    Ok(())
}

/// The delta magic.
fn delta_magic_bytes() -> (v: Vec<u8>)
    ensures
        v@ == delta_magic(),
{
    let v: Vec<u8> = vec![77u8, 75u8, 74u8, 79u8, 73u8, 78u8, 52u8, 68u8];
    assert(v@ =~= delta_magic());
    v
}

/// The delta bytes of `rows` at `pages` committed pages.
pub fn encode_delta(pages: u32, rows: &Vec<SidecarRow>) -> (r: Result<Vec<u8>, String>)
    ensures
        r is Ok <==> delta_fits(snap_rows(rows@)),
        r matches Ok(b) ==> b@ == delta_bytes(pages, snap_rows(rows@)),
{
    let ghost rv = snap_rows(rows@);
    if rows.len() > 0xffff_ffff {
        return Err(String::from_str("too many dirty rows"));
    }
    let mut body = delta_magic_bytes();
    push_bytes(&mut body, u32_to_le_bytes(pages).as_slice());
    push_bytes(&mut body, u32_to_le_bytes(rows.len() as u32).as_slice());
    let ghost header = body@;
    let mut i: usize = 0;
    assert(rv.subrange(0, 0) =~= Seq::<SnapRow>::empty());
    while i < rows.len()
        invariant
            i <= rows@.len(),
            rv == snap_rows(rows@),
            body@ == header + delta_rows(rv.subrange(0, i as int)),
            forall|j: int| 0 <= j < i ==> row_fits(#[trigger] rv[j]),
        decreases rows@.len() - i,
    {
        assert(rv[i as int] == rows@[i as int]@);
        match write_delta_row(&mut body, &rows[i]) {
            Ok(()) => {},
            Err(e) => {
                assert(!row_fits(rv[i as int]));
                return Err(e);
            },
        }
        proof {
            assert(rv.subrange(0, i + 1) =~= rv.subrange(0, i as int).push(rv[i as int]));
            lemma_delta_rows_push(rv.subrange(0, i as int), rv[i as int]);
        }
        i = i + 1;
    }
    assert(rv.subrange(0, rv.len() as int) =~= rv);
    assert(body@ =~= delta_bytes(pages, rv));
    Ok(body)
}

/// `count` property entries read from `pos`, in order.
fn read_pairs(body: &[u8], pos: usize, count: u32) -> (r: Result<(Vec<(String, String)>, usize), String>)
    requires
        pos <= body@.len(),
    ensures
        match r {
            Ok((ps, next)) => parse_pairs(body@, pos as int, count as nat) == Some((pairs_view(ps@), next as int))
                && pos <= next <= body@.len(),
            Err(_) => parse_pairs(body@, pos as int, count as nat) is None,
        },
{
    let ghost whole = parse_pairs(body@, pos as int, count as nat);
    let mut out: Vec<(String, String)> = Vec::new();
    let mut cur = pos;
    let mut i: u32 = 0;
    assert(pairs_view(out@) =~= Seq::<(Seq<char>, Seq<char>)>::empty());
    while i < count
        invariant
            i <= count,
            pos <= cur <= body@.len(),
            whole == parse_pairs(body@, pos as int, count as nat),
            whole == match parse_pairs(body@, cur as int, (count - i) as nat) {
                Some((rest, e)) => Some((pairs_view(out@) + rest, e)),
                None => None,
            },
        decreases count - i,
    {
        let (name, next) = read_str(body, cur)?;
        let (value, next) = read_str(body, next)?;
        proof {
            let entry = (name@, value@);
            let before = pairs_view(out@);
            match parse_pairs(body@, next as int, (count - i - 1) as nat) {
                Some((rest, e)) => {
                    assert(before + (seq![entry] + rest) =~= before.push(entry) + rest);
                },
                None => {},
            }
        }
        let ghost before = out@;
        out.push((name, value));
        assert(pairs_view(out@) =~= pairs_view(before).push((out@.last().0@, out@.last().1@)));
        cur = next;
        i = i + 1;
    }
    assert(pairs_view(out@) + seq![] =~= pairs_view(out@));
    Ok((out, cur))
}

/// The delta row at `pos`.
fn read_delta_row(body: &[u8], pos: usize) -> (r: Result<(SidecarRow, usize), String>)
    requires
        pos <= body@.len(),
    ensures
        match r {
            Ok((row, next)) => parse_delta_row(body@, pos as int) == Some((row@, next as int)) && pos <= next
                <= body@.len(),
            Err(_) => parse_delta_row(body@, pos as int) is None,
        },
{
    let (kind, p1) = read_str(body, pos)?;
    let (key, p2) = read_str(body, p1)?;
    let (gen, p3) = read_u64(body, p2)?;
    let (flag, p4) = take(body, p3, 1)?;
    let hidden = flag[0] != 0;
    assert(flag@[0] == body@[p3 as int]);
    let (action_id, pa) = read_opt_str(body, p4)?;
    let (cn, p5) = read_u32(body, pa)?;
    let (props, p6) = read_pairs(body, p5, cn)?;
    Ok((SidecarRow { kind, key, gen, hidden, action_id, props }, p6))
}

/// Read a delta body: its page count and rows. Fails on a wrong magic, short
/// or non-UTF-8 bytes, or trailing bytes.
pub fn decode_delta(body: &[u8]) -> (r: Result<(u32, Vec<SidecarRow>), String>)
    ensures
        match r {
            Ok((pages, rows)) => parse_delta(body@) == Some((pages, snap_rows(rows@))),
            Err(_) => parse_delta(body@) is None,
        },
        body@.len() < 12 || body@.subrange(0, 8) != delta_magic() ==> (r matches Err(e) && e@ == "bad join magic"@),
{
    let m = delta_magic_bytes();
    if body.len() < 12 || !crate::text::bytes_eq(vstd::slice::slice_subrange(body, 0, 8), m.as_slice()) {
        return Err(String::from_str("bad join magic"));
    }
    assert(body@.subrange(0, 8) == delta_magic());
    let (pages, p1) = read_u32(body, 8)?;
    let (n, p2) = read_u32(body, p1)?;
    let ghost whole = parse_delta_rows(body@, p2 as int, n as nat);
    assert(parse_delta(body@) == match whole {
        None => None,
        Some((rows, end)) => if end == body@.len() {
            Some((pages, rows))
        } else {
            None
        },
    });
    let mut rows: Vec<SidecarRow> = Vec::new();
    let mut cur = p2;
    let mut i: u32 = 0;
    assert(snap_rows(rows@) =~= Seq::<SnapRow>::empty());
    while i < n
        invariant
            i <= n,
            p2 <= cur <= body@.len(),
            body@.len() >= 12 && body@.subrange(0, 8) == delta_magic(),
            whole == parse_delta_rows(body@, p2 as int, n as nat),
            parse_delta(body@) == match whole {
                None => None,
                Some((rows, end)) => if end == body@.len() {
                    Some((pages, rows))
                } else {
                    None
                },
            },
            whole == match parse_delta_rows(body@, cur as int, (n - i) as nat) {
                Some((rest, e)) => Some((snap_rows(rows@) + rest, e)),
                None => None,
            },
        decreases n - i,
    {
        let (row, next) = read_delta_row(body, cur)?;
        proof {
            let before = snap_rows(rows@);
            match parse_delta_rows(body@, next as int, (n - i - 1) as nat) {
                Some((rest, e)) => {
                    assert(before + (seq![row@] + rest) =~= before.push(row@) + rest);
                },
                None => {},
            }
        }
        let ghost before = rows@;
        let ghost rv = row@;
        rows.push(row);
        assert(snap_rows(rows@) =~= snap_rows(before).push(rv));
        cur = next;
        i = i + 1;
    }
    if cur != body.len() {
        return Err(String::from_str("trailing join bytes"));
    }
    assert(snap_rows(rows@) + seq![] =~= snap_rows(rows@));
    Ok((pages, rows))
}

/// The checkpoint magic, `MKJOIN04`.
pub open spec fn checkpoint_magic() -> Seq<u8> {
    seq![77u8, 75u8, 74u8, 79u8, 73u8, 78u8, 48u8, 52u8]
}

/// One checkpoint row: the intern ids of its kind and key, its generation,
/// its hidden flag, its action id, and the intern ids of its properties.
pub struct IdRow {
    pub kind_id: u32,
    pub key_id: u32,
    pub gen: u64,
    pub hidden: bool,
    pub action_id: Option<Seq<char>>,
    pub owned: Seq<(u32, u32)>,
}

/// Id pairs one after another.
pub open spec fn id_pairs(o: Seq<(u32, u32)>) -> Seq<u8>
    decreases o.len(),
{
    if o.len() == 0 {
        seq![]
    } else {
        spec_u32_to_le_bytes(o[0].0) + spec_u32_to_le_bytes(o[0].1) + id_pairs(o.drop_first())
    }
}

/// One checkpoint row as written.
pub open spec fn id_row(r: IdRow) -> Seq<u8> {
    spec_u32_to_le_bytes(r.kind_id) + spec_u32_to_le_bytes(r.key_id) + spec_u64_to_le_bytes(r.gen) + seq![
        flag_byte(r.hidden),
    ] + opt_str_field(r.action_id) + spec_u32_to_le_bytes(r.owned.len() as u32) + id_pairs(r.owned)
}

/// Checkpoint rows one after another.
pub open spec fn id_rows(rows: Seq<IdRow>) -> Seq<u8>
    decreases rows.len(),
{
    if rows.len() == 0 {
        seq![]
    } else {
        id_row(rows[0]) + id_rows(rows.drop_first())
    }
}

/// Strings one after another.
pub open spec fn str_fields(t: Seq<Seq<char>>) -> Seq<u8>
    decreases t.len(),
{
    if t.len() == 0 {
        seq![]
    } else {
        str_field(t[0]) + str_fields(t.drop_first())
    }
}

/// A checkpoint: the magic, the committed page count it reflects, the intern
/// table, then the rows.
pub open spec fn checkpoint_bytes(pages: u32, intern: Seq<Seq<char>>, rows: Seq<IdRow>) -> Seq<u8> {
    checkpoint_magic() + spec_u32_to_le_bytes(pages) + spec_u32_to_le_bytes(intern.len() as u32) + str_fields(
        intern,
    ) + spec_u32_to_le_bytes(rows.len() as u32) + id_rows(rows)
}

/// `count` id pairs read from `pos`.
pub open spec fn parse_id_pairs(b: Seq<u8>, pos: int, count: nat) -> Option<(Seq<(u32, u32)>, int)>
    decreases count,
{
    if count == 0 {
        if 0 <= pos <= b.len() {
            Some((seq![], pos))
        } else {
            None
        }
    } else {
        match parse_u32_at(b, pos) {
            None => None,
            Some((a, p1)) => match parse_u32_at(b, p1) {
                None => None,
                Some((c, p2)) => match parse_id_pairs(b, p2, (count - 1) as nat) {
                    None => None,
                    Some((rest, p3)) => Some((seq![(a, c)] + rest, p3)),
                },
            },
        }
    }
}

/// The checkpoint row at `pos`.
pub open spec fn parse_id_row(b: Seq<u8>, pos: int) -> Option<(IdRow, int)> {
    match parse_u32_at(b, pos) {
        None => None,
        Some((kind_id, p1)) => match parse_u32_at(b, p1) {
            None => None,
            Some((key_id, p2)) => match parse_u64_at(b, p2) {
                None => None,
                Some((gen, p3)) => if p3 + 1 > b.len() {
                    None
                } else {
                    match parse_opt_str_at(b, p3 + 1) {
                        None => None,
                        Some((action_id, pa)) => match parse_u32_at(b, pa) {
                            None => None,
                            Some((cn, p4)) => match parse_id_pairs(b, p4, cn as nat) {
                                None => None,
                                Some((owned, p5)) => Some(
                                    (IdRow { kind_id, key_id, gen, hidden: b[p3] != 0, action_id, owned }, p5),
                                ),
                            },
                        },
                    }
                },
            },
        },
    }
}

/// `count` checkpoint rows read from `pos`.
pub open spec fn parse_id_rows(b: Seq<u8>, pos: int, count: nat) -> Option<(Seq<IdRow>, int)>
    decreases count,
{
    if count == 0 {
        if 0 <= pos <= b.len() {
            Some((seq![], pos))
        } else {
            None
        }
    } else {
        match parse_id_row(b, pos) {
            None => None,
            Some((r, p1)) => match parse_id_rows(b, p1, (count - 1) as nat) {
                None => None,
                Some((rest, p2)) => Some((seq![r] + rest, p2)),
            },
        }
    }
}

/// `count` strings read from `pos`.
pub open spec fn parse_strs(b: Seq<u8>, pos: int, count: nat) -> Option<(Seq<Seq<char>>, int)>
    decreases count,
{
    if count == 0 {
        if 0 <= pos <= b.len() {
            Some((seq![], pos))
        } else {
            None
        }
    } else {
        match parse_str_at(b, pos) {
            None => None,
            Some((x, p1)) => match parse_strs(b, p1, (count - 1) as nat) {
                None => None,
                Some((rest, p2)) => Some((seq![x] + rest, p2)),
            },
        }
    }
}

/// A checkpoint read back as written: page count, intern table and rows.
pub open spec fn parse_checkpoint_raw(b: Seq<u8>) -> Option<(u32, Seq<Seq<char>>, Seq<IdRow>)> {
    if b.len() < 12 || b.subrange(0, 8) != checkpoint_magic() {
        None
    } else {
        match parse_u32_at(b, 8) {
            None => None,
            Some((pages, p1)) => match parse_u32_at(b, p1) {
                None => None,
                Some((n, p2)) => match parse_strs(b, p2, n as nat) {
                    None => None,
                    Some((intern, p3)) => match parse_u32_at(b, p3) {
                        None => None,
                        Some((m, p4)) => match parse_id_rows(b, p4, m as nat) {
                            None => None,
                            Some((rows, end)) => if end == b.len() {
                                Some((pages, intern, rows))
                            } else {
                                None
                            },
                        },
                    },
                },
            },
        }
    }
}

/// Whether a checkpoint body reads through its last identity with bytes
/// left after it.
pub open spec fn checkpoint_trailing(b: Seq<u8>) -> bool {
    if b.len() < 12 || b.subrange(0, 8) != checkpoint_magic() {
        false
    } else {
        match parse_u32_at(b, 8) {
            None => false,
            Some((pages, p1)) => match parse_u32_at(b, p1) {
                None => false,
                Some((n, p2)) => match parse_strs(b, p2, n as nat) {
                    None => false,
                    Some((intern, p3)) => match parse_u32_at(b, p3) {
                        None => false,
                        Some((m, p4)) => match parse_id_rows(b, p4, m as nat) {
                            None => false,
                            Some((rows, end)) => end != b.len(),
                        },
                    },
                },
            },
        }
    }
}

/// The properties an id list names in the intern table, when every id is in it.
pub open spec fn resolve_pairs(intern: Seq<Seq<char>>, o: Seq<(u32, u32)>) -> Option<Seq<(Seq<char>, Seq<char>)>>
    decreases o.len(),
{
    if o.len() == 0 {
        Some(seq![])
    } else {
        match resolve_pairs(intern, o.drop_last()) {
            None => None,
            Some(prev) => if o.last().0 < intern.len() && o.last().1 < intern.len() {
                Some(prev.push((intern[o.last().0 as int], intern[o.last().1 as int])))
            } else {
                None
            },
        }
    }
}

/// A checkpoint row in strings: its kind, key and properties must be in the
/// intern table.
pub open spec fn resolve_row(intern: Seq<Seq<char>>, r: IdRow) -> Option<SnapRow> {
    if r.kind_id >= intern.len() || r.key_id >= intern.len() {
        None
    } else {
        match resolve_pairs(intern, r.owned) {
            None => None,
            Some(props) => Some(
                SnapRow {
                    kind: intern[r.kind_id as int],
                    key: intern[r.key_id as int],
                    gen: r.gen,
                    hidden: r.hidden,
                    action_id: r.action_id,
                    props,
                },
            ),
        }
    }
}

/// Checkpoint rows in strings, when each resolves.
pub open spec fn resolve_rows(intern: Seq<Seq<char>>, rows: Seq<IdRow>) -> Option<Seq<SnapRow>>
    decreases rows.len(),
{
    if rows.len() == 0 {
        Some(seq![])
    } else {
        match resolve_rows(intern, rows.drop_last()) {
            None => None,
            Some(prev) => match resolve_row(intern, rows.last()) {
                None => None,
                Some(r) => Some(prev.push(r)),
            },
        }
    }
}

/// A checkpoint read back: its page count and rows in strings.
pub open spec fn parse_checkpoint(b: Seq<u8>) -> Option<(u32, Seq<SnapRow>)> {
    match parse_checkpoint_raw(b) {
        None => None,
        Some((pages, intern, rows)) => match resolve_rows(intern, rows) {
            None => None,
            Some(snaps) => Some((pages, snaps)),
        },
    }
}

/// A checkpoint row as read.
struct IdRowExec {
    kind_id: u32,
    key_id: u32,
    gen: u64,
    hidden: bool,
    action_id: Option<String>,
    owned: Vec<(u32, u32)>,
}

impl View for IdRowExec {
    type V = IdRow;

    closed spec fn view(&self) -> IdRow {
        IdRow {
            kind_id: self.kind_id,
            key_id: self.key_id,
            gen: self.gen,
            hidden: self.hidden,
            action_id: opt_str_view(self.action_id),
            owned: self.owned@,
        }
    }
}

spec fn id_row_views(v: Seq<IdRowExec>) -> Seq<IdRow> {
    v.map_values(|r: IdRowExec| r@)
}

fn read_id_pairs(body: &[u8], pos: usize, count: u32) -> (r: Result<(Vec<(u32, u32)>, usize), String>)
    requires
        pos <= body@.len(),
    ensures
        match r {
            Ok((o, next)) => parse_id_pairs(body@, pos as int, count as nat) == Some((o@, next as int)) && pos <= next
                <= body@.len(),
            Err(_) => parse_id_pairs(body@, pos as int, count as nat) is None,
        },
{
    let ghost whole = parse_id_pairs(body@, pos as int, count as nat);
    let mut out: Vec<(u32, u32)> = Vec::new();
    let mut cur = pos;
    let mut i: u32 = 0;
    while i < count
        invariant
            i <= count,
            pos <= cur <= body@.len(),
            whole == parse_id_pairs(body@, pos as int, count as nat),
            whole == match parse_id_pairs(body@, cur as int, (count - i) as nat) {
                Some((rest, e)) => Some((out@ + rest, e)),
                None => None,
            },
        decreases count - i,
    {
        let (a, next) = read_u32(body, cur)?;
        let (c, next) = read_u32(body, next)?;
        proof {
            match parse_id_pairs(body@, next as int, (count - i - 1) as nat) {
                Some((rest, e)) => {
                    assert(out@ + (seq![(a, c)] + rest) =~= out@.push((a, c)) + rest);
                },
                None => {},
            }
        }
        out.push((a, c));
        cur = next;
        i = i + 1;
    }
    assert(out@ + seq![] =~= out@);
    Ok((out, cur))
}

fn read_id_row(body: &[u8], pos: usize) -> (r: Result<(IdRowExec, usize), String>)
    requires
        pos <= body@.len(),
    ensures
        match r {
            Ok((row, next)) => parse_id_row(body@, pos as int) == Some((row@, next as int)) && pos <= next
                <= body@.len(),
            Err(_) => parse_id_row(body@, pos as int) is None,
        },
{
    let (kind_id, p1) = read_u32(body, pos)?;
    let (key_id, p2) = read_u32(body, p1)?;
    let (gen, p3) = read_u64(body, p2)?;
    let (flag, p4) = take(body, p3, 1)?;
    let hidden = flag[0] != 0;
    assert(flag@[0] == body@[p3 as int]);
    let (action_id, pa) = read_opt_str(body, p4)?;
    let (cn, p5) = read_u32(body, pa)?;
    let (owned, p6) = read_id_pairs(body, p5, cn)?;
    Ok((IdRowExec { kind_id, key_id, gen, hidden, action_id, owned }, p6))
}

fn read_strs(body: &[u8], pos: usize, count: u32) -> (r: Result<(Vec<String>, usize), String>)
    requires
        pos <= body@.len(),
    ensures
        match r {
            Ok((t, next)) => parse_strs(body@, pos as int, count as nat) == Some((strs(t@), next as int)) && pos <= next
                <= body@.len(),
            Err(_) => parse_strs(body@, pos as int, count as nat) is None,
        },
{
    let ghost whole = parse_strs(body@, pos as int, count as nat);
    let mut out: Vec<String> = Vec::new();
    let mut cur = pos;
    let mut i: u32 = 0;
    assert(strs(out@) =~= Seq::<Seq<char>>::empty());
    while i < count
        invariant
            i <= count,
            pos <= cur <= body@.len(),
            whole == parse_strs(body@, pos as int, count as nat),
            whole == match parse_strs(body@, cur as int, (count - i) as nat) {
                Some((rest, e)) => Some((strs(out@) + rest, e)),
                None => None,
            },
        decreases count - i,
    {
        let (x, next) = read_str(body, cur)?;
        proof {
            let before = strs(out@);
            match parse_strs(body@, next as int, (count - i - 1) as nat) {
                Some((rest, e)) => {
                    assert(before + (seq![x@] + rest) =~= before.push(x@) + rest);
                },
                None => {},
            }
        }
        let ghost before = out@;
        let ghost xv = x@;
        out.push(x);
        assert(strs(out@) =~= strs(before).push(xv));
        cur = next;
        i = i + 1;
    }
    assert(strs(out@) + seq![] =~= strs(out@));
    Ok((out, cur))
}

/// A checkpoint row in strings.
fn resolve_id_row(intern: &Vec<String>, r: &IdRowExec) -> (out: Result<SidecarRow, String>)
    ensures
        match out {
            Ok(row) => resolve_row(strs(intern@), r@) == Some(row@),
            Err(_) => resolve_row(strs(intern@), r@) is None,
        },
{
    let ghost t = strs(intern@);
    if r.kind_id as usize >= intern.len() {
        return Err(String::from_str("bad intern kind"));
    }
    if r.key_id as usize >= intern.len() {
        return Err(String::from_str("bad intern key"));
    }
    let kind = intern[r.kind_id as usize].clone();
    let key = intern[r.key_id as usize].clone();
    let mut props: Vec<(String, String)> = Vec::new();
    let mut i: usize = 0;
    assert(r.owned@.subrange(0, 0) =~= Seq::<(u32, u32)>::empty());
    assert(pairs_view(props@) =~= Seq::<(Seq<char>, Seq<char>)>::empty());
    while i < r.owned.len()
        invariant
            i <= r.owned@.len(),
            t == strs(intern@),
            (r.kind_id as int) < intern@.len(),
            (r.key_id as int) < intern@.len(),
            resolve_pairs(t, r.owned@.subrange(0, i as int)) == Some(pairs_view(props@)),
        decreases r.owned@.len() - i,
    {
        let (a, c) = r.owned[i];
        assert(r.owned@[i as int] == (a, c));
        assert(t.len() == intern@.len());
        assert(r.owned@.subrange(0, i + 1).drop_last() =~= r.owned@.subrange(0, i as int));
        if a as usize >= intern.len() {
            proof {
                lemma_resolve_pairs_none(t, r.owned@, i as int);
                assert(r@.owned == r.owned@);
                assert(r@.kind_id < t.len() && r@.key_id < t.len());
                assert(resolve_row(t, r@) is None);
            }
            return Err(String::from_str("bad intern prop"));
        }
        if c as usize >= intern.len() {
            proof {
                lemma_resolve_pairs_none(t, r.owned@, i as int);
                assert(r@.owned == r.owned@);
                assert(r@.kind_id < t.len() && r@.key_id < t.len());
                assert(resolve_row(t, r@) is None);
            }
            return Err(String::from_str("bad intern value"));
        }
        let ghost before = props@;
        props.push((intern[a as usize].clone(), intern[c as usize].clone()));
        assert(pairs_view(props@) =~= pairs_view(before).push((t[a as int], t[c as int])));
        i = i + 1;
    }
    assert(r.owned@.subrange(0, r.owned@.len() as int) =~= r.owned@);
    Ok(SidecarRow { kind, key, gen: r.gen, hidden: r.hidden, action_id: clone_opt_str(&r.action_id), props })
}

/// Once one id pair does not resolve, no longer list does.
proof fn lemma_resolve_pairs_none(t: Seq<Seq<char>>, o: Seq<(u32, u32)>, i: int)
    requires
        0 <= i < o.len(),
        !(o[i].0 < t.len() && o[i].1 < t.len()),
    ensures
        resolve_pairs(t, o) is None,
    decreases o.len(),
{
    if i < o.len() - 1 {
        assert(o.drop_last()[i] == o[i]);
        lemma_resolve_pairs_none(t, o.drop_last(), i);
    }
}

/// Once one row does not resolve, no longer list does.
proof fn lemma_resolve_rows_none(t: Seq<Seq<char>>, rows: Seq<IdRow>, i: int)
    requires
        0 <= i < rows.len(),
        resolve_row(t, rows[i]) is None,
    ensures
        resolve_rows(t, rows) is None,
    decreases rows.len(),
{
    if i < rows.len() - 1 {
        assert(rows.drop_last()[i] == rows[i]);
        lemma_resolve_rows_none(t, rows.drop_last(), i);
    }
}

/// The checkpoint magic.
fn checkpoint_magic_bytes() -> (v: Vec<u8>)
    ensures
        v@ == checkpoint_magic(),
{
    let v: Vec<u8> = vec![77u8, 75u8, 74u8, 79u8, 73u8, 78u8, 48u8, 52u8];
    assert(v@ =~= checkpoint_magic());
    v
}

/// Read a checkpoint body: its page count and rows in strings. Fails on a
/// wrong magic, short or non-UTF-8 bytes, trailing bytes, or an id outside
/// the intern table.
pub fn decode_checkpoint(body: &[u8]) -> (r: Result<(u32, Vec<SidecarRow>), String>)
    ensures
        match r {
            Ok((pages, rows)) => parse_checkpoint(body@) == Some((pages, snap_rows(rows@))),
            Err(_) => parse_checkpoint(body@) is None,
        },
        body@.len() < 12 || body@.subrange(0, 8) != checkpoint_magic() ==> (r matches Err(e) && e@ == "bad join magic"@),
        checkpoint_trailing(body@) ==> (r matches Err(e) && e@ == "trailing join bytes"@),
{
    let m = checkpoint_magic_bytes();
    if body.len() < 12 || !crate::text::bytes_eq(vstd::slice::slice_subrange(body, 0, 8), m.as_slice()) {
        return Err(String::from_str("bad join magic"));
    }
    assert(body@.subrange(0, 8) == checkpoint_magic());
    let (pages, p1) = read_u32(body, 8)?;
    let (n, p2) = read_u32(body, p1)?;
    let (intern, p3) = read_strs(body, p2, n)?;
    let (count, p4) = read_u32(body, p3)?;
    let ghost whole = parse_id_rows(body@, p4 as int, count as nat);
    let ghost t0 = strs(intern@);
    assert(parse_checkpoint_raw(body@) == match whole {
        None => None,
        Some((rs, end)) => if end == body@.len() {
            Some((pages, t0, rs))
        } else {
            None
        },
    });
    let mut rows: Vec<IdRowExec> = Vec::new();
    let mut cur = p4;
    let mut i: u32 = 0;
    assert(id_row_views(rows@) =~= Seq::<IdRow>::empty());
    while i < count
        invariant
            i <= count,
            p4 <= cur <= body@.len(),
            body@.len() >= 12 && body@.subrange(0, 8) == checkpoint_magic(),
            whole == parse_id_rows(body@, p4 as int, count as nat),
            checkpoint_trailing(body@) == (whole matches Some((_, e)) && e != body@.len()),
            t0 == strs(intern@),
            parse_checkpoint_raw(body@) == match whole {
                None => None,
                Some((rs, end)) => if end == body@.len() {
                    Some((pages, t0, rs))
                } else {
                    None
                },
            },
            whole == match parse_id_rows(body@, cur as int, (count - i) as nat) {
                Some((rest, e)) => Some((id_row_views(rows@) + rest, e)),
                None => None,
            },
        decreases count - i,
    {
        let (row, next) = read_id_row(body, cur)?;
        proof {
            let before = id_row_views(rows@);
            match parse_id_rows(body@, next as int, (count - i - 1) as nat) {
                Some((rest, e)) => {
                    assert(before + (seq![row@] + rest) =~= before.push(row@) + rest);
                },
                None => {},
            }
        }
        let ghost before = rows@;
        let ghost rv = row@;
        rows.push(row);
        assert(id_row_views(rows@) =~= id_row_views(before).push(rv));
        cur = next;
        i = i + 1;
    }
    if cur != body.len() {
        return Err(String::from_str("trailing join bytes"));
    }
    let ghost idv = id_row_views(rows@);
    let ghost t = strs(intern@);
    assert(idv + seq![] =~= idv);
    assert(parse_checkpoint_raw(body@) == Some((pages, t, idv)));
    let mut out: Vec<SidecarRow> = Vec::new();
    let mut j: usize = 0;
    assert(idv.subrange(0, 0) =~= Seq::<IdRow>::empty());
    assert(snap_rows(out@) =~= Seq::<SnapRow>::empty());
    while j < rows.len()
        invariant
            j <= rows@.len(),
            idv == id_row_views(rows@),
            t == strs(intern@),
            parse_checkpoint_raw(body@) == Some((pages, t, idv)),
            resolve_rows(t, idv.subrange(0, j as int)) == Some(snap_rows(out@)),
        decreases rows@.len() - j,
    {
        assert(idv[j as int] == rows@[j as int]@);
        assert(idv.subrange(0, j + 1).drop_last() =~= idv.subrange(0, j as int));
        let row = match resolve_id_row(&intern, &rows[j]) {
            Ok(row) => row,
            Err(e) => {
                proof {
                    lemma_resolve_rows_none(t, idv, j as int);
                }
                return Err(e);
            },
        };
        let ghost before = out@;
        let ghost rv = row@;
        out.push(row);
        assert(snap_rows(out@) =~= snap_rows(before).push(rv));
        j = j + 1;
    }
    assert(idv.subrange(0, idv.len() as int) =~= idv);
    Ok((pages, out))
}

/// The most strings a row adds to an intern table.
pub open spec fn row_strings(r: SnapRow) -> nat {
    2 + 2 * r.props.len()
}

/// The most strings rows add to an intern table.
pub open spec fn total_strings(rows: Seq<SnapRow>) -> nat
    decreases rows.len(),
{
    if rows.len() == 0 {
        0
    } else {
        total_strings(rows.drop_last()) + row_strings(rows.last())
    }
}

/// Whether an intern table, its rows and their id lists fit their `u32` counts
/// and every string fits its length prefix.
pub open spec fn checkpoint_fits(intern: Seq<Seq<char>>, rows: Seq<IdRow>) -> bool {
    &&& intern.len() <= u32::MAX
    &&& rows.len() <= u32::MAX
    &&& forall|i: int| 0 <= i < intern.len() ==> fits_str_field(#[trigger] intern[i])
    &&& forall|i: int| 0 <= i < rows.len() ==> (#[trigger] rows[i]).owned.len() <= u32::MAX && opt_fits(rows[i].action_id)
}

proof fn lemma_id_pairs_push(o: Seq<(u32, u32)>, e: (u32, u32))
    ensures
        id_pairs(o.push(e)) == id_pairs(o) + spec_u32_to_le_bytes(e.0) + spec_u32_to_le_bytes(e.1),
    decreases o.len(),
{
    let q = o.push(e);
    if o.len() == 0 {
        assert(q.drop_first() =~= Seq::<(u32, u32)>::empty());
        assert(q[0] == e);
        assert(id_pairs(q) == spec_u32_to_le_bytes(q[0].0) + spec_u32_to_le_bytes(q[0].1) + id_pairs(q.drop_first()));
        assert(id_pairs(q.drop_first()) == Seq::<u8>::empty());
        assert(id_pairs(q) =~= id_pairs(o) + spec_u32_to_le_bytes(e.0) + spec_u32_to_le_bytes(e.1));
    } else {
        assert(q.drop_first() =~= o.drop_first().push(e));
        assert(q[0] == o[0]);
        lemma_id_pairs_push(o.drop_first(), e);
        assert(id_pairs(q) == spec_u32_to_le_bytes(q[0].0) + spec_u32_to_le_bytes(q[0].1) + id_pairs(q.drop_first()));
        assert(id_pairs(o) == spec_u32_to_le_bytes(o[0].0) + spec_u32_to_le_bytes(o[0].1) + id_pairs(o.drop_first()));
        assert(id_pairs(q) =~= id_pairs(o) + spec_u32_to_le_bytes(e.0) + spec_u32_to_le_bytes(e.1));
    }
}

proof fn lemma_id_rows_push(rows: Seq<IdRow>, r: IdRow)
    ensures
        id_rows(rows.push(r)) == id_rows(rows) + id_row(r),
    decreases rows.len(),
{
    let q = rows.push(r);
    if rows.len() == 0 {
        assert(q.drop_first() =~= Seq::<IdRow>::empty());
        assert(q[0] == r);
        assert(id_rows(q) == id_row(q[0]) + id_rows(q.drop_first()));
        assert(id_rows(q.drop_first()) == Seq::<u8>::empty());
        assert(id_rows(q) =~= id_rows(rows) + id_row(r));
    } else {
        assert(q.drop_first() =~= rows.drop_first().push(r));
        assert(q[0] == rows[0]);
        lemma_id_rows_push(rows.drop_first(), r);
        assert(id_rows(q) == id_row(q[0]) + id_rows(q.drop_first()));
        assert(id_rows(rows) == id_row(rows[0]) + id_rows(rows.drop_first()));
        assert(id_rows(q) =~= id_rows(rows) + id_row(r));
    }
}

proof fn lemma_str_fields_push(t: Seq<Seq<char>>, x: Seq<char>)
    ensures
        str_fields(t.push(x)) == str_fields(t) + str_field(x),
    decreases t.len(),
{
    let q = t.push(x);
    if t.len() == 0 {
        assert(q.drop_first() =~= Seq::<Seq<char>>::empty());
        assert(q[0] == x);
        assert(str_fields(q) == str_field(q[0]) + str_fields(q.drop_first()));
        assert(str_fields(q.drop_first()) == Seq::<u8>::empty());
        assert(str_fields(q) =~= str_fields(t) + str_field(x));
    } else {
        assert(q.drop_first() =~= t.drop_first().push(x));
        assert(q[0] == t[0]);
        lemma_str_fields_push(t.drop_first(), x);
        assert(str_fields(q) == str_field(q[0]) + str_fields(q.drop_first()));
        assert(str_fields(t) == str_field(t[0]) + str_fields(t.drop_first()));
        assert(str_fields(q) =~= str_fields(t) + str_field(x));
    }
}

#[verifier::rlimit(50)]
proof fn lemma_id_pairs_roundtrip(prefix: Seq<u8>, o: Seq<(u32, u32)>, suffix: Seq<u8>)
    ensures
        parse_id_pairs(prefix + id_pairs(o) + suffix, prefix.len() as int, o.len()) == Some(
            (o, (prefix.len() + id_pairs(o).len()) as int),
        ),
    decreases o.len(),
{
    let b = prefix + id_pairs(o) + suffix;
    if o.len() == 0 {
        assert(o =~= seq![]);
    } else {
        let a = spec_u32_to_le_bytes(o[0].0);
        let c = spec_u32_to_le_bytes(o[0].1);
        let rest = o.drop_first();
        let tail = id_pairs(rest);
        assert(b =~= prefix + a + (c + tail + suffix));
        lemma_u32_roundtrip(prefix, o[0].0, c + tail + suffix);
        assert(b =~= (prefix + a) + c + (tail + suffix));
        lemma_u32_roundtrip(prefix + a, o[0].1, tail + suffix);
        assert(b =~= (prefix + a + c) + tail + suffix);
        lemma_id_pairs_roundtrip(prefix + a + c, rest, suffix);
        assert(seq![(o[0].0, o[0].1)] + rest =~= o);
    }
}

/// The intern ids, generation and flag that open a checkpoint row read back.
proof fn lemma_id_head(prefix: Seq<u8>, r: IdRow, rest: Seq<u8>)
    ensures
        ({
            let head = spec_u32_to_le_bytes(r.kind_id) + spec_u32_to_le_bytes(r.key_id) + spec_u64_to_le_bytes(r.gen)
                + seq![flag_byte(r.hidden)];
            let b = prefix + head + rest;
            let p = prefix.len() as int;
            &&& parse_u32_at(b, p) == Some((r.kind_id, p + 4))
            &&& parse_u32_at(b, p + 4) == Some((r.key_id, p + 8))
            &&& parse_u64_at(b, p + 8) == Some((r.gen, p + 16))
            &&& p + 17 == prefix.len() + head.len()
            &&& b[p + 16] == flag_byte(r.hidden)
        }),
{
    let k = spec_u32_to_le_bytes(r.kind_id);
    let y = spec_u32_to_le_bytes(r.key_id);
    let g = spec_u64_to_le_bytes(r.gen);
    let h: Seq<u8> = seq![flag_byte(r.hidden)];
    let b = prefix + (k + y + g + h) + rest;
    assert(b =~= prefix + k + (y + g + h + rest));
    lemma_u32_roundtrip(prefix, r.kind_id, y + g + h + rest);
    assert(b =~= (prefix + k) + y + (g + h + rest));
    lemma_u32_roundtrip(prefix + k, r.key_id, g + h + rest);
    assert(b =~= (prefix + k + y) + g + (h + rest));
    lemma_u64_roundtrip(prefix + k + y, r.gen, h + rest);
}

#[verifier::rlimit(60)]
proof fn lemma_id_row_roundtrip(prefix: Seq<u8>, r: IdRow, suffix: Seq<u8>)
    requires
        r.owned.len() <= u32::MAX,
        opt_fits(r.action_id),
    ensures
        parse_id_row(prefix + id_row(r) + suffix, prefix.len() as int) == Some(
            (r, (prefix.len() + id_row(r).len()) as int),
        ),
{
    let head = spec_u32_to_le_bytes(r.kind_id) + spec_u32_to_le_bytes(r.key_id) + spec_u64_to_le_bytes(r.gen) + seq![
        flag_byte(r.hidden),
    ];
    let a = opt_str_field(r.action_id);
    let n = spec_u32_to_le_bytes(r.owned.len() as u32);
    let pf = id_pairs(r.owned);
    assert(id_row(r) =~= head + a + n + pf);
    let b = prefix + id_row(r) + suffix;
    assert(b =~= prefix + head + (a + n + pf + suffix));
    lemma_id_head(prefix, r, a + n + pf + suffix);
    assert(b =~= (prefix + head) + a + (n + pf + suffix));
    lemma_opt_str_field_roundtrip(prefix + head, r.action_id, n + pf + suffix);
    assert(b =~= (prefix + head + a) + n + (pf + suffix));
    lemma_u32_roundtrip(prefix + head + a, r.owned.len() as u32, pf + suffix);
    assert(b =~= (prefix + head + a + n) + pf + suffix);
    lemma_id_pairs_roundtrip(prefix + head + a + n, r.owned, suffix);
    assert(r.owned.len() as u32 as nat == r.owned.len());
}

#[verifier::rlimit(50)]
proof fn lemma_id_rows_roundtrip(prefix: Seq<u8>, rows: Seq<IdRow>, suffix: Seq<u8>)
    requires
        forall|i: int| 0 <= i < rows.len() ==> (#[trigger] rows[i]).owned.len() <= u32::MAX && opt_fits(rows[i].action_id),
    ensures
        parse_id_rows(prefix + id_rows(rows) + suffix, prefix.len() as int, rows.len()) == Some(
            (rows, (prefix.len() + id_rows(rows).len()) as int),
        ),
    decreases rows.len(),
{
    let b = prefix + id_rows(rows) + suffix;
    if rows.len() == 0 {
        assert(rows =~= seq![]);
    } else {
        let r = rows[0];
        let rest = rows.drop_first();
        assert forall|i: int| 0 <= i < rest.len() implies (#[trigger] rest[i]).owned.len() <= u32::MAX && opt_fits(
            rest[i].action_id,
        ) by {
            assert(rest[i] == rows[i + 1]);
        }
        assert(rows[0].owned.len() <= u32::MAX && opt_fits(rows[0].action_id));
        let tail = id_rows(rest);
        assert(b =~= prefix + id_row(r) + (tail + suffix));
        lemma_id_row_roundtrip(prefix, r, tail + suffix);
        assert(b =~= (prefix + id_row(r)) + tail + suffix);
        lemma_id_rows_roundtrip(prefix + id_row(r), rest, suffix);
        assert(seq![r] + rest =~= rows);
    }
}

#[verifier::rlimit(50)]
proof fn lemma_str_fields_roundtrip(prefix: Seq<u8>, t: Seq<Seq<char>>, suffix: Seq<u8>)
    requires
        forall|i: int| 0 <= i < t.len() ==> fits_str_field(#[trigger] t[i]),
    ensures
        parse_strs(prefix + str_fields(t) + suffix, prefix.len() as int, t.len()) == Some(
            (t, (prefix.len() + str_fields(t).len()) as int),
        ),
    decreases t.len(),
{
    let b = prefix + str_fields(t) + suffix;
    if t.len() == 0 {
        assert(t =~= seq![]);
    } else {
        let rest = t.drop_first();
        assert forall|i: int| 0 <= i < rest.len() implies fits_str_field(#[trigger] rest[i]) by {
            assert(rest[i] == t[i + 1]);
        }
        assert(fits_str_field(t[0]));
        let tail = str_fields(rest);
        assert(b =~= prefix + str_field(t[0]) + (tail + suffix));
        lemma_str_field_roundtrip(prefix, t[0], tail + suffix);
        assert(b =~= (prefix + str_field(t[0])) + tail + suffix);
        lemma_str_fields_roundtrip(prefix + str_field(t[0]), rest, suffix);
        assert(seq![t[0]] + rest =~= t);
    }
}

/// A checkpoint reads back as the page count, intern table and rows it was
/// written from.
pub proof fn law_checkpoint_roundtrip(pages: u32, intern: Seq<Seq<char>>, rows: Seq<IdRow>)
    requires
        checkpoint_fits(intern, rows),
    ensures
        parse_checkpoint_raw(checkpoint_bytes(pages, intern, rows)) == Some((pages, intern, rows)),
{
    let b = checkpoint_bytes(pages, intern, rows);
    let m = checkpoint_magic();
    let pg = spec_u32_to_le_bytes(pages);
    let n = spec_u32_to_le_bytes(intern.len() as u32);
    let sf = str_fields(intern);
    let c = spec_u32_to_le_bytes(rows.len() as u32);
    let rf = id_rows(rows);
    let empty = Seq::<u8>::empty();
    assert(b =~= m + pg + (n + sf + c + rf));
    lemma_u32_roundtrip(m, pages, n + sf + c + rf);
    assert(b =~= (m + pg) + n + (sf + c + rf));
    lemma_u32_roundtrip(m + pg, intern.len() as u32, sf + c + rf);
    assert(b =~= (m + pg + n) + sf + (c + rf));
    lemma_str_fields_roundtrip(m + pg + n, intern, c + rf);
    assert(b =~= (m + pg + n + sf) + c + rf);
    lemma_u32_roundtrip(m + pg + n + sf, rows.len() as u32, rf);
    assert(b =~= (m + pg + n + sf + c) + rf + empty);
    lemma_id_rows_roundtrip(m + pg + n + sf + c, rows, empty);
    assert(b.subrange(0, 8) =~= m);
    assert(intern.len() as u32 as nat == intern.len());
    assert(rows.len() as u32 as nat == rows.len());
}

/// The id of `s` in the intern table, adding `s` when it is new; refused
/// when a new string would not get a `u32` id.
fn intern_str(table: &mut Vec<String>, s: &str) -> (r: Result<u32, String>)
    requires
        old(table)@.len() <= u32::MAX,
    ensures
        final(table)@.len() <= u32::MAX,
        strs(final(table)@) == strs(old(table)@) || strs(final(table)@) == strs(old(table)@).push(s@),
        old(table)@.len() < u32::MAX ==> r is Ok,
        r matches Ok(id) ==> (id as int) < final(table)@.len() && strs(final(table)@)[id as int] == s@,
{
    let mut i: usize = 0;
    while i < table.len()
        invariant
            i <= table@.len(),
            table@.len() <= u32::MAX,
        decreases table@.len() - i,
    {
        if crate::text::str_eq(table[i].as_str(), s) {
            return Ok(i as u32);
        }
        i = i + 1;
    }
    if table.len() >= 0xffff_ffff {
        return Err(String::from_str("too many interned strings"));
    }
    let id = table.len() as u32;
    let ghost before = table@;
    table.push(s.to_owned());
    assert(strs(table@) =~= strs(before).push(s@));
    Ok(id)
}

proof fn lemma_resolve_pairs_extend(t: Seq<Seq<char>>, u: Seq<Seq<char>>, o: Seq<(u32, u32)>)
    requires
        t.len() <= u.len(),
        u.subrange(0, t.len() as int) == t,
        resolve_pairs(t, o) is Some,
    ensures
        resolve_pairs(u, o) == resolve_pairs(t, o),
    decreases o.len(),
{
    if o.len() > 0 {
        lemma_resolve_pairs_extend(t, u, o.drop_last());
        let e = o.last();
        assert(u[e.0 as int] == u.subrange(0, t.len() as int)[e.0 as int]);
        assert(u[e.1 as int] == u.subrange(0, t.len() as int)[e.1 as int]);
    }
}

proof fn lemma_resolve_row_extend(t: Seq<Seq<char>>, u: Seq<Seq<char>>, r: IdRow)
    requires
        t.len() <= u.len(),
        u.subrange(0, t.len() as int) == t,
        resolve_row(t, r) is Some,
    ensures
        resolve_row(u, r) == resolve_row(t, r),
{
    assert(u[r.kind_id as int] == u.subrange(0, t.len() as int)[r.kind_id as int]);
    assert(u[r.key_id as int] == u.subrange(0, t.len() as int)[r.key_id as int]);
    lemma_resolve_pairs_extend(t, u, r.owned);
}

proof fn lemma_resolve_rows_all(t: Seq<Seq<char>>, rows: Seq<IdRow>, snaps: Seq<SnapRow>)
    requires
        rows.len() == snaps.len(),
        forall|k: int| 0 <= k < rows.len() ==> resolve_row(t, #[trigger] rows[k]) == Some(snaps[k]),
    ensures
        resolve_rows(t, rows) == Some(snaps),
    decreases rows.len(),
{
    if rows.len() > 0 {
        let n = rows.len() - 1;
        assert forall|k: int| 0 <= k < rows.drop_last().len() implies resolve_row(t, #[trigger] rows.drop_last()[k])
            == Some(snaps.drop_last()[k]) by {
            assert(rows.drop_last()[k] == rows[k]);
        }
        lemma_resolve_rows_all(t, rows.drop_last(), snaps.drop_last());
        assert(resolve_row(t, rows[n]) == Some(snaps[n]));
        assert(snaps.drop_last().push(snaps[n]) =~= snaps);
    }
}

proof fn lemma_total_strings_prefix(rows: Seq<SnapRow>, a: int, b: int)
    requires
        0 <= a <= b <= rows.len(),
    ensures
        total_strings(rows.subrange(0, a)) <= total_strings(rows.subrange(0, b)),
    decreases b - a,
{
    if a < b {
        lemma_total_strings_prefix(rows, a, b - 1);
        assert(rows.subrange(0, b).drop_last() =~= rows.subrange(0, b - 1));
    }
}

/// Whether `x` is the kind, the key, or a property name or value of `r`.
pub open spec fn row_string(r: SnapRow, x: Seq<char>) -> bool {
    x == r.kind || x == r.key || exists|i: int| 0 <= i < r.props.len() && (#[trigger] r.props[i].0 == x || r.props[i].1 == x)
}

/// The table `u` is the table `t` with at most one more string, from `r`.
spec fn grown_by(t: Seq<Seq<char>>, u: Seq<Seq<char>>, x: Seq<char>) -> bool {
    u == t || u == t.push(x)
}

proof fn lemma_grown_prefix(t0: Seq<Seq<char>>, t: Seq<Seq<char>>, u: Seq<Seq<char>>, x: Seq<char>)
    requires
        t0.len() <= t.len(),
        t.subrange(0, t0.len() as int) == t0,
        grown_by(t, u, x),
    ensures
        t.len() <= u.len() <= t.len() + 1,
        u.subrange(0, t0.len() as int) == t0,
        u.subrange(0, t.len() as int) == t,
        forall|q: int| 0 <= q < t.len() ==> u[q] == t[q],
        u.len() == t.len() + 1 ==> u[t.len() as int] == x,
{
    if u == t.push(x) {
        assert(u.subrange(0, t0.len() as int) =~= t.subrange(0, t0.len() as int));
        assert(u.subrange(0, t.len() as int) =~= t);
    } else {
        assert(u.subrange(0, t.len() as int) =~= t);
    }
}

/// Intern the strings of one row and give its checkpoint form.
#[verifier::rlimit(60)]
fn intern_row(table: &mut Vec<String>, row: &SidecarRow) -> (r: Result<IdRowExec, String>)
    requires
        old(table)@.len() <= u32::MAX,
    ensures
        final(table)@.len() <= u32::MAX,
        old(table)@.len() <= final(table)@.len() <= old(table)@.len() + row_strings(row@),
        strs(final(table)@).subrange(0, old(table)@.len() as int) == strs(old(table)@),
        forall|q: int| old(table)@.len() <= q < final(table)@.len() ==> row_string(row@, #[trigger] strs(final(table)@)[q]),
        old(table)@.len() + row_strings(row@) <= u32::MAX ==> r is Ok,
        r matches Ok(ir) ==> resolve_row(strs(final(table)@), ir@) == Some(row@) && ir@.owned.len()
            <= row@.props.len() && ir@.action_id == row@.action_id,
{
    let ghost t0 = strs(table@);
    let ghost rv = row@;
    let ghost pv = pairs_view(row.props@);
    assert(strs(table@).subrange(0, t0.len() as int) =~= t0);
    let ghost before_kind = strs(table@);
    let kind_id = intern_str(table, row.kind.as_str())?;
    proof {
        lemma_grown_prefix(t0, before_kind, strs(table@), rv.kind);
    }
    let ghost before_key = strs(table@);
    let key_id = intern_str(table, row.key.as_str())?;
    proof {
        lemma_grown_prefix(t0, before_key, strs(table@), rv.key);
        assert(strs(table@)[kind_id as int] == rv.kind);
        assert forall|q: int| t0.len() <= q < strs(table@).len() implies row_string(rv, #[trigger] strs(table@)[q]) by {
            if q < before_key.len() {
                assert(strs(table@)[q] == before_key[q]);
            }
        }
    }
    let mut owned: Vec<(u32, u32)> = Vec::new();
    let mut j: usize = 0;
    assert(pv.subrange(0, 0) =~= Seq::<(Seq<char>, Seq<char>)>::empty());
    while j < row.props.len()
        invariant
            j <= row.props@.len(),
            rv == row@,
            t0 == strs(old(table)@),
            t0.len() == old(table)@.len(),
            pv == pairs_view(row.props@),
            pv.len() == row.props@.len(),
            table@.len() <= u32::MAX,
            t0.len() + 2 + 2 * j >= table@.len() >= t0.len(),
            strs(table@).subrange(0, t0.len() as int) == t0,
            (kind_id as int) < table@.len(),
            (key_id as int) < table@.len(),
            strs(table@)[kind_id as int] == rv.kind,
            strs(table@)[key_id as int] == rv.key,
            forall|q: int| t0.len() <= q < table@.len() ==> row_string(rv, #[trigger] strs(table@)[q]),
            owned@.len() == j,
            resolve_pairs(strs(table@), owned@) == Some(pv.subrange(0, j as int)),
            t0.len() + row_strings(rv) <= u32::MAX ==> t0.len() + 2 + 2 * pv.len() <= u32::MAX,
        decreases row.props@.len() - j,
    {
        let e = &row.props[j];
        assert(pv[j as int] == (e.0@, e.1@));
        let ghost t1 = strs(table@);
        let name_id = match intern_str(table, e.0.as_str()) {
            Ok(id) => id,
            Err(err) => {
                proof {
                    lemma_grown_prefix(t0, t1, strs(table@), e.0@);
                    assert forall|q: int| t0.len() <= q < strs(table@).len() implies row_string(
                        rv,
                        #[trigger] strs(table@)[q],
                    ) by {
                        if q < t1.len() {
                            assert(strs(table@)[q] == t1[q]);
                        } else {
                            assert(rv.props[j as int].0 == e.0@);
                        }
                    }
                }
                return Err(err);
            },
        };
        proof {
            lemma_grown_prefix(t0, t1, strs(table@), e.0@);
            lemma_resolve_pairs_extend(t1, strs(table@), owned@);
        }
        let ghost t2 = strs(table@);
        let value_id = match intern_str(table, e.1.as_str()) {
            Ok(id) => id,
            Err(err) => {
                proof {
                    lemma_grown_prefix(t0, t2, strs(table@), e.1@);
                    assert forall|q: int| t0.len() <= q < strs(table@).len() implies row_string(
                        rv,
                        #[trigger] strs(table@)[q],
                    ) by {
                        if q < t1.len() {
                            assert(strs(table@)[q] == t1[q]);
                        } else if q < t2.len() {
                            assert(strs(table@)[q] == t2[q]);
                            assert(rv.props[j as int].0 == e.0@);
                        } else {
                            assert(rv.props[j as int].0 == e.0@);
                            assert(rv.props[j as int].1 == e.1@);
                        }
                    }
                }
                return Err(err);
            },
        };
        proof {
            lemma_grown_prefix(t0, t2, strs(table@), e.1@);
            lemma_resolve_pairs_extend(t2, strs(table@), owned@);
            let t3 = strs(table@);
            assert(t3[name_id as int] == t2[name_id as int]);
            assert forall|q: int| t0.len() <= q < t3.len() implies row_string(rv, #[trigger] t3[q]) by {
                if q < t1.len() {
                    assert(t2[q] == t1[q]);
                    assert(t3[q] == t1[q]);
                } else if q < t2.len() {
                    assert(t3[q] == t2[q]);
                    assert(rv.props[j as int].0 == e.0@);
                } else {
                    assert(rv.props[j as int].0 == e.0@);
                    assert(rv.props[j as int].1 == e.1@);
                }
            }
        }
        let ghost before = owned@;
        owned.push((name_id, value_id));
        proof {
            let t3 = strs(table@);
            assert(owned@.drop_last() =~= before);
            assert(pv.subrange(0, j + 1) =~= pv.subrange(0, j as int).push((t3[name_id as int], t3[value_id as int])));
        }
        j = j + 1;
    }
    assert(pv.subrange(0, pv.len() as int) =~= pv);
    let ir = IdRowExec { kind_id, key_id, gen: row.gen, hidden: row.hidden, action_id: clone_opt_str(&row.action_id), owned };
    Ok(ir)
}

proof fn lemma_row_string_fits(r: SnapRow, x: Seq<char>)
    requires
        row_fits(r),
        row_string(r, x),
    ensures
        fits_str_field(x),
{
    if x != r.kind && x != r.key {
        let i = choose|i: int| 0 <= i < r.props.len() && (#[trigger] r.props[i].0 == x || r.props[i].1 == x);
        assert(fits_str_field(r.props[i].0) && fits_str_field(r.props[i].1));
    }
}

/// The intern table of `rows` and their checkpoint forms.
fn intern_rows(rows: &Vec<SidecarRow>) -> (r: Result<(Vec<String>, Vec<IdRowExec>), String>)
    ensures
        delta_fits(snap_rows(rows@)) && total_strings(snap_rows(rows@)) <= u32::MAX ==> r is Ok,
        r matches Ok((table, ids)) ==> {
            &&& table@.len() <= u32::MAX
            &&& ids@.len() == rows@.len()
            &&& forall|k: int| 0 <= k < ids@.len() ==> resolve_row(strs(table@), #[trigger] ids@[k]@) == Some(
                snap_rows(rows@)[k],
            )
            &&& forall|k: int| 0 <= k < ids@.len() ==> (#[trigger] ids@[k]@).owned.len() <= snap_rows(rows@)[k].props.len()
                && ids@[k]@.action_id == snap_rows(rows@)[k].action_id
            &&& delta_fits(snap_rows(rows@)) ==> forall|q: int| 0 <= q < table@.len() ==> fits_str_field(
                #[trigger] strs(table@)[q],
            )
        },
{
    let ghost rv = snap_rows(rows@);
    let mut table: Vec<String> = Vec::new();
    let mut ids: Vec<IdRowExec> = Vec::new();
    let mut i: usize = 0;
    assert(rv.subrange(0, 0) =~= Seq::<SnapRow>::empty());
    while i < rows.len()
        invariant
            i <= rows@.len(),
            rv == snap_rows(rows@),
            table@.len() <= u32::MAX,
            table@.len() <= total_strings(rv.subrange(0, i as int)),
            ids@.len() == i,
            forall|k: int| 0 <= k < i ==> resolve_row(strs(table@), #[trigger] ids@[k]@) == Some(rv[k]),
            forall|k: int| 0 <= k < i ==> (#[trigger] ids@[k]@).owned.len() <= rv[k].props.len() && ids@[k]@.action_id
                == rv[k].action_id,
            delta_fits(rv) ==> forall|q: int| 0 <= q < table@.len() ==> fits_str_field(#[trigger] strs(table@)[q]),
        decreases rows@.len() - i,
    {
        let ghost t = strs(table@);
        assert(rv[i as int] == rows@[i as int]@);
        proof {
            assert(rv.subrange(0, i + 1).drop_last() =~= rv.subrange(0, i as int));
            assert(rv.subrange(0, i + 1).last() == rv[i as int]);
            lemma_total_strings_prefix(rv, i + 1, rv.len() as int);
            assert(rv.subrange(0, rv.len() as int) =~= rv);
        }
        let ir = intern_row(&mut table, &rows[i])?;
        proof {
            let u = strs(table@);
            assert forall|k: int| 0 <= k < i implies resolve_row(u, #[trigger] ids@[k]@) == Some(rv[k]) by {
                lemma_resolve_row_extend(t, u, ids@[k]@);
            }
            if delta_fits(rv) {
                assert(row_fits(rv[i as int]));
                assert forall|q: int| 0 <= q < u.len() implies fits_str_field(#[trigger] u[q]) by {
                    if q < t.len() {
                        assert(u[q] == u.subrange(0, t.len() as int)[q]);
                    } else {
                        lemma_row_string_fits(rv[i as int], u[q]);
                    }
                }
            }
        }
        let ghost before = ids@;
        ids.push(ir);
        assert(ids@[i as int] == ir);
        assert forall|k: int| 0 <= k < i implies #[trigger] ids@[k] == before[k] by {}
        i = i + 1;
    }
    assert(rv.subrange(0, rv.len() as int) =~= rv);
    Ok((table, ids))
}

/// Append one checkpoint row; refuses more than `u32::MAX` id pairs.
fn write_id_row(body: &mut Vec<u8>, row: &IdRowExec) -> (r: Result<(), String>)
    ensures
        r is Ok <==> row@.owned.len() <= u32::MAX && opt_fits(row@.action_id),
        r is Ok ==> final(body)@ == old(body)@ + id_row(row@),
{
    let ghost start = body@;
    if row.owned.len() > 0xffff_ffff {
        return Err(String::from_str("too many properties"));
    }
    push_bytes(body, u32_to_le_bytes(row.kind_id).as_slice());
    push_bytes(body, u32_to_le_bytes(row.key_id).as_slice());
    push_bytes(body, u64_to_le_bytes(row.gen).as_slice());
    body.push(if row.hidden { 1u8 } else { 0u8 });
    match write_opt_str(body, &row.action_id) {
        Ok(()) => {},
        Err(e) => {
            return Err(e);
        },
    }
    push_bytes(body, u32_to_le_bytes(row.owned.len() as u32).as_slice());
    let ghost header = body@;
    let mut i: usize = 0;
    assert(row.owned@.subrange(0, 0) =~= Seq::<(u32, u32)>::empty());
    while i < row.owned.len()
        invariant
            i <= row.owned@.len(),
            body@ == header + id_pairs(row.owned@.subrange(0, i as int)),
        decreases row.owned@.len() - i,
    {
        let (a, c) = row.owned[i];
        push_bytes(body, u32_to_le_bytes(a).as_slice());
        push_bytes(body, u32_to_le_bytes(c).as_slice());
        proof {
            assert(row.owned@.subrange(0, i + 1) =~= row.owned@.subrange(0, i as int).push((a, c)));
            lemma_id_pairs_push(row.owned@.subrange(0, i as int), (a, c));
        }
        i = i + 1;
    }
    assert(row.owned@.subrange(0, row.owned@.len() as int) =~= row.owned@);
    assert(body@ =~= start + id_row(row@));
    Ok(())
}

/// The checkpoint bytes of an intern table and rows.
fn write_checkpoint(pages: u32, table: &Vec<String>, ids: &Vec<IdRowExec>) -> (r: Result<Vec<u8>, String>)
    ensures
        checkpoint_fits(strs(table@), id_row_views(ids@)) ==> r is Ok,
        r matches Ok(b) ==> b@ == checkpoint_bytes(pages, strs(table@), id_row_views(ids@)) && checkpoint_fits(
            strs(table@),
            id_row_views(ids@),
        ),
{
    let ghost t = strs(table@);
    let ghost idv = id_row_views(ids@);
    if table.len() > 0xffff_ffff {
        return Err(String::from_str("too many interned strings"));
    }
    if ids.len() > 0xffff_ffff {
        return Err(String::from_str("too many identities"));
    }
    let mut body = checkpoint_magic_bytes();
    push_bytes(&mut body, u32_to_le_bytes(pages).as_slice());
    push_bytes(&mut body, u32_to_le_bytes(table.len() as u32).as_slice());
    let ghost head = body@;
    let mut i: usize = 0;
    assert(t.subrange(0, 0) =~= Seq::<Seq<char>>::empty());
    while i < table.len()
        invariant
            i <= table@.len(),
            t == strs(table@),
            body@ == head + str_fields(t.subrange(0, i as int)),
            forall|q: int| 0 <= q < i ==> fits_str_field(#[trigger] t[q]),
        decreases table@.len() - i,
    {
        match write_str(&mut body, table[i].as_str()) {
            Ok(()) => {},
            Err(e) => {
                assert(!fits_str_field(t[i as int]));
                return Err(e);
            },
        }
        proof {
            assert(t.subrange(0, i + 1) =~= t.subrange(0, i as int).push(t[i as int]));
            lemma_str_fields_push(t.subrange(0, i as int), t[i as int]);
        }
        i = i + 1;
    }
    assert(t.subrange(0, t.len() as int) =~= t);
    push_bytes(&mut body, u32_to_le_bytes(ids.len() as u32).as_slice());
    let ghost mid = body@;
    let mut j: usize = 0;
    assert(idv.subrange(0, 0) =~= Seq::<IdRow>::empty());
    while j < ids.len()
        invariant
            j <= ids@.len(),
            idv == id_row_views(ids@),
            body@ == mid + id_rows(idv.subrange(0, j as int)),
            forall|q: int| 0 <= q < j ==> (#[trigger] idv[q]).owned.len() <= u32::MAX && opt_fits(idv[q].action_id),
        decreases ids@.len() - j,
    {
        assert(idv[j as int] == ids@[j as int]@);
        match write_id_row(&mut body, &ids[j]) {
            Ok(()) => {},
            Err(e) => {
                return Err(e);
            },
        }
        proof {
            assert(idv.subrange(0, j + 1) =~= idv.subrange(0, j as int).push(idv[j as int]));
            lemma_id_rows_push(idv.subrange(0, j as int), idv[j as int]);
        }
        j = j + 1;
    }
    assert(idv.subrange(0, idv.len() as int) =~= idv);
    assert(body@ =~= checkpoint_bytes(pages, t, idv));
    Ok(body)
}

/// The checkpoint bytes of `rows` at `pages` committed pages: an intern table
/// of their strings in order of first use, then each row by intern ids.
/// Refused only when a string is over `u16::MAX` bytes or a count does not
/// fit a `u32`.
pub fn encode_checkpoint(pages: u32, rows: &Vec<SidecarRow>) -> (r: Result<Vec<u8>, String>)
    ensures
        delta_fits(snap_rows(rows@)) && total_strings(snap_rows(rows@)) <= u32::MAX ==> r is Ok,
        r matches Ok(b) ==> parse_checkpoint(b@) == Some((pages, snap_rows(rows@))),
{
    let ghost rv = snap_rows(rows@);
    let (table, ids) = intern_rows(rows)?;
    let b = write_checkpoint(pages, &table, &ids)?;
    proof {
        let t = strs(table@);
        let idv = id_row_views(ids@);
        law_checkpoint_roundtrip(pages, t, idv);
        assert forall|k: int| 0 <= k < idv.len() implies resolve_row(t, #[trigger] idv[k]) == Some(rv[k]) by {
            assert(idv[k] == ids@[k]@);
        }
        lemma_resolve_rows_all(t, idv, rv);
    }
    Ok(b)
}

/// A sidecar file: the body, then its CRC-32 little-endian.
pub open spec fn framed(body: Seq<u8>) -> Seq<u8> {
    body + spec_u32_to_le_bytes(crc32(body))
}

/// The body of a sidecar file whose trailing CRC-32 matches; `None` for a
/// file under 12 bytes or a mismatch.
pub open spec fn unframed(b: Seq<u8>) -> Option<Seq<u8>> {
    if b.len() < 12 {
        None
    } else {
        let body = b.subrange(0, b.len() - 4);
        if spec_u32_from_le_bytes(b.subrange(b.len() - 4, b.len() as int)) == crc32(body) {
            Some(body)
        } else {
            None
        }
    }
}

/// A framed body of at least 8 bytes reads back as the body.
pub proof fn law_frame_roundtrip(body: Seq<u8>)
    requires
        body.len() >= 8,
    ensures
        unframed(framed(body)) == Some(body),
{
    lemma_auto_spec_u32_to_from_le_bytes();
    let b = framed(body);
    let c = spec_u32_to_le_bytes(crc32(body));
    assert(b.subrange(0, b.len() - 4) =~= body);
    assert(b.subrange(b.len() - 4, b.len() as int) =~= c);
}

/// `body` followed by its CRC-32.
pub fn frame_checksummed(body: &[u8]) -> (r: Vec<u8>)
    ensures
        r@ == framed(body@),
{
    let crc = checksum(body);
    let mut out = crate::codec::bytes_to_vec(body);
    push_bytes(&mut out, u32_to_le_bytes(crc).as_slice());
    out
}

/// The body of a sidecar file; fails when it is too short or its checksum
/// does not match.
pub fn read_checksummed(bytes: &[u8]) -> (r: Result<Vec<u8>, String>)
    ensures
        match r {
            Ok(body) => unframed(bytes@) == Some(body@),
            Err(_) => unframed(bytes@) is None,
        },
        bytes@.len() < 12 ==> (r matches Err(e) && e@ == "join sidecar too short"@),
        bytes@.len() >= 12 && unframed(bytes@) is None ==> (r matches Err(e) && e@ == "join checksum mismatch"@),
        r matches Err(e) ==> e@ == "join sidecar too short"@ || e@ == "join checksum mismatch"@,
{
    if bytes.len() < 12 {
        return Err(String::from_str("join sidecar too short"));
    }
    let n = bytes.len() - 4;
    let body = vstd::slice::slice_subrange(bytes, 0, n);
    let expected = u32_from_le_bytes(vstd::slice::slice_subrange(bytes, n, bytes.len()));
    if checksum(body) != expected {
        return Err(String::from_str("join checksum mismatch"));
    }
    Ok(crate::codec::bytes_to_vec(body))
}

} // verus!
