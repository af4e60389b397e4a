//! Object-log record bodies, record frames, and 4 KiB checksummed pages.
//!
//! A page is `crc32(le) | used(u16 le) | frames`, the CRC covering every byte
//! after itself. A frame is `len(u16 le) | body`. A body is
//! `gen(u64 le) | hidden(u8) | kind | key | nprops(u16 le) | (name, value)*`
//! with names in increasing byte order, then the action id when the record
//! has one. Page 0 is the superblock:
//! `crc | "MIKURAV1" | page size(u16 le) | committed pages(u32 le) | zeros`.
//! Rebuild trusts only pages `1..=committed`.

use vstd::bytes::*;
use vstd::prelude::*;
use vstd::utf8::*;

use crate::codec::{
    fits_str_field, lemma_str_field_roundtrip, lemma_u64_roundtrip, opt_fits, parse_str_at, parse_u64_at,
    push_bytes, read_str, read_u16, read_u64, str_field, take, write_str,
};
use crate::text::{bytes_eq, concat_str, decimal_string};
use crate::props::{
    key_lt, lemma_prop_get_at, prop_get, prop_has, prop_index, sorted_keys, Props,
};
use crate::record::{ObjectRecord, RecordView};

verus! {

broadcast use {encode_utf8_decode_utf8, encode_utf8_valid_utf8};

pub const PAGE: usize = 4096;

pub const CRC_LEN: usize = 4;

pub const USED_LEN: usize = 2;

pub const PAGE_HDR: usize = 6;

pub const SUPER_COMMIT_OFF: usize = 14;

/// The CRC-32 (IEEE) checksum that `crc32fast::hash` computes.
pub uninterp spec fn crc32(bytes: Seq<u8>) -> u32;

/// `crc32fast::hash`: the CRC-32 (IEEE) checksum of the bytes.
#[verifier::external_body]
fn crc32_of(bytes: &[u8]) -> (r: u32)
    ensures
        r == crc32(bytes@),
{
    crc32fast::hash(bytes)
}

/// The checksum of `bytes`, as the pages and sidecars store it.
pub fn checksum(bytes: &[u8]) -> (r: u32)
    ensures
        r == crc32(bytes@),
{
    crc32_of(bytes)
}

// ---------------------------------------------------------------- bodies

/// The property entries as written: name field then value field, in order.
pub open spec fn props_fields(p: Seq<(Seq<char>, Seq<char>)>) -> Seq<u8>
    decreases p.len(),
{
    if p.len() == 0 {
        seq![]
    } else {
        str_field(p[0].0) + str_field(p[0].1) + props_fields(p.drop_first())
    }
}

/// Every name and value fits a `u16` length prefix.
pub open spec fn props_fit(p: Seq<(Seq<char>, Seq<char>)>) -> bool {
    forall|i: int| 0 <= i < p.len() ==> fits_str_field(#[trigger] p[i].0) && fits_str_field(p[i].1)
}

/// Whether a record can be written as a body.
pub open spec fn body_fits(r: RecordView) -> bool {
    &&& fits_str_field(r.kind)
    &&& fits_str_field(r.key)
    &&& r.props.len() <= 0xffff
    &&& props_fit(r.props)
    &&& opt_fits(r.action_id)
}

/// The bytes after the properties: the action id's field, or nothing.
pub open spec fn action_tail(a: Option<Seq<char>>) -> Seq<u8> {
    match a {
        Some(x) => str_field(x),
        None => seq![],
    }
}

/// The body bytes of a record.
pub open spec fn body_bytes(r: RecordView) -> Seq<u8> {
    spec_u64_to_le_bytes(r.gen) + seq![if r.hidden { 1u8 } else { 0u8 }] + str_field(r.kind)
        + str_field(r.key) + spec_u16_to_le_bytes(r.props.len() as u16) + props_fields(r.props) + action_tail(
        r.action_id,
    )
}

/// The action id that ends a body whose properties end at `pos`: none when
/// the body ends there, else one string field that ends the body.
pub open spec fn parse_action_tail(b: Seq<u8>, pos: int) -> Option<Option<Seq<char>>> {
    if pos == b.len() {
        Some(None)
    } else {
        match parse_str_at(b, pos) {
            Some((x, end)) => if end == b.len() {
                Some(Some(x))
            } else {
                None
            },
            None => None,
        }
    }
}

/// `count` property entries read from `pos`: the pairs in the order read and
/// the position after them.
pub open spec fn parse_pairs(b: Seq<u8>, pos: int, count: nat) -> Option<
    (Seq<(Seq<char>, Seq<char>)>, int),
>
    decreases count,
{
    if count == 0 {
        if 0 <= pos <= b.len() {
            Some((seq![], pos))
        } else {
            None
        }
    } else {
        match parse_str_at(b, pos) {
            None => None,
            Some((k, p1)) => match parse_str_at(b, p1) {
                None => None,
                Some((v, p2)) => match parse_pairs(b, p2, (count - 1) as nat) {
                    None => None,
                    Some((rest, p3)) => Some((seq![(k, v)] + rest, p3)),
                },
            },
        }
    }
}

/// A body read back: the fields, with the property entries in the order they
/// stand in the bytes. `None` when the bytes are short, not UTF-8, or have
/// bytes after the action id.
pub open spec fn parse_body(b: Seq<u8>) -> Option<RecordView> {
    match parse_u64_at(b, 0) {
        None => None,
        Some((gen, p0)) => if p0 + 1 > b.len() {
            None
        } else {
            let hidden = b[p0] != 0;
            match parse_str_at(b, p0 + 1) {
                None => None,
                Some((kind, p1)) => match parse_str_at(b, p1) {
                    None => None,
                    Some((key, p2)) => if p2 + 2 > b.len() {
                        None
                    } else {
                        let n = spec_u16_from_le_bytes(b.subrange(p2, p2 + 2));
                        match parse_pairs(b, p2 + 2, n as nat) {
                            None => None,
                            Some((pairs, p3)) => match parse_action_tail(b, p3) {
                                None => None,
                                Some(action_id) => Some(RecordView { gen, kind, key, hidden, action_id, props: pairs }),
                            },
                        }
                    },
                },
            }
        },
    }
}

/// The value of the last entry named `k`: what a map filled by inserting the
/// entries in order holds for `k`.
pub open spec fn last_value(pairs: Seq<(Seq<char>, Seq<char>)>, k: Seq<char>) -> Option<Seq<char>>
    decreases pairs.len(),
{
    if pairs.len() == 0 {
        None
    } else if pairs.last().0 == k {
        Some(pairs.last().1)
    } else {
        last_value(pairs.drop_last(), k)
    }
}

/// A decoded record holds exactly what its body says.
pub open spec fn decoded_as(r: RecordView, p: RecordView) -> bool {
    &&& r.gen == p.gen
    &&& r.kind == p.kind
    &&& r.key == p.key
    &&& r.hidden == p.hidden
    &&& r.action_id == p.action_id
    &&& forall|k: Seq<char>| #[trigger] prop_get(r.props, k) == last_value(p.props, k)
}

pub proof fn lemma_props_fields_push(p: Seq<(Seq<char>, Seq<char>)>, e: (Seq<char>, Seq<char>))
    ensures
        props_fields(p.push(e)) == props_fields(p) + str_field(e.0) + str_field(e.1),
    decreases p.len(),
{
    if p.len() == 0 {
        let empty = Seq::<(Seq<char>, Seq<char>)>::empty();
        assert(p.push(e).drop_first() =~= empty);
        assert(props_fields(empty) == Seq::<u8>::empty());
        assert(props_fields(p) == Seq::<u8>::empty());
        assert(props_fields(p.push(e)) =~= props_fields(p) + str_field(e.0) + str_field(e.1));
    } else {
        assert(p.push(e).drop_first() =~= p.drop_first().push(e));
        lemma_props_fields_push(p.drop_first(), e);
        assert(props_fields(p.push(e)) =~= props_fields(p) + str_field(e.0) + str_field(e.1));
    }
}

pub proof fn lemma_parse_pairs_roundtrip(
    prefix: Seq<u8>,
    p: Seq<(Seq<char>, Seq<char>)>,
    suffix: Seq<u8>,
)
    requires
        props_fit(p),
    ensures
        parse_pairs(prefix + props_fields(p) + suffix, prefix.len() as int, p.len()) == Some(
            (p, (prefix.len() + props_fields(p).len()) as int),
        ),
    decreases p.len(),
{
    let b = prefix + props_fields(p) + suffix;
    if p.len() == 0 {
        assert(props_fields(p) == Seq::<u8>::empty());
        assert(p =~= seq![]);
    } else {
        let k = p[0].0;
        let v = p[0].1;
        let rest = p.drop_first();
        assert(props_fit(rest)) by {
            assert forall|i: int| 0 <= i < rest.len() implies fits_str_field(#[trigger] rest[i].0)
                && fits_str_field(rest[i].1) by {
                assert(rest[i] == p[i + 1]);
            }
        }
        assert(fits_str_field(p[0].0) && fits_str_field(p[0].1));
        let tail = props_fields(rest);
        assert(b =~= prefix + str_field(k) + (str_field(v) + tail + suffix));
        lemma_str_field_roundtrip(prefix, k, str_field(v) + tail + suffix);
        let p1 = prefix + str_field(k);
        assert(b =~= p1 + str_field(v) + (tail + suffix));
        lemma_str_field_roundtrip(p1, v, tail + suffix);
        let p2 = p1 + str_field(v);
        assert(b =~= p2 + tail + suffix);
        lemma_parse_pairs_roundtrip(p2, rest, suffix);
        assert(seq![(k, v)] + rest =~= p);
    }
}

/// The last entry named `k` in entries with increasing names is the only one.
pub proof fn lemma_last_value_sorted(p: Seq<(Seq<char>, Seq<char>)>, k: Seq<char>)
    requires
        sorted_keys(p),
    ensures
        last_value(p, k) == prop_get(p, k),
    decreases p.len(),
{
    if p.len() > 0 {
        let init = p.drop_last();
        assert(sorted_keys(init)) by {
            assert forall|i: int, j: int| 0 <= i < j < init.len() implies key_lt(
                #[trigger] init[i].0,
                #[trigger] init[j].0,
            ) by {
                assert(key_lt(p[i].0, p[j].0));
            }
        }
        lemma_last_value_sorted(init, k);
        let n = p.len() - 1;
        if p.last().0 == k {
            lemma_prop_get_at(p, n);
        } else {
            if prop_has(p, k) {
                let j = prop_index(p, k);
                assert(j != n);
                assert(init[j] == p[j]);
                lemma_prop_get_at(init, j);
                lemma_prop_get_at(p, j);
            }
            if prop_has(init, k) {
                let j = prop_index(init, k);
                assert(p[j] == init[j]);
            }
        }
    }
}

/// The generation, flag, kind, key and property count that open a body
/// read back.
proof fn lemma_body_head(r: RecordView, rest: Seq<u8>)
    requires
        fits_str_field(r.kind),
        fits_str_field(r.key),
    ensures
        ({
            let head = spec_u64_to_le_bytes(r.gen) + seq![if r.hidden { 1u8 } else { 0u8 }] + str_field(r.kind)
                + str_field(r.key) + spec_u16_to_le_bytes(r.props.len() as u16);
            let b = head + rest;
            let p1 = 9 + str_field(r.kind).len() as int;
            let p2 = p1 + str_field(r.key).len() as int;
            &&& parse_u64_at(b, 0) == Some((r.gen, 8int))
            &&& b.len() >= 9
            &&& (b[8] != 0) == r.hidden
            &&& parse_str_at(b, 9) == Some((r.kind, p1))
            &&& parse_str_at(b, p1) == Some((r.key, p2))
            &&& p2 + 2 == head.len()
            &&& spec_u16_from_le_bytes(b.subrange(p2, p2 + 2)) == r.props.len() as u16
        }),
{
    lemma_auto_spec_u16_to_from_le_bytes();
    let g = spec_u64_to_le_bytes(r.gen);
    let h: Seq<u8> = seq![if r.hidden { 1u8 } else { 0u8 }];
    let fk = str_field(r.kind);
    let fy = str_field(r.key);
    let n = spec_u16_to_le_bytes(r.props.len() as u16);
    let b = (g + h + fk + fy + n) + rest;
    let empty = Seq::<u8>::empty();
    assert(b =~= empty + g + (h + fk + fy + n + rest));
    lemma_u64_roundtrip(empty, r.gen, h + fk + fy + n + rest);
    assert(b[8] == h[0]);
    assert(b =~= (g + h) + fk + (fy + n + rest));
    lemma_str_field_roundtrip(g + h, r.kind, fy + n + rest);
    assert(b =~= (g + h + fk) + fy + (n + rest));
    lemma_str_field_roundtrip(g + h + fk, r.key, n + rest);
    let p2 = (g + h + fk + fy).len() as int;
    assert(b.subrange(p2, p2 + 2) =~= n);
}

/// Reading back the body of a record gives the record: every field, and each
/// property in order.
#[verifier::rlimit(40)]
pub proof fn law_body_roundtrip(r: RecordView)
    requires
        body_fits(r),
    ensures
        parse_body(body_bytes(r)) == Some(r),
{
    let head = spec_u64_to_le_bytes(r.gen) + seq![if r.hidden { 1u8 } else { 0u8 }] + str_field(r.kind) + str_field(
        r.key,
    ) + spec_u16_to_le_bytes(r.props.len() as u16);
    let pf = props_fields(r.props);
    let t = action_tail(r.action_id);
    let b = body_bytes(r);
    assert(b =~= head + (pf + t));
    lemma_body_head(r, pf + t);
    assert(b =~= head + pf + t);
    lemma_parse_pairs_roundtrip(head, r.props, t);
    assert(r.props.len() as u16 as nat == r.props.len());
    let p3 = (head + pf).len() as int;
    match r.action_id {
        None => {
            assert(p3 == b.len());
        },
        Some(x) => {
            let empty = Seq::<u8>::empty();
            assert(b =~= (head + pf) + str_field(x) + empty);
            lemma_str_field_roundtrip(head + pf, x, empty);
        },
    }
}

/// A record written as a body and decoded again keeps its gen, kind, key,
/// hidden flag, action id and property map.
pub proof fn law_record_roundtrip(r: RecordView, d: RecordView)
    requires
        body_fits(r),
        sorted_keys(r.props),
        parse_body(body_bytes(r)) matches Some(p) && decoded_as(d, p),
    ensures
        d.gen == r.gen,
        d.kind == r.kind,
        d.key == r.key,
        d.hidden == r.hidden,
        d.action_id == r.action_id,
        forall|k: Seq<char>| #[trigger] prop_get(d.props, k) == prop_get(r.props, k),
{
    law_body_roundtrip(r);
    assert forall|k: Seq<char>| #[trigger] prop_get(d.props, k) == prop_get(r.props, k) by {
        lemma_last_value_sorted(r.props, k);
    }
}

/// The body of `record`; refuses a string over `u16::MAX` bytes or more than
/// `u16::MAX` properties.
pub fn encode_body(record: &ObjectRecord) -> (r: Result<Vec<u8>, String>)
    ensures
        r is Ok <==> body_fits(record@),
        r matches Ok(b) ==> b@ == body_bytes(record@),
{
    let mut body: Vec<u8> = Vec::new();
    let gen_bytes = u64_to_le_bytes(record.gen);
    push_bytes(&mut body, gen_bytes.as_slice());
    body.push(if record.hidden { 1u8 } else { 0u8 });
    write_str(&mut body, record.kind.as_str())?;
    write_str(&mut body, record.key.as_str())?;
    let entries = record.props.entries();
    if entries.len() > 0xffff {
        return Err(String::from_str("too many props"));
    }
    let n = entries.len() as u16;
    let n_bytes = u16_to_le_bytes(n);
    push_bytes(&mut body, n_bytes.as_slice());
    let ghost header = body@;
    let ghost p = record.props@;
    let mut i: usize = 0;
    while i < entries.len()
        invariant
            i <= entries@.len(),
            entries@.len() == p.len(),
            p == record.props@,
            entries@.map_values(|e: (String, String)| (e.0@, e.1@)) == p,
            body@ == header + props_fields(p.subrange(0, i as int)),
            forall|j: int| 0 <= j < i ==> fits_str_field(#[trigger] p[j].0) && fits_str_field(p[j].1),
        decreases entries@.len() - i,
    {
        let e = &entries[i];
        assert(p[i as int] == (e.0@, e.1@));
        match write_str(&mut body, e.0.as_str()) {
            Ok(()) => {
                assert(fits_str_field(e.0@));
            },
            Err(err) => {
                assert(!fits_str_field(e.0@));
                assert(!props_fit(p)) by {
                    assert(!fits_str_field(p[i as int].0));
                }
                assert(!body_fits(record@));
                return Err(err);
            },
        }
        match write_str(&mut body, e.1.as_str()) {
            Ok(()) => {
                assert(fits_str_field(e.1@));
            },
            Err(err) => {
                assert(!fits_str_field(e.1@));
                assert(!props_fit(p)) by {
                    assert(p[i as int].0 == e.0@);
                    assert(!fits_str_field(p[i as int].1));
                }
                assert(!body_fits(record@));
                return Err(err);
            },
        }
        proof {
            assert(fits_str_field(p[i as int].0) && fits_str_field(p[i as int].1));
            assert forall|j: int| 0 <= j < i + 1 implies fits_str_field(#[trigger] p[j].0)
                && fits_str_field(p[j].1) by {
                if j == i {
                } else {
                }
            }
            assert(p.subrange(0, i + 1) =~= p.subrange(0, i as int).push(p[i as int]));
            lemma_props_fields_push(p.subrange(0, i as int), p[i as int]);
        }
        i = i + 1;
    }
    assert(p.subrange(0, p.len() as int) =~= p);
    assert(props_fit(p));
    match &record.action_id {
        Some(a) => {
            write_str(&mut body, a.as_str())?;
        },
        None => {},
    }
    assert(body@ =~= body_bytes(record@));
    Ok(body)
}

spec fn finish_body(
    b: Seq<u8>,
    gen: u64,
    kind: Seq<char>,
    key: Seq<char>,
    hidden: bool,
    pairs: Option<(Seq<(Seq<char>, Seq<char>)>, int)>,
) -> Option<RecordView> {
    match pairs {
        None => None,
        Some((props, end)) => match parse_action_tail(b, end) {
            None => None,
            Some(action_id) => Some(RecordView { gen, kind, key, hidden, action_id, props }),
        },
    }
}

/// Decode one body. Entries with a repeated name keep the last value.
pub fn decode_body(body: &[u8]) -> (r: Result<ObjectRecord, String>)
    ensures
        match r {
            Ok(rec) => parse_body(body@) matches Some(p) && decoded_as(rec@, p),
            Err(_) => parse_body(body@) is None,
        },
{
    let (gen, pos) = read_u64(body, 0)?;
    let (hidden_byte, pos) = take(body, pos, 1)?;
    let hidden = hidden_byte[0] != 0;
    let (kind, pos) = read_str(body, pos)?;
    let (key, pos) = read_str(body, pos)?;
    let (nprops, start) = read_u16(body, pos)?;
    let ghost pairs_spec = parse_pairs(body@, start as int, nprops as nat);
    assert(hidden_byte@[0] == body@[8]);
    assert(parse_body(body@) == finish_body(body@, gen, kind@, key@, hidden, pairs_spec));
    let mut props = Props::new();
    let mut cur = start;
    let mut i: u16 = 0;
    let ghost mut acc: Seq<(Seq<char>, Seq<char>)> = seq![];
    while i < nprops
        invariant
            i <= nprops,
            start <= cur <= body@.len(),
            pairs_spec == parse_pairs(body@, start as int, nprops as nat),
            pairs_spec == match parse_pairs(body@, cur as int, (nprops - i) as nat) {
                Some((rest, e)) => Some((acc + rest, e)),
                None => None,
            },
            forall|k: Seq<char>| #[trigger] prop_get(props@, k) == last_value(acc, k),
            parse_body(body@) == finish_body(body@, gen, kind@, key@, hidden, pairs_spec),
        decreases nprops - i,
    {
        let (name, next) = match read_str(body, cur) {
            Ok(x) => x,
            Err(e) => {
                return Err(e);
            },
        };
        let (value, next) = match read_str(body, next) {
            Ok(x) => x,
            Err(e) => {
                return Err(e);
            },
        };
        proof {
            let entry = (name@, value@);
            let old_acc = acc;
            acc = acc.push(entry);
            match parse_pairs(body@, next as int, (nprops - i - 1) as nat) {
                Some((rest, e)) => {
                    assert(seq![entry] + rest =~= seq![entry] + rest);
                    assert(old_acc + (seq![entry] + rest) =~= acc + rest);
                },
                None => {},
            }
            assert(acc.drop_last() =~= old_acc);
        }
        props.insert(name, value);
        cur = next;
        i = i + 1;
    }
    assert(acc + seq![] =~= acc);
    let action_id = if cur == body.len() {
        None
    } else {
        let (a, end) = read_str(body, cur)?;
        if end != body.len() {
            return Err(String::from_str("trailing body bytes"));
        }
        Some(a)
    };
    Ok(ObjectRecord { gen, kind, key, hidden, action_id, props })
}

// ---------------------------------------------------------------- frames and pages

/// A body behind its `u16` length.
pub open spec fn frame(body: Seq<u8>) -> Seq<u8> {
    spec_u16_to_le_bytes(body.len() as u16) + body
}

/// The records of a run of frames, in order; `None` when a frame is cut short
/// or a body does not decode.
pub open spec fn parse_frames(b: Seq<u8>) -> Option<Seq<RecordView>>
    decreases b.len(),
{
    if b.len() == 0 {
        Some(seq![])
    } else if b.len() < 2 {
        None
    } else {
        let n = spec_u16_from_le_bytes(b.subrange(0, 2)) as int;
        if 2 + n > b.len() {
            None
        } else {
            match parse_body(b.subrange(2, 2 + n)) {
                None => None,
                Some(r) => match parse_frames(b.subrange(2 + n, b.len() as int)) {
                    None => None,
                    Some(rest) => Some(seq![r] + rest),
                },
            }
        }
    }
}

/// A full page whose leading CRC matches the bytes after it.
pub open spec fn sealed(page: Seq<u8>) -> bool {
    &&& page.len() == PAGE
    &&& spec_u32_from_le_bytes(page.subrange(0, 4)) == crc32(page.subrange(4, PAGE as int))
}

/// The `used` count of a data page.
pub open spec fn page_used(page: Seq<u8>) -> int {
    spec_u16_from_le_bytes(page.subrange(4, 6)) as int
}

/// The records on a data page: the frames in its first `used` bytes after the header.
pub open spec fn parse_data_page(page: Seq<u8>) -> Option<Seq<RecordView>> {
    if page.len() != PAGE || PAGE_HDR + page_used(page) > PAGE {
        None
    } else {
        parse_frames(page.subrange(PAGE_HDR as int, PAGE_HDR + page_used(page)))
    }
}

/// The superblock magic, `MIKURAV1`.
pub open spec fn magic() -> Seq<u8> {
    seq![77u8, 73u8, 75u8, 85u8, 82u8, 65u8, 86u8, 49u8]
}

/// The committed page count of a sealed superblock with the magic.
pub open spec fn superblock_committed(sb: Seq<u8>) -> Option<u32> {
    if sealed(sb) && sb.subrange(4, 12) == magic() {
        Some(spec_u32_from_le_bytes(sb.subrange(SUPER_COMMIT_OFF as int, SUPER_COMMIT_OFF + 4)))
    } else {
        None
    }
}

/// Page `i` of a log image.
pub open spec fn page_at(b: Seq<u8>, i: int) -> Seq<u8> {
    b.subrange(i * PAGE, (i + 1) * PAGE)
}

/// The records of data pages `1..=n`, each page sealed and decodable.
pub open spec fn committed_records(b: Seq<u8>, n: nat) -> Option<Seq<RecordView>>
    decreases n,
{
    if n == 0 {
        Some(seq![])
    } else {
        match committed_records(b, (n - 1) as nat) {
            None => None,
            Some(prev) => if !sealed(page_at(b, n as int)) {
                None
            } else {
                match parse_data_page(page_at(b, n as int)) {
                    None => None,
                    Some(rs) => Some(prev + rs),
                }
            },
        }
    }
}

/// What a rebuild reads from a log image: the records of the committed pages
/// the superblock names. A short image, a bad superblock, a missing committed
/// page, or a committed page that fails its checksum or does not decode gives `None`.
pub open spec fn log_records(b: Seq<u8>) -> Option<Seq<RecordView>> {
    if b.len() < PAGE {
        None
    } else {
        match superblock_committed(b.subrange(0, PAGE as int)) {
            None => None,
            Some(c) => if b.len() < PAGE * (1 + c) {
                None
            } else {
                committed_records(b, c as nat)
            },
        }
    }
}

/// Frame a body; a body over `u16::MAX` bytes is refused.
pub fn framed_record(body: &[u8]) -> (r: Result<Vec<u8>, String>)
    ensures
        r is Ok <==> body@.len() <= 0xffff,
        r matches Ok(f) ==> f@ == frame(body@) && f@.len() == 2 + body@.len(),
{
    if body.len() > 0xffff {
        return Err(String::from_str("record too large"));
    }
    let len_bytes = u16_to_le_bytes(body.len() as u16);
    let mut out: Vec<u8> = Vec::with_capacity(2 + body.len());
    push_bytes(&mut out, len_bytes.as_slice());
    push_bytes(&mut out, body);
    proof {
        lemma_auto_spec_u16_to_from_le_bytes();
    }
    Ok(out)
}

/// Store the CRC of the bytes after the first four in the first four.
pub fn seal_page(page: &mut Vec<u8>)
    requires
        old(page)@.len() == PAGE,
    ensures
        final(page)@ == spec_u32_to_le_bytes(crc32(old(page)@.subrange(4, PAGE as int))) + old(
            page,
        )@.subrange(4, PAGE as int),
        sealed(final(page)@),
{
    let crc = checksum(vstd::slice::slice_subrange(page.as_slice(), CRC_LEN, PAGE));
    let c = u32_to_le_bytes(crc);
    proof {
        lemma_auto_spec_u32_to_from_le_bytes();
    }
    page.set(0, c[0]);
    page.set(1, c[1]);
    page.set(2, c[2]);
    page.set(3, c[3]);
    assert(page@ =~= spec_u32_to_le_bytes(crc) + old(page)@.subrange(4, PAGE as int));
    assert(page@.subrange(0, 4) =~= c@);
    assert(page@.subrange(4, PAGE as int) =~= old(page)@.subrange(4, PAGE as int));
}

/// Fail closed unless the page is full size and its checksum matches.
pub fn verify_page(page: &[u8]) -> (r: Result<(), String>)
    ensures
        r is Ok <==> sealed(page@),
{
    if page.len() != PAGE {
        return Err(String::from_str("short page"));
    }
    let expected = u32_from_le_bytes(vstd::slice::slice_subrange(page, 0, CRC_LEN));
    let actual = checksum(vstd::slice::slice_subrange(page, CRC_LEN, PAGE));
    if actual != expected {
        return Err(String::from_str("checksum mismatch"));
    }
    Ok(())
}

/// The magic bytes.
fn magic_bytes() -> (m: Vec<u8>)
    ensures
        m@ == magic(),
{
    let m: Vec<u8> = vec![77u8, 73u8, 75u8, 85u8, 82u8, 65u8, 86u8, 49u8];
    assert(m@ =~= magic());
    m
}

/// Write `src` over `dst` starting at `at`.
pub fn copy_into(dst: &mut Vec<u8>, at: usize, src: &[u8])
    requires
        at + src@.len() <= old(dst)@.len(),
    ensures
        final(dst)@.len() == old(dst)@.len(),
        final(dst)@ == old(dst)@.subrange(0, at as int) + src@ + old(dst)@.subrange(
            at + src@.len(),
            old(dst)@.len() as int,
        ),
{
    let n = dst.len();
    let mut i: usize = 0;
    while i < src.len()
        invariant
            i <= src@.len(),
            dst@.len() == n,
            at + src@.len() <= dst@.len(),
            dst@.len() == old(dst)@.len(),
            forall|k: int| 0 <= k < at ==> dst@[k] == old(dst)@[k],
            forall|k: int| at + src@.len() <= k < dst@.len() ==> dst@[k] == old(dst)@[k],
            forall|k: int| 0 <= k < i ==> dst@[at + k] == src@[k],
            forall|k: int| at + i <= k < dst@.len() ==> dst@[k] == old(dst)@[k],
        decreases src@.len() - i,
    {
        dst.set(at + i, src[i]);
        i = i + 1;
    }
    assert(dst@ =~= old(dst)@.subrange(0, at as int) + src@ + old(dst)@.subrange(
        at + src@.len(),
        old(dst)@.len() as int,
    ));
}

/// The superblock naming `committed` data pages.
pub fn superblock_bytes(committed: u32) -> (sb: Vec<u8>)
    ensures
        sb@.len() == PAGE,
        superblock_committed(sb@) == Some(committed),
{
    let mut sb: Vec<u8> = vec![0u8; PAGE];
    let m = magic_bytes();
    copy_into(&mut sb, CRC_LEN, m.as_slice());
    let size = u16_to_le_bytes(PAGE as u16);
    copy_into(&mut sb, CRC_LEN + 8, size.as_slice());
    let c = u32_to_le_bytes(committed);
    copy_into(&mut sb, SUPER_COMMIT_OFF, c.as_slice());
    let ghost before = sb@;
    seal_page(&mut sb);
    proof {
        lemma_auto_spec_u32_to_from_le_bytes();
        assert(sb@.subrange(4, 12) =~= before.subrange(4, 12));
        assert(before.subrange(4, 12) =~= magic());
        assert(sb@.subrange(14, 18) =~= before.subrange(14, 18));
        assert(before.subrange(14, 18) =~= c@);
    }
    sb
}

/// The committed page count of a superblock; fails closed on a bad checksum
/// or magic.
pub fn parse_superblock(sb: &[u8]) -> (r: Result<u32, String>)
    ensures
        match r {
            Ok(c) => superblock_committed(sb@) == Some(c),
            Err(_) => superblock_committed(sb@) is None,
        },
{
    match verify_page(sb) {
        Ok(()) => {},
        Err(e) => {
            return Err(concat_str("superblock: ", e.as_str()));
        },
    }
    let m = magic_bytes();
    if !bytes_eq(vstd::slice::slice_subrange(sb, CRC_LEN, CRC_LEN + 8), m.as_slice()) {
        return Err(String::from_str("bad magic"));
    }
    Ok(u32_from_le_bytes(vstd::slice::slice_subrange(sb, SUPER_COMMIT_OFF, SUPER_COMMIT_OFF + 4)))
}

proof fn lemma_parse_frames_step(b: Seq<u8>, n: int)
    requires
        b.len() >= 2,
        n == spec_u16_from_le_bytes(b.subrange(0, 2)) as int,
    ensures
        2 + n > b.len() ==> parse_frames(b) is None,
        2 + n <= b.len() ==> parse_frames(b) == match parse_body(b.subrange(2, 2 + n)) {
            None => None,
            Some(r) => match parse_frames(b.subrange(2 + n, b.len() as int)) {
                None => None,
                Some(rest) => Some(seq![r] + rest),
            },
        },
{
}

/// Decode the records of one data page onto `records`.
#[verifier::rlimit(80)]
#[verifier::spinoff_prover]
pub fn decode_data_page(page: &[u8], records: &mut Vec<ObjectRecord>) -> (r: Result<(), String>)
    requires
        page@.len() == PAGE,
    ensures
        match r {
            Ok(()) => parse_data_page(page@) matches Some(rs) && final(records)@.len() == old(
                records,
            )@.len() + rs.len() && (forall|i: int|
                0 <= i < old(records)@.len() ==> #[trigger] final(records)@[i] == old(
                    records,
                )@[i]) && (forall|i: int|
                0 <= i < rs.len() ==> decoded_as(
                    #[trigger] final(records)@[old(records)@.len() + i]@,
                    rs[i],
                )),
            Err(_) => parse_data_page(page@) is None,
        },
{
    let used = u16_from_le_bytes(vstd::slice::slice_subrange(page, CRC_LEN, PAGE_HDR)) as usize;
    if PAGE_HDR + used > PAGE {
        return Err(String::from_str("used past page"));
    }
    let region = vstd::slice::slice_subrange(page, PAGE_HDR, PAGE_HDR + used);
    let ghost whole = parse_frames(region@);
    assert(parse_data_page(page@) == whole);
    assert(region@.subrange(0, region@.len() as int) =~= region@);
    let ghost start_len = records@.len();
    let ghost mut acc: Seq<RecordView> = seq![];
    let mut cur: usize = 0;
    while cur < region.len()
        invariant
            cur <= region@.len(),
            whole == parse_frames(region@),
            parse_data_page(page@) == whole,
            whole == match parse_frames(region@.subrange(cur as int, region@.len() as int)) {
                Some(rest) => Some(acc + rest),
                None => None,
            },
            records@.len() == start_len + acc.len(),
            start_len == old(records)@.len(),
            forall|i: int| 0 <= i < start_len ==> #[trigger] records@[i] == old(records)@[i],
            forall|i: int| 0 <= i < acc.len() ==> decoded_as(#[trigger] records@[start_len + i]@, acc[i]),
        decreases region@.len() - cur,
    {
        let ghost rest = region@.subrange(cur as int, region@.len() as int);
        if region.len() - cur < 2 {
            assert(parse_frames(rest) is None);
            return Err(String::from_str("short record len"));
        }
        let len = u16_from_le_bytes(vstd::slice::slice_subrange(region, cur, cur + 2)) as usize;
        assert(rest.subrange(0, 2) =~= region@.subrange(cur as int, cur + 2));
        proof {
            lemma_parse_frames_step(rest, len as int);
        }
        if region.len() - cur - 2 < len {
            return Err(String::from_str("short record body"));
        }
        let body = vstd::slice::slice_subrange(region, cur + 2, cur + 2 + len);
        assert(rest.subrange(2, 2 + len) =~= body@);
        let record = match decode_body(body) {
            Ok(rec) => rec,
            Err(e) => {
                return Err(e);
            },
        };
        proof {
            let p = parse_body(body@).unwrap();
            assert(rest.subrange(2 + len, rest.len() as int) =~= region@.subrange(
                cur + 2 + len,
                region@.len() as int,
            ));
            let old_acc = acc;
            acc = acc.push(p);
            match parse_frames(region@.subrange(cur + 2 + len, region@.len() as int)) {
                Some(tail) => {
                    assert(old_acc + (seq![p] + tail) =~= acc + tail);
                },
                None => {},
            }
        }
        records.push(record);
        cur = cur + 2 + len;
    }
    assert(region@.subrange(cur as int, region@.len() as int) =~= Seq::<u8>::empty());
    assert(acc + seq![] =~= acc);
    Ok(())
}

proof fn lemma_committed_none_grows(b: Seq<u8>, n: nat, m: nat)
    requires
        committed_records(b, n) is None,
        n <= m,
    ensures
        committed_records(b, m) is None,
    decreases m - n,
{
    if n < m {
        lemma_committed_none_grows(b, n, (m - 1) as nat);
    }
}

/// The records a rebuild trusts in a log image: those of data pages
/// `1..=committed`. Pages past the committed count are not read.
pub fn read_log(bytes: &[u8]) -> (r: Result<Vec<ObjectRecord>, String>)
    ensures
        match r {
            Ok(v) => log_records(bytes@) matches Some(rs) && v@.len() == rs.len() && forall|i: int|
                0 <= i < rs.len() ==> decoded_as(#[trigger] v@[i]@, rs[i]),
            Err(_) => log_records(bytes@) is None,
        },
        bytes@.len() < PAGE ==> (r matches Err(e) && e@ == "missing superblock"@),
        (superblock_committed(bytes@.subrange(0, PAGE as int)) matches Some(c) && bytes@.len() >= PAGE && bytes@.len()
            < PAGE * (1 + c)) ==> (r matches Err(e) && e@ == "committed pages missing"@),
{
    if bytes.len() < PAGE {
        return Err(String::from_str("missing superblock"));
    }
    let committed = parse_superblock(vstd::slice::slice_subrange(bytes, 0, PAGE))?;
    let needed: u64 = (PAGE as u64) * (1 + committed as u64);
    if (bytes.len() as u64) < needed {
        return Err(String::from_str("committed pages missing"));
    }
    let blen = bytes.len();
    let mut records: Vec<ObjectRecord> = Vec::new();
    let mut index: usize = 1;
    let ghost mut acc: Seq<RecordView> = seq![];
    while index <= committed as usize
        invariant
            1 <= index <= committed + 1,
            bytes@.len() == blen,
            PAGE * (1 + committed) <= bytes@.len(),
            superblock_committed(bytes@.subrange(0, PAGE as int)) == Some(committed),
            committed_records(bytes@, (index - 1) as nat) == Some(acc),
            records@.len() == acc.len(),
            forall|i: int| 0 <= i < acc.len() ==> decoded_as(#[trigger] records@[i]@, acc[i]),
            log_records(bytes@) == committed_records(bytes@, committed as nat),
        decreases committed + 1 - index,
    {
        let page = vstd::slice::slice_subrange(bytes, index * PAGE, (index + 1) * PAGE);
        assert(page@ == page_at(bytes@, index as int));
        match verify_page(page) {
            Ok(()) => {},
            Err(e) => {
                proof {
                    lemma_committed_none_grows(bytes@, index as nat, committed as nat);
                }
                let mut msg = concat_str("committed page ", decimal_string(index as u64).as_str());
                msg.append(": ");
                msg.append(e.as_str());
                return Err(msg);
            },
        }
        let ghost before = records@;
        match decode_data_page(page, &mut records) {
            Ok(()) => {},
            Err(e) => {
                proof {
                    lemma_committed_none_grows(bytes@, index as nat, committed as nat);
                }
                return Err(e);
            },
        }
        proof {
            let rs = parse_data_page(page@).unwrap();
            let old_acc = acc;
            acc = acc + rs;
            assert forall|i: int| 0 <= i < acc.len() implies decoded_as(#[trigger] records@[i]@, acc[i]) by {
                if i < old_acc.len() {
                    assert(records@[i] == before[i]);
                } else {
                    assert(records@[old_acc.len() + (i - old_acc.len())] == records@[i]);
                }
            }
        }
        index = index + 1;
    }
    Ok(records)
}

} // verus!
