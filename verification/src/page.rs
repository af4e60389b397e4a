//! Snapshot-page cursors for evaluate.
//!
//! The token is opaque. It binds the deny list, the query (including sort
//! and page size), and the live writer stamp (committed pages, written
//! pages, current page used). A different view or a later write, including
//! an uncommitted stream append, fails closed.

use vstd::bytes::*;
use vstd::prelude::*;
use vstd::utf8::*;

use crate::acl::{denied_order, pairs_view, PropertyAcl};
use crate::codec::{push_bytes, string_from_utf8};
use crate::objectset::{EvaluateRequest, Hop, Predicate, Sort};

verus! {

broadcast use {encode_utf8_decode_utf8, encode_utf8_valid_utf8, decode_utf8_encode_utf8};

/// Where the next page starts: after this key, with this sort value.
pub struct PageCursor {
    pub after_key: String,
    pub after_missing: bool,
    pub after_value: String,
}

/// `b` after its length as a little-endian `u32`.
pub open spec fn bytes_field(b: Seq<u8>) -> Seq<u8> {
    spec_u32_to_le_bytes(b.len() as u32) + b
}

/// A string as a length-prefixed UTF-8 field.
pub open spec fn text_field(s: Seq<char>) -> Seq<u8> {
    bytes_field(encode_utf8(s))
}

pub open spec fn flag(b: bool) -> u8 {
    if b {
        1u8
    } else {
        0u8
    }
}

pub open spec fn opt_text(o: Option<String>) -> Seq<u8> {
    match o {
        None => seq![0u8],
        Some(s) => seq![1u8] + text_field(s@),
    }
}

/// The bytes a predicate contributes to a query fingerprint.
pub open spec fn pred_bytes(p: Predicate) -> Seq<u8>
    decreases p, 0int,
{
    match p {
        Predicate::Eq { property, value } => seq![0u8] + text_field(property@) + text_field(value@),
        Predicate::Neq { property, value } => seq![1u8] + text_field(property@) + text_field(value@),
        Predicate::Range { property, min, max } => seq![2u8] + text_field(property@) + opt_text(min)
            + opt_text(max),
        Predicate::Missing { property } => seq![3u8] + text_field(property@),
        Predicate::And(args) => seq![4u8] + spec_u32_to_le_bytes(args@.len() as u32) + list_bytes(
            args@,
            args@.len() as int,
        ),
        Predicate::Or(args) => seq![5u8] + spec_u32_to_le_bytes(args@.len() as u32) + list_bytes(
            args@,
            args@.len() as int,
        ),
        Predicate::Not(inner) => seq![6u8] + pred_bytes(*inner),
    }
}

/// The bytes of the first `n` predicates of `args`.
pub open spec fn list_bytes(args: Seq<Predicate>, n: int) -> Seq<u8>
    decreases args, n,
{
    if n <= 0 || n > args.len() {
        seq![]
    } else {
        list_bytes(args, n - 1) + pred_bytes(args[n - 1])
    }
}

pub open spec fn opt_pred(o: Option<Predicate>) -> Seq<u8> {
    match o {
        None => seq![0u8],
        Some(p) => seq![1u8] + pred_bytes(p),
    }
}

pub open spec fn hop_bytes(h: Hop) -> Seq<u8> {
    text_field(h.far_kind@) + text_field(h.join_property@) + seq![flag(h.incoming)] + opt_pred(h.predicate)
}

pub open spec fn hops_bytes(hs: Seq<Hop>) -> Seq<u8>
    decreases hs.len(),
{
    if hs.len() == 0 {
        seq![]
    } else {
        hops_bytes(hs.drop_last()) + hop_bytes(hs.last())
    }
}

pub open spec fn pairs_bytes(d: Seq<(Seq<char>, Seq<char>)>) -> Seq<u8>
    decreases d.len(),
{
    if d.len() == 0 {
        seq![]
    } else {
        pairs_bytes(d.drop_last()) + text_field(d.last().0) + text_field(d.last().1)
    }
}

pub open spec fn filter_bytes(req: EvaluateRequest) -> Seq<u8> {
    match req.filter {
        None => seq![0u8],
        Some(f) => seq![1u8] + text_field(f.property@) + text_field(f.value@),
    }
}

pub open spec fn sort_bytes(s: Option<Sort>) -> Seq<u8> {
    match s {
        None => seq![0u8],
        Some(s) => seq![1u8] + text_field(s.property@) + seq![flag(s.descending)],
    }
}

/// What a cursor binds of a request: its deny list in order, its query,
/// its sort and its bounds.
pub open spec fn fingerprint(req: EvaluateRequest) -> Seq<u8> {
    let d = denied_order(req.acl);
    spec_u32_to_le_bytes(d.len() as u32) + pairs_bytes(d) + text_field(req.root_kind@)
        + spec_u32_to_le_bytes(req.hops@.len() as u32) + hops_bytes(req.hops@) + text_field(req.sum_kind@)
        + text_field(req.sum_property@) + filter_bytes(req) + opt_pred(req.predicate) + sort_bytes(req.sort)
        + spec_u64_to_le_bytes(req.object_bound as u64) + spec_u64_to_le_bytes(req.page_size as u64)
}

fn push_u32(out: &mut Vec<u8>, x: u32)
    ensures
        final(out)@ == old(out)@ + spec_u32_to_le_bytes(x),
{
    let b = u32_to_le_bytes(x);
    push_bytes(out, b.as_slice());
}

fn push_u64(out: &mut Vec<u8>, x: u64)
    ensures
        final(out)@ == old(out)@ + spec_u64_to_le_bytes(x),
{
    let b = u64_to_le_bytes(x);
    push_bytes(out, b.as_slice());
}

fn write_bytes(out: &mut Vec<u8>, value: &[u8])
    ensures
        final(out)@ == old(out)@ + bytes_field(value@),
{
    push_u32(out, value.len() as u32);
    push_bytes(out, value);
    assert(out@ =~= old(out)@ + bytes_field(value@));
}

fn write_text(out: &mut Vec<u8>, value: &str)
    ensures
        final(out)@ == old(out)@ + text_field(value@),
{
    write_bytes(out, value.as_bytes());
}

fn write_opt_text(out: &mut Vec<u8>, value: &Option<String>)
    ensures
        final(out)@ == old(out)@ + opt_text(*value),
{
    match value {
        None => {
            out.push(0);
        },
        Some(s) => {
            out.push(1);
            write_text(out, s.as_str());
        },
    }
    assert(out@ =~= old(out)@ + opt_text(*value));
}

fn write_predicate(out: &mut Vec<u8>, pred: &Predicate)
    ensures
        final(out)@ == old(out)@ + pred_bytes(*pred),
    decreases pred, 0int,
{
    let ghost start = out@;
    match pred {
        Predicate::Eq { property, value } => {
            out.push(0);
            write_text(out, property.as_str());
            write_text(out, value.as_str());
        },
        Predicate::Neq { property, value } => {
            out.push(1);
            write_text(out, property.as_str());
            write_text(out, value.as_str());
        },
        Predicate::Range { property, min, max } => {
            out.push(2);
            write_text(out, property.as_str());
            write_opt_text(out, min);
            write_opt_text(out, max);
        },
        Predicate::Missing { property } => {
            out.push(3);
            write_text(out, property.as_str());
        },
        Predicate::And(args) => {
            out.push(4);
            push_u32(out, args.len() as u32);
            write_list(out, args);
        },
        Predicate::Or(args) => {
            out.push(5);
            push_u32(out, args.len() as u32);
            write_list(out, args);
        },
        Predicate::Not(inner) => {
            out.push(6);
            write_predicate(out, inner);
        },
    }
    assert(out@ =~= start + pred_bytes(*pred));
}

fn write_list(out: &mut Vec<u8>, args: &Vec<Predicate>)
    ensures
        final(out)@ == old(out)@ + list_bytes(args@, args@.len() as int),
    decreases args@, args@.len() + 1,
{
    let ghost start = out@;
    let mut i: usize = 0;
    assert(start + list_bytes(args@, 0) =~= start);
    while i < args.len()
        invariant
            i <= args@.len(),
            out@ == start + list_bytes(args@, i as int),
        decreases args@.len() - i,
    {
        proof {
            assert(decreases_to!(args@, args@.len() + 1 => args@[i as int], 0int));
        }
        write_predicate(out, &args[i]);
        assert(out@ =~= start + list_bytes(args@, i + 1));
        i = i + 1;
    }
}

fn write_opt_pred(out: &mut Vec<u8>, pred: &Option<Predicate>)
    ensures
        final(out)@ == old(out)@ + opt_pred(*pred),
{
    match pred {
        None => {
            out.push(0);
        },
        Some(p) => {
            out.push(1);
            write_predicate(out, p);
        },
    }
    assert(out@ =~= old(out)@ + opt_pred(*pred));
}

fn write_hops(out: &mut Vec<u8>, hops: &Vec<Hop>)
    ensures
        final(out)@ == old(out)@ + hops_bytes(hops@),
{
    let ghost start = out@;
    let mut i: usize = 0;
    assert(start + hops_bytes(hops@.subrange(0, 0)) =~= start);
    while i < hops.len()
        invariant
            i <= hops@.len(),
            out@ == start + hops_bytes(hops@.subrange(0, i as int)),
        decreases hops@.len() - i,
    {
        let hop = &hops[i];
        write_text(out, hop.far_kind.as_str());
        write_text(out, hop.join_property.as_str());
        out.push(if hop.incoming { 1u8 } else { 0u8 });
        write_opt_pred(out, &hop.predicate);
        assert(hops@.subrange(0, i + 1).drop_last() =~= hops@.subrange(0, i as int));
        assert(out@ =~= start + hops_bytes(hops@.subrange(0, i + 1)));
        i = i + 1;
    }
    assert(hops@.subrange(0, hops@.len() as int) =~= hops@);
}

fn write_pairs(out: &mut Vec<u8>, pairs: &Vec<(String, String)>)
    ensures
        final(out)@ == old(out)@ + pairs_bytes(pairs_view(pairs@)),
{
    let ghost start = out@;
    let ghost pv = pairs_view(pairs@);
    let mut i: usize = 0;
    assert(start + pairs_bytes(pv.subrange(0, 0)) =~= start);
    while i < pairs.len()
        invariant
            i <= pairs@.len(),
            pv == pairs_view(pairs@),
            out@ == start + pairs_bytes(pv.subrange(0, i as int)),
        decreases pairs@.len() - i,
    {
        write_text(out, pairs[i].0.as_str());
        write_text(out, pairs[i].1.as_str());
        assert(pv[i as int] == (pairs@[i as int].0@, pairs@[i as int].1@));
        assert(pv.subrange(0, i + 1).drop_last() =~= pv.subrange(0, i as int));
        assert(out@ =~= start + pairs_bytes(pv.subrange(0, i + 1)));
        i = i + 1;
    }
    assert(pv.subrange(0, pairs@.len() as int) =~= pv);
}

/// The bytes a cursor binds of `request`.
pub fn query_fingerprint(request: &EvaluateRequest) -> (out: Vec<u8>)
    ensures
        out@ == fingerprint(*request),
{
    let mut out: Vec<u8> = Vec::new();
    let denied = request.acl.denied_in_order();
    push_u32(&mut out, denied.len() as u32);
    write_pairs(&mut out, &denied);
    write_text(&mut out, request.root_kind.as_str());
    push_u32(&mut out, request.hops.len() as u32);
    write_hops(&mut out, &request.hops);
    write_text(&mut out, request.sum_kind.as_str());
    write_text(&mut out, request.sum_property.as_str());
    match &request.filter {
        None => {
            out.push(0);
        },
        Some(f) => {
            out.push(1);
            write_text(&mut out, f.property.as_str());
            write_text(&mut out, f.value.as_str());
        },
    }
    write_opt_pred(&mut out, &request.predicate);
    match &request.sort {
        None => {
            out.push(0);
        },
        Some(s) => {
            out.push(1);
            write_text(&mut out, s.property.as_str());
            out.push(if s.descending { 1u8 } else { 0u8 });
        },
    }
    push_u64(&mut out, request.object_bound as u64);
    push_u64(&mut out, request.page_size as u64);
    assert(out@ =~= fingerprint(*request));
    out
}

/// The lowercase hex digit of `d < 16`.
pub open spec fn nibble_char(d: int) -> char {
    if d < 10 {
        (48 + d) as char
    } else {
        (87 + d) as char
    }
}

/// Two lowercase hex digits per byte, high nibble first.
pub open spec fn hex_text(b: Seq<u8>) -> Seq<char>
    decreases b.len(),
{
    if b.len() == 0 {
        seq![]
    } else {
        hex_text(b.drop_last()) + seq![nibble_char((b.last() / 16) as int), nibble_char((b.last() % 16) as int)]
    }
}

/// The value of a lowercase hex digit.
pub open spec fn hex_value(c: char) -> Option<int> {
    if '0' <= c <= '9' {
        Some(c as int - 48)
    } else if 'a' <= c <= 'f' {
        Some(c as int - 87)
    } else {
        None
    }
}

pub open spec fn cursor_prefix() -> Seq<char> {
    seq!['m', 'k', 'c', '1', ':']
}

/// The bytes of a cursor: version 1, the writer stamp, the query
/// fingerprint, and the last key, whether its value is missing, and its value.
pub open spec fn cursor_body(fp: Seq<u8>, stamp: (u32, u32, u32), key: Seq<char>, missing: bool, value: Seq<char>) -> Seq<u8> {
    seq![1u8] + spec_u32_to_le_bytes(stamp.0) + spec_u32_to_le_bytes(stamp.1) + spec_u32_to_le_bytes(stamp.2)
        + bytes_field(fp) + text_field(key) + seq![flag(missing)] + text_field(value)
}

/// The token of a cursor.
pub open spec fn cursor_token(fp: Seq<u8>, stamp: (u32, u32, u32), key: Seq<char>, missing: bool, value: Seq<char>) -> Seq<char> {
    cursor_prefix() + hex_text(cursor_body(fp, stamp, key, missing, value))
}

/// The length-prefixed field at `pos` and the position after it.
pub open spec fn field_at(b: Seq<u8>, pos: int) -> Option<(Seq<u8>, int)> {
    if pos < 0 || pos + 4 > b.len() {
        None
    } else {
        let n = spec_u32_from_le_bytes(b.subrange(pos, pos + 4)) as int;
        if pos + 4 + n > b.len() {
            None
        } else {
            Some((b.subrange(pos + 4, pos + 4 + n), pos + 4 + n))
        }
    }
}

/// The stamp, fingerprint, key, missing flag and value a cursor body holds.
pub open spec fn parse_cursor_body(b: Seq<u8>) -> Option<((u32, u32, u32), Seq<u8>, Seq<char>, bool, Seq<char>)> {
    if b.len() < 13 || b[0] != 1u8 {
        None
    } else {
        let stamp = (
            spec_u32_from_le_bytes(b.subrange(1, 5)),
            spec_u32_from_le_bytes(b.subrange(5, 9)),
            spec_u32_from_le_bytes(b.subrange(9, 13)),
        );
        match field_at(b, 13) {
            None => None,
            Some((fp, p1)) => match field_at(b, p1) {
                None => None,
                Some((kb, p2)) => if !valid_utf8(kb) || p2 >= b.len() || (b[p2] != 0u8 && b[p2] != 1u8) {
                    None
                } else {
                    match field_at(b, p2 + 1) {
                        None => None,
                        Some((vb, p3)) => if !valid_utf8(vb) || p3 != b.len() {
                            None
                        } else {
                            Some((stamp, fp, decode_utf8(kb), b[p2] == 1u8, decode_utf8(vb)))
                        },
                    }
                },
            },
        }
    }
}

/// What a token holds, when it is a cursor token.
pub open spec fn read_token(t: Seq<char>) -> Option<((u32, u32, u32), Seq<u8>, Seq<char>, bool, Seq<char>)> {
    if t.len() >= 5 && t.subrange(0, 5) == cursor_prefix() && exists|b: Seq<u8>| hex_text(b) == t.subrange(
        5,
        t.len() as int,
    ) {
        parse_cursor_body(choose|b: Seq<u8>| hex_text(b) == t.subrange(5, t.len() as int))
    } else {
        None
    }
}

/// The lengths a cursor writes fit its `u32` length prefixes.
pub open spec fn cursor_fits(fp: Seq<u8>, key: Seq<char>, value: Seq<char>) -> bool {
    fp.len() <= u32::MAX && encode_utf8(key).len() <= u32::MAX && encode_utf8(value).len() <= u32::MAX
}

pub proof fn lemma_hex_text(b: Seq<u8>)
    ensures
        hex_text(b).len() == 2 * b.len(),
        forall|i: int| 0 <= i < hex_text(b).len() ==> hex_value(#[trigger] hex_text(b)[i]) is Some,
    decreases b.len(),
{
    if b.len() > 0 {
        lemma_hex_text(b.drop_last());
        let h0 = hex_text(b.drop_last());
        assert forall|i: int| 0 <= i < hex_text(b).len() implies hex_value(#[trigger] hex_text(b)[i]) is Some by {
            if i < h0.len() {
                assert(hex_text(b)[i] == h0[i]);
            }
        }
    }
}

/// Distinct byte strings have distinct hex texts.
pub proof fn lemma_hex_injective(a: Seq<u8>, b: Seq<u8>)
    requires
        hex_text(a) == hex_text(b),
    ensures
        a == b,
    decreases a.len(),
{
    lemma_hex_text(a);
    lemma_hex_text(b);
    if a.len() > 0 {
        let ha = hex_text(a.drop_last());
        let hb = hex_text(b.drop_last());
        lemma_hex_text(a.drop_last());
        lemma_hex_text(b.drop_last());
        assert(ha =~= hex_text(a).subrange(0, ha.len() as int));
        assert(hb =~= hex_text(b).subrange(0, hb.len() as int));
        lemma_hex_injective(a.drop_last(), b.drop_last());
        let n = hex_text(a).len() as int;
        assert(hex_text(a)[n - 2] == nibble_char((a.last() / 16) as int));
        assert(hex_text(b)[n - 2] == nibble_char((b.last() / 16) as int));
        assert(hex_text(a)[n - 1] == nibble_char((a.last() % 16) as int));
        assert(hex_text(b)[n - 1] == nibble_char((b.last() % 16) as int));
        assert(a.last() == b.last());
        assert(a =~= a.drop_last().push(a.last()));
        assert(b =~= b.drop_last().push(b.last()));
    }
}

proof fn lemma_field_roundtrip(prefix: Seq<u8>, f: Seq<u8>, suffix: Seq<u8>)
    requires
        f.len() <= u32::MAX,
    ensures
        field_at(prefix + bytes_field(f) + suffix, prefix.len() as int) == Some(
            (f, (prefix.len() + 4 + f.len()) as int),
        ),
        bytes_field(f).len() == 4 + f.len(),
{
    lemma_auto_spec_u32_to_from_le_bytes();
    let b = prefix + bytes_field(f) + suffix;
    let p = prefix.len() as int;
    assert(b.subrange(p, p + 4) =~= spec_u32_to_le_bytes(f.len() as u32));
    assert(b.subrange(p + 4, p + 4 + f.len()) =~= f);
}

/// A cursor body reads back as what it was made of.
pub proof fn lemma_cursor_body_roundtrip(fp: Seq<u8>, stamp: (u32, u32, u32), key: Seq<char>, missing: bool, value: Seq<char>)
    requires
        cursor_fits(fp, key, value),
    ensures
        parse_cursor_body(cursor_body(fp, stamp, key, missing, value)) == Some((stamp, fp, key, missing, value)),
{
    lemma_auto_spec_u32_to_from_le_bytes();
    let b = cursor_body(fp, stamp, key, missing, value);
    let head = seq![1u8] + spec_u32_to_le_bytes(stamp.0) + spec_u32_to_le_bytes(stamp.1) + spec_u32_to_le_bytes(
        stamp.2,
    );
    assert(head.len() == 13);
    assert(b.subrange(1, 5) =~= spec_u32_to_le_bytes(stamp.0));
    assert(b.subrange(5, 9) =~= spec_u32_to_le_bytes(stamp.1));
    assert(b.subrange(9, 13) =~= spec_u32_to_le_bytes(stamp.2));
    let kf = text_field(key);
    let vf = text_field(value);
    let m = seq![flag(missing)];
    assert(b =~= head + bytes_field(fp) + (kf + m + vf));
    lemma_field_roundtrip(head, fp, kf + m + vf);
    let p1: int = 17 + fp.len() as int;
    assert(b =~= (head + bytes_field(fp)) + bytes_field(encode_utf8(key)) + (m + vf));
    lemma_field_roundtrip(head + bytes_field(fp), encode_utf8(key), m + vf);
    let p2: int = p1 + 4 + encode_utf8(key).len() as int;
    assert(b[p2] == flag(missing));
    assert(b =~= (head + bytes_field(fp) + kf + m) + bytes_field(encode_utf8(value)) + Seq::<u8>::empty());
    lemma_field_roundtrip(head + bytes_field(fp) + kf + m, encode_utf8(value), Seq::<u8>::empty());
}

/// A cursor body that parses is exactly the body written for what it holds.
pub proof fn law_cursor_body_tight(b: Seq<u8>)
    requires
        parse_cursor_body(b) is Some,
    ensures
        ({
            let (st, fp, k, m, v) = parse_cursor_body(b).unwrap();
            b == cursor_body(fp, st, k, m, v) && cursor_fits(fp, k, v)
        }),
{
    lemma_auto_spec_u32_to_from_le_bytes();
    let (st, fp, k, m, v) = parse_cursor_body(b).unwrap();
    let (_, p1) = field_at(b, 13).unwrap();
    let (kb, p2) = field_at(b, p1).unwrap();
    let (vb, p3) = field_at(b, p2 + 1).unwrap();
    assert(b.subrange(13, 17) =~= spec_u32_to_le_bytes(fp.len() as u32));
    assert(b.subrange(p1, p1 + 4) =~= spec_u32_to_le_bytes(kb.len() as u32));
    assert(b.subrange(p2 + 1, p2 + 5) =~= spec_u32_to_le_bytes(vb.len() as u32));
    assert(encode_utf8(k) == kb);
    assert(encode_utf8(v) == vb);
    assert(b[p2] == flag(m));
    assert(b =~= cursor_body(fp, st, k, m, v)) by {
        assert(b =~= b.subrange(0, 1) + b.subrange(1, 5) + b.subrange(5, 9) + b.subrange(9, 13) + b.subrange(13, 17)
            + b.subrange(17, p1) + b.subrange(p1, p1 + 4) + b.subrange(p1 + 4, p2) + b.subrange(p2, p2 + 1)
            + b.subrange(p2 + 1, p2 + 5) + b.subrange(p2 + 5, p3));
        assert(b.subrange(0, 1) =~= seq![1u8]);
        assert(b.subrange(p2, p2 + 1) =~= seq![flag(m)]);
    }
}

/// A token reads back as the cursor it was made from.
pub proof fn law_cursor_roundtrip(fp: Seq<u8>, stamp: (u32, u32, u32), key: Seq<char>, missing: bool, value: Seq<char>)
    requires
        cursor_fits(fp, key, value),
    ensures
        read_token(cursor_token(fp, stamp, key, missing, value)) == Some((stamp, fp, key, missing, value)),
{
    let body = cursor_body(fp, stamp, key, missing, value);
    let t = cursor_token(fp, stamp, key, missing, value);
    assert(t.subrange(0, 5) =~= cursor_prefix());
    assert(t.subrange(5, t.len() as int) =~= hex_text(body));
    let c = choose|b: Seq<u8>| hex_text(b) == t.subrange(5, t.len() as int);
    lemma_hex_injective(c, body);
    lemma_cursor_body_roundtrip(fp, stamp, key, missing, value);
}

/// The one-character text of hex digit `d`.
fn nibble_str(d: u8) -> (s: &'static str)
    requires
        d < 16,
    ensures
        s@ == seq![nibble_char(d as int)],
{
    proof {
        reveal_strlit("0");
        reveal_strlit("1");
        reveal_strlit("2");
        reveal_strlit("3");
        reveal_strlit("4");
        reveal_strlit("5");
        reveal_strlit("6");
        reveal_strlit("7");
        reveal_strlit("8");
        reveal_strlit("9");
        reveal_strlit("a");
        reveal_strlit("b");
        reveal_strlit("c");
        reveal_strlit("d");
        reveal_strlit("e");
        reveal_strlit("f");
    }
    let s = if d == 0 {
        "0"
    } else if d == 1 {
        "1"
    } else if d == 2 {
        "2"
    } else if d == 3 {
        "3"
    } else if d == 4 {
        "4"
    } else if d == 5 {
        "5"
    } else if d == 6 {
        "6"
    } else if d == 7 {
        "7"
    } else if d == 8 {
        "8"
    } else if d == 9 {
        "9"
    } else if d == 10 {
        "a"
    } else if d == 11 {
        "b"
    } else if d == 12 {
        "c"
    } else if d == 13 {
        "d"
    } else if d == 14 {
        "e"
    } else {
        "f"
    };
    assert(s@ =~= seq![nibble_char(d as int)]);
    s
}

/// `prefix` followed by the hex text of `bytes`.
fn hex_append(prefix: String, bytes: &[u8]) -> (s: String)
    ensures
        s@ == prefix@ + hex_text(bytes@),
{
    let mut s = prefix;
    let ghost start = s@;
    let mut i: usize = 0;
    assert(bytes@.subrange(0, 0) =~= Seq::<u8>::empty());
    assert(start + hex_text(Seq::<u8>::empty()) =~= start);
    while i < bytes.len()
        invariant
            i <= bytes@.len(),
            s@ == start + hex_text(bytes@.subrange(0, i as int)),
        decreases bytes@.len() - i,
    {
        let b = bytes[i];
        s.append(nibble_str(b / 16));
        s.append(nibble_str(b % 16));
        proof {
            let sub = bytes@.subrange(0, i + 1);
            assert(sub.drop_last() =~= bytes@.subrange(0, i as int));
            assert(sub.last() == b);
        }
        assert(s@ =~= start + hex_text(bytes@.subrange(0, i + 1)));
        i = i + 1;
    }
    assert(bytes@.subrange(0, bytes@.len() as int) =~= bytes@);
    s
}

/// The token of a cursor after `after_key` for `request` at writer `stamp`.
pub fn encode_cursor(
    request: &EvaluateRequest,
    stamp: (u32, u32, u32),
    after_key: &str,
    after_missing: bool,
    after_value: &str,
) -> (s: String)
    ensures
        s@ == cursor_token(fingerprint(*request), stamp, after_key@, after_missing, after_value@),
{
    proof {
        reveal_strlit("mkc1:");
    }
    let fp = query_fingerprint(request);
    let mut body: Vec<u8> = Vec::new();
    body.push(1);
    push_u32(&mut body, stamp.0);
    push_u32(&mut body, stamp.1);
    push_u32(&mut body, stamp.2);
    write_bytes(&mut body, fp.as_slice());
    write_text(&mut body, after_key);
    body.push(if after_missing { 1u8 } else { 0u8 });
    write_text(&mut body, after_value);
    assert(body@ =~= cursor_body(fp@, stamp, after_key@, after_missing, after_value@));
    let s = hex_append(String::from_str("mkc1:"), body.as_slice());
    assert("mkc1:"@ =~= cursor_prefix());
    s
}

/// The value of hex digit `c`, if it is one.
fn hex_digit(c: char) -> (r: Option<u8>)
    ensures
        match r {
            Some(v) => hex_value(c) == Some(v as int) && v < 16 && nibble_char(v as int) == c,
            None => hex_value(c) is None,
        },
{
    if '0' <= c && c <= '9' {
        Some((c as u32 - 48) as u8)
    } else if 'a' <= c && c <= 'f' {
        Some((c as u32 - 87) as u8)
    } else {
        None
    }
}

/// The bytes whose hex text is `token` from `start` on, if any.
fn hex_bytes(token: &str, start: usize) -> (r: Option<Vec<u8>>)
    requires
        start <= token@.len(),
    ensures
        match r {
            Some(b) => hex_text(b@) == token@.subrange(start as int, token@.len() as int),
            None => forall|b: Seq<u8>| hex_text(b) != token@.subrange(start as int, token@.len() as int),
        },
{
    let n = token.unicode_len();
    let ghost rest = token@.subrange(start as int, n as int);
    if (n - start) % 2 != 0 {
        proof {
            assert forall|b: Seq<u8>| hex_text(b) != rest by {
                lemma_hex_text(b);
            }
        }
        return None;
    }
    let mut out: Vec<u8> = Vec::new();
    let mut i: usize = start;
    assert(rest.subrange(0, 0) =~= hex_text(out@));
    while i < n
        invariant
            start <= i <= n,
            n == token@.len(),
            rest == token@.subrange(start as int, n as int),
            (i - start) % 2 == 0,
            (n - start) % 2 == 0,
            hex_text(out@) == rest.subrange(0, i - start),
            out@.len() * 2 == i - start,
        decreases n - i,
    {
        let c1 = token.get_char(i);
        let c2 = token.get_char(i + 1);
        let hi = match hex_digit(c1) {
            Some(v) => v,
            None => {
                proof {
                    assert(rest[i - start] == c1);
                    assert forall|b: Seq<u8>| hex_text(b) != rest by {
                        lemma_hex_text(b);
                        if hex_text(b) == rest {
                            assert(hex_value(hex_text(b)[i - start]) is Some);
                        }
                    }
                }
                return None;
            },
        };
        let lo = match hex_digit(c2) {
            Some(v) => v,
            None => {
                proof {
                    assert(rest[i - start + 1] == c2);
                    assert forall|b: Seq<u8>| hex_text(b) != rest by {
                        lemma_hex_text(b);
                        if hex_text(b) == rest {
                            assert(hex_value(hex_text(b)[i - start + 1]) is Some);
                        }
                    }
                }
                return None;
            },
        };
        let byte: u8 = hi * 16 + lo;
        let ghost before = out@;
        out.push(byte);
        proof {
            assert(byte / 16 == hi && byte % 16 == lo);
            assert(out@.drop_last() =~= before);
            assert(rest.subrange(0, i + 2 - start) =~= rest.subrange(0, i - start) + seq![c1, c2]);
            assert(rest[i - start] == c1 && rest[i - start + 1] == c2);
        }
        i = i + 2;
    }
    assert(rest.subrange(0, n - start) =~= rest);
    Some(out)
}

/// The length-prefixed field at `pos`.
fn read_field(b: &[u8], pos: usize) -> (r: Option<(Vec<u8>, usize)>)
    requires
        pos <= b@.len(),
    ensures
        match r {
            Some((f, next)) => field_at(b@, pos as int) == Some((f@, next as int)),
            None => field_at(b@, pos as int) is None,
        },
{
    if b.len() - pos < 4 {
        return None;
    }
    let head = vstd::slice::slice_subrange(b, pos, pos + 4);
    let n = u32_from_le_bytes(head) as usize;
    if b.len() - pos - 4 < n {
        return None;
    }
    let f = crate::codec::bytes_to_vec(vstd::slice::slice_subrange(b, pos + 4, pos + 4 + n));
    Some((f, pos + 4 + n))
}

/// What a cursor body holds, when it is one.
fn parse_body(b: &[u8]) -> (r: Option<((u32, u32, u32), Vec<u8>, String, bool, String)>)
    ensures
        match r {
            Some((st, fp, k, m, v)) => parse_cursor_body(b@) == Some((st, fp@, k@, m, v@)),
            None => parse_cursor_body(b@) is None,
        },
{
    if b.len() < 13 || b[0] != 1 {
        return None;
    }
    let s0 = u32_from_le_bytes(vstd::slice::slice_subrange(b, 1, 5));
    let s1 = u32_from_le_bytes(vstd::slice::slice_subrange(b, 5, 9));
    let s2 = u32_from_le_bytes(vstd::slice::slice_subrange(b, 9, 13));
    let (fp, p1) = match read_field(b, 13) {
        Some(x) => x,
        None => return None,
    };
    let (kb, p2) = match read_field(b, p1) {
        Some(x) => x,
        None => return None,
    };
    let key = match string_from_utf8(kb) {
        Some(k) => k,
        None => return None,
    };
    if p2 >= b.len() || (b[p2] != 0 && b[p2] != 1) {
        return None;
    }
    let missing = b[p2] == 1;
    let (vb, p3) = match read_field(b, p2 + 1) {
        Some(x) => x,
        None => return None,
    };
    let value = match string_from_utf8(vb) {
        Some(v) => v,
        None => return None,
    };
    if p3 != b.len() {
        return None;
    }
    Some(((s0, s1, s2), fp, key, missing, value))
}

/// Decode `token` for `request` at writer `stamp`; fails closed unless it
/// is a cursor token made for this query and restriction at this stamp.
pub fn decode_cursor(token: &str, request: &EvaluateRequest, stamp: (u32, u32, u32)) -> (r: Result<PageCursor, String>)
    ensures
        match r {
            Ok(c) => read_token(token@) == Some(
                (stamp, fingerprint(*request), c.after_key@, c.after_missing, c.after_value@),
            ),
            Err(_) => !(read_token(token@) matches Some((st, fp, _, _, _)) && st == stamp && fp == fingerprint(
                *request,
            )),
        },
        !(token@.len() >= 5 && token@.subrange(0, 5) == cursor_prefix()) ==> (r matches Err(e) && e@
            == "cursor is not a snapshot token"@),
        (read_token(token@) matches Some((st, _, _, _, _)) && st != stamp) ==> (r matches Err(e) && e@
            == "cursor snapshot is not the current log head"@),
        (read_token(token@) matches Some((st, fp, _, _, _)) && st == stamp && fp != fingerprint(*request)) ==> (
        r matches Err(e) && e@ == "cursor does not match this query or restriction"@),
{
    proof {
        reveal_strlit("mkc1:");
        assert("mkc1:"@ =~= cursor_prefix());
    }
    let n = token.unicode_len();
    if n < 5 || !crate::text::str_eq(token.substring_char(0, 5), "mkc1:") {
        return Err(String::from_str("cursor is not a snapshot token"));
    }
    let ghost rest = token@.subrange(5, n as int);
    let body = match hex_bytes(token, 5) {
        Some(b) => b,
        None => return Err(String::from_str("cursor is malformed")),
    };
    proof {
        let c = choose|b: Seq<u8>| hex_text(b) == rest;
        lemma_hex_injective(c, body@);
    }
    let (st, fp, key, missing, value) = match parse_body(body.as_slice()) {
        Some(x) => x,
        None => return Err(String::from_str("cursor is malformed")),
    };
    if st.0 != stamp.0 || st.1 != stamp.1 || st.2 != stamp.2 {
        return Err(String::from_str("cursor snapshot is not the current log head"));
    }
    let expected = query_fingerprint(request);
    if !crate::text::bytes_eq(fp.as_slice(), expected.as_slice()) {
        return Err(String::from_str("cursor does not match this query or restriction"));
    }
    Ok(PageCursor { after_key: key, after_missing: missing, after_value: value })
}

} // verus!
