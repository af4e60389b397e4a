//! Little-endian, length-prefixed field codec shared by the object log and
//! the join sidecar.

use vstd::bytes::*;
use vstd::prelude::*;
use vstd::utf8::*;

use crate::record::opt_str_view;
use crate::strs::{contains_str, join_with, lemma_join_shape, lemma_split_join, strs};
use crate::text::{concat_str, is_white_space, lemma_trimmed_unchanged, split_chars, split_on, trim_str, trimmed};

verus! {

broadcast use {encode_utf8_decode_utf8, encode_utf8_valid_utf8};

/// A string as it is written: its UTF-8 byte count as a little-endian `u16`,
/// then its UTF-8 bytes.
pub open spec fn str_field(s: Seq<char>) -> Seq<u8> {
    spec_u16_to_le_bytes(encode_utf8(s).len() as u16) + encode_utf8(s)
}

/// Whether a string's UTF-8 bytes fit a `u16` length prefix.
pub open spec fn fits_str_field(s: Seq<char>) -> bool {
    encode_utf8(s).len() <= 0xffff
}

/// Reads the string field that starts at `pos`: the decoded characters and the
/// position after the field, or `None` when the bytes run short or are not UTF-8.
pub open spec fn parse_str_at(b: Seq<u8>, pos: int) -> Option<(Seq<char>, int)> {
    if pos < 0 || pos + 2 > b.len() {
        None
    } else {
        let n = spec_u16_from_le_bytes(b.subrange(pos, pos + 2)) as int;
        if pos + 2 + n > b.len() {
            None
        } else if !valid_utf8(b.subrange(pos + 2, pos + 2 + n)) {
            None
        } else {
            Some((decode_utf8(b.subrange(pos + 2, pos + 2 + n)), pos + 2 + n))
        }
    }
}

/// The `u32` stored little-endian at `pos`, and the position after it.
pub open spec fn parse_u32_at(b: Seq<u8>, pos: int) -> Option<(u32, int)> {
    if pos < 0 || pos + 4 > b.len() {
        None
    } else {
        Some((spec_u32_from_le_bytes(b.subrange(pos, pos + 4)), pos + 4))
    }
}

/// The `u64` stored little-endian at `pos`, and the position after it.
pub open spec fn parse_u64_at(b: Seq<u8>, pos: int) -> Option<(u64, int)> {
    if pos < 0 || pos + 8 > b.len() {
        None
    } else {
        Some((spec_u64_from_le_bytes(b.subrange(pos, pos + 8)), pos + 8))
    }
}

/// An optional string as it is written: `0`, or `1` and the string field.
pub open spec fn opt_str_field(a: Option<Seq<char>>) -> Seq<u8> {
    match a {
        None => seq![0u8],
        Some(x) => seq![1u8] + str_field(x),
    }
}

/// Whether an optional string can be written.
pub open spec fn opt_fits(a: Option<Seq<char>>) -> bool {
    a matches Some(x) ==> fits_str_field(x)
}

/// Reads the optional string field that starts at `pos`, and the position
/// after it; `None` on a tag other than `0` or `1` or a bad string.
pub open spec fn parse_opt_str_at(b: Seq<u8>, pos: int) -> Option<(Option<Seq<char>>, int)> {
    if pos < 0 || pos >= b.len() {
        None
    } else if b[pos] == 0 {
        Some((None, pos + 1))
    } else if b[pos] == 1 {
        match parse_str_at(b, pos + 1) {
            Some((x, next)) => Some((Some(x), next)),
            None => None,
        }
    } else {
        None
    }
}

/// Reading an optional field back at the place it was written gives it again.
pub proof fn lemma_opt_str_field_roundtrip(prefix: Seq<u8>, a: Option<Seq<char>>, suffix: Seq<u8>)
    requires
        opt_fits(a),
    ensures
        parse_opt_str_at(prefix + opt_str_field(a) + suffix, prefix.len() as int) == Some(
            (a, (prefix.len() + opt_str_field(a).len()) as int),
        ),
{
    let b = prefix + opt_str_field(a) + suffix;
    match a {
        None => {
            assert(b[prefix.len() as int] == 0u8);
        },
        Some(x) => {
            let one: Seq<u8> = seq![1u8];
            assert(b =~= (prefix + one) + str_field(x) + suffix);
            lemma_str_field_roundtrip(prefix + one, x, suffix);
            assert(b[prefix.len() as int] == 1u8);
        },
    }
}

/// Reading a field back at the place it was written gives the string again.
pub proof fn lemma_str_field_roundtrip(prefix: Seq<u8>, s: Seq<char>, suffix: Seq<u8>)
    requires
        fits_str_field(s),
    ensures
        parse_str_at(prefix + str_field(s) + suffix, prefix.len() as int) == Some(
            (s, (prefix.len() + str_field(s).len()) as int),
        ),
        str_field(s).len() == 2 + encode_utf8(s).len(),
{
    lemma_auto_spec_u16_to_from_le_bytes();
    let b = prefix + str_field(s) + suffix;
    let p = prefix.len() as int;
    let e = encode_utf8(s);
    assert(b.subrange(p, p + 2) =~= spec_u16_to_le_bytes(e.len() as u16));
    assert(b.subrange(p + 2, p + 2 + e.len()) =~= e);
}

pub proof fn lemma_u32_roundtrip(prefix: Seq<u8>, x: u32, suffix: Seq<u8>)
    ensures
        parse_u32_at(prefix + spec_u32_to_le_bytes(x) + suffix, prefix.len() as int) == Some(
            (x, prefix.len() + 4int),
        ),
        spec_u32_to_le_bytes(x).len() == 4,
{
    lemma_auto_spec_u32_to_from_le_bytes();
    let b = prefix + spec_u32_to_le_bytes(x) + suffix;
    assert(b.subrange(prefix.len() as int, prefix.len() + 4int) =~= spec_u32_to_le_bytes(x));
}

pub proof fn lemma_u64_roundtrip(prefix: Seq<u8>, x: u64, suffix: Seq<u8>)
    ensures
        parse_u64_at(prefix + spec_u64_to_le_bytes(x) + suffix, prefix.len() as int) == Some(
            (x, prefix.len() + 8int),
        ),
        spec_u64_to_le_bytes(x).len() == 8,
{
    lemma_auto_spec_u64_to_from_le_bytes();
    let b = prefix + spec_u64_to_le_bytes(x) + suffix;
    assert(b.subrange(prefix.len() as int, prefix.len() + 8int) =~= spec_u64_to_le_bytes(x));
}

/// `std::string::String::from_utf8`: `Ok` exactly when the bytes are UTF-8,
/// and then the string whose encoding they are.
#[verifier::external_body]
pub fn string_from_utf8(bytes: Vec<u8>) -> (r: Option<String>)
    ensures
        match r {
            Some(s) => valid_utf8(bytes@) && s@ == decode_utf8(bytes@),
            None => !valid_utf8(bytes@),
        },
{
    String::from_utf8(bytes).ok()
}

/// Copy of a byte range.
pub fn bytes_to_vec(b: &[u8]) -> (v: Vec<u8>)
    ensures
        v@ == b@,
{
    let mut v: Vec<u8> = Vec::with_capacity(b.len());
    let mut i: usize = 0;
    while i < b.len()
        invariant
            i <= b@.len(),
            v@ == b@.subrange(0, i as int),
        decreases b@.len() - i,
    {
        v.push(b[i]);
        i = i + 1;
        assert(v@ =~= b@.subrange(0, i as int));
    }
    v
}

/// Append `src` to `dst`.
pub fn push_bytes(dst: &mut Vec<u8>, src: &[u8])
    ensures
        final(dst)@ == old(dst)@ + src@,
{
    let mut i: usize = 0;
    while i < src.len()
        invariant
            i <= src@.len(),
            dst@ == old(dst)@ + src@.subrange(0, i as int),
        decreases src@.len() - i,
    {
        dst.push(src[i]);
        i = i + 1;
        assert(dst@ =~= old(dst)@ + src@.subrange(0, i as int));
    }
    assert(src@.subrange(0, src@.len() as int) =~= src@);
}

/// Append `value` as a `u16`-prefixed UTF-8 field. A string of more than
/// `u16::MAX` bytes is refused and leaves `body` as it was.
pub fn write_str(body: &mut Vec<u8>, value: &str) -> (r: Result<(), String>)
    ensures
        r is Ok <==> fits_str_field(value@),
        r is Ok ==> final(body)@ == old(body)@ + str_field(value@),
        r is Err ==> final(body)@ == old(body)@,
{
    let bytes = value.as_bytes();
    if bytes.len() > 0xffff {
        return Err(String::from_str("string too long"));
    }
    let len = bytes.len() as u16;
    let prefix = u16_to_le_bytes(len);
    push_bytes(body, prefix.as_slice());
    push_bytes(body, bytes);
    assert(final_body_ok(old(body)@, body@, value@)) by {
        assert(body@ =~= old(body)@ + str_field(value@));
    }
    Ok(())
}

spec fn final_body_ok(old_body: Seq<u8>, body: Seq<u8>, v: Seq<char>) -> bool {
    body == old_body + str_field(v)
}

/// Append an optional string field; refuses a string over `u16::MAX` bytes.
pub fn write_opt_str(body: &mut Vec<u8>, value: &Option<String>) -> (r: Result<(), String>)
    ensures
        r is Ok <==> opt_fits(opt_str_view(*value)),
        r is Ok ==> final(body)@ == old(body)@ + opt_str_field(opt_str_view(*value)),
{
    match value {
        None => {
            body.push(0u8);
            assert(body@ =~= old(body)@ + opt_str_field(opt_str_view(*value)));
            Ok(())
        },
        Some(x) => {
            if x.as_str().as_bytes().len() > 0xffff {
                return Err(String::from_str("string too long"));
            }
            body.push(1u8);
            write_str(body, x.as_str())?;
            assert(body@ =~= old(body)@ + opt_str_field(opt_str_view(*value)));
            Ok(())
        },
    }
}

/// The optional string field at `pos`, and the position after it.
pub fn read_opt_str(buf: &[u8], pos: usize) -> (r: Result<(Option<String>, usize), String>)
    requires
        pos <= buf@.len(),
    ensures
        match r {
            Ok((a, next)) => parse_opt_str_at(buf@, pos as int) == Some((opt_str_view(a), next as int)) && pos
                <= next <= buf@.len(),
            Err(_) => parse_opt_str_at(buf@, pos as int) is None,
        },
{
    let (tag, p1) = take(buf, pos, 1)?;
    assert(tag@[0] == buf@[pos as int]);
    if tag[0] == 0 {
        Ok((None, p1))
    } else if tag[0] == 1 {
        let (x, p2) = read_str(buf, p1)?;
        Ok((Some(x), p2))
    } else {
        Err(String::from_str("bad optional field"))
    }
}

/// The `n` bytes at `pos`, and the position after them; fails on a short buffer.
pub fn take(buf: &[u8], pos: usize, n: usize) -> (r: Result<(&[u8], usize), String>)
    requires
        pos <= buf@.len(),
    ensures
        match r {
            Ok((head, next)) => pos + n <= buf@.len() && next == pos + n && head@ == buf@.subrange(
                pos as int,
                pos + n,
            ),
            Err(_) => pos + n > buf@.len(),
        },
{
    if buf.len() - pos < n {
        return Err(String::from_str("short body"));
    }
    Ok((vstd::slice::slice_subrange(buf, pos, pos + n), pos + n))
}

/// The little-endian `u16` at `pos`.
pub fn read_u16(buf: &[u8], pos: usize) -> (r: Result<(u16, usize), String>)
    requires
        pos <= buf@.len(),
    ensures
        match r {
            Ok((x, next)) => pos + 2 <= buf@.len() && next == pos + 2 && x
                == spec_u16_from_le_bytes(buf@.subrange(pos as int, pos + 2)),
            Err(_) => pos + 2 > buf@.len(),
        },
{
    let (head, next) = take(buf, pos, 2)?;
    Ok((u16_from_le_bytes(head), next))
}

/// The little-endian `u32` at `pos`.
pub fn read_u32(buf: &[u8], pos: usize) -> (r: Result<(u32, usize), String>)
    requires
        pos <= buf@.len(),
    ensures
        match r {
            Ok((x, next)) => parse_u32_at(buf@, pos as int) == Some((x, next as int)),
            Err(_) => parse_u32_at(buf@, pos as int) is None,
        },
{
    let (head, next) = take(buf, pos, 4)?;
    Ok((u32_from_le_bytes(head), next))
}

/// The little-endian `u64` at `pos`.
pub fn read_u64(buf: &[u8], pos: usize) -> (r: Result<(u64, usize), String>)
    requires
        pos <= buf@.len(),
    ensures
        match r {
            Ok((x, next)) => parse_u64_at(buf@, pos as int) == Some((x, next as int)),
            Err(_) => parse_u64_at(buf@, pos as int) is None,
        },
{
    let (head, next) = take(buf, pos, 8)?;
    Ok((u64_from_le_bytes(head), next))
}

/// The `u16`-prefixed UTF-8 string at `pos`; fails on short bytes or bytes
/// that are not UTF-8.
pub fn read_str(buf: &[u8], pos: usize) -> (r: Result<(String, usize), String>)
    requires
        pos <= buf@.len(),
    ensures
        match r {
            Ok((s, next)) => parse_str_at(buf@, pos as int) == Some((s@, next as int)),
            Err(_) => parse_str_at(buf@, pos as int) is None,
        },
{
    let (len, start) = read_u16(buf, pos)?;
    let len = len as usize;
    if buf.len() - start < len {
        return Err(String::from_str("short string"));
    }
    let head = vstd::slice::slice_subrange(buf, start, start + len);
    match string_from_utf8(bytes_to_vec(head)) {
        Some(s) => Ok((s, start + len)),
        None => Err(String::from_str("not utf8")),
    }
}

/// The trimmed entries of a comma-separated list; none for an empty list.
pub open spec fn csv_entries(raw: Seq<char>) -> Seq<Seq<char>> {
    if raw.len() == 0 {
        seq![]
    } else {
        split_on(raw, ',').map_values(|p: Seq<char>| trimmed(p))
    }
}

/// No entry is empty and no entry repeats.
pub open spec fn csv_ok(entries: Seq<Seq<char>>) -> bool {
    &&& forall|i: int| 0 <= i < entries.len() ==> (#[trigger] entries[i]).len() > 0
    &&& entries.no_duplicates()
}

/// Split a comma-separated list into trimmed entries. An empty list has no
/// entries; an empty entry fails with `empty_entry`, a repeated one with
/// `duplicate_prefix` followed by the entry.
pub fn split_unique_csv(raw: &str, empty_entry: &str, duplicate_prefix: &str) -> (r: Result<Vec<String>, String>)
    ensures
        match r {
            Ok(v) => csv_ok(csv_entries(raw@)) && strs(v@) == csv_entries(raw@),
            Err(_) => !csv_ok(csv_entries(raw@)),
        },
{
    if raw.unicode_len() == 0 {
        let v: Vec<String> = Vec::new();
        assert(strs(v@) =~= Seq::<Seq<char>>::empty());
        return Ok(v);
    }
    let parts = split_chars(raw, ',');
    let ghost entries = csv_entries(raw@);
    let mut out: Vec<String> = Vec::new();
    let mut i: usize = 0;
    while i < parts.len()
        invariant
            i <= parts@.len(),
            raw@.len() > 0,
            entries == csv_entries(raw@),
            entries == strs(parts@).map_values(|p: Seq<char>| trimmed(p)),
            strs(out@) == entries.subrange(0, i as int),
            csv_ok(entries.subrange(0, i as int)),
        decreases parts@.len() - i,
    {
        let token = trim_str(parts[i].as_str());
        assert(entries[i as int] == token@);
        if token.unicode_len() == 0 {
            return Err(empty_entry.to_owned());
        }
        if contains_str(&out, token) {
            proof {
                let k = choose|k: int| 0 <= k < strs(out@).len() && strs(out@)[k] == token@;
                assert(entries[k] == entries[i as int]);
            }
            return Err(concat_str(duplicate_prefix, token));
        }
        out.push(token.to_owned());
        proof {
            let sub = entries.subrange(0, i + 1);
            assert(strs(out@) =~= sub);
            assert forall|a: int, b: int| 0 <= a < b < sub.len() implies sub[a] != sub[b] by {
                if b == i {
                    assert(strs(out@).subrange(0, i as int).contains(sub[a]) || true);
                    assert(entries.subrange(0, i as int)[a] == sub[a]);
                } else {
                    assert(entries.subrange(0, i as int)[a] == sub[a]);
                    assert(entries.subrange(0, i as int)[b] == sub[b]);
                }
            }
        }
        i = i + 1;
    }
    assert(entries.subrange(0, entries.len() as int) =~= entries);
    Ok(out)
}

/// Non-empty entries free of `,` and of surrounding white space, joined with
/// `,`, read back as the same entries.
pub proof fn lemma_csv_join(parts: Seq<Seq<char>>)
    requires
        forall|i: int|
            0 <= i < parts.len() ==> (#[trigger] parts[i]).len() > 0 && !parts[i].contains(',')
                && !is_white_space(parts[i][0]) && !is_white_space(parts[i].last()),
    ensures
        csv_entries(join_with(parts, ',')) == parts,
{
    if parts.len() == 0 {
        assert(join_with(parts, ',') == Seq::<char>::empty());
    } else {
        lemma_join_shape(parts, ',', ',');
        lemma_split_join(parts, ',');
        let sp = split_on(join_with(parts, ','), ',');
        assert forall|i: int| 0 <= i < parts.len() implies trimmed(#[trigger] parts[i]) == parts[i] by {
            lemma_trimmed_unchanged(parts[i]);
        }
        assert(sp.map_values(|p: Seq<char>| trimmed(p)) =~= parts);
    }
}

} // verus!
