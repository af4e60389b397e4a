//! Clerk-supplied kind, property, and link rules.
//!
//! Descriptors persist as ordinary objects of kind [`SCHEMA_KIND`] with key
//! equal to the described kind. Values stay UTF-8 strings. Optional
//! [`SCHEMA_SUMS`] names last-hop measure properties. A store with no visible
//! schema row for a kind accepts unvalidated string records.

use vstd::prelude::*;
use vstd::std_specs::cmp::PartialEqSpecImpl;

use crate::codec::{csv_entries, csv_ok, split_unique_csv};
use crate::props::{key_lt, lemma_prop_get_at, lemma_prop_get_push, lemma_push_field, sorted_keys, lemma_key_lt_irreflexive, lemma_key_lt_total, lemma_key_lt_transitive, prop_get, prop_has, Props};
use crate::record::{ObjectRecord, RecordView};
use crate::strs::{contains_str, join_strings, join_with, sort_distinct, sorted_of, sorted_strs, strs};
use crate::text::{concat_str, decimal, decimal_string, is_white_space, split_chars, split_on, str_eq, str_less};
use crate::value::{canonical, type_token, write_form, PropertyType};

verus! {

broadcast use {vstd::seq_lib::group_seq_properties, vstd::set::group_set_axioms};

/// Reserved kind for the last accepted descriptor of another kind.
pub const SCHEMA_KIND: &'static str = "mikura.schema";

/// Comma-separated allowed property names on the described kind.
pub const SCHEMA_PROPERTIES: &'static str = "properties";

/// Comma-separated required property names. Absent means none required.
pub const SCHEMA_REQUIRED: &'static str = "required";

/// Comma-separated `name:far_kind:out|in:0..1` link rules. Absent means none.
pub const SCHEMA_LINKS: &'static str = "links";

/// Comma-separated property names that are last-hop sum measures. Absent means none.
pub const SCHEMA_SUMS: &'static str = "sums";

/// Comma-separated `name:type` or `name:decimal:<scale>` logical types.
/// Absent means every property is a string.
pub const SCHEMA_TYPES: &'static str = "types";

pub open spec fn schema_kind() -> Seq<char> {
    seq!['m', 'i', 'k', 'u', 'r', 'a', '.', 's', 'c', 'h', 'e', 'm', 'a']
}

pub proof fn lemma_schema_kind()
    ensures
        SCHEMA_KIND@ == schema_kind(),
{
    reveal_strlit("mikura.schema");
    assert(SCHEMA_KIND@ =~= schema_kind());
}

/// One named relation on a descriptor.
///
/// Outgoing links are stored on the described kind as `props[name]`. Incoming
/// links name a property on `far_kind` that points here.
#[derive(Debug)]
pub struct SchemaLink {
    pub name: String,
    pub far_kind: String,
    pub outgoing: bool,
}

/// Clerk-authored rules for one kind.
#[derive(Debug)]
pub struct SchemaDescriptor {
    pub kind: String,
    pub properties: Vec<String>,
    pub required: Vec<String>,
    pub links: Vec<SchemaLink>,
    pub sums: Vec<String>,
    /// Declared non-default types. Omitted names are [`PropertyType::String`].
    pub types: Vec<(String, PropertyType)>,
}

pub struct LinkView {
    pub name: Seq<char>,
    pub far_kind: Seq<char>,
    pub outgoing: bool,
}

pub struct DescriptorView {
    pub kind: Seq<char>,
    pub properties: Seq<Seq<char>>,
    pub required: Seq<Seq<char>>,
    pub links: Seq<LinkView>,
    pub sums: Seq<Seq<char>>,
    pub types: Seq<(Seq<char>, PropertyType)>,
}

pub open spec fn link_view(l: SchemaLink) -> LinkView {
    LinkView { name: l.name@, far_kind: l.far_kind@, outgoing: l.outgoing }
}

pub open spec fn links_view(l: Seq<SchemaLink>) -> Seq<LinkView> {
    l.map_values(|x: SchemaLink| link_view(x))
}

pub open spec fn types_view(t: Seq<(String, PropertyType)>) -> Seq<(Seq<char>, PropertyType)> {
    t.map_values(|x: (String, PropertyType)| (x.0@, x.1))
}

impl View for SchemaDescriptor {
    type V = DescriptorView;

    open spec fn view(&self) -> DescriptorView {
        DescriptorView {
            kind: self.kind@,
            properties: strs(self.properties@),
            required: strs(self.required@),
            links: links_view(self.links@),
            sums: strs(self.sums@),
            types: types_view(self.types@),
        }
    }
}

pub open spec fn is_ascii_alpha(c: char) -> bool {
    ('a' <= c <= 'z') || ('A' <= c <= 'Z')
}

pub open spec fn is_token_char(c: char) -> bool {
    is_ascii_alpha(c) || ('0' <= c <= '9') || c == '_' || c == '.'
}

/// A schema token: an ASCII letter, then ASCII letters, digits, `_` or `.`.
pub open spec fn schema_token(s: Seq<char>) -> bool {
    &&& s.len() > 0
    &&& is_ascii_alpha(s[0])
    &&& forall|i: int| 1 <= i < s.len() ==> is_token_char(#[trigger] s[i])
}

/// Every entry is a token.
pub open spec fn all_tokens(s: Seq<Seq<char>>) -> bool {
    forall|i: int| 0 <= i < s.len() ==> schema_token(#[trigger] s[i])
}

/// Every entry is one of `within`.
pub open spec fn all_within(s: Seq<Seq<char>>, within: Seq<Seq<char>>) -> bool {
    forall|i: int| 0 <= i < s.len() ==> within.contains(#[trigger] s[i])
}

pub open spec fn link_names(l: Seq<LinkView>) -> Seq<Seq<char>> {
    l.map_values(|x: LinkView| x.name)
}

pub open spec fn type_names(t: Seq<(Seq<char>, PropertyType)>) -> Seq<Seq<char>> {
    t.map_values(|x: (Seq<char>, PropertyType)| x.0)
}

/// Link rules: names are distinct tokens, far kinds are tokens other than
/// the reserved kind, and an outgoing link is a declared property.
pub open spec fn links_ok(properties: Seq<Seq<char>>, links: Seq<LinkView>) -> bool {
    &&& all_tokens(link_names(links))
    &&& link_names(links).no_duplicates()
    &&& forall|i: int| 0 <= i < links.len() ==> link_ok(properties, #[trigger] links[i])
}

pub open spec fn link_ok(properties: Seq<Seq<char>>, l: LinkView) -> bool {
    &&& schema_token(l.far_kind)
    &&& l.far_kind != schema_kind()
    &&& (l.outgoing ==> properties.contains(l.name))
}

/// A decimal scale is at most 18.
pub open spec fn scale_ok(t: PropertyType) -> bool {
    match t {
        PropertyType::Decimal { scale } => scale <= 18,
        _ => true,
    }
}

/// Type rules: names are distinct declared tokens and decimal scales fit.
pub open spec fn types_ok(properties: Seq<Seq<char>>, types: Seq<(Seq<char>, PropertyType)>) -> bool {
    &&& all_tokens(type_names(types))
    &&& all_within(type_names(types), properties)
    &&& type_names(types).no_duplicates()
    &&& forall|i: int| 0 <= i < types.len() ==> scale_ok((#[trigger] types[i]).1)
}

/// An outgoing link has no declared type other than string.
pub open spec fn link_types_ok(links: Seq<LinkView>, types: Seq<(Seq<char>, PropertyType)>) -> bool {
    forall|i: int, j: int|
        0 <= i < links.len() && 0 <= j < types.len() && (#[trigger] links[i]).outgoing
            && (#[trigger] types[j]).0 == links[i].name ==> types[j].1 == PropertyType::String
}

/// The list rules: distinct tokens, each declared when `within` is given.
pub open spec fn list_ok(items: Seq<Seq<char>>, within: Option<Seq<Seq<char>>>) -> bool {
    &&& all_tokens(items)
    &&& (within matches Some(w) ==> all_within(items, w))
    &&& items.no_duplicates()
}

/// Whether entry `i` of a list is the first to break its rules, and breaks
/// them by naming something outside `within`: the entries before it are
/// distinct tokens within it, and it is a token.
pub open spec fn first_outside(items: Seq<Seq<char>>, within: Seq<Seq<char>>, i: int) -> bool {
    &&& 0 <= i < items.len()
    &&& forall|j: int| 0 <= j < i ==> schema_token(#[trigger] items[j]) && within.contains(items[j])
    &&& items.subrange(0, i).no_duplicates()
    &&& schema_token(items[i])
    &&& !within.contains(items[i])
}

/// No entry before `i` is the first to break the rules when the entries
/// before `i` keep them, and one after `i` is so only when entry `i` keeps
/// them too.
proof fn lemma_first_outside_at(sv: Seq<Seq<char>>, w: Seq<Seq<char>>, i: int)
    requires
        0 <= i < sv.len(),
        list_ok(sv.subrange(0, i), Some(w)),
    ensures
        forall|j: int| #![trigger sv[j]] first_outside(sv, w, j) ==> j >= i,
        forall|j: int| #![trigger sv[j]] first_outside(sv, w, j) && j > i ==> schema_token(sv[i]) && w.contains(sv[i])
            && forall|k: int| 0 <= k < i ==> sv[k] != sv[i],
{
    assert forall|j: int| #![trigger sv[j]] first_outside(sv, w, j) implies j >= i by {
        if j < i {
            assert(sv.subrange(0, i)[j] == sv[j]);
        }
    }
    assert forall|j: int| #![trigger sv[j]] first_outside(sv, w, j) && j > i implies schema_token(sv[i]) && w.contains(
        sv[i],
    ) && forall|k: int| 0 <= k < i ==> sv[k] != sv[i] by {
        assert forall|k: int| 0 <= k < i implies sv[k] != sv[i] by {
            assert(sv.subrange(0, j)[k] == sv[k]);
            assert(sv.subrange(0, j)[i] == sv[i]);
        }
    }
}

/// The same for links: a later link is the first undeclared one only when
/// link `i` keeps the rules.
proof fn lemma_first_link_at(pv: Seq<Seq<char>>, lv: Seq<LinkView>, i: int)
    requires
        0 <= i < lv.len(),
        links_ok(pv, lv.subrange(0, i)),
    ensures
        forall|j: int| #![trigger lv[j]] first_undeclared_link(pv, lv, j) ==> j >= i,
        forall|j: int| #![trigger lv[j]] first_undeclared_link(pv, lv, j) && j > i ==> schema_token(lv[i].name)
            && link_ok(pv, lv[i]) && !link_names(lv.subrange(0, i)).contains(lv[i].name),
{
    assert forall|j: int| #![trigger lv[j]] first_undeclared_link(pv, lv, j) implies j >= i by {
        if j < i {
            assert(lv.subrange(0, i)[j] == lv[j]);
            assert(link_ok(pv, lv.subrange(0, i)[j]));
        }
    }
    assert forall|j: int| #![trigger lv[j]] first_undeclared_link(pv, lv, j) && j > i implies schema_token(lv[i].name)
        && link_ok(pv, lv[i]) && !link_names(lv.subrange(0, i)).contains(lv[i].name) by {
        let sub = lv.subrange(0, j);
        assert(sub[i] == lv[i]);
        assert(link_ok(pv, sub[i]));
        assert(link_names(sub)[i] == lv[i].name);
        if link_names(lv.subrange(0, i)).contains(lv[i].name) {
            let k = choose|k: int| 0 <= k < i && link_names(lv.subrange(0, i))[k] == lv[i].name;
            assert(link_names(sub)[k] == lv.subrange(0, i)[k].name);
        }
    }
}

/// The same for types.
proof fn lemma_first_type_at(pv: Seq<Seq<char>>, tv: Seq<(Seq<char>, PropertyType)>, i: int)
    requires
        0 <= i < tv.len(),
        types_ok(pv, tv.subrange(0, i)),
    ensures
        forall|j: int| #![trigger tv[j]] first_undeclared_type(pv, tv, j) ==> j >= i,
        forall|j: int| #![trigger tv[j]] first_undeclared_type(pv, tv, j) && j > i ==> schema_token(tv[i].0)
            && pv.contains(tv[i].0) && types_ok(pv, tv.subrange(0, i + 1)),
{
    assert forall|j: int| #![trigger tv[j]] first_undeclared_type(pv, tv, j) implies j >= i by {
        if j < i {
            assert(type_names(tv.subrange(0, i))[j] == tv[j].0);
        }
    }
    assert forall|j: int| #![trigger tv[j]] first_undeclared_type(pv, tv, j) && j > i implies schema_token(tv[i].0)
        && pv.contains(tv[i].0) && types_ok(pv, tv.subrange(0, i + 1)) by {
        assert(type_names(tv.subrange(0, j))[i] == tv[i].0);
        lemma_types_prefix(pv, tv.subrange(0, j), i + 1);
        assert(tv.subrange(0, j).subrange(0, i + 1) =~= tv.subrange(0, i + 1));
    }
}

/// The type rules hold of every prefix of a list that keeps them.
proof fn lemma_types_prefix(pv: Seq<Seq<char>>, t: Seq<(Seq<char>, PropertyType)>, n: int)
    requires
        types_ok(pv, t),
        0 <= n <= t.len(),
    ensures
        types_ok(pv, t.subrange(0, n)),
{
    let p = t.subrange(0, n);
    assert forall|k: int| 0 <= k < p.len() implies type_names(p)[k] == type_names(t)[k] && p[k] == t[k] by {}
    assert forall|a: int, b: int| 0 <= a < b < type_names(p).len() implies type_names(p)[a] != type_names(p)[b] by {
        assert(type_names(p)[a] == type_names(t)[a]);
        assert(type_names(p)[b] == type_names(t)[b]);
    }
    assert forall|k: int| 0 <= k < type_names(p).len() implies schema_token(#[trigger] type_names(p)[k]) by {
        assert(type_names(p)[k] == type_names(t)[k]);
    }
    assert forall|k: int| 0 <= k < type_names(p).len() implies pv.contains(#[trigger] type_names(p)[k]) by {
        assert(type_names(p)[k] == type_names(t)[k]);
    }
    assert forall|k: int| 0 <= k < p.len() implies scale_ok((#[trigger] p[k]).1) by {
        assert(p[k] == t[k]);
    }
}

/// Whether link `i` is the first to break the link rules, and breaks them as
/// an outgoing link that is no declared property.
pub open spec fn first_undeclared_link(properties: Seq<Seq<char>>, links: Seq<LinkView>, i: int) -> bool {
    &&& 0 <= i < links.len()
    &&& links_ok(properties, links.subrange(0, i))
    &&& schema_token(links[i].name)
    &&& schema_token(links[i].far_kind)
    &&& links[i].far_kind != schema_kind()
    &&& !link_names(links.subrange(0, i)).contains(links[i].name)
    &&& links[i].outgoing
    &&& !properties.contains(links[i].name)
}

/// Whether type entry `i` is the first to break the type rules, and breaks
/// them by naming no declared property.
pub open spec fn first_undeclared_type(properties: Seq<Seq<char>>, types: Seq<(Seq<char>, PropertyType)>, i: int) -> bool {
    &&& 0 <= i < types.len()
    &&& types_ok(properties, types.subrange(0, i))
    &&& schema_token(types[i].0)
    &&& !properties.contains(types[i].0)
}

/// How a descriptor check answers, `None` for success: the reserved kind,
/// and the first entry that names no declared property, each with its
/// message, where the checks before it pass.
pub open spec fn refused_with(d: DescriptorView, err: Option<Seq<char>>) -> bool {
    let head = schema_token(d.kind) && d.kind != schema_kind() && list_ok(d.properties, None);
    &&& (schema_token(d.kind) && d.kind == schema_kind()) ==> err == Some("mikura.schema is reserved"@)
    &&& forall|i: int|
        #![trigger d.required[i]]
        head && first_outside(d.required, d.properties, i) ==> err == Some(
            "required property "@ + d.required[i] + " is not declared"@,
        )
    &&& forall|i: int|
        #![trigger d.links[i]]
        head && list_ok(d.required, Some(d.properties)) && first_undeclared_link(d.properties, d.links, i) ==> err
            == Some("outgoing link "@ + d.links[i].name + " is not a declared property"@)
    &&& forall|i: int|
        #![trigger d.sums[i]]
        head && list_ok(d.required, Some(d.properties)) && links_ok(d.properties, d.links) && first_outside(
            d.sums,
            d.properties,
            i,
        ) ==> err == Some("sum property "@ + d.sums[i] + " is not declared"@)
    &&& forall|i: int|
        #![trigger d.types[i]]
        head && list_ok(d.required, Some(d.properties)) && links_ok(d.properties, d.links) && list_ok(
            d.sums,
            Some(d.properties),
        ) && first_undeclared_type(d.properties, d.types, i) ==> err == Some(
            "typed property "@ + d.types[i].0 + " is not declared"@,
        )
}

/// The rules a descriptor must meet.
pub open spec fn descriptor_ok(d: DescriptorView) -> bool {
    &&& schema_token(d.kind)
    &&& d.kind != schema_kind()
    &&& list_ok(d.properties, None)
    &&& list_ok(d.required, Some(d.properties))
    &&& links_ok(d.properties, d.links)
    &&& list_ok(d.sums, Some(d.properties))
    &&& types_ok(d.properties, d.types)
    &&& link_types_ok(d.links, d.types)
}

/// Fail unless `value` is a schema token; the message names `label`.
pub fn token(value: &str, label: &str) -> (r: Result<(), String>)
    ensures
        r is Ok <==> schema_token(value@),
{
    let n = value.unicode_len();
    if n == 0 {
        return Err(concat_str(label, " must not be empty"));
    }
    let first = value.get_char(0);
    if !(('a' <= first && first <= 'z') || ('A' <= first && first <= 'Z')) {
        let mut m = concat_str(label, " ");
        m.append(value);
        m.append(" must start with a letter");
        return Err(m);
    }
    let mut i: usize = 1;
    while i < n
        invariant
            1 <= i <= n,
            n == value@.len(),
            forall|k: int| 1 <= k < i ==> is_token_char(#[trigger] value@[k]),
        decreases n - i,
    {
        let c = value.get_char(i);
        if !(('a' <= c && c <= 'z') || ('A' <= c && c <= 'Z') || ('0' <= c && c <= '9') || c == '_'
            || c == '.') {
            let mut m = concat_str(label, " ");
            m.append(value);
            m.append(" is not a schema token");
            return Err(m);
        }
        i = i + 1;
    }
    Ok(())
}

/// `message`, then ` on ` and the kind.
fn on_kind(message: String, kind: &str) -> (s: String)
    ensures
        s@ == message@ + " on "@ + kind@,
{
    let mut m = message;
    m.append(" on ");
    m.append(kind);
    m
}

fn named_message(prefix: &str, name: &str, suffix: &str) -> (s: String)
    ensures
        s@ == prefix@ + name@ + suffix@,
{
    let mut m = concat_str(prefix, name);
    m.append(suffix);
    m
}

pub open spec fn within_view(within: Option<&Vec<String>>) -> Option<Seq<Seq<char>>> {
    match within {
        Some(w) => Some(strs(w@)),
        None => None,
    }
}

/// Check every entry is a token, one of `within` when given, and not repeated.
/// An undeclared entry fails with `outside_prefix`, the entry and
/// `outside_suffix`; a repeated one with `duplicate_prefix` and the entry.
fn check_list(
    items: &Vec<String>,
    label: &str,
    within: Option<&Vec<String>>,
    outside_prefix: &str,
    outside_suffix: &str,
    duplicate_prefix: &str,
) -> (r: Result<(), String>)
    ensures
        r is Ok <==> list_ok(strs(items@), within_view(within)),
        forall|i: int|
            #![trigger strs(items@)[i]]
            within matches Some(w) && first_outside(strs(items@), strs(w@), i) ==> (r matches Err(e) && e@
                == outside_prefix@ + strs(items@)[i] + outside_suffix@),
{
    let ghost sv = strs(items@);
    let mut i: usize = 0;
    while i < items.len()
        invariant
            i <= items@.len(),
            sv == strs(items@),
            list_ok(sv.subrange(0, i as int), within_view(within)),
        decreases items@.len() - i,
    {
        let name = items[i].as_str();
        assert(sv[i as int] == name@);
        match token(name, label) {
            Ok(()) => {},
            Err(e) => {
                assert(!all_tokens(sv)) by {
                    assert(!schema_token(sv[i as int]));
                }
                proof {
                    if within is Some {
                        lemma_first_outside_at(sv, strs(within.unwrap()@), i as int);
                    }
                }
                return Err(e);
            },
        }
        match within {
            Some(w) => {
                if !contains_str(w, name) {
                    assert(!all_within(sv, strs(w@))) by {
                        assert(!strs(w@).contains(sv[i as int]));
                    }
                    proof {
                        lemma_first_outside_at(sv, strs(w@), i as int);
                    }
                    return Err(named_message(outside_prefix, name, outside_suffix));
                }
            },
            None => {},
        }
        let mut j: usize = 0;
        while j < i
            invariant
                j <= i,
                i < items@.len(),
                sv == strs(items@),
                sv[i as int] == name@,
                list_ok(sv.subrange(0, i as int), within_view(within)),
                within matches Some(w) ==> strs(w@).contains(name@),
                forall|k: int| 0 <= k < j ==> sv[k] != name@,
            decreases i - j,
        {
            if str_eq(items[j].as_str(), name) {
                assert(!sv.no_duplicates()) by {
                    assert(sv[j as int] == sv[i as int]);
                }
                proof {
                    if within is Some {
                        let w = strs(within.unwrap()@);
                        lemma_first_outside_at(sv, w, i as int);
                        assert forall|m: int| #![trigger sv[m]] first_outside(sv, w, m) implies false by {
                            if m > i {
                                assert(sv[j as int] != sv[i as int]);
                            }
                        }
                    }
                }
                return Err(named_message(duplicate_prefix, name, ""));
            }
            j = j + 1;
        }
        proof {
            let sub = sv.subrange(0, i + 1);
            let pre = sv.subrange(0, i as int);
            assert forall|a: int, b: int| 0 <= a < b < sub.len() implies sub[a] != sub[b] by {
                if b < i {
                    assert(pre[a] == sub[a]);
                    assert(pre[b] == sub[b]);
                }
            }
            assert forall|k: int| 0 <= k < sub.len() implies schema_token(#[trigger] sub[k]) by {
                if k < i {
                    assert(pre[k] == sub[k]);
                }
            }
            if within is Some {
                let w = within.unwrap();
                assert forall|k: int| 0 <= k < sub.len() implies strs(w@).contains(#[trigger] sub[k]) by {
                    if k < i {
                        assert(pre[k] == sub[k]);
                    }
                }
            }
        }
        i = i + 1;
    }
    assert(sv.subrange(0, items@.len() as int) =~= sv);
    Ok(())
}

/// Check the link rules against the declared `properties`.
fn check_links(links: &Vec<SchemaLink>, properties: &Vec<String>) -> (r: Result<(), String>)
    ensures
        r is Ok <==> links_ok(strs(properties@), links_view(links@)),
        forall|i: int|
            #![trigger links_view(links@)[i]]
            first_undeclared_link(strs(properties@), links_view(links@), i) ==> (r matches Err(e) && e@
                == "outgoing link "@ + links_view(links@)[i].name + " is not a declared property"@),
{
    let ghost lv = links_view(links@);
    let ghost pv = strs(properties@);
    let mut i: usize = 0;
    while i < links.len()
        invariant
            i <= links@.len(),
            lv == links_view(links@),
            pv == strs(properties@),
            links_ok(pv, lv.subrange(0, i as int)),
        decreases links@.len() - i,
    {
        let link = &links[i];
        assert(lv[i as int] == link_view(*link));
        assert(link_names(lv)[i as int] == link.name@);
        match token(link.name.as_str(), "link") {
            Ok(()) => {},
            Err(e) => {
                assert(!all_tokens(link_names(lv))) by {
                    assert(!schema_token(link_names(lv)[i as int]));
                }
                proof {
                    lemma_first_link_at(pv, lv, i as int);
                }
                return Err(e);
            },
        }
        match token(link.far_kind.as_str(), "far kind") {
            Ok(()) => {},
            Err(e) => {
                assert(!link_ok(pv, lv[i as int]));
                proof {
                    lemma_first_link_at(pv, lv, i as int);
                }
                return Err(e);
            },
        }
        if str_eq(link.far_kind.as_str(), SCHEMA_KIND) {
            proof {
                lemma_schema_kind();
                assert(!link_ok(pv, lv[i as int]));
                lemma_first_link_at(pv, lv, i as int);
            }
            return Err(named_message("link ", link.name.as_str(), " cannot target mikura.schema"));
        }
        let mut j: usize = 0;
        while j < i
            invariant
                j <= i,
                i < links@.len(),
                lv == links_view(links@),
                pv == strs(properties@),
                links_ok(pv, lv.subrange(0, i as int)),
                link_names(lv)[i as int] == link.name@,
                forall|k: int| 0 <= k < j ==> link_names(lv)[k] != link.name@,
            decreases i - j,
        {
            if str_eq(links[j].name.as_str(), link.name.as_str()) {
                assert(!link_names(lv).no_duplicates()) by {
                    assert(link_names(lv)[j as int] == link_names(lv)[i as int]);
                }
                proof {
                    lemma_first_link_at(pv, lv, i as int);
                    assert(link_names(lv.subrange(0, i as int))[j as int] == link_names(lv)[j as int]);
                }
                return Err(named_message("duplicate link ", link.name.as_str(), ""));
            }
            j = j + 1;
        }
        if link.outgoing && !contains_str(properties, link.name.as_str()) {
            assert(!link_ok(pv, lv[i as int]));
            proof {
                lemma_first_link_at(pv, lv, i as int);
            }
            return Err(named_message("outgoing link ", link.name.as_str(), " is not a declared property"));
        }
        proof {
            lemma_schema_kind();
            let sub = lv.subrange(0, i + 1);
            let pre = lv.subrange(0, i as int);
            assert(link_names(sub) =~= link_names(pre).push(link.name@));
            assert forall|a: int, b: int| 0 <= a < b < link_names(sub).len() implies link_names(sub)[a] != link_names(sub)[b] by {
                if b < i {
                    assert(link_names(pre)[a] == link_names(sub)[a]);
                    assert(link_names(pre)[b] == link_names(sub)[b]);
                } else {
                    assert(link_names(pre)[a] == link_names(lv)[a]);
                }
            }
            assert forall|k: int| 0 <= k < link_names(sub).len() implies schema_token(#[trigger] link_names(sub)[k]) by {
                if k < i {
                    assert(link_names(pre)[k] == link_names(sub)[k]);
                }
            }
            assert forall|k: int| 0 <= k < sub.len() implies link_ok(pv, #[trigger] sub[k]) by {
                if k < i {
                    assert(pre[k] == sub[k]);
                }
            }
        }
        i = i + 1;
    }
    assert(lv.subrange(0, links@.len() as int) =~= lv);
    Ok(())
}

/// Check the type rules against the declared `properties`.
fn check_types(types: &Vec<(String, PropertyType)>, properties: &Vec<String>) -> (r: Result<(), String>)
    ensures
        r is Ok <==> types_ok(strs(properties@), types_view(types@)),
        forall|i: int|
            #![trigger types_view(types@)[i]]
            first_undeclared_type(strs(properties@), types_view(types@), i) ==> (r matches Err(e) && e@
                == "typed property "@ + types_view(types@)[i].0 + " is not declared"@),
{
    let ghost tv = types_view(types@);
    let ghost pv = strs(properties@);
    let mut i: usize = 0;
    while i < types.len()
        invariant
            i <= types@.len(),
            tv == types_view(types@),
            pv == strs(properties@),
            types_ok(pv, tv.subrange(0, i as int)),
        decreases types@.len() - i,
    {
        let entry = &types[i];
        let name = entry.0.as_str();
        assert(tv[i as int] == (name@, entry.1));
        assert(type_names(tv)[i as int] == name@);
        match token(name, "type") {
            Ok(()) => {},
            Err(e) => {
                assert(!all_tokens(type_names(tv))) by {
                    assert(!schema_token(type_names(tv)[i as int]));
                }
                proof {
                    lemma_first_type_at(pv, tv, i as int);
                }
                return Err(e);
            },
        }
        if !contains_str(properties, name) {
            assert(!all_within(type_names(tv), pv)) by {
                assert(!pv.contains(type_names(tv)[i as int]));
            }
            proof {
                lemma_first_type_at(pv, tv, i as int);
            }
            return Err(named_message("typed property ", name, " is not declared"));
        }
        let mut j: usize = 0;
        while j < i
            invariant
                j <= i,
                i < types@.len(),
                tv == types_view(types@),
                pv == strs(properties@),
                types_ok(pv, tv.subrange(0, i as int)),
                pv.contains(name@),
                type_names(tv)[i as int] == name@,
                forall|k: int| 0 <= k < j ==> type_names(tv)[k] != name@,
            decreases i - j,
        {
            if str_eq(types[j].0.as_str(), name) {
                assert(!type_names(tv).no_duplicates()) by {
                    assert(type_names(tv)[j as int] == type_names(tv)[i as int]);
                }
                proof {
                    lemma_first_type_at(pv, tv, i as int);
                    let sub = tv.subrange(0, i + 1);
                    assert(type_names(sub)[j as int] == type_names(sub)[i as int]);
                }
                return Err(named_message("duplicate typed property ", name, ""));
            }
            j = j + 1;
        }
        match entry.1 {
            PropertyType::Decimal { scale } => {
                if scale > 18 {
                    assert(!scale_ok(tv[i as int].1));
                    proof {
                        lemma_first_type_at(pv, tv, i as int);
                        assert(tv.subrange(0, i + 1)[i as int] == tv[i as int]);
                    }
                    let mut m = concat_str("decimal scale ", decimal_string(scale as u64).as_str());
                    m.append(" on ");
                    m.append(name);
                    m.append(" exceeds 18");
                    return Err(m);
                }
            },
            _ => {},
        }
        proof {
            let sub = tv.subrange(0, i + 1);
            let pre = tv.subrange(0, i as int);
            assert(type_names(sub) =~= type_names(pre).push(name@));
            assert forall|a: int, b: int| 0 <= a < b < type_names(sub).len() implies type_names(sub)[a] != type_names(sub)[b] by {
                if b < i {
                    assert(type_names(pre)[a] == type_names(sub)[a]);
                    assert(type_names(pre)[b] == type_names(sub)[b]);
                } else {
                    assert(type_names(pre)[a] == type_names(tv)[a]);
                }
            }
            assert forall|k: int| 0 <= k < type_names(sub).len() implies schema_token(#[trigger] type_names(sub)[k]) && pv.contains(type_names(sub)[k]) by {
                if k < i {
                    assert(type_names(pre)[k] == type_names(sub)[k]);
                }
            }
            assert forall|k: int| 0 <= k < sub.len() implies scale_ok((#[trigger] sub[k]).1) by {
                if k < i {
                    assert(pre[k] == sub[k]);
                }
            }
        }
        i = i + 1;
    }
    assert(tv.subrange(0, types@.len() as int) =~= tv);
    assert forall|j: int| #![trigger tv[j]] first_undeclared_type(pv, tv, j) implies false by {
        assert(type_names(tv)[j] == tv[j].0);
    }
    Ok(())
}

/// Check that no outgoing link is declared with a type other than string.
fn check_link_types(links: &Vec<SchemaLink>, types: &Vec<(String, PropertyType)>) -> (r: Result<(), String>)
    ensures
        r is Ok <==> link_types_ok(links_view(links@), types_view(types@)),
{
    let ghost lv = links_view(links@);
    let ghost tv = types_view(types@);
    let mut i: usize = 0;
    while i < links.len()
        invariant
            i <= links@.len(),
            lv == links_view(links@),
            tv == types_view(types@),
            forall|a: int, b: int|
                0 <= a < i && 0 <= b < tv.len() && (#[trigger] lv[a]).outgoing
                    && (#[trigger] tv[b]).0 == lv[a].name ==> tv[b].1 == PropertyType::String,
        decreases links@.len() - i,
    {
        let link = &links[i];
        assert(lv[i as int] == link_view(*link));
        if link.outgoing {
            let mut j: usize = 0;
            while j < types.len()
                invariant
                    j <= types@.len(),
                    i < links@.len(),
                    lv == links_view(links@),
                    tv == types_view(types@),
                    lv[i as int].outgoing,
                    lv[i as int].name == link.name@,
                    forall|b: int| 0 <= b < j && (#[trigger] tv[b]).0 == link.name@ ==> tv[b].1 == PropertyType::String,
                decreases types@.len() - j,
            {
                assert(tv[j as int] == (types@[j as int].0@, types@[j as int].1));
                if str_eq(types[j].0.as_str(), link.name.as_str()) {
                    match types[j].1 {
                        PropertyType::String => {},
                        _ => {
                            assert(!link_types_ok(lv, tv)) by {
                                assert(lv[i as int].outgoing && tv[j as int].0 == lv[i as int].name);
                            }
                            return Err(named_message("outgoing link ", link.name.as_str(), " must be a string type"));
                        },
                    }
                }
                j = j + 1;
            }
        }
        i = i + 1;
    }
    Ok(())
}

impl SchemaDescriptor {
    /// Fail unless the descriptor meets the schema rules.
    pub fn check(&self) -> (r: Result<(), String>)
        ensures
            r is Ok <==> descriptor_ok(self@),
            refused_with(
                self@,
                match r {
                    Ok(_) => None,
                    Err(e) => Some(e@),
                },
            ),
    {
        match token(self.kind.as_str(), "kind") {
            Ok(()) => {},
            Err(e) => return Err(e),
        }
        if str_eq(self.kind.as_str(), SCHEMA_KIND) {
            proof { lemma_schema_kind(); }
            return Err(String::from_str("mikura.schema is reserved"));
        }
        proof { lemma_schema_kind(); }
        match check_list(&self.properties, "property", None, "", "", "duplicate property ") {
            Ok(()) => {},
            Err(e) => return Err(e),
        }
        match check_list(&self.required, "required", Some(&self.properties), "required property ", " is not declared", "duplicate required property ") {
            Ok(()) => {},
            Err(e) => return Err(e),
        }
        match check_links(&self.links, &self.properties) {
            Ok(()) => {},
            Err(e) => return Err(e),
        }
        match check_list(&self.sums, "sum", Some(&self.properties), "sum property ", " is not declared", "duplicate sum property ") {
            Ok(()) => {},
            Err(e) => return Err(e),
        }
        match check_types(&self.types, &self.properties) {
            Ok(()) => {},
            Err(e) => return Err(e),
        }
        check_link_types(&self.links, &self.types)
    }
}

pub open spec fn properties_field() -> Seq<char> {
    seq!['p', 'r', 'o', 'p', 'e', 'r', 't', 'i', 'e', 's']
}

pub open spec fn required_field() -> Seq<char> {
    seq!['r', 'e', 'q', 'u', 'i', 'r', 'e', 'd']
}

pub open spec fn links_field() -> Seq<char> {
    seq!['l', 'i', 'n', 'k', 's']
}

pub open spec fn sums_field() -> Seq<char> {
    seq!['s', 'u', 'm', 's']
}

pub open spec fn types_field() -> Seq<char> {
    seq!['t', 'y', 'p', 'e', 's']
}

pub proof fn lemma_field_names()
    ensures
        SCHEMA_PROPERTIES@ == properties_field(),
        SCHEMA_REQUIRED@ == required_field(),
        SCHEMA_LINKS@ == links_field(),
        SCHEMA_SUMS@ == sums_field(),
        SCHEMA_TYPES@ == types_field(),
{
    reveal_strlit("properties");
    reveal_strlit("required");
    reveal_strlit("links");
    reveal_strlit("sums");
    reveal_strlit("types");
    assert(SCHEMA_PROPERTIES@ =~= properties_field());
    assert(SCHEMA_REQUIRED@ =~= required_field());
    assert(SCHEMA_LINKS@ =~= links_field());
    assert(SCHEMA_SUMS@ =~= sums_field());
    assert(SCHEMA_TYPES@ =~= types_field());
}

/// One of the five property names of a schema row.
pub open spec fn is_schema_field(n: Seq<char>) -> bool {
    n == properties_field() || n == required_field() || n == links_field() || n == sums_field()
        || n == types_field()
}

pub open spec fn out_text() -> Seq<char> {
    seq!['o', 'u', 't']
}

pub open spec fn in_text() -> Seq<char> {
    seq!['i', 'n']
}

/// The one link cardinality, `0..1`.
pub open spec fn cardinality() -> Seq<char> {
    seq!['0', '.', '.', '1']
}

/// `name:far_kind:out|in:0..1`.
pub open spec fn link_text(l: LinkView) -> Seq<char> {
    join_with(
        seq![l.name, l.far_kind, if l.outgoing { out_text() } else { in_text() }, cardinality()],
        ':',
    )
}

/// The link a `name:far_kind:out|in:0..1` entry names.
pub open spec fn parse_link_text(entry: Seq<char>) -> Option<LinkView> {
    let parts = split_on(entry, ':');
    if parts.len() == 4 && (parts[2] == out_text() || parts[2] == in_text()) && parts[3]
        == cardinality() {
        Some(LinkView { name: parts[0], far_kind: parts[1], outgoing: parts[2] == out_text() })
    } else {
        None
    }
}

/// `i` is the index of the first `:` of `s`.
pub open spec fn is_first_colon(s: Seq<char>, i: int) -> bool {
    &&& 0 <= i < s.len()
    &&& s[i] == ':'
    &&& forall|k: int| 0 <= k < i ==> s[k] != ':'
}

/// The text before and after the first `:` of `entry`, when it has one.
pub open spec fn type_parts(entry: Seq<char>) -> Option<(Seq<char>, Seq<char>)> {
    if exists|i: int| is_first_colon(entry, i) {
        let i = choose|i: int| is_first_colon(entry, i);
        Some((entry.subrange(0, i), entry.subrange(i + 1, entry.len() as int)))
    } else {
        None
    }
}

/// `name:type`.
pub open spec fn type_text(e: (Seq<char>, PropertyType)) -> Seq<char> {
    e.0 + seq![':'] + type_token(e.1)
}

/// The name and type a `name:type` entry declares.
pub open spec fn parse_type_text(entry: Seq<char>) -> Option<(Seq<char>, PropertyType)> {
    match type_parts(entry) {
        Some((name, tok)) => if name.len() > 0 && tok.len() > 0 && exists|t: PropertyType|
            type_token(t) == tok {
            Some((name, choose|t: PropertyType| type_token(t) == tok))
        } else {
            None
        },
        None => None,
    }
}

/// The entries of a schema row's list property; none when it is absent.
pub open spec fn field_entries(props: Seq<(Seq<char>, Seq<char>)>, name: Seq<char>) -> Seq<Seq<char>> {
    match prop_get(props, name) {
        Some(v) => csv_entries(v),
        None => seq![],
    }
}

pub open spec fn decoded_links(entries: Seq<Seq<char>>) -> Seq<LinkView> {
    entries.map_values(|e: Seq<char>| parse_link_text(e).unwrap())
}

pub open spec fn decoded_types(entries: Seq<Seq<char>>) -> Seq<(Seq<char>, PropertyType)> {
    entries.map_values(|e: Seq<char>| parse_type_text(e).unwrap())
}

/// Names strictly increase.
pub open spec fn sorted_by_name(t: Seq<(Seq<char>, PropertyType)>) -> bool {
    forall|i: int, j: int| 0 <= i < j < t.len() ==> key_lt(#[trigger] t[i].0, #[trigger] t[j].0)
}

/// The entries of `t` in increasing name order.
pub open spec fn types_sorted_of(t: Seq<(Seq<char>, PropertyType)>) -> Seq<(Seq<char>, PropertyType)> {
    choose|u: Seq<(Seq<char>, PropertyType)>| sorted_by_name(u) && u.to_set() == t.to_set()
}

/// The descriptor a schema row spells.
pub open spec fn schema_view(r: RecordView) -> DescriptorView {
    DescriptorView {
        kind: r.key,
        properties: field_entries(r.props, properties_field()),
        required: field_entries(r.props, required_field()),
        links: decoded_links(field_entries(r.props, links_field())),
        sums: field_entries(r.props, sums_field()),
        types: types_sorted_of(decoded_types(field_entries(r.props, types_field()))),
    }
}

/// A row that decodes to a descriptor that meets the rules.
pub open spec fn schema_record_ok(r: RecordView) -> bool {
    &&& schema_record_parts_ok(r)
    &&& forall|i: int| 0 <= i < r.props.len() ==> is_schema_field(#[trigger] r.props[i].0)
}

/// Every rule of a schema row but that it holds no other property.
pub open spec fn schema_record_parts_ok(r: RecordView) -> bool {
    let links_e = field_entries(r.props, links_field());
    let types_e = field_entries(r.props, types_field());
    &&& r.kind == schema_kind()
    &&& prop_has(r.props, properties_field())
    &&& csv_ok(field_entries(r.props, properties_field()))
    &&& csv_ok(field_entries(r.props, required_field()))
    &&& csv_ok(links_e)
    &&& csv_ok(field_entries(r.props, sums_field()))
    &&& csv_ok(types_e)
    &&& forall|i: int| 0 <= i < links_e.len() ==> parse_link_text(#[trigger] links_e[i]) is Some
    &&& forall|i: int| 0 <= i < types_e.len() ==> parse_type_text(#[trigger] types_e[i]) is Some
    &&& type_names(decoded_types(types_e)).no_duplicates()
    &&& descriptor_ok(schema_view(r))
}

/// Parse one `name:far_kind:out|in:0..1` link rule.
fn parse_link(entry: &str) -> (r: Result<SchemaLink, String>)
    ensures
        match r {
            Ok(l) => parse_link_text(entry@) == Some(link_view(l)),
            Err(_) => parse_link_text(entry@) is None,
        },
{
    proof {
        reveal_strlit("out");
        reveal_strlit("in");
        reveal_strlit("0..1");
        assert("out"@ =~= out_text());
        assert("in"@ =~= in_text());
        assert("0..1"@ =~= cardinality());
    }
    let parts = split_chars(entry, ':');
    let ghost pv = strs(parts@);
    assert(pv == split_on(entry@, ':'));
    if parts.len() != 4 {
        return Err(named_message("link ", entry, " must be name:far_kind:out|in:0..1"));
    }
    assert(pv[2] == parts@[2]@ && pv[3] == parts@[3]@ && pv[0] == parts@[0]@ && pv[1] == parts@[1]@);
    let outgoing = if str_eq(parts[2].as_str(), "out") {
        true
    } else if str_eq(parts[2].as_str(), "in") {
        false
    } else {
        return Err(concat_str("link direction must be out or in, got ", parts[2].as_str()));
    };
    if !str_eq(parts[3].as_str(), "0..1") {
        return Err(concat_str("link cardinality must be 0..1, got ", parts[3].as_str()));
    }
    Ok(SchemaLink { name: parts[0].clone(), far_kind: parts[1].clone(), outgoing })
}

/// Parse each link rule.
fn parse_links(entries: &Vec<String>) -> (r: Result<Vec<SchemaLink>, String>)
    ensures
        match r {
            Ok(v) => (forall|i: int| 0 <= i < entries@.len() ==> parse_link_text(#[trigger] strs(entries@)[i]) is Some)
                && links_view(v@) == decoded_links(strs(entries@)),
            Err(_) => exists|i: int| 0 <= i < entries@.len() && parse_link_text(#[trigger] strs(entries@)[i]) is None,
        },
{
    let ghost ev = strs(entries@);
    let mut out: Vec<SchemaLink> = Vec::new();
    let mut i: usize = 0;
    while i < entries.len()
        invariant
            i <= entries@.len(),
            ev == strs(entries@),
            forall|k: int| 0 <= k < i ==> parse_link_text(#[trigger] ev[k]) is Some,
            links_view(out@) == decoded_links(ev.subrange(0, i as int)),
        decreases entries@.len() - i,
    {
        assert(ev[i as int] == entries@[i as int]@);
        match parse_link(entries[i].as_str()) {
            Ok(l) => {
                let ghost before = links_view(out@);
                out.push(l);
                assert(links_view(out@) =~= before.push(link_view(l)));
                assert(decoded_links(ev.subrange(0, i + 1)) =~= decoded_links(ev.subrange(0, i as int)).push(
                    parse_link_text(ev[i as int]).unwrap()));
            },
            Err(e) => {
                return Err(e);
            },
        }
        i = i + 1;
    }
    assert(ev.subrange(0, entries@.len() as int) =~= ev);
    Ok(out)
}

/// The index of the first `:` of `s`, if any.
fn first_colon(s: &str) -> (r: Option<usize>)
    ensures
        match r {
            Some(i) => is_first_colon(s@, i as int),
            None => forall|k: int| 0 <= k < s@.len() ==> s@[k] != ':',
        },
{
    let n = s.unicode_len();
    let mut i: usize = 0;
    while i < n
        invariant
            i <= n,
            n == s@.len(),
            forall|k: int| 0 <= k < i ==> s@[k] != ':',
        decreases n - i,
    {
        if s.get_char(i) == ':' {
            return Some(i);
        }
        i = i + 1;
    }
    None
}

proof fn lemma_first_colon_unique(s: Seq<char>, i: int)
    requires
        is_first_colon(s, i),
    ensures
        type_parts(s) == Some((s.subrange(0, i), s.subrange(i + 1, s.len() as int))),
{
    let j = choose|j: int| is_first_colon(s, j);
    if j < i {
        assert(s[j] == ':');
    } else if i < j {
        assert(s[i] == ':');
    }
}

/// Split a `name:type` entry at its first `:`.
fn split_type_entry(entry: &str) -> (r: Result<(String, String), String>)
    ensures
        match r {
            Ok((name, tok)) => type_parts(entry@) == Some((name@, tok@)) && name@.len() > 0 && tok@.len() > 0,
            Err(_) => match type_parts(entry@) {
                Some((name, tok)) => name.len() == 0 || tok.len() == 0,
                None => true,
            },
        },
{
    match first_colon(entry) {
        None => {
            let mut m = concat_str("type ", entry);
            m.append(" must be name:string|boolean|integer|timestamp or name:decimal:<scale>");
            Err(m)
        },
        Some(i) => {
            proof {
                lemma_first_colon_unique(entry@, i as int);
            }
            let n = entry.unicode_len();
            let name = entry.substring_char(0, i).to_owned();
            let tok = entry.substring_char(i + 1, n).to_owned();
            if name.unicode_len() == 0 || tok.unicode_len() == 0 {
                return Err(named_message("type ", entry, " is empty"));
            }
            Ok((name, tok))
        },
    }
}

/// Parse one `name:type` entry.
fn parse_type(entry: &str) -> (r: Result<(String, PropertyType), String>)
    ensures
        match r {
            Ok(e) => parse_type_text(entry@) == Some((e.0@, e.1)),
            Err(_) => parse_type_text(entry@) is None,
        },
{
    match split_type_entry(entry) {
        Err(e) => Err(e),
        Ok((name, tok)) => match PropertyType::from_token(tok.as_str()) {
            Ok(t) => {
                proof {
                    let c = choose|u: PropertyType| type_token(u) == tok@;
                    crate::value::lemma_type_token_injective(c, t);
                }
                Ok((name, t))
            },
            Err(e) => Err(e),
        },
    }
}

/// Insert `e` into `out`, whose names strictly increase, keeping that order.
fn insert_by_name(out: &mut Vec<(String, PropertyType)>, e: (String, PropertyType))
    requires
        sorted_by_name(types_view(old(out)@)),
        !type_names(types_view(old(out)@)).contains(e.0@),
    ensures
        sorted_by_name(types_view(final(out)@)),
        types_view(final(out)@).to_set() == types_view(old(out)@).to_set().insert((e.0@, e.1)),
        type_names(types_view(final(out)@)).to_set() == type_names(types_view(old(out)@)).to_set().insert(e.0@),
        final(out)@.len() == old(out)@.len() + 1,
{
    let ghost ov = types_view(out@);
    let mut p: usize = 0;
    while p < out.len() && str_less(out[p].0.as_str(), e.0.as_str())
        invariant
            p <= out@.len(),
            ov == types_view(out@),
            forall|k: int| 0 <= k < p ==> key_lt(#[trigger] ov[k].0, e.0@),
        decreases out@.len() - p,
    {
        assert(ov[p as int].0 == out@[p as int].0@);
        p = p + 1;
    }
    proof {
        if p < ov.len() {
            assert(ov[p as int].0 == out@[p as int].0@);
            assert(type_names(ov)[p as int] == ov[p as int].0);
            assert(ov[p as int].0 != e.0@);
            lemma_key_lt_total(ov[p as int].0, e.0@);
        }
    }
    let ghost x = (e.0@, e.1);
    out.insert(p, e);
    proof {
        let nv = types_view(out@);
        assert(nv =~= ov.insert(p as int, x));
        assert forall|a: int, b: int| 0 <= a < b < nv.len() implies key_lt(#[trigger] nv[a].0, #[trigger] nv[b].0) by {
            if a < p && b < p {
                assert(key_lt(ov[a].0, ov[b].0));
            } else if a < p && b == p {
            } else if a < p && b > p {
                assert(key_lt(ov[a].0, ov[b - 1].0));
            } else if a == p && b > p {
                if b - 1 > p {
                    assert(key_lt(ov[p as int].0, ov[b - 1].0));
                    lemma_key_lt_transitive(x.0, ov[p as int].0, ov[b - 1].0);
                }
            } else {
                assert(key_lt(ov[a - 1].0, ov[b - 1].0));
            }
        }
        assert(nv.to_set() =~= ov.to_set().insert(x)) by {
            assert forall|y: (Seq<char>, PropertyType)| nv.to_set().contains(y) <==> ov.to_set().insert(x).contains(y) by {
                if nv.to_set().contains(y) {
                    let k = choose|k: int| 0 <= k < nv.len() && nv[k] == y;
                    if k < p {
                        assert(ov[k] == y);
                    } else if k > p {
                        assert(ov[k - 1] == y);
                    }
                }
                if ov.to_set().contains(y) {
                    let k = choose|k: int| 0 <= k < ov.len() && ov[k] == y;
                    if k < p {
                        assert(nv[k] == y);
                    } else {
                        assert(nv[k + 1] == y);
                    }
                }
                if y == x {
                    assert(nv[p as int] == y);
                }
            }
        }
        assert(type_names(nv) =~= type_names(ov).insert(p as int, x.0));
        assert(type_names(nv).to_set() =~= type_names(ov).to_set().insert(x.0)) by {
            let tn = type_names(nv);
            let to = type_names(ov);
            assert forall|y: Seq<char>| tn.to_set().contains(y) <==> to.to_set().insert(x.0).contains(y) by {
                if tn.to_set().contains(y) {
                    let k = choose|k: int| 0 <= k < tn.len() && tn[k] == y;
                    if k < p {
                        assert(to[k] == y);
                    } else if k > p {
                        assert(to[k - 1] == y);
                    }
                }
                if to.to_set().contains(y) {
                    let k = choose|k: int| 0 <= k < to.len() && to[k] == y;
                    if k < p {
                        assert(tn[k] == y);
                    } else {
                        assert(tn[k + 1] == y);
                    }
                }
                if y == x.0 {
                    assert(tn[p as int] == y);
                }
            }
        }
    }
}

/// Two name-sorted type lists with the same entries are equal.
pub proof fn lemma_sorted_by_name_unique(a: Seq<(Seq<char>, PropertyType)>, b: Seq<(Seq<char>, PropertyType)>)
    requires
        sorted_by_name(a),
        sorted_by_name(b),
        a.to_set() == b.to_set(),
    ensures
        a == b,
    decreases a.len(),
{
    if a.len() == 0 {
        if b.len() > 0 {
            assert(b.to_set().contains(b[0]));
        }
        assert(a =~= b);
    } else {
        if b.len() == 0 {
            assert(a.to_set().contains(a[0]));
        }
        assert(a.to_set().contains(a[0]));
        assert(b.to_set().contains(b[0]));
        let j = choose|j: int| 0 <= j < b.len() && b[j] == a[0];
        let i = choose|i: int| 0 <= i < a.len() && a[i] == b[0];
        if i > 0 && j > 0 {
            assert(key_lt(a[0].0, a[i].0));
            assert(key_lt(b[0].0, b[j].0));
            lemma_key_lt_transitive(a[0].0, b[0].0, a[0].0);
            lemma_key_lt_irreflexive(a[0].0);
        } else if i > 0 {
            assert(key_lt(a[0].0, a[i].0));
            lemma_key_lt_irreflexive(a[0].0);
        } else if j > 0 {
            assert(key_lt(b[0].0, b[j].0));
            lemma_key_lt_irreflexive(b[0].0);
        }
        assert(a[0] == b[0]);
        let a1 = a.drop_first();
        let b1 = b.drop_first();
        assert forall|x: (Seq<char>, PropertyType)| a1.to_set().contains(x) <==> b1.to_set().contains(x) by {
            if a1.to_set().contains(x) {
                let k = choose|k: int| 0 <= k < a1.len() && a1[k] == x;
                assert(key_lt(a[0].0, a[k + 1].0));
                lemma_key_lt_irreflexive(a[0].0);
                assert(a.to_set().contains(x));
                let m = choose|m: int| 0 <= m < b.len() && b[m] == x;
                assert(m != 0);
                assert(b1[m - 1] == x);
            }
            if b1.to_set().contains(x) {
                let k = choose|k: int| 0 <= k < b1.len() && b1[k] == x;
                assert(key_lt(b[0].0, b[k + 1].0));
                lemma_key_lt_irreflexive(b[0].0);
                assert(b.to_set().contains(x));
                let m = choose|m: int| 0 <= m < a.len() && a[m] == x;
                assert(m != 0);
                assert(a1[m - 1] == x);
            }
        }
        assert(a1.to_set() =~= b1.to_set());
        lemma_sorted_by_name_unique(a1, b1);
        assert(a =~= b) by {
            assert forall|k: int| 0 <= k < a.len() implies a[k] == b[k] by {
                if k > 0 {
                    assert(a1[k - 1] == b1[k - 1]);
                }
            }
        }
    }
}

/// Parse the `name:type` entries, refusing a repeated name, and order them by name.
fn parse_types(entries: &Vec<String>) -> (r: Result<Vec<(String, PropertyType)>, String>)
    ensures
        match r {
            Ok(v) => (forall|i: int| 0 <= i < entries@.len() ==> parse_type_text(#[trigger] strs(entries@)[i]) is Some)
                && type_names(decoded_types(strs(entries@))).no_duplicates()
                && types_view(v@) == types_sorted_of(decoded_types(strs(entries@))),
            Err(_) => !((forall|i: int| 0 <= i < entries@.len() ==> parse_type_text(#[trigger] strs(entries@)[i]) is Some)
                && type_names(decoded_types(strs(entries@))).no_duplicates()),
        },
{
    let ghost ev = strs(entries@);
    let mut out: Vec<(String, PropertyType)> = Vec::new();
    let mut i: usize = 0;
    assert(types_view(out@).to_set() =~= decoded_types(ev.subrange(0, 0)).to_set());
    while i < entries.len()
        invariant
            i <= entries@.len(),
            ev == strs(entries@),
            forall|k: int| 0 <= k < i ==> parse_type_text(#[trigger] ev[k]) is Some,
            type_names(decoded_types(ev.subrange(0, i as int))).no_duplicates(),
            sorted_by_name(types_view(out@)),
            types_view(out@).to_set() == decoded_types(ev.subrange(0, i as int)).to_set(),
            type_names(types_view(out@)).to_set() == type_names(decoded_types(ev.subrange(0, i as int))).to_set(),
        decreases entries@.len() - i,
    {
        assert(ev[i as int] == entries@[i as int]@);
        let ghost pre = decoded_types(ev.subrange(0, i as int));
        let ghost cur = decoded_types(ev.subrange(0, i + 1));
        match parse_type(entries[i].as_str()) {
            Err(e) => {
                return Err(e);
            },
            Ok(entry) => {
                assert(cur =~= pre.push((entry.0@, entry.1)));
                assert(type_names(cur) =~= type_names(pre).push(entry.0@));
                let mut dup = false;
                let mut j: usize = 0;
                while j < out.len()
                    invariant
                        j <= out@.len(),
                        !dup ==> forall|k: int| 0 <= k < j ==> (#[trigger] out@[k]).0@ != entry.0@,
                        dup ==> type_names(types_view(out@)).contains(entry.0@),
                    decreases out@.len() - j,
                {
                    if str_eq(out[j].0.as_str(), entry.0.as_str()) {
                        assert(type_names(types_view(out@))[j as int] == entry.0@);
                        dup = true;
                    }
                    j = j + 1;
                }
                if dup {
                    proof {
                        assert(type_names(types_view(out@)).to_set().contains(entry.0@));
                        assert(type_names(pre).to_set().contains(entry.0@));
                        let k = choose|k: int| 0 <= k < type_names(pre).len() && type_names(pre)[k] == entry.0@;
                        assert(type_names(cur)[k] == type_names(cur)[i as int]);
                        assert(!type_names(decoded_types(ev)).no_duplicates()) by {
                            assert(decoded_types(ev)[k] == cur[k]);
                            assert(decoded_types(ev)[i as int] == cur[i as int]);
                            assert(type_names(decoded_types(ev))[k] == type_names(decoded_types(ev))[i as int]);
                        }
                    }
                    return Err(named_message("duplicate typed property ", entry.0.as_str(), ""));
                }
                proof {
                    assert(!type_names(types_view(out@)).contains(entry.0@)) by {
                        if type_names(types_view(out@)).contains(entry.0@) {
                            let k = choose|k: int| 0 <= k < type_names(types_view(out@)).len() && type_names(types_view(out@))[k] == entry.0@;
                            assert(out@[k].0@ == entry.0@);
                        }
                    }
                    assert(!type_names(pre).contains(entry.0@)) by {
                        if type_names(pre).contains(entry.0@) {
                            let k = choose|k: int| 0 <= k < type_names(pre).len() && type_names(pre)[k] == entry.0@;
                            assert(type_names(pre).to_set().contains(entry.0@));
                            assert(type_names(types_view(out@)).to_set().contains(entry.0@));
                        }
                    }
                    assert forall|a: int, b: int| 0 <= a < b < type_names(cur).len() implies type_names(cur)[a] != type_names(cur)[b] by {
                        if b < i {
                            assert(type_names(pre)[a] == type_names(cur)[a]);
                            assert(type_names(pre)[b] == type_names(cur)[b]);
                        } else {
                            assert(type_names(pre)[a] == type_names(cur)[a]);
                        }
                    }
                }
                let ghost x = (entry.0@, entry.1);
                insert_by_name(&mut out, entry);
                proof {
                    assert(cur.to_set() =~= pre.to_set().insert(x));
                    assert(type_names(cur).to_set() =~= type_names(pre).to_set().insert(x.0));
                }
            },
        }
        i = i + 1;
    }
    assert(ev.subrange(0, entries@.len() as int) =~= ev);
    proof {
        let d = decoded_types(ev);
        assert(sorted_by_name(types_sorted_of(d)) && types_sorted_of(d).to_set() == d.to_set());
        lemma_sorted_by_name_unique(types_sorted_of(d), types_view(out@));
    }
    Ok(out)
}

/// The entries of a comma-separated schema list.
fn split_csv(raw: &str) -> (r: Result<Vec<String>, String>)
    ensures
        match r {
            Ok(v) => csv_ok(csv_entries(raw@)) && strs(v@) == csv_entries(raw@),
            Err(_) => !csv_ok(csv_entries(raw@)),
        },
{
    split_unique_csv(raw, "empty schema list entry", "duplicate schema list entry ")
}

/// The entries of the list named `name`, which must be present.
fn required_csv(record: &ObjectRecord, name: &str) -> (r: Result<Vec<String>, String>)
    ensures
        match r {
            Ok(v) => prop_has(record.props@, name@) && csv_ok(field_entries(record.props@, name@))
                && strs(v@) == field_entries(record.props@, name@),
            Err(_) => !prop_has(record.props@, name@) || !csv_ok(field_entries(record.props@, name@)),
        },
{
    match record.props.get(name) {
        None => Err(concat_str("missing schema ", name)),
        Some(raw) => split_csv(raw.as_str()),
    }
}

/// The entries of the list named `name`; none when it is absent.
fn optional_csv(record: &ObjectRecord, name: &str) -> (r: Result<Vec<String>, String>)
    ensures
        match r {
            Ok(v) => csv_ok(field_entries(record.props@, name@)) && strs(v@) == field_entries(record.props@, name@),
            Err(_) => !csv_ok(field_entries(record.props@, name@)),
        },
{
    match record.props.get(name) {
        None => {
            let v: Vec<String> = Vec::new();
            assert(strs(v@) =~= Seq::<Seq<char>>::empty());
            Ok(v)
        },
        Some(raw) => split_csv(raw.as_str()),
    }
}

/// An ASCII string whose first character sorts below another's sorts first.
proof fn lemma_ascii_lt(a: Seq<char>, b: Seq<char>)
    requires
        vstd::utf8::is_ascii_chars(a),
        vstd::utf8::is_ascii_chars(b),
        a.len() > 0,
        b.len() > 0,
        (a[0] as u8) < (b[0] as u8),
    ensures
        key_lt(a, b),
{
    vstd::utf8::is_ascii_chars_encode_utf8(a);
    vstd::utf8::is_ascii_chars_encode_utf8(b);
}

/// The five list names in byte order.
proof fn lemma_field_order()
    ensures
        key_lt(links_field(), properties_field()),
        key_lt(links_field(), required_field()),
        key_lt(links_field(), sums_field()),
        key_lt(links_field(), types_field()),
        key_lt(properties_field(), required_field()),
        key_lt(properties_field(), sums_field()),
        key_lt(properties_field(), types_field()),
        key_lt(required_field(), sums_field()),
        key_lt(required_field(), types_field()),
        key_lt(sums_field(), types_field()),
{
    assert(vstd::utf8::is_ascii_chars(links_field()));
    assert(vstd::utf8::is_ascii_chars(properties_field()));
    assert(vstd::utf8::is_ascii_chars(required_field()));
    assert(vstd::utf8::is_ascii_chars(sums_field()));
    assert(vstd::utf8::is_ascii_chars(types_field()));
    lemma_ascii_lt(links_field(), properties_field());
    lemma_ascii_lt(links_field(), required_field());
    lemma_ascii_lt(links_field(), sums_field());
    lemma_ascii_lt(links_field(), types_field());
    lemma_ascii_lt(properties_field(), required_field());
    lemma_ascii_lt(properties_field(), sums_field());
    lemma_ascii_lt(properties_field(), types_field());
    lemma_ascii_lt(required_field(), sums_field());
    lemma_ascii_lt(required_field(), types_field());
    lemma_ascii_lt(sums_field(), types_field());
}

/// A schema token holds no `:` and no `,`, and starts and ends outside white space.
proof fn lemma_token_chars(s: Seq<char>)
    requires
        schema_token(s),
    ensures
        !s.contains(':'),
        !s.contains(','),
        !is_white_space(s[0]),
        !is_white_space(s.last()),
{
    if s.contains(':') {
        let k = choose|k: int| 0 <= k < s.len() && s[k] == ':';
        if k > 0 {
            assert(is_token_char(s[k]));
        }
    }
    if s.contains(',') {
        let k = choose|k: int| 0 <= k < s.len() && s[k] == ',';
        if k > 0 {
            assert(is_token_char(s[k]));
        }
    }
    if s.len() > 1 {
        assert(is_token_char(s[s.len() - 1]));
    }
}

/// The link text of a link with token names reads back as that link.
proof fn lemma_link_text_parse(l: LinkView)
    requires
        schema_token(l.name),
        schema_token(l.far_kind),
    ensures
        parse_link_text(link_text(l)) == Some(l),
{
    let dir = if l.outgoing { out_text() } else { in_text() };
    let parts = seq![l.name, l.far_kind, dir, cardinality()];
    lemma_token_chars(l.name);
    lemma_token_chars(l.far_kind);
    assert forall|i: int| 0 <= i < parts.len() implies !(#[trigger] parts[i]).contains(':') by {
        if i == 2 || i == 3 {
            if parts[i].contains(':') {
                let k = choose|k: int| 0 <= k < parts[i].len() && parts[i][k] == ':';
            }
        }
    }
    crate::strs::lemma_split_join(parts, ':');
    assert(out_text() != in_text()) by {
        assert(out_text().len() != in_text().len());
    }
}

/// The text `name:type` of an entry with a non-empty name free of `:` reads
/// back as that entry.
proof fn lemma_type_text_parse(e: (Seq<char>, PropertyType))
    requires
        e.0.len() > 0,
        !e.0.contains(':'),
    ensures
        parse_type_text(type_text(e)) == Some(e),
{
    let t = type_text(e);
    let n = e.0.len() as int;
    assert(is_first_colon(t, n)) by {
        assert forall|k: int| 0 <= k < n implies t[k] != ':' by {
            assert(t[k] == e.0[k]);
        }
    }
    lemma_first_colon_unique(t, n);
    assert(t.subrange(0, n) =~= e.0);
    assert(t.subrange(n + 1, t.len() as int) =~= type_token(e.1));
    type_token_nonempty(e.1);
    let c = choose|u: PropertyType| #[trigger] type_token(u) == type_token(e.1);
    crate::value::lemma_type_token_injective(c, e.1);
}

proof fn type_token_nonempty(t: PropertyType)
    ensures
        type_token(t).len() > 0,
        !type_token(t).contains(','),
        !type_token(t).contains(':') || t is Decimal,
        !is_white_space(type_token(t).last()),
{
    match t {
        PropertyType::Decimal { scale } => {
            crate::text::lemma_decimal_ascii_digits(scale as nat);
            let tok = type_token(t);
            let d = decimal(scale as nat);
            assert(tok.last() == d.last());
            assert(d[d.len() - 1] == d.last());
            if tok.contains(',') {
                let k = choose|k: int| 0 <= k < tok.len() && tok[k] == ',';
                if k >= 8 {
                    assert(tok[k] == d[k - 8]);
                }
            }
        },
        _ => {
            let tok = type_token(t);
            if tok.contains(',') {
                let k = choose|k: int| 0 <= k < tok.len() && tok[k] == ',';
            }
            if tok.contains(':') {
                let k = choose|k: int| 0 <= k < tok.len() && tok[k] == ':';
            }
        },
    }
}

/// The text of one link rule.
fn encode_link(link: &SchemaLink) -> (s: String)
    ensures
        s@ == link_text(link_view(*link)),
{
    proof {
        reveal_strlit("out");
        reveal_strlit("in");
        reveal_strlit(":");
        reveal_strlit(":0..1");
        assert("out"@ =~= out_text());
        assert("in"@ =~= in_text());
        reveal_with_fuel(join_with, 4);
    }
    let mut s = link.name.clone();
    s.append(":");
    s.append(link.far_kind.as_str());
    s.append(":");
    s.append(if link.outgoing { "out" } else { "in" });
    s.append(":0..1");
    proof {
        let l = link_view(*link);
        let dir = if l.outgoing { out_text() } else { in_text() };
        let parts = seq![l.name, l.far_kind, dir, cardinality()];
        assert(parts.drop_last() =~= seq![l.name, l.far_kind, dir]);
        assert(parts.drop_last().drop_last() =~= seq![l.name, l.far_kind]);
        assert(parts.drop_last().drop_last().drop_last() =~= seq![l.name]);
        assert(s@ =~= link_text(l));
    }
    s
}

/// The texts of the link rules.
fn encode_links(links: &Vec<SchemaLink>) -> (v: Vec<String>)
    ensures
        strs(v@) == link_texts(links_view(links@)),
{
    let mut out: Vec<String> = Vec::new();
    let mut i: usize = 0;
    while i < links.len()
        invariant
            i <= links@.len(),
            strs(out@) == link_texts(links_view(links@)).subrange(0, i as int),
        decreases links@.len() - i,
    {
        let ghost before = strs(out@);
        let t = encode_link(&links[i]);
        assert(links_view(links@)[i as int] == link_view(links@[i as int]));
        assert(link_texts(links_view(links@))[i as int] == t@);
        out.push(t);
        assert(strs(out@) =~= before.push(t@));
        assert(strs(out@) =~= link_texts(links_view(links@)).subrange(0, i + 1));
        i = i + 1;
    }
    assert(link_texts(links_view(links@)).subrange(0, links@.len() as int) =~= link_texts(links_view(links@)));
    out
}

/// The `name:type` texts of the typed properties.
fn encode_types(types: &Vec<(String, PropertyType)>) -> (v: Vec<String>)
    ensures
        strs(v@) == type_texts(types_view(types@)),
{
    proof {
        reveal_strlit(":");
    }
    let mut out: Vec<String> = Vec::new();
    let mut i: usize = 0;
    while i < types.len()
        invariant
            i <= types@.len(),
            strs(out@) == type_texts(types_view(types@)).subrange(0, i as int),
        decreases types@.len() - i,
    {
        let ghost before = strs(out@);
        let mut t = types[i].0.clone();
        t.append(":");
        let tok = types[i].1.token();
        t.append(tok.as_str());
        proof {
            reveal_strlit(":");
        }
        assert(":"@ =~= seq![':']);
        assert(types_view(types@)[i as int] == (types@[i as int].0@, types@[i as int].1));
        assert(t@ =~= type_text(types_view(types@)[i as int]));
        assert(type_texts(types_view(types@))[i as int] == t@);
        out.push(t);
        assert(strs(out@) =~= before.push(t@));
        assert(strs(out@) =~= type_texts(types_view(types@)).subrange(0, i + 1));
        i = i + 1;
    }
    assert(type_texts(types_view(types@)).subrange(0, types@.len() as int) =~= type_texts(types_view(types@)));
    out
}

pub open spec fn link_texts(l: Seq<LinkView>) -> Seq<Seq<char>> {
    l.map_values(|x: LinkView| link_text(x))
}

pub open spec fn type_texts(t: Seq<(Seq<char>, PropertyType)>) -> Seq<Seq<char>> {
    t.map_values(|x: (Seq<char>, PropertyType)| type_text(x))
}

/// A list joined with `,` in increasing order.
pub open spec fn csv_of(parts: Seq<Seq<char>>) -> Seq<char> {
    join_with(sorted_of(parts), ',')
}

/// The properties of the schema row of `d`, in name order; empty lists other
/// than `properties` are left out.
pub open spec fn schema_props(d: DescriptorView) -> Seq<(Seq<char>, Seq<char>)> {
    (if d.links.len() > 0 {
        seq![(links_field(), csv_of(link_texts(d.links)))]
    } else {
        seq![]
    }) + seq![(properties_field(), csv_of(d.properties))] + (if d.required.len() > 0 {
        seq![(required_field(), csv_of(d.required))]
    } else {
        seq![]
    }) + (if d.sums.len() > 0 {
        seq![(sums_field(), csv_of(d.sums))]
    } else {
        seq![]
    }) + (if d.types.len() > 0 {
        seq![(types_field(), csv_of(type_texts(d.types)))]
    } else {
        seq![]
    })
}

/// The schema row of `d`.
pub open spec fn schema_record(d: DescriptorView) -> RecordView {
    RecordView {
        gen: 0,
        kind: schema_kind(),
        key: d.kind,
        hidden: false,
        action_id: None,
        props: schema_props(d),
    }
}

/// Distinct links with token names have distinct texts.
proof fn lemma_link_texts_distinct(links: Seq<LinkView>)
    requires
        all_tokens(link_names(links)),
        link_names(links).no_duplicates(),
        forall|i: int| 0 <= i < links.len() ==> schema_token((#[trigger] links[i]).far_kind),
    ensures
        link_texts(links).no_duplicates(),
{
    assert forall|a: int, b: int| 0 <= a < b < links.len() implies link_texts(links)[a] != link_texts(links)[b] by {
        assert(schema_token(link_names(links)[a]));
        assert(schema_token(link_names(links)[b]));
        lemma_link_text_parse(links[a]);
        lemma_link_text_parse(links[b]);
        assert(link_names(links)[a] != link_names(links)[b]);
    }
}

/// Distinct token-named entries have distinct texts.
proof fn lemma_type_texts_distinct(types: Seq<(Seq<char>, PropertyType)>)
    requires
        all_tokens(type_names(types)),
        type_names(types).no_duplicates(),
    ensures
        type_texts(types).no_duplicates(),
{
    assert forall|a: int, b: int| 0 <= a < b < types.len() implies type_texts(types)[a] != type_texts(types)[b] by {
        assert(schema_token(type_names(types)[a]));
        assert(schema_token(type_names(types)[b]));
        lemma_token_chars(types[a].0);
        lemma_token_chars(types[b].0);
        lemma_type_text_parse(types[a]);
        lemma_type_text_parse(types[b]);
        assert(type_names(types)[a] != type_names(types)[b]);
    }
}

/// `xs` in increasing order, joined with `,`.
fn sorted_csv(xs: Vec<String>) -> (s: String)
    requires
        strs(xs@).no_duplicates(),
    ensures
        s@ == csv_of(strs(xs@)),
{
    let sorted = sort_distinct(xs);
    proof {
        reveal_strlit(",");
        crate::strs::lemma_sorted_of(strs(sorted@), strs(xs@));
    }
    join_strings(&sorted, ",")
}

impl SchemaDescriptor {
    /// Decode a persisted schema row.
    pub fn from_record(record: &ObjectRecord) -> (r: Result<SchemaDescriptor, String>)
        ensures
            match r {
                Ok(d) => schema_record_ok(record@) && d@ == schema_view(record@),
                Err(_) => !schema_record_ok(record@),
            },
            forall|i: int|
                schema_record_parts_ok(record@) && 0 <= i < record@.props.len() && (forall|k: int|
                    0 <= k < i ==> is_schema_field(#[trigger] record@.props[k].0)) && !is_schema_field(
                    #[trigger] record@.props[i].0,
                ) ==> (r matches Err(e) && e@ == "unknown schema property "@ + record@.props[i].0),
    {
        proof {
            lemma_schema_kind();
            lemma_field_names();
        }
        if !str_eq(record.kind.as_str(), SCHEMA_KIND) {
            return Err(concat_str("schema kind must be mikura.schema, got ", record.kind.as_str()));
        }
        let properties = match required_csv(record, SCHEMA_PROPERTIES) {
            Ok(v) => v,
            Err(e) => return Err(e),
        };
        let required = match optional_csv(record, SCHEMA_REQUIRED) {
            Ok(v) => v,
            Err(e) => return Err(e),
        };
        let link_entries = match optional_csv(record, SCHEMA_LINKS) {
            Ok(v) => v,
            Err(e) => return Err(e),
        };
        let links = match parse_links(&link_entries) {
            Ok(v) => v,
            Err(e) => return Err(e),
        };
        let sums = match optional_csv(record, SCHEMA_SUMS) {
            Ok(v) => v,
            Err(e) => return Err(e),
        };
        let type_entries = match optional_csv(record, SCHEMA_TYPES) {
            Ok(v) => v,
            Err(e) => return Err(e),
        };
        let types = match parse_types(&type_entries) {
            Ok(v) => v,
            Err(e) => return Err(e),
        };
        let descriptor = SchemaDescriptor {
            kind: record.key.clone(),
            properties,
            required,
            links,
            sums,
            types,
        };
        assert(descriptor@ == schema_view(record@));
        match descriptor.check() {
            Ok(()) => {},
            Err(e) => return Err(e),
        }
        let entries = record.props.entries();
        let ghost pv = record.props@;
        let mut i: usize = 0;
        while i < entries.len()
            invariant
                i <= entries@.len(),
                entries@.len() == pv.len(),
                entries@.map_values(|e: (String, String)| (e.0@, e.1@)) == pv,
                pv == record.props@,
                forall|k: int| 0 <= k < i ==> is_schema_field(#[trigger] pv[k].0),
                SCHEMA_PROPERTIES@ == properties_field(),
                SCHEMA_REQUIRED@ == required_field(),
                SCHEMA_LINKS@ == links_field(),
                SCHEMA_SUMS@ == sums_field(),
                SCHEMA_TYPES@ == types_field(),
            decreases entries@.len() - i,
        {
            let name = entries[i].0.as_str();
            assert(pv[i as int].0 == name@);
            if !(str_eq(name, SCHEMA_PROPERTIES) || str_eq(name, SCHEMA_REQUIRED) || str_eq(name, SCHEMA_LINKS)
                || str_eq(name, SCHEMA_SUMS) || str_eq(name, SCHEMA_TYPES)) {
                assert(!is_schema_field(pv[i as int].0));
                proof {
                    assert forall|j: int|
                        0 <= j < pv.len() && (forall|k: int| 0 <= k < j ==> is_schema_field(#[trigger] pv[k].0))
                            && !is_schema_field(#[trigger] pv[j].0) implies j == i by {
                        if j < i {
                            assert(is_schema_field(pv[j].0));
                        } else if j > i {
                            assert(is_schema_field(pv[i as int].0));
                        }
                    }
                }
                return Err(concat_str("unknown schema property ", name));
            }
            i = i + 1;
        }
        Ok(descriptor)
    }

    /// Encode as a schema row; the store assigns its generation.
    pub fn to_record(&self) -> (r: Result<ObjectRecord, String>)
        ensures
            match r {
                Ok(rec) => descriptor_ok(self@) && rec@ == schema_record(self@),
                Err(_) => !descriptor_ok(self@),
            },
            refused_with(
                self@,
                match r {
                    Ok(_) => None,
                    Err(e) => Some(e@),
                },
            ),
    {
        match self.check() {
            Ok(()) => {},
            Err(e) => return Err(e),
        }
        proof {
            lemma_field_names();
            lemma_field_order();
            lemma_schema_kind();
        }
        let ghost d = self@;
        let mut props = Props::new();
        let ghost mut acc: Seq<(Seq<char>, Seq<char>)> = seq![];
        if self.links.len() > 0 {
            let encoded = encode_links(&self.links);
            proof {
                lemma_link_texts_distinct(d.links);
            }
            let text = sorted_csv(encoded);
            props.insert(SCHEMA_LINKS.to_owned(), text);
            proof {
                acc = seq![(links_field(), csv_of(link_texts(d.links)))];
                assert(props@ =~= acc);
            }
        }
        let ghost before = acc;
        let text = sorted_csv(crate::strs::clone_strings(&self.properties));
        props.insert(SCHEMA_PROPERTIES.to_owned(), text);
        proof {
            acc = before.push((properties_field(), csv_of(d.properties)));
            assert(props@ =~= acc);
        }
        if self.required.len() > 0 {
            let ghost before = acc;
            let text = sorted_csv(crate::strs::clone_strings(&self.required));
            props.insert(SCHEMA_REQUIRED.to_owned(), text);
            proof {
                acc = before.push((required_field(), csv_of(d.required)));
                assert(props@ =~= acc);
            }
        }
        if self.sums.len() > 0 {
            let ghost before = acc;
            let text = sorted_csv(crate::strs::clone_strings(&self.sums));
            props.insert(SCHEMA_SUMS.to_owned(), text);
            proof {
                acc = before.push((sums_field(), csv_of(d.sums)));
                assert(props@ =~= acc);
            }
        }
        if self.types.len() > 0 {
            let ghost before = acc;
            let encoded = encode_types(&self.types);
            proof {
                lemma_type_texts_distinct(d.types);
            }
            let text = sorted_csv(encoded);
            props.insert(SCHEMA_TYPES.to_owned(), text);
            proof {
                acc = before.push((types_field(), csv_of(type_texts(d.types))));
                assert(props@ =~= acc);
            }
        }
        assert(acc =~= schema_props(d));
        Ok(ObjectRecord {
            gen: 0,
            kind: SCHEMA_KIND.to_owned(),
            key: self.kind.clone(),
            hidden: false,
            action_id: None,
            props,
        })
    }
}

/// `i` is the first entry of `types` named `name`.
pub open spec fn is_first_named(types: Seq<(Seq<char>, PropertyType)>, name: Seq<char>, i: int) -> bool {
    &&& 0 <= i < types.len()
    &&& types[i].0 == name
    &&& forall|k: int| 0 <= k < i ==> types[k].0 != name
}

/// The type of the first entry named `name`, if any.
pub open spec fn type_of(types: Seq<(Seq<char>, PropertyType)>, name: Seq<char>) -> Option<PropertyType> {
    if exists|i: int| is_first_named(types, name, i) {
        Some(types[choose|i: int| is_first_named(types, name, i)].1)
    } else {
        None
    }
}

/// The type of a declared property: its declared type, or string.
pub open spec fn property_type_of(d: DescriptorView, name: Seq<char>) -> Option<PropertyType> {
    if d.properties.contains(name) {
        Some(
            match type_of(d.types, name) {
                Some(t) => t,
                None => PropertyType::String,
            },
        )
    } else {
        None
    }
}

/// A visible instance that `d` accepts: of its kind, with declared
/// properties only, every required one present, no outgoing link empty, and
/// every typed value canonical.
pub open spec fn instance_ok(d: DescriptorView, r: RecordView) -> bool {
    &&& descriptor_ok(d)
    &&& r.kind == d.kind
    &&& forall|i: int| 0 <= i < r.props.len() ==> d.properties.contains(#[trigger] r.props[i].0)
    &&& forall|i: int| 0 <= i < d.required.len() ==> prop_has(r.props, #[trigger] d.required[i])
    &&& forall|i: int|
        0 <= i < d.links.len() && (#[trigger] d.links[i]).outgoing ==> prop_get(r.props, d.links[i].name)
            != Some(Seq::<char>::empty())
    &&& forall|i: int|
        0 <= i < r.props.len() ==> match property_type_of(d, (#[trigger] r.props[i]).0) {
            Some(t) => canonical(t, r.props[i].1) is Some,
            None => true,
        }
}

/// Whether every typed value of `props` is one its type accepts on write.
pub open spec fn writable(d: DescriptorView, props: Seq<(Seq<char>, Seq<char>)>) -> bool {
    forall|i: int|
        0 <= i < props.len() ==> match property_type_of(d, (#[trigger] props[i]).0) {
            Some(t) => write_form(t, props[i].1) is Some,
            None => true,
        }
}

/// `props` with each typed value in the form a write stores.
pub open spec fn written_props(d: DescriptorView, props: Seq<(Seq<char>, Seq<char>)>) -> Seq<(Seq<char>, Seq<char>)> {
    props.map_values(|e: (Seq<char>, Seq<char>)|
        (
            e.0,
            match property_type_of(d, e.0) {
                Some(t) => write_form(t, e.1).unwrap(),
                None => e.1,
            },
        ))
}

impl SchemaDescriptor {
    /// The declared type of `name`: string when it is declared without one,
    /// none when it is not declared.
    pub fn property_type(&self, name: &str) -> (r: Option<PropertyType>)
        ensures
            r == property_type_of(self@, name@),
    {
        if !contains_str(&self.properties, name) {
            return None;
        }
        let ghost tv = types_view(self.types@);
        let mut i: usize = 0;
        while i < self.types.len()
            invariant
                i <= self.types@.len(),
                tv == types_view(self.types@),
                self@.properties.contains(name@),
                forall|k: int| 0 <= k < i ==> tv[k].0 != name@,
            decreases self.types@.len() - i,
        {
            assert(tv[i as int] == (self.types@[i as int].0@, self.types@[i as int].1));
            if str_eq(self.types[i].0.as_str(), name) {
                proof {
                    assert(is_first_named(tv, name@, i as int));
                    let j = choose|j: int| is_first_named(tv, name@, j);
                    if j < i {
                        assert(tv[j].0 == name@);
                    } else if i < j {
                        assert(tv[i as int].0 == name@);
                    }
                }
                return Some(self.types[i].1);
            }
            i = i + 1;
        }
        assert(!exists|j: int| is_first_named(tv, name@, j));
        Some(PropertyType::String)
    }

    /// Fail unless `record` is an instance this descriptor accepts.
    pub fn validate(&self, record: &ObjectRecord) -> (r: Result<(), String>)
        ensures
            r is Ok <==> instance_ok(self@, record@),
            forall|i: int|
                descriptor_ok(self@) && record.kind@ == self.kind@ && 0 <= i < record.props@.len() && (forall|k: int|
                    0 <= k < i ==> self@.properties.contains(#[trigger] record.props@[k].0))
                    && !self@.properties.contains(#[trigger] record.props@[i].0) ==> (r matches Err(e) && e@
                    == "unknown property "@ + record.props@[i].0 + " on "@ + self.kind@),
            forall|i: int|
                descriptor_ok(self@) && record.kind@ == self.kind@ && (forall|k: int|
                    0 <= k < record.props@.len() ==> self@.properties.contains(#[trigger] record.props@[k].0))
                    && 0 <= i < self@.required.len() && (forall|k: int|
                    0 <= k < i ==> prop_has(record.props@, #[trigger] self@.required[k])) && !prop_has(
                    record.props@,
                    #[trigger] self@.required[i],
                ) ==> (r matches Err(e) && e@ == "missing required property "@ + self@.required[i] + " on "@
                    + self.kind@),
            forall|i: int|
                descriptor_ok(self@) && record.kind@ == self.kind@ && (forall|k: int|
                    0 <= k < record.props@.len() ==> self@.properties.contains(#[trigger] record.props@[k].0))
                    && (forall|k: int| 0 <= k < self@.required.len() ==> prop_has(record.props@, #[trigger] self@.required[k]))
                    && 0 <= i < self@.links.len() && (forall|k: int|
                    0 <= k < i && (#[trigger] self@.links[k]).outgoing ==> prop_get(record.props@, self@.links[k].name)
                        != Some(Seq::<char>::empty())) && (#[trigger] self@.links[i]).outgoing && prop_get(
                    record.props@,
                    self@.links[i].name,
                ) == Some(Seq::<char>::empty()) ==> (r matches Err(e) && e@ == "link "@ + self@.links[i].name
                    + " on "@ + self.kind@ + " must be a non-empty key"@),
    {
        match self.check() {
            Ok(()) => {},
            Err(e) => return Err(e),
        }
        let kind = self.kind.as_str();
        if !str_eq(record.kind.as_str(), kind) {
            let mut m = concat_str("schema ", kind);
            m.append(" does not apply to ");
            m.append(record.kind.as_str());
            return Err(m);
        }
        let ghost d = self@;
        let ghost pv = record.props@;
        let entries = record.props.entries();
        let mut i: usize = 0;
        while i < entries.len()
            invariant
                i <= entries@.len(),
                entries@.len() == pv.len(),
                entries@.map_values(|e: (String, String)| (e.0@, e.1@)) == pv,
                pv == record.props@,
                d == self@,
                kind@ == self.kind@,
                forall|k: int| 0 <= k < i ==> d.properties.contains(#[trigger] pv[k].0),
            decreases entries@.len() - i,
        {
            let name = entries[i].0.as_str();
            assert(pv[i as int].0 == name@);
            if !contains_str(&self.properties, name) {
                proof {
                    assert forall|j: int|
                        0 <= j < pv.len() && (forall|k: int| 0 <= k < j ==> d.properties.contains(#[trigger] pv[k].0))
                            && !d.properties.contains(#[trigger] pv[j].0) implies j == i by {
                        if j < i {
                            assert(d.properties.contains(pv[j].0));
                        } else if j > i {
                            assert(d.properties.contains(pv[i as int].0));
                        }
                    }
                }
                let m = named_message("unknown property ", name, "");
                proof {
                    reveal_strlit("");
                    assert(m@ =~= "unknown property "@ + name@);
                }
                return Err(on_kind(m, kind));
            }
            i = i + 1;
        }
        let mut i: usize = 0;
        while i < self.required.len()
            invariant
                i <= self.required@.len(),
                d == self@,
                kind@ == self.kind@,
                pv == record.props@,
                forall|k: int| 0 <= k < pv.len() ==> d.properties.contains(#[trigger] pv[k].0),
                forall|k: int| 0 <= k < i ==> prop_has(pv, #[trigger] d.required[k]),
            decreases self.required@.len() - i,
        {
            let name = self.required[i].as_str();
            assert(d.required[i as int] == name@);
            if !record.props.contains_key(name) {
                proof {
                    assert forall|j: int|
                        0 <= j < d.required.len() && (forall|k: int| 0 <= k < j ==> prop_has(pv, #[trigger] d.required[k]))
                            && !prop_has(pv, #[trigger] d.required[j]) implies j == i by {
                        if j < i {
                            assert(prop_has(pv, d.required[j]));
                        } else if j > i {
                            assert(prop_has(pv, d.required[i as int]));
                        }
                    }
                }
                let m = named_message("missing required property ", name, "");
                proof {
                    reveal_strlit("");
                    assert(m@ =~= "missing required property "@ + name@);
                }
                return Err(on_kind(m, kind));
            }
            i = i + 1;
        }
        let mut i: usize = 0;
        while i < self.links.len()
            invariant
                i <= self.links@.len(),
                d == self@,
                kind@ == self.kind@,
                pv == record.props@,
                forall|k: int| 0 <= k < pv.len() ==> d.properties.contains(#[trigger] pv[k].0),
                forall|k: int| 0 <= k < d.required.len() ==> prop_has(pv, #[trigger] d.required[k]),
                forall|k: int|
                    0 <= k < i && (#[trigger] d.links[k]).outgoing ==> prop_get(pv, d.links[k].name)
                        != Some(Seq::<char>::empty()),
            decreases self.links@.len() - i,
        {
            let link = &self.links[i];
            assert(d.links[i as int] == link_view(*link));
            if link.outgoing {
                match record.props.get(link.name.as_str()) {
                    Some(v) => {
                        if v.unicode_len() == 0 {
                            assert(v@ =~= Seq::<char>::empty());
                            proof {
                                assert forall|j: int|
                                    0 <= j < d.links.len() && (forall|k: int|
                                        0 <= k < j && (#[trigger] d.links[k]).outgoing ==> prop_get(pv, d.links[k].name)
                                            != Some(Seq::<char>::empty())) && (#[trigger] d.links[j]).outgoing && prop_get(
                                        pv,
                                        d.links[j].name,
                                    ) == Some(Seq::<char>::empty()) implies j == i by {
                                    if j < i {
                                        assert(prop_get(pv, d.links[j].name) != Some(Seq::<char>::empty()));
                                    } else if j > i {
                                        assert(d.links[i as int].outgoing);
                                    }
                                }
                            }
                            let mut m = concat_str("link ", link.name.as_str());
                            m.append(" on ");
                            m.append(kind);
                            m.append(" must be a non-empty key");
                            return Err(m);
                        }
                    },
                    None => {},
                }
            }
            i = i + 1;
        }
        let mut i: usize = 0;
        while i < entries.len()
            invariant
                i <= entries@.len(),
                entries@.len() == pv.len(),
                entries@.map_values(|e: (String, String)| (e.0@, e.1@)) == pv,
                pv == record.props@,
                d == self@,
                kind@ == self.kind@,
                forall|k: int| 0 <= k < pv.len() ==> d.properties.contains(#[trigger] pv[k].0),
                forall|k: int| 0 <= k < d.required.len() ==> prop_has(pv, #[trigger] d.required[k]),
                forall|k: int|
                    0 <= k < d.links.len() && (#[trigger] d.links[k]).outgoing ==> prop_get(pv, d.links[k].name)
                        != Some(Seq::<char>::empty()),
                forall|k: int|
                    0 <= k < i ==> match property_type_of(d, (#[trigger] pv[k]).0) {
                        Some(t) => canonical(t, pv[k].1) is Some,
                        None => true,
                    },
            decreases entries@.len() - i,
        {
            let name = entries[i].0.as_str();
            let value = entries[i].1.as_str();
            assert(pv[i as int] == (name@, value@));
            match self.property_type(name) {
                Some(ty) => match ty.parse_canonical(value) {
                    Ok(_) => {},
                    Err(e) => {
                        let mut m = e;
                        m.append(" for ");
                        m.append(name);
                        return Err(on_kind(m, kind));
                    },
                },
                None => {},
            }
            i = i + 1;
        }
        Ok(())
    }

    /// Put each typed value of `record` in the form a write stores; fails,
    /// leaving `record` as it was, when a value is not accepted.
    pub fn canonicalize_instance(&self, record: &mut ObjectRecord) -> (r: Result<(), String>)
        ensures
            r is Ok <==> (descriptor_ok(self@) && old(record)@.kind == self@.kind && writable(self@, old(record)@.props)),
            r is Ok ==> final(record)@ == (RecordView { props: written_props(self@, old(record)@.props), ..old(record)@ }),
            r is Err ==> final(record)@ == old(record)@,
    {
        match self.check() {
            Ok(()) => {},
            Err(e) => return Err(e),
        }
        let kind = self.kind.as_str();
        if !str_eq(record.kind.as_str(), kind) {
            let mut m = concat_str("schema ", kind);
            m.append(" does not apply to ");
            m.append(record.kind.as_str());
            return Err(m);
        }
        let ghost d = self@;
        let ghost pv = record.props@;
        let entries = record.props.entries();
        let mut out = Props::new();
        let mut i: usize = 0;
        while i < entries.len()
            invariant
                i <= entries@.len(),
                entries@.len() == pv.len(),
                entries@.map_values(|e: (String, String)| (e.0@, e.1@)) == pv,
                pv == old(record).props@,
                sorted_keys(pv),
                d == self@,
                out@ == written_props(d, pv.subrange(0, i as int)),
                writable(d, pv.subrange(0, i as int)),
            decreases entries@.len() - i,
        {
            let name = entries[i].0.as_str();
            let value = entries[i].1.as_str();
            assert(pv[i as int] == (name@, value@));
            let stored = match self.property_type(name) {
                Some(ty) => match ty.canonicalize_write(value) {
                    Ok(v) => v,
                    Err(e) => {
                        assert(!writable(d, pv)) by {
                            assert(write_form(ty, pv[i as int].1) is None);
                        }
                        let mut m = e;
                        m.append(" for ");
                        m.append(name);
                        return Err(on_kind(m, kind));
                    },
                },
                None => value.to_owned(),
            };
            let ghost before = out@;
            proof {
                assert forall|k: int| 0 <= k < before.len() implies key_lt(#[trigger] before[k].0, name@) by {
                    assert(before[k].0 == pv[k].0);
                }
            }
            out.insert(name.to_owned(), stored);
            proof {
                let sub = pv.subrange(0, i + 1);
                assert(out@ =~= written_props(d, sub));
                assert forall|k: int| 0 <= k < sub.len() implies match property_type_of(d, (#[trigger] sub[k]).0) {
                    Some(t) => write_form(t, sub[k].1) is Some,
                    None => true,
                } by {
                    if k < i {
                        assert(pv.subrange(0, i as int)[k] == sub[k]);
                    }
                }
            }
            i = i + 1;
        }
        assert(pv.subrange(0, pv.len() as int) =~= pv);
        record.props = out;
        Ok(())
    }
}

/// What the schema row of `d` holds under the name `k`.
pub open spec fn schema_field_value(d: DescriptorView, k: Seq<char>) -> Option<Seq<char>> {
    if k == links_field() && d.links.len() > 0 {
        Some(csv_of(link_texts(d.links)))
    } else if k == properties_field() {
        Some(csv_of(d.properties))
    } else if k == required_field() && d.required.len() > 0 {
        Some(csv_of(d.required))
    } else if k == sums_field() && d.sums.len() > 0 {
        Some(csv_of(d.sums))
    } else if k == types_field() && d.types.len() > 0 {
        Some(csv_of(type_texts(d.types)))
    } else {
        None
    }
}

proof fn lemma_field_distinct()
    ensures
        links_field() != properties_field(),
        links_field() != required_field(),
        links_field() != sums_field(),
        links_field() != types_field(),
        properties_field() != required_field(),
        properties_field() != sums_field(),
        properties_field() != types_field(),
        required_field() != sums_field(),
        required_field() != types_field(),
        sums_field() != types_field(),
{
    assert(links_field()[0] != types_field()[0]);
}

/// The schema row's properties are in name order and hold exactly the
/// present lists.
proof fn lemma_schema_props(d: DescriptorView)
    ensures
        sorted_keys(schema_props(d)),
        forall|k: Seq<char>| #[trigger] prop_get(schema_props(d), k) == schema_field_value(d, k),
{
    lemma_field_order();
    lemma_field_distinct();
    let empty = Seq::<(Seq<char>, Seq<char>)>::empty();
    assert forall|k: Seq<char>| #[trigger] prop_get(empty, k) is None by {}
    let el = (links_field(), csv_of(link_texts(d.links)));
    let ep = (properties_field(), csv_of(d.properties));
    let er = (required_field(), csv_of(d.required));
    let es = (sums_field(), csv_of(d.sums));
    let et = (types_field(), csv_of(type_texts(d.types)));
    let q0 = if d.links.len() > 0 { empty.push(el) } else { empty };
    if d.links.len() > 0 {
        lemma_push_field(empty, el);
    }
    assert(sorted_keys(q0));
    assert forall|k: Seq<char>| (#[trigger] prop_get(q0, k)) is Some implies key_lt(k, ep.0) by {}
    lemma_push_field(q0, ep);
    let q1 = q0.push(ep);
    let q2 = if d.required.len() > 0 { q1.push(er) } else { q1 };
    if d.required.len() > 0 {
        assert forall|k: Seq<char>| (#[trigger] prop_get(q1, k)) is Some implies key_lt(k, er.0) by {}
        lemma_push_field(q1, er);
    }
    assert(sorted_keys(q2));
    let q3 = if d.sums.len() > 0 { q2.push(es) } else { q2 };
    if d.sums.len() > 0 {
        assert forall|k: Seq<char>| (#[trigger] prop_get(q2, k)) is Some implies key_lt(k, es.0) by {}
        lemma_push_field(q2, es);
    }
    assert(sorted_keys(q3));
    let q4 = if d.types.len() > 0 { q3.push(et) } else { q3 };
    if d.types.len() > 0 {
        assert forall|k: Seq<char>| (#[trigger] prop_get(q3, k)) is Some implies key_lt(k, et.0) by {}
        lemma_push_field(q3, et);
    }
    assert(sorted_keys(q4));
    assert(schema_props(d) =~= q4);
    assert forall|k: Seq<char>| #[trigger] prop_get(schema_props(d), k) == schema_field_value(d, k) by {}
}

/// A link text is non-empty, holds no `,`, and starts and ends outside white space.
proof fn lemma_link_text_chars(l: LinkView)
    requires
        schema_token(l.name),
        schema_token(l.far_kind),
    ensures
        link_text(l).len() > 0,
        !link_text(l).contains(','),
        !is_white_space(link_text(l)[0]),
        !is_white_space(link_text(l).last()),
{
    let dir = if l.outgoing { out_text() } else { in_text() };
    let parts = seq![l.name, l.far_kind, dir, cardinality()];
    lemma_token_chars(l.name);
    lemma_token_chars(l.far_kind);
    assert forall|i: int| 0 <= i < parts.len() implies (#[trigger] parts[i]).len() > 0 && !parts[i].contains(',') by {
        if i == 2 || i == 3 {
            if parts[i].contains(',') {
                let k = choose|k: int| 0 <= k < parts[i].len() && parts[i][k] == ',';
            }
        }
    }
    crate::strs::lemma_join_shape(parts, ':', ',');
    assert(parts.last().last() == '1');
}

/// A `name:type` text of a token name is non-empty, holds no `,`, and starts
/// and ends outside white space.
proof fn lemma_type_text_chars(e: (Seq<char>, PropertyType))
    requires
        schema_token(e.0),
    ensures
        type_text(e).len() > 0,
        !type_text(e).contains(','),
        !is_white_space(type_text(e)[0]),
        !is_white_space(type_text(e).last()),
        !e.0.contains(':'),
{
    lemma_token_chars(e.0);
    type_token_nonempty(e.1);
    let t = type_text(e);
    let tok = type_token(e.1);
    assert(t[e.0.len() as int] == ':');
    assert(t[0] == e.0[0]);
    assert(t.last() == tok.last());
    if t.contains(',') {
        let k = choose|k: int| 0 <= k < t.len() && t[k] == ',';
        if k < e.0.len() {
            assert(e.0[k] == ',');
        } else if k > e.0.len() {
            assert(tok[k - e.0.len() - 1] == ',');
        }
    }
}

/// A descriptor that meets the rules, with its name lists in increasing
/// order, its links in increasing order of their texts and its typed
/// properties in increasing name order, reads back from its schema row
/// unchanged.
pub proof fn law_schema_roundtrip(d: DescriptorView)
    requires
        descriptor_ok(d),
        sorted_strs(d.properties),
        sorted_strs(d.required),
        sorted_strs(d.sums),
        sorted_strs(link_texts(d.links)),
        sorted_by_name(d.types),
    ensures
        schema_record_ok(schema_record(d)),
        schema_view(schema_record(d)) == d,
{
    let r = schema_record(d);
    let p = r.props;
    lemma_schema_props(d);
    lemma_field_distinct();
    // Name lists.
    assert forall|s: Seq<Seq<char>>| all_tokens(s) && sorted_strs(s) implies #[trigger] csv_entries(csv_of(s)) == s
        && csv_ok(s) by {
        crate::strs::lemma_sorted_of(s, s);
        assert forall|i: int| 0 <= i < s.len() implies (#[trigger] s[i]).len() > 0 && !s[i].contains(',')
            && !is_white_space(s[i][0]) && !is_white_space(s[i].last()) by {
            assert(schema_token(s[i]));
            lemma_token_chars(s[i]);
        }
        crate::codec::lemma_csv_join(s);
        crate::strs::lemma_sorted_no_duplicates(s);
    }
    assert(csv_entries(csv_of(d.properties)) == d.properties);
    assert(field_entries(p, properties_field()) == d.properties);
    assert(field_entries(p, required_field()) == d.required) by {
        if d.required.len() > 0 {
            assert(csv_entries(csv_of(d.required)) == d.required);
        } else {
            assert(d.required =~= Seq::<Seq<char>>::empty());
        }
    }
    assert(field_entries(p, sums_field()) == d.sums) by {
        if d.sums.len() > 0 {
            assert(csv_entries(csv_of(d.sums)) == d.sums);
        } else {
            assert(d.sums =~= Seq::<Seq<char>>::empty());
        }
    }
    // Links.
    let lt = link_texts(d.links);
    assert(all_tokens(link_names(d.links)));
    assert forall|i: int| 0 <= i < d.links.len() implies parse_link_text(#[trigger] lt[i]) == Some(d.links[i])
        && lt[i].len() > 0 && !lt[i].contains(',') && !is_white_space(lt[i][0]) && !is_white_space(lt[i].last()) by {
        assert(schema_token(link_names(d.links)[i]));
        assert(link_ok(d.properties, d.links[i]));
        lemma_link_text_parse(d.links[i]);
        lemma_link_text_chars(d.links[i]);
    }
    lemma_link_texts_distinct(d.links);
    crate::strs::lemma_sorted_of(lt, lt);
    crate::codec::lemma_csv_join(lt);
    let links_e = field_entries(p, links_field());
    assert(links_e == lt) by {
        if d.links.len() == 0 {
            assert(lt =~= Seq::<Seq<char>>::empty());
        }
    }
    assert(decoded_links(lt) =~= d.links);
    // Typed properties.
    let tt = type_texts(d.types);
    let st = sorted_of(tt);
    crate::strs::lemma_sorted_exists(tt);
    crate::strs::lemma_sorted_no_duplicates(st);
    assert forall|i: int| 0 <= i < d.types.len() implies parse_type_text(#[trigger] tt[i]) == Some(d.types[i])
        && tt[i].len() > 0 && !tt[i].contains(',') && !is_white_space(tt[i][0]) && !is_white_space(tt[i].last()) by {
        assert(schema_token(type_names(d.types)[i]));
        lemma_type_text_chars(d.types[i]);
        lemma_type_text_parse(d.types[i]);
    }
    assert forall|i: int| 0 <= i < st.len() implies exists|j: int| 0 <= j < d.types.len() && #[trigger] st[i] == tt[j] by {
        assert(st.to_set().contains(st[i]));
        assert(tt.to_set().contains(st[i]));
    }
    assert forall|i: int| 0 <= i < st.len() implies (#[trigger] st[i]).len() > 0 && !st[i].contains(',')
        && !is_white_space(st[i][0]) && !is_white_space(st[i].last()) && parse_type_text(st[i]) is Some
        && tt.contains(st[i]) by {
        let j = choose|j: int| 0 <= j < d.types.len() && #[trigger] st[i] == tt[j];
        assert(parse_type_text(tt[j]) == Some(d.types[j]));
    }
    crate::codec::lemma_csv_join(st);
    let types_e = field_entries(p, types_field());
    assert(types_e == st) by {
        if d.types.len() == 0 {
            assert(tt =~= Seq::<Seq<char>>::empty());
            assert(tt.to_set() =~= Set::<Seq<char>>::empty());
            if st.len() > 0 {
                assert(st.to_set().contains(st[0]));
            }
            assert(st =~= Seq::<Seq<char>>::empty());
        }
    }
    let dt = decoded_types(st);
    assert forall|i: int| 0 <= i < st.len() implies type_text(#[trigger] dt[i]) == st[i] && d.types.contains(dt[i]) by {
        let j = choose|j: int| 0 <= j < d.types.len() && #[trigger] st[i] == tt[j];
        assert(parse_type_text(tt[j]) == Some(d.types[j]));
        assert(dt[i] == d.types[j]);
    }
    assert(dt.to_set() =~= d.types.to_set()) by {
        assert forall|x: (Seq<char>, PropertyType)| dt.to_set().contains(x) <==> d.types.to_set().contains(x) by {
            if dt.to_set().contains(x) {
                let i = choose|i: int| 0 <= i < dt.len() && dt[i] == x;
                assert(d.types.contains(dt[i]));
            }
            if d.types.to_set().contains(x) {
                let j = choose|j: int| 0 <= j < d.types.len() && d.types[j] == x;
                assert(tt.to_set().contains(tt[j]));
                assert(st.to_set().contains(tt[j]));
                let i = choose|i: int| 0 <= i < st.len() && st[i] == tt[j];
                assert(parse_type_text(tt[j]) == Some(d.types[j]));
                assert(dt[i] == x);
            }
        }
    }
    assert(type_names(dt).no_duplicates()) by {
        assert forall|a: int, b: int| 0 <= a < b < type_names(dt).len() implies type_names(dt)[a] != type_names(dt)[b] by {
            let ja = choose|j: int| 0 <= j < d.types.len() && #[trigger] st[a] == tt[j];
            let jb = choose|j: int| 0 <= j < d.types.len() && #[trigger] st[b] == tt[j];
            assert(parse_type_text(tt[ja]) == Some(d.types[ja]));
            assert(parse_type_text(tt[jb]) == Some(d.types[jb]));
            assert(st[a] != st[b]);
            if type_names(dt)[a] == type_names(dt)[b] {
                assert(type_names(d.types)[ja] == type_names(d.types)[jb]);
                assert(ja == jb);
            }
        }
    }
    assert(sorted_by_name(d.types) && d.types.to_set() == dt.to_set());
    let u = types_sorted_of(dt);
    lemma_sorted_by_name_unique(u, d.types);
    // The row as a whole.
    assert(schema_view(r) =~= d);
    assert forall|i: int| 0 <= i < p.len() implies is_schema_field(#[trigger] p[i].0) by {
        lemma_prop_get_at(p, i);
    }
}

/// Whether two link lists are equal rule by rule.
fn links_equal(a: &Vec<SchemaLink>, b: &Vec<SchemaLink>) -> (r: bool)
    ensures
        r == (links_view(a@) == links_view(b@)),
{
    if a.len() != b.len() {
        assert(links_view(a@).len() != links_view(b@).len());
        return false;
    }
    let mut i: usize = 0;
    while i < a.len()
        invariant
            i <= a@.len(),
            a@.len() == b@.len(),
            forall|k: int| 0 <= k < i ==> links_view(a@)[k] == links_view(b@)[k],
        decreases a@.len() - i,
    {
        assert(links_view(a@)[i as int] == link_view(a@[i as int]));
        assert(links_view(b@)[i as int] == link_view(b@[i as int]));
        if !(str_eq(a[i].name.as_str(), b[i].name.as_str()) && str_eq(a[i].far_kind.as_str(), b[i].far_kind.as_str())
            && a[i].outgoing == b[i].outgoing) {
            return false;
        }
        i = i + 1;
    }
    assert(links_view(a@) =~= links_view(b@));
    true
}

/// Whether two typed-property lists are equal entry by entry.
fn types_equal(a: &Vec<(String, PropertyType)>, b: &Vec<(String, PropertyType)>) -> (r: bool)
    ensures
        r == (types_view(a@) == types_view(b@)),
{
    if a.len() != b.len() {
        assert(types_view(a@).len() != types_view(b@).len());
        return false;
    }
    let mut i: usize = 0;
    while i < a.len()
        invariant
            i <= a@.len(),
            a@.len() == b@.len(),
            forall|k: int| 0 <= k < i ==> types_view(a@)[k] == types_view(b@)[k],
        decreases a@.len() - i,
    {
        assert(types_view(a@)[i as int] == (a@[i as int].0@, a@[i as int].1));
        assert(types_view(b@)[i as int] == (b@[i as int].0@, b@[i as int].1));
        if !(str_eq(a[i].0.as_str(), b[i].0.as_str()) && a[i].1 == b[i].1) {
            return false;
        }
        i = i + 1;
    }
    assert(types_view(a@) =~= types_view(b@));
    true
}

impl SchemaDescriptor {
    /// Whether both descriptors state the same rules in the same order.
    pub fn same_rules(&self, other: &SchemaDescriptor) -> (r: bool)
        ensures
            r == (self@ == other@),
    {
        let r = str_eq(self.kind.as_str(), other.kind.as_str())
            && crate::strs::strings_equal(&self.properties, &other.properties)
            && crate::strs::strings_equal(&self.required, &other.required)
            && links_equal(&self.links, &other.links)
            && crate::strs::strings_equal(&self.sums, &other.sums)
            && types_equal(&self.types, &other.types);
        proof {
            if !r && self@ == other@ {
                assert(self@.kind == other@.kind);
            }
        }
        r
    }
}

impl PartialEq for SchemaDescriptor {
    fn eq(&self, other: &Self) -> (r: bool) {
        self.same_rules(other)
    }
}

impl PartialEqSpecImpl for SchemaDescriptor {
    open spec fn obeys_eq_spec() -> bool {
        true
    }

    open spec fn eq_spec(&self, other: &SchemaDescriptor) -> bool {
        self@ == other@
    }
}

} // verus!
