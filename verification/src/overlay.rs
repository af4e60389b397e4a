//! Clerk-admitted property overlay.
//!
//! The last accepted patch persists as [`OVERLAY_KIND`] with key `{kind}/{key}`.

use vstd::prelude::*;
use vstd::std_specs::cmp::PartialEqSpecImpl;

use crate::codec::{csv_entries, csv_ok, lemma_csv_join, split_unique_csv};
use crate::props::{
    key_lt, lemma_prop_get_at, lemma_prop_get_push, lemma_props_ext, lemma_push_field, prop_get,
    prop_has, sorted_keys, Props,
};
use crate::record::{clone_opt_str, opt_str_view, ObjectRecord, RecordView};
use crate::schema::{lemma_schema_kind, schema_kind, SCHEMA_KIND};
use crate::strs::{join_strings, join_with, strs};
use crate::text::{concat_str, is_white_space, str_eq};

verus! {

/// Reserved kind for the last accepted property overlay of another identity.
pub const OVERLAY_KIND: &'static str = "mikura.overlay";

/// Comma-separated property names to omit from a later source snapshot.
pub const OVERLAY_CLEARED: &'static str = "cleared";

pub open spec fn overlay_kind() -> Seq<char> {
    seq!['m', 'i', 'k', 'u', 'r', 'a', '.', 'o', 'v', 'e', 'r', 'l', 'a', 'y']
}

pub open spec fn cleared_field() -> Seq<char> {
    seq!['c', 'l', 'e', 'a', 'r', 'e', 'd']
}

pub proof fn lemma_overlay_names()
    ensures
        OVERLAY_KIND@ == overlay_kind(),
        OVERLAY_CLEARED@ == cleared_field(),
{
    reveal_strlit("mikura.overlay");
    reveal_strlit("cleared");
    assert(OVERLAY_KIND@ =~= overlay_kind());
    assert(OVERLAY_CLEARED@ =~= cleared_field());
}

/// Admitted named-property patch for one identity.
#[derive(Debug)]
pub struct OverlayPatch {
    pub kind: String,
    pub key: String,
    pub props: Props,
    pub cleared: Vec<String>,
    pub action_id: Option<String>,
}

pub struct PatchView {
    pub kind: Seq<char>,
    pub key: Seq<char>,
    pub props: Seq<(Seq<char>, Seq<char>)>,
    pub cleared: Seq<Seq<char>>,
    pub action_id: Option<Seq<char>>,
}

impl View for OverlayPatch {
    type V = PatchView;

    open spec fn view(&self) -> PatchView {
        PatchView {
            kind: self.kind@,
            key: self.key@,
            props: self.props@,
            cleared: strs(self.cleared@),
            action_id: opt_str_view(self.action_id),
        }
    }
}

/// `kind/key`.
pub open spec fn identity_text(kind: Seq<char>, key: Seq<char>) -> Seq<char> {
    kind + seq!['/'] + key
}

/// `i` is the only `/` of `s`.
pub open spec fn is_sole_slash(s: Seq<char>, i: int) -> bool {
    &&& 0 <= i < s.len()
    &&& s[i] == '/'
    &&& forall|k: int| 0 <= k < s.len() && k != i ==> s[k] != '/'
}

/// The kind and key of a `kind/key` text: both non-empty, one `/` between.
pub open spec fn identity_parts(s: Seq<char>) -> Option<(Seq<char>, Seq<char>)> {
    if exists|i: int| is_sole_slash(s, i) && 0 < i < s.len() - 1 {
        let i = choose|i: int| is_sole_slash(s, i) && 0 < i < s.len() - 1;
        Some((s.subrange(0, i), s.subrange(i + 1, s.len() as int)))
    } else {
        None
    }
}

/// A patch that can be written: a non-empty identity of an ordinary kind,
/// a key without `/`, and no override of the reserved `cleared` name.
pub open spec fn patch_ok(p: PatchView) -> bool {
    &&& p.kind != schema_kind()
    &&& p.kind != overlay_kind()
    &&& p.kind.len() > 0
    &&& p.key.len() > 0
    &&& !p.key.contains('/')
    &&& !prop_has(p.props, cleared_field())
}

/// What the overlay row of `p` holds under the name `k`.
pub open spec fn encoded_get(p: PatchView, k: Seq<char>) -> Option<Seq<char>> {
    if k == cleared_field() && p.cleared.len() > 0 {
        Some(join_with(p.cleared, ','))
    } else {
        prop_get(p.props, k)
    }
}

/// `r` is the overlay row of `p`.
pub open spec fn is_patch_record(p: PatchView, r: RecordView) -> bool {
    &&& r.gen == 0
    &&& r.kind == overlay_kind()
    &&& r.key == identity_text(p.kind, p.key)
    &&& !r.hidden
    &&& r.action_id == p.action_id
    &&& sorted_keys(r.props)
    &&& forall|k: Seq<char>| #[trigger] prop_get(r.props, k) == encoded_get(p, k)
}

/// The entries of `s` other than the one named `k`.
pub open spec fn without_name(s: Seq<(Seq<char>, Seq<char>)>, k: Seq<char>) -> Seq<(Seq<char>, Seq<char>)>
    decreases s.len(),
{
    if s.len() == 0 {
        s
    } else {
        let w = without_name(s.drop_last(), k);
        if s.last().0 == k {
            w
        } else {
            w.push(s.last())
        }
    }
}

pub proof fn lemma_without_name(s: Seq<(Seq<char>, Seq<char>)>, k: Seq<char>)
    requires
        sorted_keys(s),
    ensures
        sorted_keys(without_name(s, k)),
        forall|j: Seq<char>|
            #[trigger] prop_get(without_name(s, k), j) == if j == k {
                None
            } else {
                prop_get(s, j)
            },
    decreases s.len(),
{
    let w = without_name(s, k);
    if s.len() == 0 {
        assert forall|j: Seq<char>| #[trigger] prop_get(w, j) == if j == k {
            None
        } else {
            prop_get(s, j)
        } by {}
    } else {
        let s0 = s.drop_last();
        assert(sorted_keys(s0)) by {
            assert forall|a: int, b: int| 0 <= a < b < s0.len() implies key_lt(#[trigger] s0[a].0, #[trigger] s0[b].0) by {
                assert(s0[a] == s[a] && s0[b] == s[b]);
            }
        }
        lemma_without_name(s0, k);
        let w0 = without_name(s0, k);
        assert(s =~= s0.push(s.last()));
        assert(sorted_keys(s0.push(s.last())));
        assert forall|j: Seq<char>| #[trigger] prop_get(s, j) == if s.last().0 == j {
            Some(s.last().1)
        } else {
            prop_get(s0, j)
        } by {
            lemma_prop_get_push(s0, s.last(), j);
        }
        if s.last().0 != k {
            assert forall|j: Seq<char>| (#[trigger] prop_get(w0, j)) is Some implies key_lt(j, s.last().0) by {
                assert(prop_get(s0, j) is Some);
                let m = choose|m: int| 0 <= m < s0.len() && #[trigger] s0[m].0 == j;
                assert(key_lt(s[m].0, s[s.len() - 1].0));
            }
            lemma_push_field(w0, s.last());
        }
        assert forall|j: Seq<char>| #[trigger] prop_get(w, j) == if j == k {
            None
        } else {
            prop_get(s, j)
        } by {
            if s.last().0 == k {
                if j == k {
                } else {
                }
            }
        }
    }
}

/// The entries of the row's `cleared` list; none when it is absent.
pub open spec fn cleared_entries(r: RecordView) -> Seq<Seq<char>> {
    match prop_get(r.props, cleared_field()) {
        Some(v) => csv_entries(v),
        None => seq![],
    }
}

/// A row that decodes to a patch: an overlay of an ordinary identity whose
/// cleared names are distinct and not also overridden.
pub open spec fn overlay_record_ok(r: RecordView) -> bool {
    &&& r.kind == overlay_kind()
    &&& identity_parts(r.key) is Some
    &&& identity_parts(r.key).unwrap().0 != schema_kind()
    &&& identity_parts(r.key).unwrap().0 != overlay_kind()
    &&& csv_ok(cleared_entries(r))
    &&& forall|i: int|
        0 <= i < cleared_entries(r).len() ==> !prop_has(
            without_name(r.props, cleared_field()),
            #[trigger] cleared_entries(r)[i],
        )
}

/// The patch an overlay row spells.
pub open spec fn overlay_view(r: RecordView) -> PatchView {
    PatchView {
        kind: identity_parts(r.key).unwrap().0,
        key: identity_parts(r.key).unwrap().1,
        props: without_name(r.props, cleared_field()),
        cleared: cleared_entries(r),
        action_id: r.action_id,
    }
}

/// What applying `p` to `source` leaves under the name `k`: the override,
/// else nothing for a cleared name, else the source value.
pub open spec fn applied_get(p: PatchView, source: Seq<(Seq<char>, Seq<char>)>, k: Seq<char>) -> Option<Seq<char>> {
    if prop_has(p.props, k) {
        prop_get(p.props, k)
    } else if p.cleared.contains(k) {
        None
    } else {
        prop_get(source, k)
    }
}

/// The kind and key of a `kind/key` text.
fn split_identity_key(raw: &str) -> (r: Result<(String, String), String>)
    ensures
        match r {
            Ok((kind, key)) => identity_parts(raw@) == Some((kind@, key@)),
            Err(_) => identity_parts(raw@) is None,
        },
{
    let n = raw.unicode_len();
    let mut i: usize = 0;
    while i < n && raw.get_char(i) != '/'
        invariant
            i <= n,
            n == raw@.len(),
            forall|k: int| 0 <= k < i ==> raw@[k] != '/',
        decreases n - i,
    {
        i = i + 1;
    }
    let mut m = concat_str("overlay key ", raw);
    m.append(" must be kind/key");
    if i == n {
        assert(!exists|j: int| is_sole_slash(raw@, j) && 0 < j < raw@.len() - 1) by {
            if exists|j: int| is_sole_slash(raw@, j) && 0 < j < raw@.len() - 1 {
                let j = choose|j: int| is_sole_slash(raw@, j) && 0 < j < raw@.len() - 1;
                assert(raw@[j] == '/');
            }
        }
        return Err(m);
    }
    let mut j: usize = i + 1;
    while j < n && raw.get_char(j) != '/'
        invariant
            i < j <= n,
            n == raw@.len(),
            forall|k: int| i < k < j ==> raw@[k] != '/',
        decreases n - j,
    {
        j = j + 1;
    }
    if i == 0 || i + 1 == n || j < n {
        assert(!exists|x: int| is_sole_slash(raw@, x) && 0 < x < raw@.len() - 1) by {
            if exists|x: int| is_sole_slash(raw@, x) && 0 < x < raw@.len() - 1 {
                let x = choose|x: int| is_sole_slash(raw@, x) && 0 < x < raw@.len() - 1;
                if x != i {
                    assert(raw@[i as int] == '/');
                }
                if j < n && x != j {
                    assert(raw@[j as int] == '/');
                }
            }
        }
        return Err(m);
    }
    proof {
        assert(is_sole_slash(raw@, i as int));
        let x = choose|x: int| is_sole_slash(raw@, x) && 0 < x < raw@.len() - 1;
        if x != i {
            assert(raw@[i as int] == '/');
        }
    }
    let kind = raw.substring_char(0, i).to_owned();
    let key = raw.substring_char(i + 1, n).to_owned();
    Ok((kind, key))
}

/// The entries of an overlay `cleared` list.
fn split_csv(raw: &str) -> (r: Result<Vec<String>, String>)
    ensures
        match r {
            Ok(v) => csv_ok(csv_entries(raw@)) && strs(v@) == csv_entries(raw@),
            Err(_) => !csv_ok(csv_entries(raw@)),
        },
{
    split_unique_csv(raw, "empty overlay cleared entry", "duplicate overlay cleared entry ")
}

impl OverlayPatch {
    /// `kind/key`.
    pub fn identity_key(kind: &str, key: &str) -> (s: String)
        ensures
            s@ == identity_text(kind@, key@),
    {
        proof {
            reveal_strlit("/");
        }
        let mut s = concat_str(kind, "/");
        s.append(key);
        s
    }

    /// Decode a persisted overlay row.
    pub fn from_record(record: &ObjectRecord) -> (r: Result<OverlayPatch, String>)
        ensures
            match r {
                Ok(p) => overlay_record_ok(record@) && p@ == overlay_view(record@),
                Err(_) => !overlay_record_ok(record@),
            },
    {
        proof {
            lemma_overlay_names();
            lemma_schema_kind();
        }
        if !str_eq(record.kind.as_str(), OVERLAY_KIND) {
            return Err(concat_str("overlay kind must be mikura.overlay, got ", record.kind.as_str()));
        }
        let (kind, key) = match split_identity_key(record.key.as_str()) {
            Ok(parts) => parts,
            Err(e) => return Err(e),
        };
        if str_eq(kind.as_str(), SCHEMA_KIND) || str_eq(kind.as_str(), OVERLAY_KIND) {
            let mut m = concat_str("overlay cannot describe ", kind.as_str());
            return Err(m);
        }
        let ghost rv = record@;
        let entries = record.props.entries();
        let mut props = Props::new();
        let mut cleared: Vec<String> = Vec::new();
        let ghost pv = record.props@;
        let mut i: usize = 0;
        while i < entries.len()
            invariant
                i <= entries@.len(),
                entries@.len() == pv.len(),
                entries@.map_values(|e: (String, String)| (e.0@, e.1@)) == pv,
                pv == record.props@,
                sorted_keys(pv),
                OVERLAY_CLEARED@ == cleared_field(),
                props@ == without_name(pv.subrange(0, i as int), cleared_field()),
                prop_has(pv.subrange(0, i as int), cleared_field()) ==> strs(cleared@) == cleared_entries(rv)
                    && csv_ok(cleared_entries(rv)),
                !prop_has(pv.subrange(0, i as int), cleared_field()) ==> cleared@.len() == 0,
                rv == record@,
            decreases entries@.len() - i,
        {
            let name = entries[i].0.as_str();
            let value = entries[i].1.as_str();
            let ghost pre = pv.subrange(0, i as int);
            let ghost cur = pv.subrange(0, i + 1);
            assert(pv[i as int] == (name@, value@));
            assert(cur =~= pre.push(pv[i as int]));
            assert(cur.drop_last() =~= pre);
            assert(cur.last() == pv[i as int]);
            assert(sorted_keys(pre)) by {
                assert forall|a: int, b: int| 0 <= a < b < pre.len() implies key_lt(#[trigger] pre[a].0, #[trigger] pre[b].0) by {
                    assert(pre[a] == pv[a] && pre[b] == pv[b]);
                }
            }
            assert(sorted_keys(cur)) by {
                assert forall|a: int, b: int| 0 <= a < b < cur.len() implies key_lt(#[trigger] cur[a].0, #[trigger] cur[b].0) by {
                    assert(cur[a] == pv[a] && cur[b] == pv[b]);
                }
            }
            proof {
                lemma_without_name(pre, cleared_field());
                assert forall|j: Seq<char>| #[trigger] prop_get(cur, j) == if name@ == j {
                    Some(value@)
                } else {
                    prop_get(pre, j)
                } by {
                    lemma_prop_get_push(pre, pv[i as int], j);
                }
                lemma_prop_get_at(pv, i as int);
            }
            if str_eq(name, OVERLAY_CLEARED) {
                match split_csv(value) {
                    Ok(v) => {
                        cleared = v;
                    },
                    Err(e) => {
                        return Err(e);
                    },
                }
                proof {
                    assert(without_name(cur, cleared_field()) == without_name(pre, cleared_field()));
                }
            } else {
                let ghost before = props@;
                proof {
                    assert forall|k: int| 0 <= k < before.len() implies key_lt(#[trigger] before[k].0, name@) by {
                        lemma_prop_get_at(before, k);
                        assert(prop_get(pre, before[k].0) is Some);
                        let m = choose|m: int| 0 <= m < pre.len() && #[trigger] pre[m].0 == before[k].0;
                        assert(key_lt(pv[m].0, pv[i as int].0));
                    }
                }
                props.insert(name.to_owned(), value.to_owned());
                proof {
                    assert(without_name(cur, cleared_field()) == before.push((name@, value@)));
                    if prop_has(cur, cleared_field()) {
                        assert(prop_has(pre, cleared_field()));
                    }
                }
            }
            i = i + 1;
        }
        assert(pv.subrange(0, pv.len() as int) =~= pv);
        proof {
            if !prop_has(pv, cleared_field()) {
                assert(strs(cleared@) =~= cleared_entries(rv));
            }
            lemma_without_name(pv, cleared_field());
        }
        let mut c: usize = 0;
        while c < cleared.len()
            invariant
                c <= cleared@.len(),
                rv == record@,
                strs(cleared@) == cleared_entries(rv),
                props@ == without_name(rv.props, cleared_field()),
                forall|k: int| 0 <= k < c ==> !prop_has(props@, #[trigger] cleared_entries(rv)[k]),
            decreases cleared@.len() - c,
        {
            let name = cleared[c].as_str();
            assert(cleared_entries(rv)[c as int] == name@);
            if props.contains_key(name) {
                let mut m = concat_str("cleared property ", name);
                m.append(" also has an override");
                return Err(m);
            }
            c = c + 1;
        }
        Ok(OverlayPatch { kind, key, props, cleared, action_id: clone_opt_str(&record.action_id) })
    }

    /// Encode as an overlay row; the store assigns its generation.
    pub fn to_record(&self) -> (r: Result<ObjectRecord, String>)
        ensures
            match r {
                Ok(rec) => patch_ok(self@) && is_patch_record(self@, rec@),
                Err(_) => !patch_ok(self@),
            },
    {
        proof {
            lemma_overlay_names();
            lemma_schema_kind();
        }
        if str_eq(self.kind.as_str(), SCHEMA_KIND) || str_eq(self.kind.as_str(), OVERLAY_KIND) {
            return Err(concat_str("overlay cannot describe ", self.kind.as_str()));
        }
        if self.kind.unicode_len() == 0 || self.key.unicode_len() == 0 {
            return Err(String::from_str("overlay identity must not be empty"));
        }
        let n = self.key.unicode_len();
        let mut i: usize = 0;
        while i < n
            invariant
                i <= n,
                n == self.key@.len(),
                forall|k: int| 0 <= k < i ==> self.key@[k] != '/',
            decreases n - i,
        {
            if self.key.get_char(i) == '/' {
                return Err(String::from_str("overlay target key must not contain '/'"));
            }
            i = i + 1;
        }
        if self.props.contains_key(OVERLAY_CLEARED) {
            return Err(String::from_str("cleared is reserved on overlay objects"));
        }
        let mut props = self.props.clone();
        if self.cleared.len() > 0 {
            proof {
                reveal_strlit(",");
            }
            let text = join_strings(&self.cleared, ",");
            props.insert(OVERLAY_CLEARED.to_owned(), text);
        }
        let record = ObjectRecord {
            gen: 0,
            kind: OVERLAY_KIND.to_owned(),
            key: Self::identity_key(self.kind.as_str(), self.key.as_str()),
            hidden: false,
            action_id: clone_opt_str(&self.action_id),
            props,
        };
        let _ = record.props.entries();
        Ok(record)
    }

    /// The source properties without the cleared names, then the overrides.
    pub fn apply(&self, source: Props) -> (r: Props)
        ensures
            forall|k: Seq<char>| #[trigger] prop_get(r@, k) == applied_get(self@, source@, k),
    {
        let ghost sv = source@;
        let ghost cv = strs(self.cleared@);
        let mut out = source;
        let mut i: usize = 0;
        while i < self.cleared.len()
            invariant
                i <= self.cleared@.len(),
                cv == strs(self.cleared@),
                forall|k: Seq<char>| #[trigger]
                    prop_get(out@, k) == if cv.subrange(0, i as int).contains(k) {
                        None
                    } else {
                        prop_get(sv, k)
                    },
            decreases self.cleared@.len() - i,
        {
            let ghost before = out@;
            out.remove(self.cleared[i].as_str());
            proof {
                assert(cv[i as int] == self.cleared@[i as int]@);
                assert forall|k: Seq<char>| #[trigger]
                    prop_get(out@, k) == if cv.subrange(0, i + 1).contains(k) {
                        None
                    } else {
                        prop_get(sv, k)
                    } by {
                    if cv.subrange(0, i + 1).contains(k) && k != cv[i as int] {
                        let m = choose|m: int| 0 <= m < i + 1 && #[trigger] cv.subrange(0, i + 1)[m] == k;
                        assert(cv.subrange(0, i as int)[m] == k);
                    }
                    if cv.subrange(0, i as int).contains(k) {
                        let m = choose|m: int| 0 <= m < i && #[trigger] cv.subrange(0, i as int)[m] == k;
                        assert(cv.subrange(0, i + 1)[m] == k);
                    }
                    if k == cv[i as int] {
                        assert(cv.subrange(0, i + 1)[i as int] == k);
                    }
                }
            }
            i = i + 1;
        }
        assert(cv.subrange(0, cv.len() as int) =~= cv);
        let entries = self.props.entries();
        let ghost pv = self.props@;
        let mut j: usize = 0;
        while j < entries.len()
            invariant
                j <= entries@.len(),
                entries@.len() == pv.len(),
                entries@.map_values(|e: (String, String)| (e.0@, e.1@)) == pv,
                pv == self@.props,
                cv == self@.cleared,
                sorted_keys(pv),
                forall|k: Seq<char>| #[trigger]
                    prop_get(out@, k) == if prop_has(pv.subrange(0, j as int), k) {
                        prop_get(pv, k)
                    } else if cv.contains(k) {
                        None
                    } else {
                        prop_get(sv, k)
                    },
            decreases entries@.len() - j,
        {
            let name = entries[j].0.as_str();
            let value = entries[j].1.as_str();
            assert(pv[j as int] == (name@, value@));
            proof {
                lemma_prop_get_at(pv, j as int);
            }
            out.insert(name.to_owned(), value.to_owned());
            proof {
                assert forall|k: Seq<char>| #[trigger]
                    prop_get(out@, k) == if prop_has(pv.subrange(0, j + 1), k) {
                        prop_get(pv, k)
                    } else if cv.contains(k) {
                        None
                    } else {
                        prop_get(sv, k)
                    } by {
                    let pre = pv.subrange(0, j as int);
                    let cur = pv.subrange(0, j + 1);
                    if prop_has(cur, k) && k != name@ {
                        let m = choose|m: int| 0 <= m < cur.len() && #[trigger] cur[m].0 == k;
                        assert(pre[m] == cur[m]);
                    }
                    if prop_has(pre, k) {
                        let m = choose|m: int| 0 <= m < pre.len() && #[trigger] pre[m].0 == k;
                        assert(pre[m] == cur[m]);
                    }
                    if k == name@ {
                        assert(cur[j as int].0 == k);
                    }
                }
            }
            j = j + 1;
        }
        proof {
            assert(pv.subrange(0, pv.len() as int) =~= pv);
        }
        out
    }
}

/// A patch that can be written, whose kind holds no `/` and whose cleared
/// names are distinct, non-empty, free of `,` and surrounding white space and
/// not also overridden, reads back from its overlay row unchanged.
pub proof fn law_overlay_roundtrip(p: PatchView, r: RecordView)
    requires
        patch_ok(p),
        !p.kind.contains('/'),
        sorted_keys(p.props),
        forall|i: int|
            0 <= i < p.cleared.len() ==> (#[trigger] p.cleared[i]).len() > 0 && !p.cleared[i].contains(',')
                && !is_white_space(p.cleared[i][0]) && !is_white_space(p.cleared[i].last()) && !prop_has(
                p.props,
                p.cleared[i],
            ),
        p.cleared.no_duplicates(),
        is_patch_record(p, r),
    ensures
        overlay_record_ok(r),
        overlay_view(r) == p,
{
    let key = r.key;
    let n = p.kind.len() as int;
    assert(is_sole_slash(key, n)) by {
        assert forall|k: int| 0 <= k < key.len() && k != n implies key[k] != '/' by {
            if k < n {
                assert(key[k] == p.kind[k]);
                assert(!p.kind.contains('/'));
            } else {
                assert(key[k] == p.key[k - n - 1]);
                assert(!p.key.contains('/'));
            }
        }
    }
    let x = choose|x: int| is_sole_slash(key, x) && 0 < x < key.len() - 1;
    if x != n {
        assert(key[n] == '/');
    }
    assert(key.subrange(0, n) =~= p.kind);
    assert(key.subrange(n + 1, key.len() as int) =~= p.key);
    assert(identity_parts(key) == Some((p.kind, p.key)));
    assert(prop_get(r.props, cleared_field()) == encoded_get(p, cleared_field()));
    assert(cleared_entries(r) == p.cleared) by {
        if p.cleared.len() > 0 {
            lemma_csv_join(p.cleared);
        } else {
            assert(p.cleared =~= Seq::<Seq<char>>::empty());
        }
    }
    lemma_without_name(r.props, cleared_field());
    let w = without_name(r.props, cleared_field());
    assert forall|k: Seq<char>| #[trigger] prop_get(w, k) == prop_get(p.props, k) by {
        assert(prop_get(r.props, k) == encoded_get(p, k));
    }
    lemma_props_ext(w, p.props);
    lemma_schema_kind();
}

impl OverlayPatch {
    /// Whether both patches describe the same identity, values, cleared
    /// names and Action id.
    pub fn same_patch(&self, other: &OverlayPatch) -> (r: bool)
        ensures
            r == (self@ == other@),
    {
        let r = str_eq(self.kind.as_str(), other.kind.as_str()) && str_eq(self.key.as_str(), other.key.as_str())
            && self.props.same(&other.props) && crate::strs::strings_equal(&self.cleared, &other.cleared)
            && crate::record::opt_str_equal(&self.action_id, &other.action_id);
        proof {
            if !r && self@ == other@ {
                assert(self@.kind == other@.kind);
            }
        }
        r
    }
}

impl PartialEq for OverlayPatch {
    fn eq(&self, other: &Self) -> (r: bool) {
        self.same_patch(other)
    }
}

impl PartialEqSpecImpl for OverlayPatch {
    open spec fn obeys_eq_spec() -> bool {
        true
    }

    open spec fn eq_spec(&self, other: &OverlayPatch) -> bool {
        self@ == other@
    }
}

} // verus!
