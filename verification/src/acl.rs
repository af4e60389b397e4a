//! Request view: denied `(kind, property)` pairs, and hidden kinds and
//! identities that the request treats as missing.

use vstd::prelude::*;

use crate::props::{key_lt, lemma_key_lt_irreflexive, lemma_key_lt_total, lemma_key_lt_transitive, prop_get, prop_has, Props};
use crate::text::{str_eq, str_less};

verus! {

broadcast use {vstd::seq_lib::group_seq_properties, vstd::set::group_set_axioms};

/// A property read refused by the request's deny list.
#[derive(Debug, Clone, PartialEq, Eq)]
pub enum AclError {
    Denied { kind: String, property: String },
}

/// Pairs of strings as characters.
pub open spec fn pairs_view(s: Seq<(String, String)>) -> Seq<(Seq<char>, Seq<char>)> {
    s.map_values(|t: (String, String)| (t.0@, t.1@))
}

/// `(kind, property)` order: by kind, then by property.
pub open spec fn pair_lt(a: (Seq<char>, Seq<char>), b: (Seq<char>, Seq<char>)) -> bool {
    key_lt(a.0, b.0) || (a.0 == b.0 && key_lt(a.1, b.1))
}

/// The deny list, hidden kinds and hidden identities of one request.
#[derive(Debug)]
pub struct PropertyAcl {
    denied: Vec<(String, String)>,
    hidden_kinds: Vec<String>,
    hidden_ids: Vec<(String, String)>,
}

impl PropertyAcl {
    /// Denied `(kind, property)` pairs, in the order they were added.
    pub closed spec fn denied_pairs(&self) -> Seq<(Seq<char>, Seq<char>)> {
        pairs_view(self.denied@)
    }

    /// Denied `(kind, property)` pairs.
    pub open spec fn denied_set(&self) -> Set<(Seq<char>, Seq<char>)> {
        self.denied_pairs().to_set()
    }

    /// Kinds whose objects are hidden.
    pub closed spec fn hidden_kind_set(&self) -> Set<Seq<char>> {
        self.hidden_kinds@.map_values(|s: String| s@).to_set()
    }

    /// Hidden `(kind, key)` identities.
    pub closed spec fn hidden_id_set(&self) -> Set<(Seq<char>, Seq<char>)> {
        pairs_view(self.hidden_ids@).to_set()
    }

    /// Whether `(kind, property)` may be read.
    pub open spec fn allows(&self, kind: Seq<char>, property: Seq<char>) -> bool {
        !self.denied_set().contains((kind, property))
    }

    /// Whether the object `(kind, key)` is visible to the request.
    pub open spec fn shows(&self, kind: Seq<char>, key: Seq<char>) -> bool {
        !self.hidden_kind_set().contains(kind) && !self.hidden_id_set().contains((kind, key))
    }

    /// Nothing denied, nothing hidden.
    pub fn allow_all() -> (acl: PropertyAcl)
        ensures
            acl.denied_set() == Set::<(Seq<char>, Seq<char>)>::empty(),
            acl.hidden_kind_set() == Set::<Seq<char>>::empty(),
            acl.hidden_id_set() == Set::<(Seq<char>, Seq<char>)>::empty(),
    {
        let acl = PropertyAcl { denied: Vec::new(), hidden_kinds: Vec::new(), hidden_ids: Vec::new() };
        assert(acl.denied_set() =~= Set::<(Seq<char>, Seq<char>)>::empty());
        assert(acl.hidden_kind_set() =~= Set::<Seq<char>>::empty());
        assert(acl.hidden_id_set() =~= Set::<(Seq<char>, Seq<char>)>::empty());
        acl
    }

    /// Deny one `(kind, property)` pair and nothing else.
    pub fn deny_property(kind: &str, property: &str) -> (acl: PropertyAcl)
        ensures
            acl.denied_set() == set![(kind@, property@)],
            acl.hidden_kind_set() == Set::<Seq<char>>::empty(),
            acl.hidden_id_set() == Set::<(Seq<char>, Seq<char>)>::empty(),
    {
        let mut acl = Self::allow_all();
        acl.insert_deny(kind, property);
        assert(acl.denied_set() =~= set![(kind@, property@)]);
        acl
    }

    /// Add `(kind, property)` to the deny list.
    pub fn insert_deny(&mut self, kind: &str, property: &str)
        ensures
            final(self).denied_set() == old(self).denied_set().insert((kind@, property@)),
            final(self).hidden_kind_set() == old(self).hidden_kind_set(),
            final(self).hidden_id_set() == old(self).hidden_id_set(),
    {
        let ghost before = pairs_view(self.denied@);
        self.denied.push((kind.to_owned(), property.to_owned()));
        proof {
            assert(pairs_view(self.denied@) =~= before.push((kind@, property@)));
            before.lemma_push_to_set_commute((kind@, property@));
        }
    }

    /// Hide every object of `kind`.
    pub fn insert_hide_kind(&mut self, kind: &str)
        ensures
            final(self).hidden_kind_set() == old(self).hidden_kind_set().insert(kind@),
            final(self).denied_set() == old(self).denied_set(),
            final(self).hidden_id_set() == old(self).hidden_id_set(),
    {
        let ghost before = self.hidden_kinds@.map_values(|s: String| s@);
        self.hidden_kinds.push(kind.to_owned());
        proof {
            assert(self.hidden_kinds@.map_values(|s: String| s@) =~= before.push(kind@));
            before.lemma_push_to_set_commute(kind@);
        }
    }

    /// Hide the object `(kind, key)`.
    pub fn insert_hide_identity(&mut self, kind: &str, key: &str)
        ensures
            final(self).hidden_id_set() == old(self).hidden_id_set().insert((kind@, key@)),
            final(self).denied_set() == old(self).denied_set(),
            final(self).hidden_kind_set() == old(self).hidden_kind_set(),
    {
        let ghost before = pairs_view(self.hidden_ids@);
        self.hidden_ids.push((kind.to_owned(), key.to_owned()));
        proof {
            assert(pairs_view(self.hidden_ids@) =~= before.push((kind@, key@)));
            before.lemma_push_to_set_commute((kind@, key@));
        }
    }

    fn pairs_contain(pairs: &Vec<(String, String)>, a: &str, b: &str) -> (r: bool)
        ensures
            r == pairs_view(pairs@).to_set().contains((a@, b@)),
    {
        let mut i: usize = 0;
        while i < pairs.len()
            invariant
                i <= pairs@.len(),
                forall|j: int| 0 <= j < i ==> (#[trigger] pairs_view(pairs@)[j]) != (a@, b@),
            decreases pairs@.len() - i,
        {
            let (x, y) = &pairs[i];
            if str_eq(x.as_str(), a) && str_eq(y.as_str(), b) {
                assert(pairs_view(pairs@)[i as int] == (a@, b@));
                return true;
            }
            assert(pairs_view(pairs@)[i as int] == (x@, y@));
            i = i + 1;
        }
        false
    }

    /// Fail closed when `(kind, property)` is denied.
    pub fn check(&self, kind: &str, property: &str) -> (r: Result<(), AclError>)
        ensures
            match r {
                Ok(()) => self.allows(kind@, property@),
                Err(AclError::Denied { kind: k, property: p }) => !self.allows(kind@, property@)
                    && k@ == kind@ && p@ == property@,
            },
    {
        if Self::pairs_contain(&self.denied, kind, property) {
            return Err(AclError::Denied { kind: kind.to_owned(), property: property.to_owned() });
        }
        Ok(())
    }

    /// Whether the request hides any object.
    pub fn hides_objects(&self) -> (b: bool)
        ensures
            b == !(self.hidden_kind_set() == Set::<Seq<char>>::empty()
                && self.hidden_id_set() == Set::<(Seq<char>, Seq<char>)>::empty()),
    {
        let b = self.hidden_kinds.len() > 0 || self.hidden_ids.len() > 0;
        proof {
            let ks = self.hidden_kinds@.map_values(|s: String| s@);
            if self.hidden_kinds@.len() > 0 {
                assert(ks[0] == self.hidden_kinds@[0]@);
                assert(ks.contains(ks[0]));
                assert(self.hidden_kind_set().contains(self.hidden_kinds@[0]@));
            } else {
                assert(self.hidden_kind_set() =~= Set::<Seq<char>>::empty());
            }
            if self.hidden_ids@.len() > 0 {
                assert(self.hidden_id_set().contains(pairs_view(self.hidden_ids@)[0]));
            } else {
                assert(self.hidden_id_set() =~= Set::<(Seq<char>, Seq<char>)>::empty());
            }
        }
        b
    }

    /// Whether the object `(kind, key)` is visible to the request.
    pub fn object_visible(&self, kind: &str, key: &str) -> (b: bool)
        ensures
            b == self.shows(kind@, key@),
    {
        let mut i: usize = 0;
        while i < self.hidden_kinds.len()
            invariant
                i <= self.hidden_kinds@.len(),
                forall|j: int| 0 <= j < i ==> self.hidden_kinds@[j]@ != kind@,
            decreases self.hidden_kinds@.len() - i,
        {
            if str_eq(self.hidden_kinds[i].as_str(), kind) {
                assert(self.hidden_kinds@.map_values(|s: String| s@)[i as int] == kind@);
                return false;
            }
            i = i + 1;
        }
        proof {
            let ks = self.hidden_kinds@.map_values(|s: String| s@);
            if self.hidden_kind_set().contains(kind@) {
                let k = choose|k: int| 0 <= k < ks.len() && #[trigger] ks[k] == kind@;
                assert(self.hidden_kinds@[k]@ == kind@);
            }
        }
        !Self::pairs_contain(&self.hidden_ids, kind, key)
    }

    /// The denied pairs, each once, ordered by kind then property.
    pub fn denied_sorted(&self) -> (r: Vec<(String, String)>)
        ensures
            pairs_view(r@).to_set() == self.denied_set(),
            forall|i: int, j: int| 0 <= i < j < r@.len() ==> pair_lt(#[trigger] pairs_view(r@)[i], #[trigger] pairs_view(r@)[j]),
    {
        let mut out: Vec<(String, String)> = Vec::new();
        let mut i: usize = 0;
        while i < self.denied.len()
            invariant
                i <= self.denied@.len(),
                pairs_view(out@).to_set() == pairs_view(self.denied@.subrange(0, i as int)).to_set(),
                forall|a: int, b: int| 0 <= a < b < out@.len() ==> pair_lt(#[trigger] pairs_view(out@)[a], #[trigger] pairs_view(out@)[b]),
            decreases self.denied@.len() - i,
        {
            let (k, p) = &self.denied[i];
            let ghost e = (k@, p@);
            let ghost old_out = pairs_view(out@);
            assert(pairs_view(self.denied@.subrange(0, i + 1)) =~= pairs_view(self.denied@.subrange(0, i as int)).push(e));
            proof {
                pairs_view(self.denied@.subrange(0, i as int)).lemma_push_to_set_commute(e);
            }
            let mut q: usize = 0;
            while q < out.len() && (str_less(out[q].0.as_str(), k.as_str()) || (str_eq(out[q].0.as_str(), k.as_str()) && str_less(out[q].1.as_str(), p.as_str())))
                invariant
                    q <= out@.len(),
                    e == (k@, p@),
                    pairs_view(out@) == old_out,
                    forall|x: int| 0 <= x < q ==> pair_lt(#[trigger] old_out[x], e),
                decreases out@.len() - q,
            {
                assert(old_out[q as int] == (out@[q as int].0@, out@[q as int].1@));
                q = q + 1;
            }
            if q < out.len() && str_eq(out[q].0.as_str(), k.as_str()) && str_eq(out[q].1.as_str(), p.as_str()) {
                proof {
                    assert(old_out[q as int] == e);
                    assert(old_out.to_set().contains(e));
                    assert(old_out.to_set().insert(e) =~= old_out.to_set());
                }
            } else {
                proof {
                    if q < old_out.len() {
                        assert(old_out[q as int] == (out@[q as int].0@, out@[q as int].1@));
                        lemma_key_lt_total(old_out[q as int].0, e.0);
                        lemma_key_lt_total(old_out[q as int].1, e.1);
                        assert(pair_lt(e, old_out[q as int]));
                    }
                }
                out.insert(q, (k.clone(), p.clone()));
                proof {
                    let nv = pairs_view(out@);
                    assert(nv =~= old_out.insert(q as int, e));
                    assert forall|a: int, b: int| 0 <= a < b < nv.len() implies pair_lt(#[trigger] nv[a], #[trigger] nv[b]) by {
                        if a < q && b < q {
                            assert(pair_lt(old_out[a], old_out[b]));
                        } else if a < q && b == q {
                        } else if a < q && b > q {
                            assert(pair_lt(old_out[a], old_out[b - 1]));
                        } else if a == q && b > q {
                            if b - 1 > q {
                                assert(pair_lt(old_out[q as int], old_out[b - 1]));
                                lemma_pair_lt_transitive(e, old_out[q as int], old_out[b - 1]);
                            }
                        } else {
                            assert(pair_lt(old_out[a - 1], old_out[b - 1]));
                        }
                    }
                    assert(nv.to_set() =~= old_out.to_set().insert(e)) by {
                        assert forall|x: (Seq<char>, Seq<char>)| nv.to_set().contains(x) <==> old_out.to_set().insert(e).contains(x) by {
                            if nv.to_set().contains(x) {
                                let k2 = choose|k2: int| 0 <= k2 < nv.len() && nv[k2] == x;
                                if k2 < q {
                                    assert(old_out[k2] == x);
                                } else if k2 > q {
                                    assert(old_out[k2 - 1] == x);
                                }
                            }
                            if old_out.to_set().contains(x) {
                                let k2 = choose|k2: int| 0 <= k2 < old_out.len() && old_out[k2] == x;
                                if k2 < q {
                                    assert(nv[k2] == x);
                                } else {
                                    assert(nv[k2 + 1] == x);
                                }
                            }
                            if x == e {
                                assert(nv[q as int] == x);
                            }
                        }
                    }
                }
            }
            i = i + 1;
        }
        assert(self.denied@.subrange(0, self.denied@.len() as int) =~= self.denied@);
        out
    }

    /// The denied pairs as `(kind id, property id)` in the intern table, each
    /// once; a pair whose kind or property is not interned cannot appear on a
    /// row and is left out.
    pub fn interned_denies(&self, intern: &[String]) -> (r: Vec<(u32, u32)>)
        requires
            intern@.len() <= u32::MAX,
        ensures
            r@.no_duplicates(),
            r@.to_set() == interned_set(intern@, self.denied_pairs()),
    {
        let mut out: Vec<(u32, u32)> = Vec::new();
        let mut i: usize = 0;
        let ghost dv = pairs_view(self.denied@);
        while i < self.denied.len()
            invariant
                i <= self.denied@.len(),
                dv == pairs_view(self.denied@),
                intern@.len() <= u32::MAX,
                out@.no_duplicates(),
                out@.to_set() == interned_set(intern@, dv.subrange(0, i as int)),
            decreases self.denied@.len() - i,
        {
            let (k, p) = &self.denied[i];
            proof {
                assert(dv[i as int] == (k@, p@));
                assert(dv.subrange(0, i + 1).drop_last() =~= dv.subrange(0, i as int));
                assert(dv.subrange(0, i + 1).last() == (k@, p@));
            }
            let kid = intern_index(intern, k.as_str());
            let pid = intern_index(intern, p.as_str());
            let ghost old_out = out@;
            match (kid, pid) {
                (Some(a), Some(b)) => {
                    if !contains_pair(out.as_slice(), a, b) {
                        out.push((a, b));
                        proof {
                            old_out.lemma_push_to_set_commute((a, b));
                            assert forall|a2: int, b2: int| 0 <= a2 < b2 < out@.len() implies out@[a2] != out@[b2] by {
                                if b2 == out@.len() - 1 {
                                    assert(old_out.contains(out@[a2]));
                                } else {
                                    assert(out@[a2] == old_out[a2] && out@[b2] == old_out[b2]);
                                }
                            }
                        }
                    } else {
                        proof {
                            assert(old_out.to_set().insert((a, b)) =~= old_out.to_set());
                        }
                    }
                },
                _ => {},
            }
            i = i + 1;
        }
        assert(dv.subrange(0, dv.len() as int) =~= dv);
        out
    }

    /// Materialize interned `(property id, value id)` pairs of one row of
    /// `kind_id`, keeping only pairs whose `(kind_id, property id)` is not in
    /// `denied` and whose ids name interned strings.
    pub fn omit_owned(intern: &[String], kind_id: u32, owned: &[(u32, u32)], denied: &[(u32, u32)]) -> (p: Props)
        ensures
            forall|name: Seq<char>| #[trigger] prop_get(p@, name) == kept_value(intern@, kind_id, owned@, denied@, name),
    {
        let mut props = Props::new();
        let mut i: usize = 0;
        while i < owned.len()
            invariant
                i <= owned@.len(),
                forall|name: Seq<char>| #[trigger] prop_get(props@, name) == kept_value(intern@, kind_id, owned@.subrange(0, i as int), denied@, name),
            decreases owned@.len() - i,
        {
            let (prop_id, value_id) = owned[i];
            proof {
                assert(owned@.subrange(0, i + 1).drop_last() =~= owned@.subrange(0, i as int));
                assert(owned@.subrange(0, i + 1).last() == (prop_id, value_id));
            }
            if !contains_pair(denied, kind_id, prop_id) && (prop_id as usize) < intern.len() && (value_id as usize) < intern.len() {
                props.insert(intern[prop_id as usize].clone(), intern[value_id as usize].clone());
            }
            i = i + 1;
        }
        assert(owned@.subrange(0, owned@.len() as int) =~= owned@);
        props
    }

    /// `props` without the properties denied on `kind`. Kept values are the
    /// stored ones, not substitutes.
    pub fn omit_denied(&self, kind: &str, props: Props) -> (r: Props)
        ensures
            forall|name: Seq<char>| #[trigger] prop_get(r@, name) == if self.allows(kind@, name) {
                prop_get(props@, name)
            } else {
                None
            },
    {
        let mut props = props;
        let mut i: usize = 0;
        let ghost given = props@;
        while i < self.denied.len()
            invariant
                i <= self.denied@.len(),
                forall|name: Seq<char>| #[trigger] prop_get(props@, name) == if denied_among(pairs_view(self.denied@.subrange(0, i as int)), kind@, name) {
                    None
                } else {
                    prop_get(given, name)
                },
            decreases self.denied@.len() - i,
        {
            let (k, p) = &self.denied[i];
            proof {
                assert(pairs_view(self.denied@.subrange(0, i + 1)) =~= pairs_view(self.denied@.subrange(0, i as int)).push((k@, p@)));
            }
            let ghost s0 = pairs_view(self.denied@.subrange(0, i as int));
            let ghost s1 = pairs_view(self.denied@.subrange(0, i + 1));
            proof {
                lemma_denied_among_push(s0, (k@, p@), kind@);
            }
            if str_eq(k.as_str(), kind) {
                props.remove(p.as_str());
            }
            i = i + 1;
        }
        proof {
            assert(self.denied@.subrange(0, self.denied@.len() as int) =~= self.denied@);
            assert forall|name: Seq<char>| denied_among(pairs_view(self.denied@), kind@, name) == !self.allows(kind@, name) by {
                let s = pairs_view(self.denied@);
                if s.to_set().contains((kind@, name)) {
                    let j = choose|j: int| 0 <= j < s.len() && s[j] == (kind@, name);
                }
            }
        }
        props
    }
}

/// The interned ids of the pairs whose kind and property are both interned.
pub open spec fn interned_set(intern: Seq<String>, pairs: Seq<(Seq<char>, Seq<char>)>) -> Set<(u32, u32)>
    decreases pairs.len(),
{
    if pairs.len() == 0 {
        Set::empty()
    } else {
        let prev = interned_set(intern, pairs.drop_last());
        match interned_pair(intern, pairs.last()) {
            Some(x) => prev.insert(x),
            None => prev,
        }
    }
}

/// The first index of `s` in the intern table.
pub open spec fn intern_id(intern: Seq<String>, s: Seq<char>) -> Option<u32> {
    if exists|i: int| 0 <= i < intern.len() && intern[i]@ == s {
        Some((choose|i: int| 0 <= i < intern.len() && intern[i]@ == s && forall|k: int| 0 <= k < i ==> intern[k]@ != s) as u32)
    } else {
        None
    }
}

/// A `(kind, property)` pair as intern ids, when both are interned.
pub open spec fn interned_pair(intern: Seq<String>, pair: (Seq<char>, Seq<char>)) -> Option<(u32, u32)> {
    match (intern_id(intern, pair.0), intern_id(intern, pair.1)) {
        (Some(a), Some(b)) => Some((a, b)),
        _ => None,
    }
}

/// The first index of `s` in the intern table.
pub fn intern_index(intern: &[String], s: &str) -> (r: Option<u32>)
    requires
        intern@.len() <= u32::MAX,
    ensures
        r == intern_id(intern@, s@),
{
    let mut i: usize = 0;
    while i < intern.len()
        invariant
            i <= intern@.len(),
            intern@.len() <= u32::MAX,
            forall|k: int| 0 <= k < i ==> intern@[k]@ != s@,
        decreases intern@.len() - i,
    {
        if str_eq(intern[i].as_str(), s) {
            proof {
                let c = choose|c: int| 0 <= c < intern@.len() && intern@[c]@ == s@ && forall|k: int| 0 <= k < c ==> intern@[k]@ != s@;
                if c < i {
                } else if c > i {
                }
                assert(c == i);
            }
            return Some(i as u32);
        }
        i = i + 1;
    }
    None
}

/// Whether `(kind, name)` is one of the pairs.
pub open spec fn denied_among(s: Seq<(Seq<char>, Seq<char>)>, kind: Seq<char>, name: Seq<char>) -> bool {
    exists|j: int| 0 <= j < s.len() && s[j] == (kind, name)
}

/// The value [`PropertyAcl::omit_owned`] keeps under `name`: the last kept
/// pair whose property id names `name`.
pub open spec fn kept_value(intern: Seq<String>, kind_id: u32, owned: Seq<(u32, u32)>, denied: Seq<(u32, u32)>, name: Seq<char>) -> Option<Seq<char>>
    decreases owned.len(),
{
    if owned.len() == 0 {
        None
    } else {
        let (p, v) = owned.last();
        if !denied.contains((kind_id, p)) && p < intern.len() && v < intern.len() && intern[p as int]@ == name {
            Some(intern[v as int]@)
        } else {
            kept_value(intern, kind_id, owned.drop_last(), denied, name)
        }
    }
}

proof fn lemma_denied_among_push(s: Seq<(Seq<char>, Seq<char>)>, x: (Seq<char>, Seq<char>), kind: Seq<char>)
    ensures
        forall|name: Seq<char>| #[trigger] denied_among(s.push(x), kind, name) == (denied_among(s, kind, name) || x == (kind, name)),
{
    assert forall|name: Seq<char>| #[trigger] denied_among(s.push(x), kind, name) == (denied_among(s, kind, name) || x == (kind, name)) by {
        if denied_among(s.push(x), kind, name) {
            let j = choose|j: int| 0 <= j < s.push(x).len() && s.push(x)[j] == (kind, name);
            if j < s.len() {
                assert(s[j] == s.push(x)[j]);
            }
        }
        if denied_among(s, kind, name) {
            let j = choose|j: int| 0 <= j < s.len() && s[j] == (kind, name);
            assert(s.push(x)[j] == s[j]);
        }
        if x == (kind, name) {
            assert(s.push(x)[s.len() as int] == x);
        }
    }
}

proof fn lemma_pair_lt_transitive(a: (Seq<char>, Seq<char>), b: (Seq<char>, Seq<char>), c: (Seq<char>, Seq<char>))
    requires
        pair_lt(a, b),
        pair_lt(b, c),
    ensures
        pair_lt(a, c),
{
    if key_lt(a.0, b.0) && key_lt(b.0, c.0) {
        lemma_key_lt_transitive(a.0, b.0, c.0);
    } else if key_lt(a.0, b.0) {
    } else if key_lt(b.0, c.0) {
    } else {
        lemma_key_lt_transitive(a.1, b.1, c.1);
    }
}

/// Pairs in strictly increasing `(kind, property)` order.
pub open spec fn pairs_sorted(s: Seq<(Seq<char>, Seq<char>)>) -> bool {
    forall|i: int, j: int| 0 <= i < j < s.len() ==> pair_lt(#[trigger] s[i], #[trigger] s[j])
}

/// The denied pairs of `acl` in `(kind, property)` order.
pub open spec fn denied_order(acl: PropertyAcl) -> Seq<(Seq<char>, Seq<char>)> {
    choose|s: Seq<(Seq<char>, Seq<char>)>| pairs_sorted(s) && s.to_set() == acl.denied_set()
}

proof fn lemma_pair_lt_irreflexive(a: (Seq<char>, Seq<char>))
    ensures
        !pair_lt(a, a),
{
    lemma_key_lt_irreflexive(a.0);
    lemma_key_lt_irreflexive(a.1);
}

/// Two strictly ordered pair lists with the same elements are equal.
pub proof fn lemma_pairs_sorted_unique(a: Seq<(Seq<char>, Seq<char>)>, b: Seq<(Seq<char>, Seq<char>)>)
    requires
        pairs_sorted(a),
        pairs_sorted(b),
        a.to_set() == b.to_set(),
    ensures
        a == b,
    decreases a.len(),
{
    if a.len() == 0 {
        if b.len() > 0 {
            assert(b.to_set().contains(b[0]));
        }
        assert(a =~= b);
    } else {
        if b.len() == 0 {
            assert(a.to_set().contains(a[0]));
        }
        assert(a.to_set().contains(a[0]));
        assert(b.to_set().contains(b[0]));
        let j = choose|j: int| 0 <= j < b.len() && b[j] == a[0];
        let i = choose|i: int| 0 <= i < a.len() && a[i] == b[0];
        if i > 0 && j > 0 {
            assert(pair_lt(a[0], a[i]));
            assert(pair_lt(b[0], b[j]));
            lemma_pair_lt_transitive(a[0], b[0], a[0]);
            lemma_pair_lt_irreflexive(a[0]);
        } else if i > 0 {
            assert(pair_lt(a[0], a[i]));
            lemma_pair_lt_irreflexive(a[0]);
        } else if j > 0 {
            assert(pair_lt(b[0], b[j]));
            lemma_pair_lt_irreflexive(b[0]);
        }
        let a1 = a.drop_first();
        let b1 = b.drop_first();
        assert forall|x: (Seq<char>, Seq<char>)| a1.to_set().contains(x) <==> b1.to_set().contains(x) by {
            if a1.to_set().contains(x) {
                let k = choose|k: int| 0 <= k < a1.len() && a1[k] == x;
                assert(pair_lt(a[0], a[k + 1]));
                lemma_pair_lt_irreflexive(a[0]);
                assert(a.to_set().contains(x));
                let m = choose|m: int| 0 <= m < b.len() && b[m] == x;
                assert(m != 0);
                assert(b1[m - 1] == x);
            }
            if b1.to_set().contains(x) {
                let k = choose|k: int| 0 <= k < b1.len() && b1[k] == x;
                assert(pair_lt(b[0], b[k + 1]));
                lemma_pair_lt_irreflexive(b[0]);
                assert(b.to_set().contains(x));
                let m = choose|m: int| 0 <= m < a.len() && a[m] == x;
                assert(m != 0);
                assert(a1[m - 1] == x);
            }
        }
        assert(a1.to_set() =~= b1.to_set());
        assert(pairs_sorted(a1)) by {
            assert forall|p: int, q: int| 0 <= p < q < a1.len() implies pair_lt(#[trigger] a1[p], #[trigger] a1[q]) by {
                assert(a1[p] == a[p + 1] && a1[q] == a[q + 1]);
            }
        }
        assert(pairs_sorted(b1)) by {
            assert forall|p: int, q: int| 0 <= p < q < b1.len() implies pair_lt(#[trigger] b1[p], #[trigger] b1[q]) by {
                assert(b1[p] == b[p + 1] && b1[q] == b[q + 1]);
            }
        }
        lemma_pairs_sorted_unique(a1, b1);
        assert(a =~= b) by {
            assert forall|k: int| 0 <= k < a.len() implies a[k] == b[k] by {
                if k > 0 {
                    assert(a1[k - 1] == b1[k - 1]);
                }
            }
        }
    }
}

impl PropertyAcl {
    /// The denied pairs, each once, in `(kind, property)` order.
    pub fn denied_in_order(&self) -> (r: Vec<(String, String)>)
        ensures
            pairs_view(r@) == denied_order(*self),
    {
        let r = self.denied_sorted();
        proof {
            let s = pairs_view(r@);
            assert(pairs_sorted(s));
            let c = denied_order(*self);
            assert(pairs_sorted(c) && c.to_set() == self.denied_set());
            lemma_pairs_sorted_unique(c, s);
        }
        r
    }
}

/// Whether `(a, b)` is in `pairs`.
pub fn contains_pair(pairs: &[(u32, u32)], a: u32, b: u32) -> (r: bool)
    ensures
        r == pairs@.contains((a, b)),
{
    let mut i: usize = 0;
    while i < pairs.len()
        invariant
            i <= pairs@.len(),
            forall|j: int| 0 <= j < i ==> pairs@[j] != (a, b),
        decreases pairs@.len() - i,
    {
        if pairs[i].0 == a && pairs[i].1 == b {
            assert(pairs@[i as int] == (a, b));
            return true;
        }
        i = i + 1;
    }
    false
}

} // verus!
