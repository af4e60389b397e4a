//! Property map of an object: named string values kept in byte order of
//! their names, so that equal maps have equal encodings.

use vstd::prelude::*;
use vstd::utf8::*;

use crate::text::{bytes_lt, lemma_bytes_lt_asymmetric, lemma_bytes_lt_irreflexive, lemma_bytes_lt_total, lemma_bytes_lt_transitive, str_eq, str_less};

verus! {

broadcast use {encode_utf8_decode_utf8, encode_utf8_valid_utf8};

/// Order of property names: `str`'s order on their UTF-8 bytes.
pub open spec fn key_lt(a: Seq<char>, b: Seq<char>) -> bool {
    bytes_lt(encode_utf8(a), encode_utf8(b))
}

/// Entries whose names strictly increase.
pub open spec fn sorted_keys(s: Seq<(Seq<char>, Seq<char>)>) -> bool {
    forall|i: int, j: int| 0 <= i < j < s.len() ==> key_lt(#[trigger] s[i].0, #[trigger] s[j].0)
}

/// Whether some entry is named `k`.
pub open spec fn prop_has(s: Seq<(Seq<char>, Seq<char>)>, k: Seq<char>) -> bool {
    exists|i: int| 0 <= i < s.len() && #[trigger] s[i].0 == k
}

/// An index of an entry named `k`, when there is one.
pub open spec fn prop_index(s: Seq<(Seq<char>, Seq<char>)>, k: Seq<char>) -> int {
    choose|i: int| 0 <= i < s.len() && #[trigger] s[i].0 == k
}

/// The value of the entry named `k`, if any.
pub open spec fn prop_get(s: Seq<(Seq<char>, Seq<char>)>, k: Seq<char>) -> Option<Seq<char>> {
    if prop_has(s, k) {
        Some(s[prop_index(s, k)].1)
    } else {
        None
    }
}

/// The names of the entries, in order.
pub open spec fn prop_names(s: Seq<(Seq<char>, Seq<char>)>) -> Seq<Seq<char>> {
    s.map_values(|e: (Seq<char>, Seq<char>)| e.0)
}

pub proof fn lemma_key_lt_irreflexive(a: Seq<char>)
    ensures
        !key_lt(a, a),
{
    lemma_bytes_lt_irreflexive(encode_utf8(a));
}

pub proof fn lemma_key_lt_transitive(a: Seq<char>, b: Seq<char>, c: Seq<char>)
    requires
        key_lt(a, b),
        key_lt(b, c),
    ensures
        key_lt(a, c),
{
    lemma_bytes_lt_transitive(encode_utf8(a), encode_utf8(b), encode_utf8(c));
}

pub proof fn lemma_key_lt_total(a: Seq<char>, b: Seq<char>)
    ensures
        a == b || key_lt(a, b) || key_lt(b, a),
{
    lemma_bytes_lt_total(encode_utf8(a), encode_utf8(b));
    if encode_utf8(a) == encode_utf8(b) {
        assert(decode_utf8(encode_utf8(a)) == a);
        assert(decode_utf8(encode_utf8(b)) == b);
    }
}

pub proof fn lemma_key_lt_asymmetric(a: Seq<char>, b: Seq<char>)
    requires
        key_lt(a, b),
    ensures
        !key_lt(b, a),
        a != b,
{
    lemma_bytes_lt_asymmetric(encode_utf8(a), encode_utf8(b));
    lemma_bytes_lt_irreflexive(encode_utf8(a));
}

/// In entries with increasing names, the entry named `k` is the one at `i`.
pub proof fn lemma_prop_get_at(s: Seq<(Seq<char>, Seq<char>)>, n: int)
    requires
        sorted_keys(s),
        0 <= n < s.len(),
    ensures
        prop_get(s, s[n].0) == Some(s[n].1),
{
    let k = s[n].0;
    assert(prop_has(s, k));
    let j = prop_index(s, k);
    if j < n {
        assert(key_lt(s[j].0, s[n].0));
        lemma_key_lt_irreflexive(k);
    } else if n < j {
        assert(key_lt(s[n].0, s[j].0));
        lemma_key_lt_irreflexive(k);
    }
    assert(j == n);
}

/// Looking a name up after appending an entry with the greatest name.
pub proof fn lemma_prop_get_push(s: Seq<(Seq<char>, Seq<char>)>, e: (Seq<char>, Seq<char>), k: Seq<char>)
    requires
        sorted_keys(s.push(e)),
    ensures
        prop_get(s.push(e), k) == if e.0 == k {
            Some(e.1)
        } else {
            prop_get(s, k)
        },
{
    let t = s.push(e);
    assert(t[s.len() as int] == e);
    if e.0 == k {
        lemma_prop_get_at(t, s.len() as int);
    } else {
        assert(sorted_keys(s)) by {
            assert forall|i: int, j: int| 0 <= i < j < s.len() implies key_lt(#[trigger] s[i].0, #[trigger] s[j].0) by {
                assert(t[i] == s[i] && t[j] == s[j]);
            }
        }
        if prop_has(s, k) {
            let i = choose|i: int| 0 <= i < s.len() && #[trigger] s[i].0 == k;
            lemma_prop_get_at(s, i);
            assert(t[i] == s[i]);
            lemma_prop_get_at(t, i);
        } else {
            if prop_has(t, k) {
                let j = choose|j: int| 0 <= j < t.len() && #[trigger] t[j].0 == k;
                if j < s.len() {
                    assert(s[j] == t[j]);
                }
            }
        }
    }
}

/// Appending an entry named above every present name keeps the order and
/// adds exactly that entry.
pub proof fn lemma_push_field(q: Seq<(Seq<char>, Seq<char>)>, e: (Seq<char>, Seq<char>))
    requires
        sorted_keys(q),
        forall|k: Seq<char>| (#[trigger] prop_get(q, k)) is Some ==> key_lt(k, e.0),
    ensures
        sorted_keys(q.push(e)),
        forall|k: Seq<char>|
            #[trigger] prop_get(q.push(e), k) == if e.0 == k {
                Some(e.1)
            } else {
                prop_get(q, k)
            },
{
    let t = q.push(e);
    assert forall|i: int, j: int| 0 <= i < j < t.len() implies key_lt(#[trigger] t[i].0, #[trigger] t[j].0) by {
        if j < q.len() {
            assert(t[i] == q[i] && t[j] == q[j]);
        } else {
            assert(t[i] == q[i]);
            lemma_prop_get_at(q, i);
            assert(prop_get(q, q[i].0) is Some);
        }
    }
    assert forall|k: Seq<char>|
        #[trigger] prop_get(q.push(e), k) == if e.0 == k {
            Some(e.1)
        } else {
            prop_get(q, k)
        } by {
        lemma_prop_get_push(q, e, k);
    }
}

/// Two name-ordered entry lists that agree on every name are equal.
pub proof fn lemma_props_ext(a: Seq<(Seq<char>, Seq<char>)>, b: Seq<(Seq<char>, Seq<char>)>)
    requires
        sorted_keys(a),
        sorted_keys(b),
        forall|k: Seq<char>| #[trigger] prop_get(a, k) == prop_get(b, k),
    ensures
        a == b,
{
    let na = prop_names(a);
    let nb = prop_names(b);
    assert(crate::strs::sorted_strs(na)) by {
        assert forall|i: int, j: int| 0 <= i < j < na.len() implies key_lt(#[trigger] na[i], #[trigger] na[j]) by {
            assert(key_lt(a[i].0, a[j].0));
        }
    }
    assert(crate::strs::sorted_strs(nb)) by {
        assert forall|i: int, j: int| 0 <= i < j < nb.len() implies key_lt(#[trigger] nb[i], #[trigger] nb[j]) by {
            assert(key_lt(b[i].0, b[j].0));
        }
    }
    assert(na.to_set() =~= nb.to_set()) by {
        assert forall|x: Seq<char>| na.to_set().contains(x) <==> nb.to_set().contains(x) by {
            if na.to_set().contains(x) {
                let i = choose|i: int| 0 <= i < na.len() && na[i] == x;
                lemma_prop_get_at(a, i);
                assert(prop_get(b, x) is Some);
                let j = choose|j: int| 0 <= j < b.len() && #[trigger] b[j].0 == x;
                assert(nb[j] == x);
            }
            if nb.to_set().contains(x) {
                let i = choose|i: int| 0 <= i < nb.len() && nb[i] == x;
                lemma_prop_get_at(b, i);
                assert(prop_get(a, x) is Some);
                let j = choose|j: int| 0 <= j < a.len() && #[trigger] a[j].0 == x;
                assert(na[j] == x);
            }
        }
    }
    crate::strs::lemma_sorted_strs_unique(na, nb);
    assert(a.len() == na.len() && b.len() == nb.len());
    assert forall|i: int| 0 <= i < a.len() implies a[i] == b[i] by {
        assert(na[i] == nb[i]);
        lemma_prop_get_at(a, i);
        lemma_prop_get_at(b, i);
    }
    assert(a =~= b);
}

/// Named string properties of one object.
#[derive(Debug)]
pub struct Props {
    entries: Vec<(String, String)>,
}

impl View for Props {
    type V = Seq<(Seq<char>, Seq<char>)>;

    closed spec fn view(&self) -> Seq<(Seq<char>, Seq<char>)> {
        self.entries@.map_values(|e: (String, String)| (e.0@, e.1@))
    }
}

impl Clone for Props {
    fn clone(&self) -> (r: Self)
        ensures
            r@ == self@,
    {
        proof {
            use_type_invariant(self);
        }
        let mut entries: Vec<(String, String)> = Vec::new();
        let mut i: usize = 0;
        while i < self.entries.len()
            invariant
                i <= self.entries@.len(),
                entries@.len() == i,
                forall|k: int| 0 <= k < i ==> (#[trigger] entries@[k]).0@ == self.entries@[k].0@
                    && entries@[k].1@ == self.entries@[k].1@,
            decreases self.entries@.len() - i,
        {
            let e = &self.entries[i];
            entries.push((e.0.clone(), e.1.clone()));
            i = i + 1;
        }
        assert(entries@.map_values(|e: (String, String)| (e.0@, e.1@)) =~= self@);
        Props { entries }
    }
}

impl Props {
    #[verifier::type_invariant]
    spec fn names_increase(self) -> bool {
        sorted_keys(self@)
    }

    /// Whether both hold the same named values.
    pub fn same(&self, other: &Props) -> (r: bool)
        ensures
            r == (self@ == other@),
    {
        let a = self.entries();
        let b = other.entries();
        if a.len() != b.len() {
            assert(self@.len() != other@.len());
            return false;
        }
        let mut i: usize = 0;
        while i < a.len()
            invariant
                i <= a@.len(),
                a@.len() == b@.len(),
                a@.map_values(|e: (String, String)| (e.0@, e.1@)) == self@,
                b@.map_values(|e: (String, String)| (e.0@, e.1@)) == other@,
                forall|k: int| 0 <= k < i ==> self@[k] == other@[k],
            decreases a@.len() - i,
        {
            assert(self@[i as int] == (a@[i as int].0@, a@[i as int].1@));
            assert(other@[i as int] == (b@[i as int].0@, b@[i as int].1@));
            if !str_eq(a[i].0.as_str(), b[i].0.as_str()) || !str_eq(a[i].1.as_str(), b[i].1.as_str()) {
                return false;
            }
            i = i + 1;
        }
        assert(self@ =~= other@);
        true
    }

    /// No properties.
    pub fn new() -> (p: Props)
        ensures
            p@ == Seq::<(Seq<char>, Seq<char>)>::empty(),
    {
        let p = Props { entries: Vec::new() };
        assert(p@ =~= Seq::<(Seq<char>, Seq<char>)>::empty());
        p
    }

    /// Number of properties.
    pub fn len(&self) -> (n: usize)
        ensures
            n == self@.len(),
    {
        self.entries.len()
    }

    pub fn is_empty(&self) -> (b: bool)
        ensures
            b == (self@.len() == 0),
    {
        self.entries.len() == 0
    }

    /// The entries in increasing name order.
    pub fn entries(&self) -> (r: &[(String, String)])
        ensures
            r@.map_values(|e: (String, String)| (e.0@, e.1@)) == self@,
            r@.len() == self@.len(),
            sorted_keys(self@),
    {
        proof {
            use_type_invariant(self);
        }
        self.entries.as_slice()
    }

    /// Index of the first entry whose name is not below `name`.
    fn position(&self, name: &str) -> (p: usize)
        ensures
            p <= self@.len(),
            forall|i: int| 0 <= i < p ==> key_lt(#[trigger] self@[i].0, name@),
            p < self@.len() ==> !key_lt(self@[p as int].0, name@),
            sorted_keys(self@),
    {
        proof {
            use_type_invariant(self);
        }
        let mut p: usize = 0;
        while p < self.entries.len()
            invariant
                p <= self@.len(),
                self@.len() == self.entries@.len(),
                forall|i: int| 0 <= i < p ==> key_lt(#[trigger] self@[i].0, name@),
                sorted_keys(self@),
            decreases self@.len() - p,
        {
            let entry = &self.entries[p];
            assert(self@[p as int].0 == entry.0@);
            if !str_less(entry.0.as_str(), name) {
                return p;
            }
            p = p + 1;
        }
        p
    }

    /// The value named `name`.
    pub fn get(&self, name: &str) -> (r: Option<&String>)
        ensures
            match r {
                Some(v) => prop_get(self@, name@) == Some(v@),
                None => prop_get(self@, name@) is None,
            },
    {
        let p = self.position(name);
        if p < self.entries.len() && str_eq(self.entries[p].0.as_str(), name) {
            proof {
                lemma_prop_get_at(self@, p as int);
            }
            Some(&self.entries[p].1)
        } else {
            proof {
                if prop_has(self@, name@) {
                    let j = choose|j: int| 0 <= j < self@.len() && #[trigger] self@[j].0 == name@;
                    if j < p {
                        lemma_key_lt_irreflexive(name@);
                    } else if j > p {
                        lemma_key_lt_total(self@[p as int].0, name@);
                        assert(key_lt(self@[p as int].0, self@[j].0));
                    }
                }
            }
            None
        }
    }

    /// Whether a value is named `name`.
    pub fn contains_key(&self, name: &str) -> (b: bool)
        ensures
            b == prop_has(self@, name@),
    {
        self.get(name).is_some()
    }

    /// Set `name` to `value`, replacing an earlier value of that name.
    pub fn insert(&mut self, name: String, value: String)
        ensures
            forall|k: Seq<char>|
                #[trigger] prop_get(final(self)@, k) == if k == name@ {
                    Some(value@)
                } else {
                    prop_get(old(self)@, k)
                },
            (forall|i: int| 0 <= i < old(self)@.len() ==> key_lt(#[trigger] old(self)@[i].0, name@))
                ==> final(self)@ == old(self)@.push((name@, value@)),
    {
        let p = self.position(name.as_str());
        let ghost old_view = self@;
        let mut entries: Vec<(String, String)> = Vec::new();
        std::mem::swap(&mut entries, &mut self.entries);
        assert(entries@.map_values(|e: (String, String)| (e.0@, e.1@)) == old_view);
        let replace = p < entries.len() && str_eq(entries[p].0.as_str(), name.as_str());
        let ghost new_view;
        if replace {
            entries.set(p, (name, value));
            proof {
                new_view = old_view.update(p as int, (name@, value@));
                assert(entries@.map_values(|e: (String, String)| (e.0@, e.1@)) =~= new_view);
                assert forall|i: int| 0 <= i < new_view.len() implies #[trigger] new_view[i].0
                    == old_view[i].0 by {}
                assert forall|i: int, j: int| 0 <= i < j < new_view.len() implies key_lt(
                    #[trigger] new_view[i].0,
                    #[trigger] new_view[j].0,
                ) by {
                    assert(key_lt(old_view[i].0, old_view[j].0));
                }
            }
        } else {
            entries.insert(p, (name, value));
            proof {
                new_view = old_view.insert(p as int, (name@, value@));
                assert(entries@.map_values(|e: (String, String)| (e.0@, e.1@)) =~= new_view);
                if p < old_view.len() {
                    lemma_key_lt_total(old_view[p as int].0, name@);
                }
                assert forall|i: int, j: int| 0 <= i < j < new_view.len() implies key_lt(
                    #[trigger] new_view[i].0,
                    #[trigger] new_view[j].0,
                ) by {
                    if i < p && j == p {
                    } else if i < p && j > p {
                    } else if i == p && j > p {
                        if j - 1 > p {
                            lemma_key_lt_transitive(name@, old_view[p as int].0, old_view[j - 1].0);
                        }
                    } else {
                    }
                }
            }
        }
        proof {
            assert forall|k: Seq<char>| #[trigger]
                prop_get(new_view, k) == if k == name@ {
                    Some(value@)
                } else {
                    prop_get(old_view, k)
                } by {
                lemma_prop_get_at(new_view, p as int);
                if k != name@ {
                    if prop_has(old_view, k) {
                        let j = choose|j: int| 0 <= j < old_view.len() && #[trigger] old_view[j].0 == k;
                        lemma_prop_get_at(old_view, j);
                        let jn = if replace || j < p { j } else { j + 1 };
                        assert(new_view[jn] == old_view[j]);
                        lemma_prop_get_at(new_view, jn);
                    }
                    if prop_has(new_view, k) {
                        let j = choose|j: int| 0 <= j < new_view.len() && #[trigger] new_view[j].0 == k;
                        let jo = if replace || j < p { j } else { j - 1 };
                        assert(old_view[jo] == new_view[j]);
                    }
                }
            }
            if forall|i: int| 0 <= i < old_view.len() ==> key_lt(#[trigger] old_view[i].0, name@) {
                if p < old_view.len() {
                    assert(key_lt(old_view[p as int].0, name@));
                }
                assert(p == old_view.len());
                if replace {
                    lemma_key_lt_irreflexive(name@);
                    assert(false);
                }
                assert(new_view =~= old_view.push((name@, value@)));
            }
        }
        self.entries = entries;
    }

    /// Drop the value named `name`; returns it when there was one.
    pub fn remove(&mut self, name: &str) -> (r: Option<String>)
        ensures
            forall|k: Seq<char>|
                #[trigger] prop_get(final(self)@, k) == if k == name@ {
                    None
                } else {
                    prop_get(old(self)@, k)
                },
            match r {
                Some(v) => prop_get(old(self)@, name@) == Some(v@),
                None => prop_get(old(self)@, name@) is None,
            },
            final(self)@.len() == old(self)@.len() - (if prop_has(old(self)@, name@) { 1int } else { 0 }),
    {
        let p = self.position(name);
        let ghost old_view = self@;
        if p < self.entries.len() && str_eq(self.entries[p].0.as_str(), name) {
            proof {
                lemma_prop_get_at(old_view, p as int);
            }
            let mut entries: Vec<(String, String)> = Vec::new();
            std::mem::swap(&mut entries, &mut self.entries);
            assert(entries@.map_values(|e: (String, String)| (e.0@, e.1@)) == old_view);
            let (_, value) = entries.remove(p);
            let ghost new_view = old_view.remove(p as int);
            proof {
                assert(entries@.map_values(|e: (String, String)| (e.0@, e.1@)) =~= new_view);
                assert forall|i: int, j: int| 0 <= i < j < new_view.len() implies key_lt(
                    #[trigger] new_view[i].0,
                    #[trigger] new_view[j].0,
                ) by {
                    let io = if i < p { i } else { i + 1 };
                    let jo = if j < p { j } else { j + 1 };
                    assert(new_view[i] == old_view[io]);
                    assert(new_view[j] == old_view[jo]);
                }
                assert forall|k: Seq<char>| #[trigger]
                    prop_get(new_view, k) == if k == name@ {
                        None
                    } else {
                        prop_get(old_view, k)
                    } by {
                    if prop_has(new_view, k) {
                        let j = choose|j: int| 0 <= j < new_view.len() && #[trigger] new_view[j].0 == k;
                        let jo = if j < p { j } else { j + 1 };
                        assert(old_view[jo] == new_view[j]);
                        lemma_prop_get_at(new_view, j);
                        lemma_prop_get_at(old_view, jo);
                        if k == name@ {
                            assert(jo != p);
                            if jo < p {
                                lemma_key_lt_irreflexive(k);
                            } else {
                                lemma_key_lt_irreflexive(k);
                            }
                        }
                    } else if k != name@ && prop_has(old_view, k) {
                        let j = choose|j: int| 0 <= j < old_view.len() && #[trigger] old_view[j].0 == k;
                        assert(j != p);
                        let jn = if j < p { j } else { j - 1 };
                        assert(new_view[jn] == old_view[j]);
                    }
                }
            }
            self.entries = entries;
            Some(value)
        } else {
            proof {
                if prop_has(old_view, name@) {
                    let j = choose|j: int| 0 <= j < old_view.len() && #[trigger] old_view[j].0 == name@;
                    if j < p {
                        lemma_key_lt_irreflexive(name@);
                    } else if j > p {
                        lemma_key_lt_total(old_view[p as int].0, name@);
                        assert(key_lt(old_view[p as int].0, old_view[j].0));
                    }
                }
            }
            None
        }
    }
}

} // verus!
