//! Rebuildable hop/join projection: the visible rows of every identity.
//! Hidden records are absent.

use vstd::prelude::*;
use vstd::utf8::*;

use crate::props::{prop_get, Props};
use crate::strs::{dedup_strings, sort_distinct, sorted_strs, strs};
use crate::text::{parse_i64, parse_i64_bytes, str_eq};

verus! {

broadcast use {encode_utf8_decode_utf8, encode_utf8_valid_utf8};

/// One visible identity and its properties.
pub struct RowView {
    pub kind: Seq<char>,
    pub key: Seq<char>,
    pub props: Seq<(Seq<char>, Seq<char>)>,
}

pub struct VisibleRow {
    kind: String,
    key: String,
    props: Props,
}

/// Rebuildable hop/join projection over the visible rows.
///
/// The rows are held in a vector, one per visible identity, and every lookup
/// scans it. A std hash map keyed by strings has no specification of its
/// contents that a proof can use, while a vector's contents are its view, so
/// each lookup, hop and count below is proved against the row sequence.
/// Interning keys as integers would make a map usable, at the price of an
/// intern table whose every use must be proved to agree with the strings;
/// the vector keeps the projection one step from its meaning.
pub struct JoinMaps {
    rows: Vec<VisibleRow>,
}

pub closed spec fn row_view(r: VisibleRow) -> RowView {
    RowView { kind: r.kind@, key: r.key@, props: r.props@ }
}

impl View for JoinMaps {
    type V = Seq<RowView>;

    closed spec fn view(&self) -> Seq<RowView> {
        self.rows@.map_values(|r: VisibleRow| row_view(r))
    }
}

/// Each identity has at most one row.
pub open spec fn identities_unique(v: Seq<RowView>) -> bool {
    forall|i: int, j: int|
        0 <= i < j < v.len() ==> !((#[trigger] v[i]).kind == (#[trigger] v[j]).kind && v[i].key
            == v[j].key)
}

/// Whether `(kind, key)` has a visible row.
pub open spec fn visible(v: Seq<RowView>, kind: Seq<char>, key: Seq<char>) -> bool {
    exists|i: int| 0 <= i < v.len() && (#[trigger] v[i]).kind == kind && v[i].key == key
}

/// The index of the row of `(kind, key)`, when it is visible.
pub open spec fn row_index(v: Seq<RowView>, kind: Seq<char>, key: Seq<char>) -> int {
    choose|i: int| 0 <= i < v.len() && (#[trigger] v[i]).kind == kind && v[i].key == key
}

/// The stored value of `property` on a visible `(kind, key)`.
pub open spec fn row_prop(v: Seq<RowView>, kind: Seq<char>, key: Seq<char>, property: Seq<char>) -> Option<
    Seq<char>,
> {
    if visible(v, kind, key) {
        prop_get(v[row_index(v, kind, key)].props, property)
    } else {
        None
    }
}

/// The rows with `(kind, key)` taken out.
pub open spec fn without(v: Seq<RowView>, kind: Seq<char>, key: Seq<char>) -> Seq<RowView> {
    if visible(v, kind, key) {
        v.remove(row_index(v, kind, key))
    } else {
        v
    }
}

/// Keys of the visible rows of `kind`, in row order.
pub open spec fn kind_keys(v: Seq<RowView>, kind: Seq<char>) -> Seq<Seq<char>>
    decreases v.len(),
{
    if v.len() == 0 {
        seq![]
    } else {
        let rest = kind_keys(v.drop_last(), kind);
        if v.last().kind == kind {
            rest.push(v.last().key)
        } else {
            rest
        }
    }
}

/// Keys of the visible rows of `kind` whose `property` is `value`, in row order.
pub open spec fn match_keys(v: Seq<RowView>, kind: Seq<char>, property: Seq<char>, value: Seq<char>) -> Seq<
    Seq<char>,
>
    decreases v.len(),
{
    if v.len() == 0 {
        seq![]
    } else {
        let rest = match_keys(v.drop_last(), kind, property, value);
        if v.last().kind == kind && prop_get(v.last().props, property) == Some(value) {
            rest.push(v.last().key)
        } else {
            rest
        }
    }
}

/// One hop from `parent` (a key of `frontier_kind`) to keys of `far_kind`.
/// Not incoming: the `far_kind` rows whose `join_property` is `parent`.
/// Incoming: the `join_property` of the parent row, when it names a visible
/// `far_kind` row.
pub open spec fn targets(
    v: Seq<RowView>,
    frontier_kind: Seq<char>,
    parent: Seq<char>,
    far_kind: Seq<char>,
    join_property: Seq<char>,
    incoming: bool,
) -> Seq<Seq<char>> {
    if incoming {
        match row_prop(v, frontier_kind, parent, join_property) {
            Some(val) => if visible(v, far_kind, val) {
                seq![val]
            } else {
                seq![]
            },
            None => seq![],
        }
    } else {
        match_keys(v, far_kind, join_property, parent)
    }
}

/// The value of `property` on `(kind, key)` as `i64`, when it parses.
pub open spec fn amount(v: Seq<RowView>, kind: Seq<char>, key: Seq<char>, property: Seq<char>) -> Option<
    i64,
> {
    match row_prop(v, kind, key, property) {
        Some(val) => parse_i64_bytes(encode_utf8(val)),
        None => None,
    }
}

/// A hop as the walk reads it: far kind, join property, incoming.
pub open spec fn hops_view(h: Seq<(&str, &str, bool)>) -> Seq<(Seq<char>, Seq<char>, bool)> {
    h.map_values(|t: (&str, &str, bool)| (t.0@, t.1@, t.2))
}

/// `(root, leaf)` paths as strings.
pub open spec fn paths_view(p: Seq<(String, String)>) -> Seq<(Seq<char>, Seq<char>)> {
    p.map_values(|t: (String, String)| (t.0@, t.1@))
}

/// A string sequence as characters.
pub open spec fn strs_view(s: Seq<String>) -> Seq<Seq<char>> {
    s.map_values(|x: String| x@)
}

/// Paths that start at each root.
pub open spec fn start_paths(keys: Seq<Seq<char>>) -> Seq<(Seq<char>, Seq<char>)> {
    keys.map_values(|k: Seq<char>| (k, k))
}

/// Extend every path by one hop; a path with no target ends here. Paths keep
/// their order and each fans out in target order.
pub open spec fn expand(
    v: Seq<RowView>,
    paths: Seq<(Seq<char>, Seq<char>)>,
    frontier_kind: Seq<char>,
    hop: (Seq<char>, Seq<char>, bool),
) -> Seq<(Seq<char>, Seq<char>)>
    decreases paths.len(),
{
    if paths.len() == 0 {
        seq![]
    } else {
        let last = paths.last();
        expand(v, paths.drop_last(), frontier_kind, hop) + targets(
            v,
            frontier_kind,
            last.1,
            hop.0,
            hop.1,
            hop.2,
        ).map_values(|c: Seq<char>| (last.0, c))
    }
}

/// The paths that survive every hop, from `frontier_kind`.
pub open spec fn walk(
    v: Seq<RowView>,
    paths: Seq<(Seq<char>, Seq<char>)>,
    frontier_kind: Seq<char>,
    hops: Seq<(Seq<char>, Seq<char>, bool)>,
) -> Seq<(Seq<char>, Seq<char>)>
    decreases hops.len(),
{
    if hops.len() == 0 {
        paths
    } else {
        walk(v, expand(v, paths, frontier_kind, hops[0]), hops[0].0, hops.drop_first())
    }
}

/// The kind of the leaves: the last hop's far kind, or the root kind.
pub open spec fn leaf_kind(root_kind: Seq<char>, hops: Seq<(Seq<char>, Seq<char>, bool)>) -> Seq<char> {
    if hops.len() == 0 {
        root_kind
    } else {
        hops.last().0
    }
}

/// Sum of `sum_property` over the leaf of every path, in `i64` two's-complement
/// arithmetic; a leaf without a parseable value adds nothing.
pub open spec fn path_total(
    v: Seq<RowView>,
    paths: Seq<(Seq<char>, Seq<char>)>,
    sum_kind: Seq<char>,
    sum_property: Seq<char>,
) -> i64
    decreases paths.len(),
{
    if paths.len() == 0 {
        0
    } else {
        let t = path_total(v, paths.drop_last(), sum_kind, sum_property);
        match amount(v, sum_kind, paths.last().1, sum_property) {
            Some(a) => t.wrapping_add(a),
            None => t,
        }
    }
}

/// The sum of an evaluation: leaf amounts when the leaves are of `sum_kind`, else 0.
pub open spec fn walk_total(
    v: Seq<RowView>,
    paths: Seq<(Seq<char>, Seq<char>)>,
    leaf: Seq<char>,
    sum_kind: Seq<char>,
    sum_property: Seq<char>,
) -> i64 {
    if leaf == sum_kind {
        path_total(v, paths, sum_kind, sum_property)
    } else {
        0
    }
}

/// The distinct roots of the paths.
pub open spec fn path_roots(paths: Seq<(Seq<char>, Seq<char>)>) -> Set<Seq<char>> {
    paths.map_values(|p: (Seq<char>, Seq<char>)| p.0).to_set()
}

/// The distinct leaves of the paths.
pub open spec fn path_leaves(paths: Seq<(Seq<char>, Seq<char>)>) -> Set<Seq<char>> {
    paths.map_values(|p: (Seq<char>, Seq<char>)| p.1).to_set()
}

pub open spec fn row_idx_ok(v: Seq<RowView>, i: int, kind: Seq<char>, key: Seq<char>) -> bool {
    0 <= i < v.len() && v[i].kind == kind && v[i].key == key
}

pub proof fn lemma_row_index_unique(v: Seq<RowView>, i: int)
    requires
        identities_unique(v),
        0 <= i < v.len(),
    ensures
        visible(v, v[i].kind, v[i].key),
        row_index(v, v[i].kind, v[i].key) == i,
{
    let j = row_index(v, v[i].kind, v[i].key);
    assert(row_idx_ok(v, i, v[i].kind, v[i].key));
    if j < i {
        assert(!(v[j].kind == v[i].kind && v[j].key == v[i].key));
    } else if j > i {
        assert(!(v[i].kind == v[j].kind && v[i].key == v[j].key));
    }
}

/// Taking an identity out twice is taking it out once.
pub proof fn lemma_without_twice(v: Seq<RowView>, kind: Seq<char>, key: Seq<char>)
    requires
        identities_unique(v),
    ensures
        !visible(without(v, kind, key), kind, key),
        without(without(v, kind, key), kind, key) == without(v, kind, key),
{
    if visible(v, kind, key) {
        let i = row_index(v, kind, key);
        let w = v.remove(i);
        if visible(w, kind, key) {
            let j = choose|j: int| 0 <= j < w.len() && (#[trigger] w[j]).kind == kind && w[j].key == key;
            let jo = if j < i { j } else { j + 1 };
            assert(w[j] == v[jo]);
            if jo < i {
                assert(!(v[jo].kind == v[i].kind && v[jo].key == v[i].key));
            } else {
                assert(!(v[i].kind == v[jo].kind && v[i].key == v[jo].key));
            }
        }
    }
}

impl VisibleRow {
    fn duplicate(&self) -> (r: VisibleRow)
        ensures
            row_view(r) == row_view(*self),
    {
        VisibleRow { kind: self.kind.clone(), key: self.key.clone(), props: self.props.clone() }
    }
}

impl JoinMaps {
    #[verifier::type_invariant]
    spec fn one_row_per_identity(self) -> bool {
        identities_unique(self@)
    }

    /// The same rows.
    pub fn duplicate(&self) -> (r: JoinMaps)
        ensures
            r@ == self@,
    {
        proof {
            use_type_invariant(self);
        }
        let mut rows: Vec<VisibleRow> = Vec::new();
        let mut i: usize = 0;
        while i < self.rows.len()
            invariant
                i <= self.rows@.len(),
                identities_unique(self@),
                rows@.map_values(|r: VisibleRow| row_view(r)) == self@.subrange(0, i as int),
            decreases self.rows@.len() - i,
        {
            let ghost before = rows@.map_values(|r: VisibleRow| row_view(r));
            rows.push(self.rows[i].duplicate());
            assert(rows@.map_values(|r: VisibleRow| row_view(r)) =~= before.push(self@[i as int]));
            assert(self@.subrange(0, i + 1) =~= self@.subrange(0, i as int).push(self@[i as int]));
            i = i + 1;
        }
        assert(self@.subrange(0, self.rows@.len() as int) =~= self@);
        JoinMaps { rows }
    }

    /// No rows.
    pub fn new() -> (m: JoinMaps)
        ensures
            m@ == Seq::<RowView>::empty(),
    {
        let m = JoinMaps { rows: Vec::new() };
        assert(m@ =~= Seq::<RowView>::empty());
        m
    }

    /// The rows have one entry per identity.
    pub fn rows_unique(&self)
        ensures
            identities_unique(self@),
    {
        proof {
            use_type_invariant(self);
        }
    }

    /// Number of visible rows.
    pub fn len(&self) -> (n: usize)
        ensures
            n == self@.len(),
    {
        self.rows.len()
    }

    /// Index of the row of `(kind, key)`.
    fn find(&self, kind: &str, key: &str) -> (r: Option<usize>)
        ensures
            match r {
                Some(i) => visible(self@, kind@, key@) && i == row_index(self@, kind@, key@) && i
                    < self@.len(),
                None => !visible(self@, kind@, key@),
            },
            identities_unique(self@),
    {
        proof {
            use_type_invariant(self);
        }
        let mut i: usize = 0;
        while i < self.rows.len()
            invariant
                i <= self.rows@.len(),
                self@.len() == self.rows@.len(),
                identities_unique(self@),
                forall|j: int| 0 <= j < i ==> !((#[trigger] self@[j]).kind == kind@ && self@[j].key == key@),
            decreases self.rows@.len() - i,
        {
            let row = &self.rows[i];
            assert(self@[i as int] == row_view(*row));
            if str_eq(row.kind.as_str(), kind) && str_eq(row.key.as_str(), key) {
                proof {
                    lemma_row_index_unique(self@, i as int);
                }
                return Some(i);
            }
            i = i + 1;
        }
        None
    }

    /// Whether `(kind, key)` has a visible row.
    pub fn is_visible(&self, kind: &str, key: &str) -> (b: bool)
        ensures
            b == visible(self@, kind@, key@),
    {
        self.find(kind, key).is_some()
    }

    /// The stored value of `property` on a visible `(kind, key)`.
    pub fn prop(&self, kind: &str, key: &str, property: &str) -> (r: Option<&str>)
        ensures
            match r {
                Some(s) => row_prop(self@, kind@, key@, property@) == Some(s@),
                None => row_prop(self@, kind@, key@, property@) is None,
            },
    {
        match self.find(kind, key) {
            None => None,
            Some(i) => {
                let row = &self.rows[i];
                assert(self@[i as int] == row_view(*row));
                match row.props.get(property) {
                    Some(v) => Some(v.as_str()),
                    None => None,
                }
            },
        }
    }

    /// The properties of a visible `(kind, key)`; empty when it is not visible.
    pub fn row_props(&self, kind: &str, key: &str) -> (p: Props)
        ensures
            visible(self@, kind@, key@) ==> p@ == self@[row_index(self@, kind@, key@)].props,
            !visible(self@, kind@, key@) ==> p@ == Seq::<(Seq<char>, Seq<char>)>::empty(),
    {
        match self.find(kind, key) {
            None => Props::new(),
            Some(i) => {
                let row = &self.rows[i];
                assert(self@[i as int] == row_view(*row));
                row.props.clone()
            },
        }
    }

    /// `property` of a visible `(kind, key)` as `i64`, when it parses.
    pub fn leaf_amount(&self, kind: &str, key: &str, property: &str) -> (r: Option<i64>)
        ensures
            r == amount(self@, kind@, key@, property@),
    {
        match self.prop(kind, key, property) {
            None => None,
            Some(v) => parse_i64(v),
        }
    }

    /// Keys of the visible rows of `kind`, in row order.
    pub fn visible_keys(&self, kind: &str) -> (r: Vec<String>)
        ensures
            r@.map_values(|s: String| s@) == kind_keys(self@, kind@),
    {
        let mut out: Vec<String> = Vec::new();
        let mut i: usize = 0;
        while i < self.rows.len()
            invariant
                i <= self.rows@.len(),
                self@.len() == self.rows@.len(),
                out@.map_values(|s: String| s@) == kind_keys(self@.subrange(0, i as int), kind@),
            decreases self.rows@.len() - i,
        {
            let row = &self.rows[i];
            assert(self@[i as int] == row_view(*row));
            assert(self@.subrange(0, i + 1).drop_last() =~= self@.subrange(0, i as int));
            if str_eq(row.kind.as_str(), kind) {
                out.push(row.key.clone());
            }
            assert(out@.map_values(|s: String| s@) =~= kind_keys(self@.subrange(0, i + 1), kind@));
            i = i + 1;
        }
        assert(self@.subrange(0, self@.len() as int) =~= self@);
        out
    }

    /// Keys of the visible rows of `kind` whose `property` is `value`, in row order.
    pub fn matching_keys(&self, kind: &str, property: &str, value: &str) -> (r: Vec<String>)
        ensures
            r@.map_values(|s: String| s@) == match_keys(self@, kind@, property@, value@),
    {
        let mut out: Vec<String> = Vec::new();
        let mut i: usize = 0;
        while i < self.rows.len()
            invariant
                i <= self.rows@.len(),
                self@.len() == self.rows@.len(),
                out@.map_values(|s: String| s@) == match_keys(
                    self@.subrange(0, i as int),
                    kind@,
                    property@,
                    value@,
                ),
            decreases self.rows@.len() - i,
        {
            let row = &self.rows[i];
            assert(self@[i as int] == row_view(*row));
            assert(self@.subrange(0, i + 1).drop_last() =~= self@.subrange(0, i as int));
            if str_eq(row.kind.as_str(), kind) {
                match row.props.get(property) {
                    Some(v) => {
                        if str_eq(v.as_str(), value) {
                            out.push(row.key.clone());
                        }
                    },
                    None => {},
                }
            }
            assert(out@.map_values(|s: String| s@) =~= match_keys(
                self@.subrange(0, i + 1),
                kind@,
                property@,
                value@,
            ));
            i = i + 1;
        }
        assert(self@.subrange(0, self@.len() as int) =~= self@);
        out
    }

    /// One hop from `parent`, a key of `frontier_kind`, to keys of `far_kind`.
    pub fn hop_targets(
        &self,
        frontier_kind: &str,
        parent: &str,
        far_kind: &str,
        join_property: &str,
        incoming: bool,
    ) -> (r: Vec<String>)
        ensures
            r@.map_values(|s: String| s@) == targets(
                self@,
                frontier_kind@,
                parent@,
                far_kind@,
                join_property@,
                incoming,
            ),
    {
        if incoming {
            match self.prop(frontier_kind, parent, join_property) {
                None => {
                    let out: Vec<String> = Vec::new();
                    assert(out@.map_values(|s: String| s@) =~= Seq::<Seq<char>>::empty());
                    out
                },
                Some(val) => {
                    let mut out: Vec<String> = Vec::new();
                    if self.is_visible(far_kind, val) {
                        out.push(val.to_owned());
                        assert(out@.map_values(|s: String| s@) =~= seq![val@]);
                    } else {
                        assert(out@.map_values(|s: String| s@) =~= Seq::<Seq<char>>::empty());
                    }
                    out
                },
            }
        } else {
            self.matching_keys(far_kind, join_property, parent)
        }
    }

    /// Extend every path by one hop.
    pub fn expand_paths(
        &self,
        paths: &Vec<(String, String)>,
        frontier_kind: &str,
        far_kind: &str,
        join_property: &str,
        incoming: bool,
    ) -> (r: Vec<(String, String)>)
        ensures
            paths_view(r@) == expand(
                self@,
                paths_view(paths@),
                frontier_kind@,
                (far_kind@, join_property@, incoming),
            ),
    {
        let ghost hop = (far_kind@, join_property@, incoming);
        let mut next: Vec<(String, String)> = Vec::new();
        let mut i: usize = 0;
        while i < paths.len()
            invariant
                i <= paths@.len(),
                hop == (far_kind@, join_property@, incoming),
                paths_view(next@) == expand(
                    self@,
                    paths_view(paths@.subrange(0, i as int)),
                    frontier_kind@,
                    hop,
                ),
            decreases paths@.len() - i,
        {
            let (root, parent) = &paths[i];
            let children = self.hop_targets(frontier_kind, parent.as_str(), far_kind, join_property, incoming);
            let ghost before = next@;
            let ghost cs = strs_view(children@);
            let mut j: usize = 0;
            while j < children.len()
                invariant
                    j <= children@.len(),
                    cs == strs_view(children@),
                    next@.len() == before.len() + j,
                    paths_view(next@) == paths_view(before) + cs.subrange(0, j as int).map_values(
                        |c: Seq<char>| (root@, c),
                    ),
                decreases children@.len() - j,
            {
                let ghost old_next = next@;
                let child = children[j].clone();
                next.push((root.clone(), child));
                proof {
                    assert(cs[j as int] == child@);
                    assert(next@.drop_last() == old_next);
                    assert(paths_view(next@) =~= paths_view(old_next).push((root@, cs[j as int])));
                    assert(cs.subrange(0, j + 1).map_values(|c: Seq<char>| (root@, c)) =~= cs.subrange(
                        0,
                        j as int,
                    ).map_values(|c: Seq<char>| (root@, c)).push((root@, cs[j as int])));
                    assert(paths_view(next@) =~= paths_view(before) + cs.subrange(0, j + 1).map_values(
                        |c: Seq<char>| (root@, c),
                    ));
                }
                j = j + 1;
            }
            proof {
                let pv = paths_view(paths@.subrange(0, i + 1));
                assert(pv.drop_last() =~= paths_view(paths@.subrange(0, i as int)));
                assert(pv.last() == (root@, parent@));
                assert(cs.subrange(0, cs.len() as int) =~= cs);
            }
            i = i + 1;
        }
        assert(paths@.subrange(0, paths@.len() as int) =~= paths@);
        next
    }

    /// Walk every hop from the paths that start at `roots`, keys of `root_kind`.
    pub fn walk_paths(&self, root_kind: &str, roots: &Vec<String>, hops: &[(&str, &str, bool)]) -> (r: Vec<
        (String, String),
    >)
        ensures
            paths_view(r@) == walk(
                self@,
                start_paths(strs_view(roots@)),
                root_kind@,
                hops_view(hops@),
            ),
    {
        let mut paths: Vec<(String, String)> = Vec::new();
        let mut i: usize = 0;
        while i < roots.len()
            invariant
                i <= roots@.len(),
                paths_view(paths@) == start_paths(strs_view(roots@.subrange(0, i as int))),
            decreases roots@.len() - i,
        {
            let ghost old_paths = paths@;
            let a = roots[i].clone();
            let b = roots[i].clone();
            paths.push((a, b));
            proof {
                assert(paths@.drop_last() == old_paths);
                assert(paths_view(paths@) =~= paths_view(old_paths).push((roots@[i as int]@, roots@[i as int]@)));
                assert(strs_view(roots@.subrange(0, i + 1)) =~= strs_view(roots@.subrange(0, i as int)).push(
                    roots@[i as int]@,
                ));
                assert(paths_view(paths@) =~= start_paths(strs_view(roots@.subrange(0, i + 1))));
            }
            i = i + 1;
        }
        assert(roots@.subrange(0, roots@.len() as int) =~= roots@);
        let ghost hv = hops_view(hops@);
        let ghost whole = walk(self@, paths_view(paths@), root_kind@, hv);
        assert(hv.subrange(0, hv.len() as int) =~= hv);
        let mut frontier: &str = root_kind;
        let mut h: usize = 0;
        while h < hops.len()
            invariant
                h <= hops@.len(),
                hv == hops_view(hops@),
                whole == walk(self@, paths_view(paths@), frontier@, hv.subrange(h as int, hv.len() as int)),
            decreases hops@.len() - h,
        {
            let hop = hops[h];
            proof {
                let rest = hv.subrange(h as int, hv.len() as int);
                assert(rest[0] == (hop.0@, hop.1@, hop.2));
                assert(rest.drop_first() =~= hv.subrange(h + 1, hv.len() as int));
            }
            let next = self.expand_paths(&paths, frontier, hop.0, hop.1, hop.2);
            paths = next;
            frontier = hop.0;
            h = h + 1;
        }
        assert(hv.subrange(h as int, hv.len() as int) =~= Seq::<(Seq<char>, Seq<char>, bool)>::empty());
        paths
    }

    /// Sum `sum_property` over the leaves of `paths`.
    pub fn sum_paths(&self, paths: &Vec<(String, String)>, sum_kind: &str, sum_property: &str) -> (t: i64)
        ensures
            t == path_total(self@, paths_view(paths@), sum_kind@, sum_property@),
    {
        let mut total: i64 = 0;
        let mut i: usize = 0;
        while i < paths.len()
            invariant
                i <= paths@.len(),
                total == path_total(self@, paths_view(paths@.subrange(0, i as int)), sum_kind@, sum_property@),
            decreases paths@.len() - i,
        {
            let (_, leaf) = &paths[i];
            let amount = self.leaf_amount(sum_kind, leaf.as_str(), sum_property);
            proof {
                let pv = paths_view(paths@.subrange(0, i + 1));
                assert(pv.drop_last() =~= paths_view(paths@.subrange(0, i as int)));
                assert(pv.last().1 == leaf@);
            }
            match amount {
                Some(a) => {
                    total = total.wrapping_add(a);
                },
                None => {},
            }
            i = i + 1;
        }
        assert(paths@.subrange(0, paths@.len() as int) =~= paths@);
        total
    }

    /// The roots of the paths, in path order.
    fn path_root_list(paths: &Vec<(String, String)>) -> (r: Vec<String>)
        ensures
            strs_view(r@) == paths_view(paths@).map_values(|p: (Seq<char>, Seq<char>)| p.0),
    {
        let mut out: Vec<String> = Vec::new();
        let mut i: usize = 0;
        while i < paths.len()
            invariant
                i <= paths@.len(),
                strs_view(out@) == paths_view(paths@.subrange(0, i as int)).map_values(
                    |p: (Seq<char>, Seq<char>)| p.0,
                ),
            decreases paths@.len() - i,
        {
            let ghost old_out = strs_view(out@);
            let x = paths[i].0.clone();
            out.push(x);
            proof {
                assert(strs_view(out@) =~= old_out.push(x@));
                assert(paths_view(paths@.subrange(0, i + 1)) =~= paths_view(paths@.subrange(0, i as int)).push(
                    (paths@[i as int].0@, paths@[i as int].1@),
                ));
                assert(strs_view(out@) =~= paths_view(paths@.subrange(0, i + 1)).map_values(
                    |p: (Seq<char>, Seq<char>)| p.0,
                ));
            }
            i = i + 1;
        }
        assert(paths@.subrange(0, paths@.len() as int) =~= paths@);
        out
    }

    /// The leaves of the paths, in path order.
    fn path_leaf_list(paths: &Vec<(String, String)>) -> (r: Vec<String>)
        ensures
            strs_view(r@) == paths_view(paths@).map_values(|p: (Seq<char>, Seq<char>)| p.1),
    {
        let mut out: Vec<String> = Vec::new();
        let mut i: usize = 0;
        while i < paths.len()
            invariant
                i <= paths@.len(),
                strs_view(out@) == paths_view(paths@.subrange(0, i as int)).map_values(
                    |p: (Seq<char>, Seq<char>)| p.1,
                ),
            decreases paths@.len() - i,
        {
            let ghost old_out = strs_view(out@);
            let x = paths[i].1.clone();
            out.push(x);
            proof {
                assert(strs_view(out@) =~= old_out.push(x@));
                assert(paths_view(paths@.subrange(0, i + 1)) =~= paths_view(paths@.subrange(0, i as int)).push(
                    (paths@[i as int].0@, paths@[i as int].1@),
                ));
                assert(strs_view(out@) =~= paths_view(paths@.subrange(0, i + 1)).map_values(
                    |p: (Seq<char>, Seq<char>)| p.1,
                ));
            }
            i = i + 1;
        }
        assert(paths@.subrange(0, paths@.len() as int) =~= paths@);
        out
    }

    /// Number of distinct roots among the paths.
    pub fn count_roots(paths: &Vec<(String, String)>) -> (n: usize)
        ensures
            n == path_roots(paths_view(paths@)).len(),
    {
        let roots = Self::path_root_list(paths);
        let distinct = dedup_strings(&roots);
        assert(strs(roots@) == strs_view(roots@));
        distinct.len()
    }

    /// The distinct leaves of the paths in increasing `str` order.
    pub fn sorted_leaves(paths: &Vec<(String, String)>) -> (r: Vec<String>)
        ensures
            sorted_strs(strs_view(r@)),
            strs_view(r@).to_set() == path_leaves(paths_view(paths@)),
            strs_view(r@).no_duplicates(),
    {
        let leaves = Self::path_leaf_list(paths);
        let distinct = dedup_strings(&leaves);
        assert(strs(leaves@) == strs_view(leaves@));
        let sorted = sort_distinct(distinct);
        assert(strs(sorted@) == strs_view(sorted@));
        sorted
    }

    /// Distinct roots among `roots` that still have a path through every hop,
    /// and the sum of `sum_property` over the leaf of every such path when the
    /// leaves are of `sum_kind` (fan-out adds a leaf per path; a root reached
    /// along several paths counts once).
    pub fn count_and_sum_roots(
        &self,
        root_kind: &str,
        roots: &Vec<String>,
        hops: &[(&str, &str, bool)],
        sum_kind: &str,
        sum_property: &str,
    ) -> (r: (usize, i64))
        ensures
            ({
                let paths = walk(
                    self@,
                    start_paths(strs_view(roots@)),
                    root_kind@,
                    hops_view(hops@),
                );
                &&& r.0 == path_roots(paths).len()
                &&& r.1 == walk_total(
                    self@,
                    paths,
                    leaf_kind(root_kind@, hops_view(hops@)),
                    sum_kind@,
                    sum_property@,
                )
            }),
    {
        let paths = self.walk_paths(root_kind, roots, hops);
        let count = Self::count_roots(&paths);
        let leaf: &str = if hops.len() == 0 {
            root_kind
        } else {
            hops[hops.len() - 1].0
        };
        proof {
            if hops@.len() > 0 {
                assert(hops_view(hops@).last() == (hops@.last().0@, hops@.last().1@, hops@.last().2));
            }
        }
        let total = if str_eq(leaf, sum_kind) {
            self.sum_paths(&paths, sum_kind, sum_property)
        } else {
            0
        };
        (count, total)
    }

    /// Distinct visible roots of `root_kind` that still have a hop path, and
    /// the sum of `sum_property` on every leaf along those paths (fan-out
    /// multiplies; diamonds do not).
    pub fn count_and_sum(
        &self,
        root_kind: &str,
        hops: &[(&str, &str, bool)],
        sum_kind: &str,
        sum_property: &str,
    ) -> (r: (usize, i64))
        ensures
            ({
                let paths = walk(
                    self@,
                    start_paths(kind_keys(self@, root_kind@)),
                    root_kind@,
                    hops_view(hops@),
                );
                &&& r.0 == path_roots(paths).len()
                &&& r.1 == walk_total(
                    self@,
                    paths,
                    leaf_kind(root_kind@, hops_view(hops@)),
                    sum_kind@,
                    sum_property@,
                )
            }),
    {
        let roots = self.visible_keys(root_kind);
        self.count_and_sum_roots(root_kind, &roots, hops, sum_kind, sum_property)
    }

    /// Like [`Self::count_and_sum`], but only roots whose `property` is `value`.
    pub fn count_and_sum_matching(
        &self,
        root_kind: &str,
        hops: &[(&str, &str, bool)],
        sum_kind: &str,
        sum_property: &str,
        property: &str,
        value: &str,
    ) -> (r: (usize, i64))
        ensures
            ({
                let paths = walk(
                    self@,
                    start_paths(match_keys(self@, root_kind@, property@, value@)),
                    root_kind@,
                    hops_view(hops@),
                );
                &&& r.0 == path_roots(paths).len()
                &&& r.1 == walk_total(
                    self@,
                    paths,
                    leaf_kind(root_kind@, hops_view(hops@)),
                    sum_kind@,
                    sum_property@,
                )
            }),
    {
        let roots = self.matching_keys(root_kind, property, value);
        self.count_and_sum_roots(root_kind, &roots, hops, sum_kind, sum_property)
    }

    /// Distinct keys reached by the last hop from `roots`, or the roots
    /// themselves when there are no hops, in increasing `str` order.
    pub fn result_keys_from_roots(
        &self,
        root_kind: &str,
        roots: &Vec<String>,
        hops: &[(&str, &str, bool)],
    ) -> (r: Vec<String>)
        ensures
            sorted_strs(strs_view(r@)),
            strs_view(r@).to_set() == path_leaves(
                walk(self@, start_paths(strs_view(roots@)), root_kind@, hops_view(hops@)),
            ),
    {
        let paths = self.walk_paths(root_kind, roots, hops);
        Self::sorted_leaves(&paths)
    }

    /// Distinct visible keys of the last hop's far kind, or of `root_kind` when
    /// there are no hops, in increasing `str` order. With a filter, only roots
    /// whose `property` is `value` start a path.
    pub fn result_keys(
        &self,
        root_kind: &str,
        hops: &[(&str, &str, bool)],
        filter: Option<(&str, &str)>,
    ) -> (r: Vec<String>)
        ensures
            sorted_strs(strs_view(r@)),
            strs_view(r@).to_set() == path_leaves(
                walk(
                    self@,
                    start_paths(
                        match filter {
                            None => kind_keys(self@, root_kind@),
                            Some((p, v)) => match_keys(self@, root_kind@, p@, v@),
                        },
                    ),
                    root_kind@,
                    hops_view(hops@),
                ),
            ),
    {
        let roots = match filter {
            None => self.visible_keys(root_kind),
            Some((property, value)) => self.matching_keys(root_kind, property, value),
        };
        self.result_keys_from_roots(root_kind, &roots, hops)
    }

    /// Take out the row of `(kind, key)`, if any.
    pub fn remove(&mut self, kind: &str, key: &str)
        ensures
            final(self)@ == without(old(self)@, kind@, key@),
    {
        match self.find(kind, key) {
            None => {},
            Some(i) => {
                let ghost old_view = self@;
                let mut rows: Vec<VisibleRow> = Vec::new();
                std::mem::swap(&mut rows, &mut self.rows);
                assert(rows@.map_values(|r: VisibleRow| row_view(r)) == old_view);
                rows.remove(i);
                proof {
                    let nv = rows@.map_values(|r: VisibleRow| row_view(r));
                    assert(nv =~= old_view.remove(i as int));
                    assert forall|a: int, b: int| 0 <= a < b < nv.len() implies !((#[trigger] nv[a]).kind
                        == (#[trigger] nv[b]).kind && nv[a].key == nv[b].key) by {
                        let ao = if a < i { a } else { a + 1 };
                        let bo = if b < i { b } else { b + 1 };
                        assert(nv[a] == old_view[ao]);
                        assert(nv[b] == old_view[bo]);
                        assert(!(old_view[ao].kind == old_view[bo].kind && old_view[ao].key
                            == old_view[bo].key));
                    }
                }
                self.rows = rows;
            },
        }
    }

    /// Make `(kind, key)` visible with exactly `props`, replacing an earlier row.
    pub fn insert_visible(&mut self, kind: String, key: String, props: Props)
        ensures
            final(self)@ == without(old(self)@, kind@, key@).push(
                RowView { kind: kind@, key: key@, props: props@ },
            ),
    {
        proof {
            use_type_invariant(&*self);
        }
        let ghost before = self@;
        assert(identities_unique(before));
        self.remove(kind.as_str(), key.as_str());
        proof {
            use_type_invariant(&*self);
        }
        let ghost mid = self@;
        assert(!visible(mid, kind@, key@)) by {
            if visible(before, kind@, key@) {
                let j = row_index(before, kind@, key@);
                assert(row_idx_ok(before, j, kind@, key@));
                if visible(mid, kind@, key@) {
                    let m = row_index(mid, kind@, key@);
                    assert(row_idx_ok(mid, m, kind@, key@));
                    let mo = if m < j { m } else { m + 1 };
                    assert(mid[m] == before[mo]);
                    if mo < j {
                        assert(!(before[mo].kind == before[j].kind && before[mo].key
                            == before[j].key));
                    } else {
                        assert(!(before[j].kind == before[mo].kind && before[j].key
                            == before[mo].key));
                    }
                }
            }
        }
        let row = VisibleRow { kind, key, props };
        let mut rows: Vec<VisibleRow> = Vec::new();
        std::mem::swap(&mut rows, &mut self.rows);
        assert(rows@.map_values(|r: VisibleRow| row_view(r)) == mid);
        rows.push(row);
        proof {
            let nv = rows@.map_values(|r: VisibleRow| row_view(r));
            assert(nv =~= mid.push(row_view(row)));
            assert forall|a: int, b: int| 0 <= a < b < nv.len() implies !((#[trigger] nv[a]).kind
                == (#[trigger] nv[b]).kind && nv[a].key == nv[b].key) by {
                if b == nv.len() - 1 {
                    assert(nv[a] == mid[a]);
                    if nv[a].kind == nv[b].kind && nv[a].key == nv[b].key {
                        assert(row_idx_ok(mid, a, kind@, key@));
                    }
                } else {
                    assert(nv[a] == mid[a]);
                    assert(nv[b] == mid[b]);
                }
            }
        }
        self.rows = rows;
    }

    /// Index a record: a visible record replaces the row of its identity; a
    /// hidden one leaves the rows as they are.
    pub fn index(&mut self, kind: String, key: String, hidden: bool, props: Props)
        ensures
            hidden ==> final(self)@ == old(self)@,
            !hidden ==> final(self)@ == without(old(self)@, kind@, key@).push(
                RowView { kind: kind@, key: key@, props: props@ },
            ),
    {
        if hidden {
            return;
        }
        self.insert_visible(kind, key, props);
    }
}

} // verus!
