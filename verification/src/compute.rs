//! Local evaluation of object-set requests over the store's projection.

use vstd::prelude::*;

use crate::acl::{AclError, PropertyAcl};
use crate::joins::{kind_keys, match_keys, path_leaves, path_roots, paths_view, row_prop, start_paths, strs_view, targets, walk_total, JoinMaps, RowView};
use crate::objectset::{list_props, pred_props, Aggregate, EvaluateRequest, EvaluateResponse, Hop, Predicate, Sort};
use crate::schema::property_type_of;
use crate::page::{cursor_token, decode_cursor, encode_cursor, fingerprint, read_token};
use crate::record::ObjectRecord;
use crate::store::{load_gives, loaded, schema_of, Store, StoreView};
use crate::strs::sorted_strs;
use crate::text::concat_str;
use crate::value::{canonical, str_order_spec, value_order, Order, PropertyType};

verus! {

/// Why an evaluation failed.
#[derive(Debug)]
pub enum ComputeError {
    Acl(AclError),
    UnsupportedBackend { name: String },
    ObjectBound { bound: usize, count: usize },
    Load(String),
    Predicate(String),
    Page(String),
}

/// The type `property` of `kind` is read as: its declared type, string when
/// undeclared or without schema; `None` when the schema row does not decode.
pub open spec fn ptype(rows: Seq<RowView>, kind: Seq<char>, property: Seq<char>) -> Option<PropertyType> {
    match schema_of(rows, kind) {
        None => None,
        Some(None) => Some(PropertyType::String),
        Some(Some(d)) => Some(
            match property_type_of(d, property) {
                Some(t) => t,
                None => PropertyType::String,
            },
        ),
    }
}

pub open spec fn opt_view(o: Option<String>) -> Option<Seq<char>> {
    match o {
        Some(s) => Some(s@),
        None => None,
    }
}

/// Both spellings are canonical and spell the same value.
pub open spec fn same_canonical(t: PropertyType, stored: Seq<char>, expected: Seq<char>) -> bool {
    canonical(t, stored) is Some && canonical(t, expected) is Some && canonical(t, stored) == canonical(
        t,
        expected,
    )
}

/// Whether `stored` lies between the optional inclusive bounds; `None` when
/// any of them is not canonical.
pub open spec fn in_range_of(t: PropertyType, stored: Seq<char>, min: Option<Seq<char>>, max: Option<Seq<char>>) -> Option<bool> {
    if canonical(t, stored) is None || (min matches Some(lo) && canonical(t, lo) is None) || (max matches Some(
        hi,
    ) && canonical(t, hi) is None) {
        None
    } else {
        Some(
            (min matches Some(lo) ==> value_order(canonical(t, lo).unwrap(), canonical(t, stored).unwrap())
                != Order::Greater) && (max matches Some(hi) ==> value_order(
                canonical(t, stored).unwrap(),
                canonical(t, hi).unwrap(),
            ) != Order::Greater),
        )
    }
}

/// Whether the object `(kind, key)` satisfies `p`; `None` when evaluation fails.
pub open spec fn pred_eval(rows: Seq<RowView>, kind: Seq<char>, key: Seq<char>, p: Predicate) -> Option<bool>
    decreases p, 0int,
{
    match p {
        Predicate::Eq { property, value } => match row_prop(rows, kind, key, property@) {
            None => Some(false),
            Some(stored) => match ptype(rows, kind, property@) {
                None => None,
                Some(t) => Some(same_canonical(t, stored, value@)),
            },
        },
        Predicate::Neq { property, value } => match row_prop(rows, kind, key, property@) {
            None => Some(false),
            Some(stored) => match ptype(rows, kind, property@) {
                None => None,
                Some(t) => Some(!same_canonical(t, stored, value@)),
            },
        },
        Predicate::Range { property, min, max } => match row_prop(rows, kind, key, property@) {
            None => Some(false),
            Some(stored) => match ptype(rows, kind, property@) {
                None => None,
                Some(t) => in_range_of(t, stored, opt_view(min), opt_view(max)),
            },
        },
        Predicate::Missing { property } => Some(row_prop(rows, kind, key, property@) is None),
        Predicate::And(args) => and_eval(rows, kind, key, args@, 0),
        Predicate::Or(args) => or_eval(rows, kind, key, args@, 0),
        Predicate::Not(inner) => match pred_eval(rows, kind, key, *inner) {
            Some(b) => Some(!b),
            None => None,
        },
    }
}

/// The arguments from `i` on, evaluated in order until one is false.
pub open spec fn and_eval(rows: Seq<RowView>, kind: Seq<char>, key: Seq<char>, args: Seq<Predicate>, i: int) -> Option<bool>
    decreases args, args.len() - i,
{
    if i < 0 || i >= args.len() {
        Some(true)
    } else {
        match pred_eval(rows, kind, key, args[i]) {
            None => None,
            Some(false) => Some(false),
            Some(true) => and_eval(rows, kind, key, args, i + 1),
        }
    }
}

/// The arguments from `i` on, evaluated in order until one is true.
pub open spec fn or_eval(rows: Seq<RowView>, kind: Seq<char>, key: Seq<char>, args: Seq<Predicate>, i: int) -> Option<bool>
    decreases args, args.len() - i,
{
    if i < 0 || i >= args.len() {
        Some(false)
    } else {
        match pred_eval(rows, kind, key, args[i]) {
            None => None,
            Some(true) => Some(true),
            Some(false) => or_eval(rows, kind, key, args, i + 1),
        }
    }
}

/// Every value and bound of `p` is canonical for the type it compares
/// against, and no range is over a boolean.
pub open spec fn pred_typed(rows: Seq<RowView>, kind: Seq<char>, p: Predicate) -> bool
    decreases p, 0int,
{
    match p {
        Predicate::Eq { property, value } => ptype(rows, kind, property@) matches Some(t) && canonical(
            t,
            value@,
        ) is Some,
        Predicate::Neq { property, value } => ptype(rows, kind, property@) matches Some(t) && canonical(
            t,
            value@,
        ) is Some,
        Predicate::Range { property, min, max } => ptype(rows, kind, property@) matches Some(t) && t
            != PropertyType::Boolean && (opt_view(min) matches Some(lo) ==> canonical(t, lo) is Some)
            && (opt_view(max) matches Some(hi) ==> canonical(t, hi) is Some),
        Predicate::Missing { .. } => true,
        Predicate::And(args) => typed_list(rows, kind, args@, 0),
        Predicate::Or(args) => typed_list(rows, kind, args@, 0),
        Predicate::Not(inner) => pred_typed(rows, kind, *inner),
    }
}

pub open spec fn typed_list(rows: Seq<RowView>, kind: Seq<char>, args: Seq<Predicate>, i: int) -> bool
    decreases args, args.len() - i,
{
    if i < 0 || i >= args.len() {
        true
    } else {
        pred_typed(rows, kind, args[i]) && typed_list(rows, kind, args, i + 1)
    }
}

/// Every property `p` reads may be read on `kind`.
pub open spec fn pred_allowed(acl: PropertyAcl, kind: Seq<char>, p: Predicate) -> bool {
    forall|i: int| 0 <= i < pred_props(p).len() ==> acl.allows(kind, #[trigger] pred_props(p)[i])
}

/// The type `property` of `kind` is read as.
fn property_type(store: &Store, kind: &str, property: &str) -> (r: Result<PropertyType, ComputeError>)
    ensures
        match r {
            Ok(t) => ptype(store@.rows, kind@, property@) == Some(t),
            Err(e) => ptype(store@.rows, kind@, property@) is None && e is Load,
        },
{
    match store.schema(kind) {
        Ok(Some(schema)) => match schema.property_type(property) {
            Some(t) => Ok(t),
            None => Ok(PropertyType::String),
        },
        Ok(None) => Ok(PropertyType::String),
        Err(e) => Err(ComputeError::Load(e)),
    }
}

/// The two refusals of a badly shaped predicate.
pub open spec fn shape_message(m: Seq<char>) -> bool {
    m == "predicate property must be non-empty"@ || m == "boolean predicate requires at least one argument"@
}

/// The property a comparison reads; `None` for a boolean combination.
pub open spec fn leaf_property(p: Predicate) -> Option<Seq<char>> {
    match p {
        Predicate::Eq { property, .. } => Some(property@),
        Predicate::Neq { property, .. } => Some(property@),
        Predicate::Range { property, .. } => Some(property@),
        Predicate::Missing { property } => Some(property@),
        _ => None,
    }
}

/// Fail unless every comparison has a property and every boolean
/// combination has an argument.
pub fn check_predicate_shape(pred: &Predicate) -> (r: Result<(), ComputeError>)
    ensures
        r is Ok <==> crate::objectset::shape_ok(*pred),
        r matches Err(e) ==> (e matches ComputeError::Predicate(m) && shape_message(m@)),
        leaf_property(*pred) matches Some(p) && p.len() == 0 ==> (r matches Err(ComputeError::Predicate(m)) && m@
            == "predicate property must be non-empty"@),
        (pred matches Predicate::And(args) && args@.len() == 0) || (pred matches Predicate::Or(args) && args@.len()
            == 0) ==> (r matches Err(ComputeError::Predicate(m)) && m@
            == "boolean predicate requires at least one argument"@),
    decreases pred, 0int,
{
    match pred {
        Predicate::Eq { property, .. } | Predicate::Neq { property, .. } | Predicate::Range {
            property,
            ..
        } | Predicate::Missing { property } => {
            if property.unicode_len() == 0 {
                return Err(ComputeError::Predicate(String::from_str("predicate property must be non-empty")));
            }
            Ok(())
        },
        Predicate::And(args) | Predicate::Or(args) => check_shapes(args),
        Predicate::Not(inner) => check_predicate_shape(inner),
    }
}

fn check_shapes(args: &Vec<Predicate>) -> (r: Result<(), ComputeError>)
    ensures
        r is Ok <==> (args@.len() > 0 && forall|i: int| 0 <= i < args@.len() ==> crate::objectset::shape_ok(#[trigger] args@[i])),
        r matches Err(e) ==> (e matches ComputeError::Predicate(m) && shape_message(m@)),
        args@.len() == 0 ==> (r matches Err(ComputeError::Predicate(m)) && m@
            == "boolean predicate requires at least one argument"@),
    decreases args@, 1int,
{
    if args.len() == 0 {
        return Err(ComputeError::Predicate(String::from_str("boolean predicate requires at least one argument")));
    }
    let mut i: usize = 0;
    while i < args.len()
        invariant
            i <= args@.len(),
            forall|k: int| 0 <= k < i ==> crate::objectset::shape_ok(#[trigger] args@[k]),
        decreases args@.len() - i,
    {
        proof {
            assert(decreases_to!(args@, 1int => args@[i as int], 0int));
        }
        match check_predicate_shape(&args[i]) {
            Ok(()) => {},
            Err(e) => return Err(e),
        }
        i = i + 1;
    }
    Ok(())
}

/// Fail unless the predicate is well shaped and each value and bound is a
/// canonical value of the type it is compared as.
pub fn check_predicate_types(store: &Store, kind: &str, pred: &Predicate) -> (r: Result<(), ComputeError>)
    ensures
        r is Ok <==> crate::objectset::shape_ok(*pred) && pred_typed(store@.rows, kind@, *pred),
        !crate::objectset::shape_ok(*pred) ==> (r matches Err(ComputeError::Predicate(m)) && shape_message(m@)),
        r matches Err(e) ==> e is Predicate || e is Load,
{
    match check_predicate_shape(pred) {
        Ok(()) => {},
        Err(e) => return Err(e),
    }
    check_typed(store, kind, pred)
}

fn parse_bound(t: PropertyType, value: &str) -> (r: Result<(), ComputeError>)
    ensures
        r is Ok <==> canonical(t, value@) is Some,
        r matches Err(e) ==> e is Predicate,
{
    match t.parse_canonical(value) {
        Ok(_) => Ok(()),
        Err(e) => Err(ComputeError::Predicate(e)),
    }
}

fn check_typed(store: &Store, kind: &str, pred: &Predicate) -> (r: Result<(), ComputeError>)
    ensures
        r is Ok <==> pred_typed(store@.rows, kind@, *pred),
        r matches Err(e) ==> e is Predicate || e is Load,
    decreases pred, 0int,
{
    match pred {
        Predicate::Eq { property, value } | Predicate::Neq { property, value } => {
            let t = match property_type(store, kind, property.as_str()) {
                Ok(t) => t,
                Err(e) => return Err(e),
            };
            parse_bound(t, value.as_str())
        },
        Predicate::Range { property, min, max } => {
            let t = match property_type(store, kind, property.as_str()) {
                Ok(t) => t,
                Err(e) => return Err(e),
            };
            match t {
                PropertyType::Boolean => {
                    let mut m = concat_str("range is not defined for boolean ", kind);
                    m.append(".");
                    m.append(property.as_str());
                    return Err(ComputeError::Predicate(m));
                },
                _ => {},
            }
            match min {
                Some(lo) => match parse_bound(t, lo.as_str()) {
                    Ok(()) => {},
                    Err(e) => return Err(e),
                },
                None => {},
            }
            match max {
                Some(hi) => parse_bound(t, hi.as_str()),
                None => Ok(()),
            }
        },
        Predicate::Missing { .. } => Ok(()),
        Predicate::And(args) | Predicate::Or(args) => check_typed_list(store, kind, args),
        Predicate::Not(inner) => check_typed(store, kind, inner),
    }
}

fn check_typed_list(store: &Store, kind: &str, args: &Vec<Predicate>) -> (r: Result<(), ComputeError>)
    ensures
        r is Ok <==> typed_list(store@.rows, kind@, args@, 0),
        r matches Err(e) ==> e is Predicate || e is Load,
    decreases args@, 1int,
{
    let ghost rows = store@.rows;
    let mut i: usize = 0;
    while i < args.len()
        invariant
            i <= args@.len(),
            rows == store@.rows,
            typed_list(rows, kind@, args@, 0) == typed_list(rows, kind@, args@, i as int),
        decreases args@.len() - i,
    {
        proof {
            assert(decreases_to!(args@, 1int => args@[i as int], 0int));
        }
        match check_typed(store, kind, &args[i]) {
            Ok(()) => {},
            Err(e) => return Err(e),
        }
        i = i + 1;
    }
    Ok(())
}

/// Fail unless the request may read every property the predicate reads on `kind`.
pub fn check_predicate_acl(acl: &PropertyAcl, kind: &str, pred: &Predicate) -> (r: Result<(), ComputeError>)
    ensures
        r is Ok <==> pred_allowed(*acl, kind@, *pred),
        r matches Err(e) ==> (e matches ComputeError::Acl(AclError::Denied { kind: k, property: q }) && k@ == kind@
            && pred_props(*pred).contains(q@) && !acl.allows(kind@, q@)),
{
    let props = pred.properties();
    let ghost pv = pred_props(*pred);
    let mut i: usize = 0;
    while i < props.len()
        invariant
            i <= props@.len(),
            crate::strs::strs(props@) == pv,
            pv == pred_props(*pred),
            forall|k: int| 0 <= k < i ==> acl.allows(kind@, #[trigger] pv[k]),
        decreases props@.len() - i,
    {
        assert(pv[i as int] == props@[i as int]@);
        match acl.check(kind, props[i].as_str()) {
            Ok(()) => {},
            Err(e) => return Err(ComputeError::Acl(e)),
        }
        i = i + 1;
    }
    Ok(())
}

/// Whether two spellings are canonical values of `t` and the same value.
fn stored_eq(t: PropertyType, stored: &str, expected: &str) -> (b: bool)
    ensures
        b == same_canonical(t, stored@, expected@),
{
    match (t.parse_canonical(stored), t.parse_canonical(expected)) {
        (Ok(left), Ok(right)) => crate::value::same_value(&left, &right),
        _ => false,
    }
}

fn opt_as_str(o: &Option<String>) -> (r: Option<&str>)
    ensures
        match r {
            Some(s) => opt_view(*o) == Some(s@),
            None => o is None,
        },
{
    match o {
        Some(s) => Some(s.as_str()),
        None => None,
    }
}

/// Whether the visible object `(kind, key)` satisfies `pred`.
pub fn matches_predicate(store: &Store, kind: &str, key: &str, pred: &Predicate) -> (r: Result<bool, ComputeError>)
    ensures
        match r {
            Ok(b) => pred_eval(store@.rows, kind@, key@, *pred) == Some(b),
            Err(_) => pred_eval(store@.rows, kind@, key@, *pred) is None,
        },
    decreases pred, 0int,
{
    let maps = store.joins();
    match pred {
        Predicate::Eq { property, value } => {
            let stored = match maps.prop(kind, key, property.as_str()) {
                None => return Ok(false),
                Some(s) => s,
            };
            let t = match property_type(store, kind, property.as_str()) {
                Ok(t) => t,
                Err(e) => return Err(e),
            };
            Ok(stored_eq(t, stored, value.as_str()))
        },
        Predicate::Neq { property, value } => {
            let stored = match maps.prop(kind, key, property.as_str()) {
                None => return Ok(false),
                Some(s) => s,
            };
            let t = match property_type(store, kind, property.as_str()) {
                Ok(t) => t,
                Err(e) => return Err(e),
            };
            Ok(!stored_eq(t, stored, value.as_str()))
        },
        Predicate::Range { property, min, max } => {
            let stored = match maps.prop(kind, key, property.as_str()) {
                None => return Ok(false),
                Some(s) => s,
            };
            let t = match property_type(store, kind, property.as_str()) {
                Ok(t) => t,
                Err(e) => return Err(e),
            };
            match t.in_range(stored, opt_as_str(min), opt_as_str(max)) {
                Ok(b) => Ok(b),
                Err(e) => Err(ComputeError::Predicate(e)),
            }
        },
        Predicate::Missing { property } => Ok(maps.prop(kind, key, property.as_str()).is_none()),
        Predicate::And(args) => matches_all(store, kind, key, args),
        Predicate::Or(args) => matches_any(store, kind, key, args),
        Predicate::Not(inner) => match matches_predicate(store, kind, key, inner) {
            Ok(b) => Ok(!b),
            Err(e) => Err(e),
        },
    }
}

fn matches_all(store: &Store, kind: &str, key: &str, args: &Vec<Predicate>) -> (r: Result<bool, ComputeError>)
    ensures
        match r {
            Ok(b) => and_eval(store@.rows, kind@, key@, args@, 0) == Some(b),
            Err(_) => and_eval(store@.rows, kind@, key@, args@, 0) is None,
        },
    decreases args@, 1int,
{
    let ghost rows = store@.rows;
    let mut i: usize = 0;
    while i < args.len()
        invariant
            i <= args@.len(),
            rows == store@.rows,
            and_eval(rows, kind@, key@, args@, 0) == and_eval(rows, kind@, key@, args@, i as int),
        decreases args@.len() - i,
    {
        proof {
            assert(decreases_to!(args@, 1int => args@[i as int], 0int));
        }
        match matches_predicate(store, kind, key, &args[i]) {
            Ok(true) => {},
            Ok(false) => return Ok(false),
            Err(e) => return Err(e),
        }
        i = i + 1;
    }
    Ok(true)
}

fn matches_any(store: &Store, kind: &str, key: &str, args: &Vec<Predicate>) -> (r: Result<bool, ComputeError>)
    ensures
        match r {
            Ok(b) => or_eval(store@.rows, kind@, key@, args@, 0) == Some(b),
            Err(_) => or_eval(store@.rows, kind@, key@, args@, 0) is None,
        },
    decreases args@, 1int,
{
    let ghost rows = store@.rows;
    let mut i: usize = 0;
    while i < args.len()
        invariant
            i <= args@.len(),
            rows == store@.rows,
            or_eval(rows, kind@, key@, args@, 0) == or_eval(rows, kind@, key@, args@, i as int),
        decreases args@.len() - i,
    {
        proof {
            assert(decreases_to!(args@, 1int => args@[i as int], 0int));
        }
        match matches_predicate(store, kind, key, &args[i]) {
            Ok(true) => return Ok(true),
            Ok(false) => {},
            Err(e) => return Err(e),
        }
        i = i + 1;
    }
    Ok(false)
}

/// Whether a hop keeps `child`: the request sees it and, when the hop has a
/// predicate, it satisfies it; `None` when evaluation fails.
pub open spec fn keeps(rows: Seq<RowView>, acl: PropertyAcl, far_kind: Seq<char>, child: Seq<char>, pred: Option<Predicate>) -> Option<bool> {
    if !acl.shows(far_kind, child) {
        Some(false)
    } else {
        match pred {
            None => Some(true),
            Some(p) => pred_eval(rows, far_kind, child, p),
        }
    }
}

/// The paths from `root` to each kept child, in order.
pub open spec fn kept_paths(
    rows: Seq<RowView>,
    acl: PropertyAcl,
    root: Seq<char>,
    kids: Seq<Seq<char>>,
    far_kind: Seq<char>,
    pred: Option<Predicate>,
) -> Option<Seq<(Seq<char>, Seq<char>)>>
    decreases kids.len(),
{
    if kids.len() == 0 {
        Some(seq![])
    } else {
        match kept_paths(rows, acl, root, kids.drop_last(), far_kind, pred) {
            None => None,
            Some(prev) => match keeps(rows, acl, far_kind, kids.last(), pred) {
                None => None,
                Some(true) => Some(prev.push((root, kids.last()))),
                Some(false) => Some(prev),
            },
        }
    }
}

/// Extend every path by one hop, keeping only kept children.
#[verifier::opaque]
pub open spec fn expand_kept(
    rows: Seq<RowView>,
    acl: PropertyAcl,
    paths: Seq<(Seq<char>, Seq<char>)>,
    frontier: Seq<char>,
    hop: Hop,
) -> Option<Seq<(Seq<char>, Seq<char>)>>
    decreases paths.len(),
{
    if paths.len() == 0 {
        Some(seq![])
    } else {
        match expand_kept(rows, acl, paths.drop_last(), frontier, hop) {
            None => None,
            Some(prev) => match kept_paths(
                rows,
                acl,
                paths.last().0,
                targets(rows, frontier, paths.last().1, hop.far_kind@, hop.join_property@, hop.incoming),
                hop.far_kind@,
                hop.predicate,
            ) {
                None => None,
                Some(k) => Some(prev + k),
            },
        }
    }
}

/// The paths that survive every hop from `frontier`.
pub open spec fn walk_kept(
    rows: Seq<RowView>,
    acl: PropertyAcl,
    paths: Seq<(Seq<char>, Seq<char>)>,
    frontier: Seq<char>,
    hops: Seq<Hop>,
) -> Option<Seq<(Seq<char>, Seq<char>)>>
    decreases hops.len(),
{
    if hops.len() == 0 {
        Some(paths)
    } else {
        match expand_kept(rows, acl, paths, frontier, hops[0]) {
            None => None,
            Some(next) => walk_kept(rows, acl, next, hops[0].far_kind@, hops.drop_first()),
        }
    }
}

/// The kind of the walk's leaves: the last hop's far kind, or the root kind.
pub open spec fn result_kind_of(root_kind: Seq<char>, hops: Seq<Hop>) -> Seq<char> {
    if hops.len() == 0 {
        root_kind
    } else {
        hops.last().far_kind@
    }
}

proof fn lemma_kept_none(
    rows: Seq<RowView>,
    acl: PropertyAcl,
    root: Seq<char>,
    kids: Seq<Seq<char>>,
    n: int,
    far_kind: Seq<char>,
    pred: Option<Predicate>,
)
    requires
        0 <= n <= kids.len(),
        kept_paths(rows, acl, root, kids.subrange(0, n), far_kind, pred) is None,
    ensures
        kept_paths(rows, acl, root, kids, far_kind, pred) is None,
    decreases kids.len() - n,
{
    if n < kids.len() {
        let next = kids.subrange(0, n + 1);
        assert(next.drop_last() =~= kids.subrange(0, n));
        lemma_kept_none(rows, acl, root, kids, n + 1, far_kind, pred);
    } else {
        assert(kids.subrange(0, n) =~= kids);
    }
}

proof fn lemma_expand_none(
    rows: Seq<RowView>,
    acl: PropertyAcl,
    paths: Seq<(Seq<char>, Seq<char>)>,
    n: int,
    frontier: Seq<char>,
    hop: Hop,
)
    requires
        0 <= n <= paths.len(),
        expand_kept(rows, acl, paths.subrange(0, n), frontier, hop) is None,
    ensures
        expand_kept(rows, acl, paths, frontier, hop) is None,
    decreases paths.len() - n,
{
    reveal(expand_kept);
    if n < paths.len() {
        let next = paths.subrange(0, n + 1);
        assert(next.drop_last() =~= paths.subrange(0, n));
        lemma_expand_none(rows, acl, paths, n + 1, frontier, hop);
    } else {
        assert(paths.subrange(0, n) =~= paths);
    }
}

/// Extend every path by `hop`, keeping the children the request sees and
/// the hop's predicate accepts.
fn expand_hop(
    store: &Store,
    acl: &PropertyAcl,
    paths: &Vec<(String, String)>,
    frontier: &str,
    hop: &Hop,
) -> (r: Result<Vec<(String, String)>, ComputeError>)
    ensures
        match r {
            Ok(next) => expand_kept(store@.rows, *acl, paths_view(paths@), frontier@, *hop) == Some(paths_view(next@)),
            Err(_) => expand_kept(store@.rows, *acl, paths_view(paths@), frontier@, *hop) is None,
        },
{
    let maps = store.joins();
    let ghost rows = store@.rows;
    proof {
        reveal(expand_kept);
    }
    let mut next: Vec<(String, String)> = Vec::new();
    let mut i: usize = 0;
    assert(paths_view(paths@).subrange(0, 0) =~= Seq::<(Seq<char>, Seq<char>)>::empty());
    assert(paths_view(next@) =~= Seq::<(Seq<char>, Seq<char>)>::empty());
    while i < paths.len()
        invariant
            i <= paths@.len(),
            rows == store@.rows,
            maps@ == rows,
            expand_kept(rows, *acl, paths_view(paths@).subrange(0, i as int), frontier@, *hop) == Some(
                paths_view(next@),
            ),
        decreases paths@.len() - i,
    {
        proof {
            reveal(expand_kept);
        }
        let root = &paths[i].0;
        let parent = &paths[i].1;
        let ghost pv = paths_view(paths@);
        assert(pv[i as int] == (root@, parent@));
        let kids = maps.hop_targets(frontier, parent.as_str(), hop.far_kind.as_str(), hop.join_property.as_str(), hop.incoming);
        let ghost kv = kids@.map_values(|s: String| s@);
        let ghost before = paths_view(next@);
        let mut kept: Vec<(String, String)> = Vec::new();
        let mut j: usize = 0;
        assert(kv.subrange(0, 0) =~= Seq::<Seq<char>>::empty());
        assert(paths_view(kept@) =~= Seq::<(Seq<char>, Seq<char>)>::empty());
        while j < kids.len()
            invariant
                j <= kids@.len(),
                rows == store@.rows,
                maps@ == rows,
                kv == kids@.map_values(|s: String| s@),
                kv == targets(rows, frontier@, parent@, hop.far_kind@, hop.join_property@, hop.incoming),
                pv == paths_view(paths@),
                i < paths@.len(),
                pv[i as int] == (root@, parent@),
                expand_kept(rows, *acl, pv.subrange(0, i as int), frontier@, *hop) == Some(before),
                kept_paths(rows, *acl, root@, kv.subrange(0, j as int), hop.far_kind@, hop.predicate) == Some(
                    paths_view(kept@),
                ),
            decreases kids@.len() - j,
        {
            let child = kids[j].as_str();
            assert(kv[j as int] == child@);
            assert(kv.subrange(0, j + 1).drop_last() =~= kv.subrange(0, j as int));
            assert(kv.subrange(0, j + 1).last() == child@);
            let keep = if !acl.object_visible(hop.far_kind.as_str(), child) {
                false
            } else {
                match &hop.predicate {
                    None => true,
                    Some(p) => match matches_predicate(store, hop.far_kind.as_str(), child, p) {
                        Ok(b) => b,
                        Err(e) => {
                            proof {
                                reveal(expand_kept);
                                lemma_kept_none(rows, *acl, root@, kv, j + 1, hop.far_kind@, hop.predicate);
                                assert(pv.subrange(0, i + 1).drop_last() =~= pv.subrange(0, i as int));
                                assert(pv.subrange(0, i + 1).last() == (root@, parent@));
                                lemma_expand_none(rows, *acl, pv, i + 1, frontier@, *hop);
                            }
                            return Err(e);
                        },
                    },
                }
            };
            if keep {
                let ghost kb = paths_view(kept@);
                kept.push((root.clone(), kids[j].clone()));
                assert(paths_view(kept@) =~= kb.push((root@, child@)));
            }
            j = j + 1;
        }
        assert(kv.subrange(0, kids@.len() as int) =~= kv);
        proof {
            assert(pv.subrange(0, i + 1).drop_last() =~= pv.subrange(0, i as int));
            assert(pv.subrange(0, i + 1).last() == (root@, parent@));
        }
        let mut kept = kept;
        next.append(&mut kept);
        assert(paths_view(next@) =~= before + paths_view(kept@).subrange(0, 0) + kept_paths(rows, *acl, root@, kv, hop.far_kind@, hop.predicate).unwrap()) by {
            assert(paths_view(next@) =~= before + kept_paths(rows, *acl, root@, kv, hop.far_kind@, hop.predicate).unwrap());
        }
        i = i + 1;
    }
    assert(paths_view(paths@).subrange(0, paths@.len() as int) =~= paths_view(paths@));
    Ok(next)
}

/// The keys among `keys` that the request sees as objects of `kind`.
pub open spec fn shown_keys(acl: PropertyAcl, kind: Seq<char>, keys: Seq<Seq<char>>) -> Seq<Seq<char>>
    decreases keys.len(),
{
    if keys.len() == 0 {
        seq![]
    } else {
        let rest = shown_keys(acl, kind, keys.drop_last());
        if acl.shows(kind, keys.last()) {
            rest.push(keys.last())
        } else {
            rest
        }
    }
}

/// The keys among `keys` whose objects of `kind` satisfy `pred`; `None`
/// when evaluation fails on one of them.
pub open spec fn selected_keys(rows: Seq<RowView>, kind: Seq<char>, keys: Seq<Seq<char>>, pred: Predicate) -> Option<Seq<Seq<char>>>
    decreases keys.len(),
{
    if keys.len() == 0 {
        Some(seq![])
    } else {
        match selected_keys(rows, kind, keys.drop_last(), pred) {
            None => None,
            Some(rest) => match pred_eval(rows, kind, keys.last(), pred) {
                None => None,
                Some(true) => Some(rest.push(keys.last())),
                Some(false) => Some(rest),
            },
        }
    }
}

/// The roots of an evaluation: visible objects of the root kind, or those
/// matching the filter, that the request sees and the predicate accepts.
pub open spec fn root_keys(rows: Seq<RowView>, req: EvaluateRequest) -> Option<Seq<Seq<char>>> {
    let base = match req.filter {
        Some(f) => match_keys(rows, req.root_kind@, f.property@, f.value@),
        None => kind_keys(rows, req.root_kind@),
    };
    let shown = shown_keys(req.acl, req.root_kind@, base);
    match req.predicate {
        None => Some(shown),
        Some(p) => selected_keys(rows, req.root_kind@, shown, p),
    }
}

proof fn lemma_selected_none(rows: Seq<RowView>, kind: Seq<char>, keys: Seq<Seq<char>>, n: int, pred: Predicate)
    requires
        0 <= n <= keys.len(),
        selected_keys(rows, kind, keys.subrange(0, n), pred) is None,
    ensures
        selected_keys(rows, kind, keys, pred) is None,
    decreases keys.len() - n,
{
    if n < keys.len() {
        assert(keys.subrange(0, n + 1).drop_last() =~= keys.subrange(0, n));
        lemma_selected_none(rows, kind, keys, n + 1, pred);
    } else {
        assert(keys.subrange(0, n) =~= keys);
    }
}

/// The roots of the request, in row order.
fn root_ids(store: &Store, request: &EvaluateRequest) -> (r: Result<Vec<String>, ComputeError>)
    requires
        !(request.filter is Some && request.predicate is Some),
    ensures
        match r {
            Ok(v) => root_keys(store@.rows, *request) == Some(strs_view(v@)),
            Err(_) => root_keys(store@.rows, *request) is None,
        },
{
    let maps = store.joins();
    let ghost rows = store@.rows;
    let kind = request.root_kind.as_str();
    let base = match &request.filter {
        Some(f) => maps.matching_keys(kind, f.property.as_str(), f.value.as_str()),
        None => maps.visible_keys(kind),
    };
    let ghost bv = strs_view(base@);
    let mut shown: Vec<String> = Vec::new();
    let mut i: usize = 0;
    assert(bv.subrange(0, 0) =~= Seq::<Seq<char>>::empty());
    assert(strs_view(shown@) =~= Seq::<Seq<char>>::empty());
    while i < base.len()
        invariant
            i <= base@.len(),
            bv == strs_view(base@),
            strs_view(shown@) == shown_keys(request.acl, kind@, bv.subrange(0, i as int)),
        decreases base@.len() - i,
    {
        assert(bv[i as int] == base@[i as int]@);
        assert(bv.subrange(0, i + 1).drop_last() =~= bv.subrange(0, i as int));
        let ghost before = strs_view(shown@);
        if request.acl.object_visible(kind, base[i].as_str()) {
            shown.push(base[i].clone());
            assert(strs_view(shown@) =~= before.push(bv[i as int]));
        }
        i = i + 1;
    }
    assert(bv.subrange(0, base@.len() as int) =~= bv);
    let pred = match &request.predicate {
        None => return Ok(shown),
        Some(p) => p,
    };
    select_keys(store, kind, &shown, pred)
}

/// The keys among `keys` whose objects of `kind` satisfy `pred`, in order.
fn select_keys(store: &Store, kind: &str, keys: &Vec<String>, pred: &Predicate) -> (r: Result<Vec<String>, ComputeError>)
    ensures
        match r {
            Ok(v) => selected_keys(store@.rows, kind@, strs_view(keys@), *pred) == Some(strs_view(v@)),
            Err(_) => selected_keys(store@.rows, kind@, strs_view(keys@), *pred) is None,
        },
{
    let ghost rows = store@.rows;
    let ghost sv = strs_view(keys@);
    let mut kept: Vec<String> = Vec::new();
    let mut j: usize = 0;
    assert(sv.subrange(0, 0) =~= Seq::<Seq<char>>::empty());
    assert(strs_view(kept@) =~= Seq::<Seq<char>>::empty());
    while j < keys.len()
        invariant
            j <= keys@.len(),
            sv == strs_view(keys@),
            rows == store@.rows,
            selected_keys(rows, kind@, sv.subrange(0, j as int), *pred) == Some(strs_view(kept@)),
        decreases keys@.len() - j,
    {
        assert(sv[j as int] == keys@[j as int]@);
        assert(sv.subrange(0, j + 1).drop_last() =~= sv.subrange(0, j as int));
        let ghost before = strs_view(kept@);
        match matches_predicate(store, kind, keys[j].as_str(), pred) {
            Ok(true) => {
                kept.push(keys[j].clone());
                assert(strs_view(kept@) =~= before.push(sv[j as int]));
            },
            Ok(false) => {},
            Err(e) => {
                proof {
                    lemma_selected_none(rows, kind@, sv, j + 1, *pred);
                }
                return Err(e);
            },
        }
        j = j + 1;
    }
    assert(sv.subrange(0, keys@.len() as int) =~= sv);
    Ok(kept)
}

/// What a walk yields: the paths that survive every hop.
fn walk_hops(store: &Store, request: &EvaluateRequest, roots: &Vec<String>) -> (r: Result<Vec<(String, String)>, ComputeError>)
    ensures
        match r {
            Ok(ps) => walk_kept(store@.rows, request.acl, start_paths(strs_view(roots@)), request.root_kind@, request.hops@)
                == Some(paths_view(ps@)),
            Err(_) => walk_kept(store@.rows, request.acl, start_paths(strs_view(roots@)), request.root_kind@, request.hops@) is None,
        },
{
    let ghost rows = store@.rows;
    let mut paths: Vec<(String, String)> = Vec::new();
    let mut i: usize = 0;
    while i < roots.len()
        invariant
            i <= roots@.len(),
            paths_view(paths@) == start_paths(strs_view(roots@.subrange(0, i as int))),
        decreases roots@.len() - i,
    {
        let ghost old_paths = paths_view(paths@);
        paths.push((roots[i].clone(), roots[i].clone()));
        proof {
            assert(paths_view(paths@) =~= old_paths.push((roots@[i as int]@, roots@[i as int]@)));
            assert(strs_view(roots@.subrange(0, i + 1)) =~= strs_view(roots@.subrange(0, i as int)).push(
                roots@[i as int]@,
            ));
            assert(paths_view(paths@) =~= start_paths(strs_view(roots@.subrange(0, i + 1))));
        }
        i = i + 1;
    }
    assert(roots@.subrange(0, roots@.len() as int) =~= roots@);
    walk_from(store, &request.acl, paths, request.root_kind.as_str(), &request.hops)
}

/// Walk every hop from `paths`, whose leaves are of `frontier`.
fn walk_from(store: &Store, acl: &PropertyAcl, paths: Vec<(String, String)>, frontier: &str, hops: &Vec<Hop>) -> (r: Result<Vec<(String, String)>, ComputeError>)
    ensures
        match r {
            Ok(ps) => walk_kept(store@.rows, *acl, paths_view(paths@), frontier@, hops@) == Some(paths_view(ps@)),
            Err(_) => walk_kept(store@.rows, *acl, paths_view(paths@), frontier@, hops@) is None,
        },
{
    let ghost rows = store@.rows;
    let ghost hv = hops@;
    let ghost whole = walk_kept(rows, *acl, paths_view(paths@), frontier@, hv);
    assert(hv.subrange(0, hv.len() as int) =~= hv);
    let mut cur = paths;
    let mut at: &str = frontier;
    let mut h: usize = 0;
    while h < hops.len()
        invariant
            h <= hv.len(),
            hv == hops@,
            rows == store@.rows,
            whole == walk_kept(rows, *acl, paths_view(cur@), at@, hv.subrange(h as int, hv.len() as int)),
            whole == walk_kept(rows, *acl, paths_view(paths@), frontier@, hv),
        decreases hv.len() - h,
    {
        let hop = &hops[h];
        let ghost rest = hv.subrange(h as int, hv.len() as int);
        assert(rest[0] == hop);
        assert(rest.drop_first() =~= hv.subrange(h + 1, hv.len() as int));
        let ghost pv = paths_view(cur@);
        assert(rest.len() > 0);
        assert(walk_kept(rows, *acl, pv, at@, rest) == match expand_kept(rows, *acl, pv, at@, *hop) {
            None => None,
            Some(n) => walk_kept(rows, *acl, n, hop.far_kind@, rest.drop_first()),
        });
        match expand_hop(store, acl, &cur, at, hop) {
            Ok(next) => {
                cur = next;
            },
            Err(e) => {
                return Err(e);
            },
        }
        at = hop.far_kind.as_str();
        h = h + 1;
    }
    assert(hv.subrange(hv.len() as int, hv.len() as int) =~= Seq::<Hop>::empty());
    Ok(cur)
}

/// A result key with the sort property's stored value, if any.
pub struct RankedKey {
    pub key: String,
    pub missing: bool,
    pub value: String,
}

pub struct RankView {
    pub key: Seq<char>,
    pub missing: bool,
    pub value: Seq<char>,
}

pub open spec fn rank_view(r: RankedKey) -> RankView {
    RankView { key: r.key@, missing: r.missing, value: r.value@ }
}

pub open spec fn ranks_view(s: Seq<RankedKey>) -> Seq<RankView> {
    s.map_values(|r: RankedKey| rank_view(r))
}

pub open spec fn reversed(o: Order) -> Order {
    match o {
        Order::Less => Order::Greater,
        Order::Greater => Order::Less,
        Order::Equal => Order::Equal,
    }
}

/// Page order: missing values last; present values by value, reversed when
/// descending; ties by key.
#[verifier::opaque]
pub open spec fn rank_order(t: PropertyType, descending: bool, a: RankView, b: RankView) -> Order {
    let by_value = if a.missing && b.missing {
        Order::Equal
    } else if a.missing {
        Order::Greater
    } else if b.missing {
        Order::Less
    } else {
        let o = value_order(canonical(t, a.value).unwrap(), canonical(t, b.value).unwrap());
        if descending {
            reversed(o)
        } else {
            o
        }
    };
    if by_value != Order::Equal {
        by_value
    } else {
        str_order_spec(a.key, b.key)
    }
}

/// A present value is canonical.
#[verifier::opaque]
pub open spec fn rank_ok(t: PropertyType, a: RankView) -> bool {
    a.missing || canonical(t, a.value) is Some
}

pub proof fn lemma_rank_order(t: PropertyType, descending: bool, a: RankView, b: RankView, c: RankView)
    requires
        rank_ok(t, a),
        rank_ok(t, b),
        rank_ok(t, c),
    ensures
        rank_order(t, descending, a, b) == Order::Less <==> rank_order(t, descending, b, a) == Order::Greater,
        rank_order(t, descending, a, b) == Order::Equal ==> a.key == b.key,
        rank_order(t, descending, a, a) == Order::Equal,
        rank_order(t, descending, a, b) == Order::Less && rank_order(t, descending, b, c) == Order::Less
            ==> rank_order(t, descending, a, c) == Order::Less,
{
    reveal(rank_order);
    reveal(rank_ok);
    let x = if a.missing { if b.missing { c.value } else { b.value } } else { a.value };
    let va = if a.missing { x } else { a.value };
    let vb = if b.missing { va } else { b.value };
    let vc = if c.missing { vb } else { c.value };
    if !a.missing || !b.missing || !c.missing {
        let w = if !a.missing { a.value } else if !b.missing { b.value } else { c.value };
        let pa = if a.missing { w } else { a.value };
        let pb = if b.missing { w } else { b.value };
        let pc = if c.missing { w } else { c.value };
        crate::value::lemma_value_order(t, pa, pb, pc);
        crate::value::lemma_value_order(t, pb, pc, pa);
        crate::value::lemma_value_order(t, pc, pa, pb);
        crate::value::lemma_value_order(t, pc, pb, pa);
        crate::value::lemma_value_order(t, pb, pa, pc);
        crate::value::lemma_value_order(t, pa, pc, pb);
        crate::value::lemma_value_order(t, pa, pa, pa);
        crate::value::lemma_value_order(t, pb, pb, pb);
        crate::value::lemma_value_order(t, pc, pc, pc);
    }
    crate::props::lemma_key_lt_total(a.key, b.key);
    crate::props::lemma_key_lt_total(b.key, c.key);
    crate::props::lemma_key_lt_total(a.key, c.key);
    if crate::props::key_lt(a.key, b.key) {
        crate::props::lemma_key_lt_asymmetric(a.key, b.key);
    }
    if crate::props::key_lt(b.key, a.key) {
        crate::props::lemma_key_lt_asymmetric(b.key, a.key);
    }
    if crate::props::key_lt(a.key, b.key) && crate::props::key_lt(b.key, c.key) {
        crate::props::lemma_key_lt_transitive(a.key, b.key, c.key);
    }
}

/// Three-way page order of two ranked keys.
fn rank_compare(t: PropertyType, descending: bool, a: &RankedKey, b: &RankedKey) -> (o: Order)
    requires
        rank_ok(t, rank_view(*a)),
        rank_ok(t, rank_view(*b)),
    ensures
        o == rank_order(t, descending, rank_view(*a), rank_view(*b)),
{
    proof {
        reveal(rank_order);
        reveal(rank_ok);
    }
    let by_value = if a.missing && b.missing {
        Order::Equal
    } else if a.missing {
        Order::Greater
    } else if b.missing {
        Order::Less
    } else {
        let o = match t.compare_canonical(a.value.as_str(), b.value.as_str()) {
            Ok(o) => o,
            Err(_) => Order::Equal,
        };
        if descending {
            match o {
                Order::Less => Order::Greater,
                Order::Greater => Order::Less,
                Order::Equal => Order::Equal,
            }
        } else {
            o
        }
    };
    match by_value {
        Order::Equal => crate::value::str_order(a.key.as_str(), b.key.as_str()),
        _ => by_value,
    }
}

/// Whether `a` comes before `b` in page order.
fn ranks_below(t: PropertyType, descending: bool, a: &RankedKey, b: &RankedKey) -> (r: bool)
    requires
        rank_ok(t, rank_view(*a)),
        rank_ok(t, rank_view(*b)),
    ensures
        r == (rank_order(t, descending, rank_view(*a), rank_view(*b)) == Order::Less),
{
    match rank_compare(t, descending, a, b) {
        Order::Less => true,
        _ => false,
    }
}

/// Ranked keys in strictly increasing page order.
pub open spec fn rank_sorted(t: PropertyType, descending: bool, s: Seq<RankView>) -> bool {
    forall|i: int, j: int| 0 <= i < j < s.len() ==> rank_order(t, descending, #[trigger] s[i], #[trigger] s[j]) == Order::Less
}

/// No two ranked keys share a key.
pub open spec fn keys_distinct(s: Seq<RankView>) -> bool {
    forall|i: int, j: int| 0 <= i < j < s.len() ==> (#[trigger] s[i]).key != (#[trigger] s[j]).key
}

/// Every present value is canonical.
pub open spec fn all_rank_ok(t: PropertyType, s: Seq<RankView>) -> bool {
    forall|i: int| 0 <= i < s.len() ==> rank_ok(t, #[trigger] s[i])
}

/// Insert `x` into `out`, which is in page order and holds no entry with
/// `x`'s key, keeping page order.
fn insert_ranked(t: PropertyType, descending: bool, out: &mut Vec<RankedKey>, x: RankedKey)
    requires
        rank_sorted(t, descending, ranks_view(old(out)@)),
        all_rank_ok(t, ranks_view(old(out)@)),
        rank_ok(t, rank_view(x)),
        forall|q: int| 0 <= q < old(out)@.len() ==> (#[trigger] old(out)@[q]).key@ != x.key@,
    ensures
        rank_sorted(t, descending, ranks_view(final(out)@)),
        all_rank_ok(t, ranks_view(final(out)@)),
        ranks_view(final(out)@).to_set() == ranks_view(old(out)@).to_set().insert(rank_view(x)),
        final(out)@.len() == old(out)@.len() + 1,
{
    let ghost xv = rank_view(x);
    let ghost ov = ranks_view(out@);
    assert forall|q: int| 0 <= q < out@.len() implies rank_ok(t, rank_view(#[trigger] out@[q])) by {
        assert(ov[q] == rank_view(out@[q]));
    }
    let mut p: usize = 0;
    while p < out.len() && ranks_below(t, descending, &out[p], &x)
        invariant
            p <= out@.len(),
            ov == ranks_view(out@),
            all_rank_ok(t, ov),
            forall|q: int| 0 <= q < out@.len() ==> rank_ok(t, rank_view(#[trigger] out@[q])),
            rank_ok(t, xv),
            xv == rank_view(x),
            forall|q: int| 0 <= q < p ==> rank_order(t, descending, #[trigger] ov[q], xv) == Order::Less,
        decreases out@.len() - p,
    {
        assert(ov[p as int] == rank_view(out@[p as int]));
        p = p + 1;
    }
    proof {
        if p < ov.len() {
            assert(ov[p as int] == rank_view(out@[p as int]));
            lemma_rank_order(t, descending, ov[p as int], xv, xv);
            if rank_order(t, descending, ov[p as int], xv) == Order::Equal {
                assert(out@[p as int].key@ != x.key@);
            }
        }
    }
    out.insert(p, x);
    proof {
        let nv = ranks_view(out@);
        assert(nv =~= ov.insert(p as int, xv));
        assert forall|a: int, b: int| 0 <= a < b < nv.len() implies rank_order(t, descending, #[trigger] nv[a], #[trigger] nv[b]) == Order::Less by {
            if a < p && b < p {
                assert(nv[a] == ov[a] && nv[b] == ov[b]);
            } else if a < p && b == p {
            } else if a < p && b > p {
                assert(nv[a] == ov[a] && nv[b] == ov[b - 1]);
            } else if a == p && b > p {
                assert(nv[b] == ov[b - 1]);
                lemma_rank_order(t, descending, xv, ov[p as int], ov[b - 1]);
                if b - 1 > p {
                    assert(rank_order(t, descending, ov[p as int], ov[b - 1]) == Order::Less);
                }
            } else {
                assert(nv[a] == ov[a - 1] && nv[b] == ov[b - 1]);
            }
        }
        assert(nv.to_set() =~= ov.to_set().insert(xv)) by {
            assert forall|y: RankView| nv.to_set().contains(y) <==> ov.to_set().insert(xv).contains(y) by {
                if nv.to_set().contains(y) {
                    let m = choose|m: int| 0 <= m < nv.len() && nv[m] == y;
                    if m < p {
                        assert(ov[m] == y);
                    } else if m > p {
                        assert(ov[m - 1] == y);
                    }
                }
                if ov.to_set().contains(y) {
                    let m = choose|m: int| 0 <= m < ov.len() && ov[m] == y;
                    if m < p {
                        assert(nv[m] == y);
                    } else {
                        assert(nv[m + 1] == y);
                    }
                }
                if y == xv {
                    assert(nv[p as int] == y);
                }
            }
        }
        assert forall|q: int| 0 <= q < nv.len() implies rank_ok(t, #[trigger] nv[q]) by {
            if q < p {
                assert(nv[q] == ov[q]);
            } else if q > p {
                assert(nv[q] == ov[q - 1]);
            }
        }
    }
}

/// `v` in page order.
fn sort_ranked(t: PropertyType, descending: bool, v: Vec<RankedKey>) -> (r: Vec<RankedKey>)
    requires
        all_rank_ok(t, ranks_view(v@)),
        keys_distinct(ranks_view(v@)),
    ensures
        rank_sorted(t, descending, ranks_view(r@)),
        ranks_view(r@).to_set() == ranks_view(v@).to_set(),
        r@.len() == v@.len(),
        all_rank_ok(t, ranks_view(r@)),
{
    let ghost vv = ranks_view(v@);
    let n = v.len();
    let mut out: Vec<RankedKey> = Vec::new();
    let mut v = v;
    assert(ranks_view(out@).to_set() =~= vv.subrange(n as int, n as int).to_set());
    assert(vv.subrange(0, n as int) =~= vv);
    while v.len() > 0
        invariant
            vv.len() == n,
            v@.len() <= n,
            ranks_view(v@) == vv.subrange(0, v@.len() as int),
            all_rank_ok(t, vv),
            keys_distinct(vv),
            rank_sorted(t, descending, ranks_view(out@)),
            ranks_view(out@).to_set() == vv.subrange(v@.len() as int, n as int).to_set(),
            out@.len() + v@.len() == n,
            all_rank_ok(t, ranks_view(out@)),
        decreases v@.len(),
    {
        let ghost k = v@.len() - 1;
        let ghost vb = v@;
        let x = v.pop().unwrap();
        proof {
            assert(ranks_view(vb)[k] == rank_view(vb[k]));
            assert(vb.subrange(0, k) =~= v@);
            assert(rank_view(x) == vv[k]);
            assert(ranks_view(v@) =~= vv.subrange(0, k));
            let ov = ranks_view(out@);
            assert forall|q: int| 0 <= q < out@.len() implies (#[trigger] out@[q]).key@ != x.key@ by {
                assert(ov[q] == rank_view(out@[q]));
                assert(ov.to_set().contains(ov[q]));
                let m = choose|m: int| 0 <= m < n - k - 1 && #[trigger] vv.subrange(k + 1, n as int)[m] == ov[q];
                assert(vv[k + 1 + m] == ov[q]);
            }
            let a = vv.subrange(k, n as int);
            let b = vv.subrange(k + 1, n as int);
            assert(a.to_set() =~= b.to_set().insert(vv[k])) by {
                assert forall|y: RankView| a.to_set().contains(y) <==> b.to_set().insert(vv[k]).contains(y) by {
                    if a.to_set().contains(y) {
                        let m = choose|m: int| 0 <= m < a.len() && a[m] == y;
                        if m > 0 {
                            assert(b[m - 1] == y);
                        }
                    }
                    if b.to_set().contains(y) {
                        let m = choose|m: int| 0 <= m < b.len() && b[m] == y;
                        assert(a[m + 1] == y);
                    }
                    if y == vv[k] {
                        assert(a[0] == y);
                    }
                }
            }
        }
        insert_ranked(t, descending, &mut out, x);
    }
    out
}

/// The ranked keys of `keys` by `property`; `None` when a stored value is
/// not canonical for `t`.
pub open spec fn ranked_of(rows: Seq<RowView>, kind: Seq<char>, property: Seq<char>, t: PropertyType, keys: Seq<Seq<char>>) -> Option<Seq<RankView>>
    decreases keys.len(),
{
    if keys.len() == 0 {
        Some(seq![])
    } else {
        match ranked_of(rows, kind, property, t, keys.drop_last()) {
            None => None,
            Some(rest) => match row_prop(rows, kind, keys.last(), property) {
                None => Some(rest.push(RankView { key: keys.last(), missing: true, value: seq![] })),
                Some(v) => if canonical(t, v) is Some {
                    Some(rest.push(RankView { key: keys.last(), missing: false, value: v }))
                } else {
                    None
                },
            },
        }
    }
}

proof fn lemma_ranked_none(rows: Seq<RowView>, kind: Seq<char>, property: Seq<char>, t: PropertyType, keys: Seq<Seq<char>>, n: int)
    requires
        0 <= n <= keys.len(),
        ranked_of(rows, kind, property, t, keys.subrange(0, n)) is None,
    ensures
        ranked_of(rows, kind, property, t, keys) is None,
    decreases keys.len() - n,
{
    if n < keys.len() {
        assert(keys.subrange(0, n + 1).drop_last() =~= keys.subrange(0, n));
        lemma_ranked_none(rows, kind, property, t, keys, n + 1);
    } else {
        assert(keys.subrange(0, n) =~= keys);
    }
}

proof fn lemma_ranked_keys(rows: Seq<RowView>, kind: Seq<char>, property: Seq<char>, t: PropertyType, keys: Seq<Seq<char>>)
    requires
        ranked_of(rows, kind, property, t, keys) is Some,
    ensures
        ranked_of(rows, kind, property, t, keys).unwrap().len() == keys.len(),
        forall|i: int| 0 <= i < keys.len() ==> (#[trigger] ranked_of(rows, kind, property, t, keys).unwrap()[i]).key == keys[i]
            && rank_ok(t, ranked_of(rows, kind, property, t, keys).unwrap()[i]),
    decreases keys.len(),
{
    reveal(rank_ok);
    if keys.len() > 0 {
        lemma_ranked_keys(rows, kind, property, t, keys.drop_last());
        let r = ranked_of(rows, kind, property, t, keys).unwrap();
        let r0 = ranked_of(rows, kind, property, t, keys.drop_last()).unwrap();
        assert forall|i: int| 0 <= i < keys.len() implies (#[trigger] r[i]).key == keys[i] && rank_ok(t, r[i]) by {
            if i < keys.len() - 1 {
                assert(r[i] == r0[i]);
                assert(keys.drop_last()[i] == keys[i]);
            }
        }
    }
}

/// Rank `keys` of `kind` by the sort property, in page order.
fn rank_keys(store: &Store, kind: &str, keys: &Vec<String>, sort: &Sort) -> (r: Result<(PropertyType, Vec<RankedKey>), ComputeError>)
    requires
        strs_view(keys@).no_duplicates(),
    ensures
        match r {
            Ok((t, v)) => ptype(store@.rows, kind@, sort.property@) == Some(t) && (ranked_of(
                store@.rows,
                kind@,
                sort.property@,
                t,
                strs_view(keys@),
            ) matches Some(u) && rank_sorted(t, sort.descending, ranks_view(v@)) && ranks_view(v@).to_set()
                == u.to_set() && v@.len() == u.len() && all_rank_ok(t, ranks_view(v@))),
            Err(_) => ptype(store@.rows, kind@, sort.property@) is None || ranked_of(
                store@.rows,
                kind@,
                sort.property@,
                ptype(store@.rows, kind@, sort.property@).unwrap(),
                strs_view(keys@),
            ) is None,
        },
{
    let t = match property_type(store, kind, sort.property.as_str()) {
        Ok(t) => t,
        Err(e) => return Err(e),
    };
    let maps = store.joins();
    let ghost rows = store@.rows;
    let ghost kv = strs_view(keys@);
    let mut ranked: Vec<RankedKey> = Vec::new();
    let mut i: usize = 0;
    assert(kv.subrange(0, 0) =~= Seq::<Seq<char>>::empty());
    assert(ranks_view(ranked@) =~= Seq::<RankView>::empty());
    while i < keys.len()
        invariant
            i <= keys@.len(),
            kv == strs_view(keys@),
            rows == store@.rows,
            maps@ == rows,
            ptype(rows, kind@, sort.property@) == Some(t),
            ranked_of(rows, kind@, sort.property@, t, kv.subrange(0, i as int)) == Some(ranks_view(ranked@)),
        decreases keys@.len() - i,
    {
        let key = keys[i].as_str();
        assert(kv[i as int] == key@);
        assert(kv.subrange(0, i + 1).drop_last() =~= kv.subrange(0, i as int));
        let ghost before = ranks_view(ranked@);
        match maps.prop(kind, key, sort.property.as_str()) {
            None => {
                ranked.push(RankedKey { key: key.to_owned(), missing: true, value: String::new() });
                assert(ranks_view(ranked@) =~= before.push(RankView { key: key@, missing: true, value: seq![] }));
            },
            Some(stored) => {
                match t.parse_canonical(stored) {
                    Ok(_) => {},
                    Err(e) => {
                        proof {
                            lemma_ranked_none(rows, kind@, sort.property@, t, kv, i + 1);
                        }
                        return Err(ComputeError::Page(e));
                    },
                }
                ranked.push(RankedKey { key: key.to_owned(), missing: false, value: stored.to_owned() });
                assert(ranks_view(ranked@) =~= before.push(RankView { key: key@, missing: false, value: stored@ }));
            },
        }
        i = i + 1;
    }
    assert(kv.subrange(0, keys@.len() as int) =~= kv);
    proof {
        lemma_ranked_keys(rows, kind@, sort.property@, t, kv);
        let u = ranks_view(ranked@);
        assert forall|a: int, b: int| 0 <= a < b < u.len() implies (#[trigger] u[a]).key != (#[trigger] u[b]).key by {
            assert(kv[a] != kv[b]);
        }
        assert forall|q: int| 0 <= q < u.len() implies rank_ok(t, #[trigger] u[q]) by {
            assert(u[q] == ranked_of(rows, kind@, sort.property@, t, kv).unwrap()[q]);
        }
    }
    let sorted = sort_ranked(t, sort.descending, ranked);
    Ok((t, sorted))
}

/// The entries of `s` after `after` in page order.
pub open spec fn after_cursor(t: PropertyType, descending: bool, s: Seq<RankView>, after: RankView) -> Seq<RankView>
    decreases s.len(),
{
    if s.len() == 0 {
        seq![]
    } else {
        let rest = after_cursor(t, descending, s.drop_last(), after);
        if rank_order(t, descending, s.last(), after) == Order::Greater {
            rest.push(s.last())
        } else {
            rest
        }
    }
}

/// The entries of `ranked` that come after `after`, in order.
fn keep_after(t: PropertyType, descending: bool, ranked: Vec<RankedKey>, after: &RankedKey) -> (r: Vec<RankedKey>)
    requires
        all_rank_ok(t, ranks_view(ranked@)),
        rank_ok(t, rank_view(*after)),
    ensures
        ranks_view(r@) == after_cursor(t, descending, ranks_view(ranked@), rank_view(*after)),
{
    let ghost rv = ranks_view(ranked@);
    let mut kept: Vec<RankedKey> = Vec::new();
    let mut ranked = ranked;
    let n = ranked.len();
    let mut rest: Vec<RankedKey> = Vec::new();
    let mut i: usize = 0;
    assert(rv.subrange(0, 0) =~= Seq::<RankView>::empty());
    assert(ranks_view(kept@) =~= Seq::<RankView>::empty());
    while i < n
        invariant
            i <= n,
            n == ranked@.len(),
            rv == ranks_view(ranked@),
            all_rank_ok(t, rv),
            rank_ok(t, rank_view(*after)),
            ranks_view(kept@) == after_cursor(t, descending, rv.subrange(0, i as int), rank_view(*after)),
        decreases n - i,
    {
        assert(rv[i as int] == rank_view(ranked@[i as int]));
        assert(rv.subrange(0, i + 1).drop_last() =~= rv.subrange(0, i as int));
        let ghost before = ranks_view(kept@);
        let later = match rank_compare(t, descending, &ranked[i], after) {
            Order::Greater => true,
            _ => false,
        };
        if later {
            let row = RankedKey { key: ranked[i].key.clone(), missing: ranked[i].missing, value: ranked[i].value.clone() };
            kept.push(row);
            assert(ranks_view(kept@) =~= before.push(rv[i as int]));
        }
        i = i + 1;
    }
    assert(rv.subrange(0, n as int) =~= rv);
    kept
}

/// The first `page_size` entries and whether more follow; every entry when
/// `page_size` is 0.
fn split_page(ranked: Vec<RankedKey>, page_size: usize) -> (r: (Vec<RankedKey>, bool))
    ensures
        if page_size == 0 || ranked@.len() <= page_size {
            r.0@ == ranked@ && !r.1
        } else {
            r.0@ == ranked@.subrange(0, page_size as int) && r.1
        },
{
    if page_size == 0 || ranked.len() <= page_size {
        return (ranked, false);
    }
    let mut page = ranked;
    page.truncate(page_size);
    (page, true)
}

/// The kind of the result objects: the last hop's far kind, or the root kind.
fn result_kind(request: &EvaluateRequest) -> (k: &str)
    ensures
        k@ == result_kind_of(request.root_kind@, request.hops@),
{
    if request.hops.len() == 0 {
        request.root_kind.as_str()
    } else {
        request.hops[request.hops.len() - 1].far_kind.as_str()
    }
}

/// Sort, pages and cursors ask for objects and a sort property, and a
/// cursor asks for pages.
pub open spec fn page_request_ok(req: EvaluateRequest) -> bool {
    ||| (req.sort is None && req.page_size == 0 && req.cursor is None)
    ||| (req.object_bound > 0 && (req.sort matches Some(s) && s.property@.len() > 0) && !(req.cursor is Some
        && req.page_size == 0))
}

fn check_page_request(request: &EvaluateRequest) -> (r: Result<(), ComputeError>)
    ensures
        r is Ok <==> page_request_ok(*request),
        r matches Err(e) ==> e is Page,
{
    if request.sort.is_none() && request.page_size == 0 && request.cursor.is_none() {
        return Ok(());
    }
    if request.object_bound == 0 {
        return Err(ComputeError::Page(String::from_str("sort and pages require object_bound")));
    }
    let sort = match &request.sort {
        Some(s) => s,
        None => return Err(ComputeError::Page(String::from_str("page_size and cursor require sort"))),
    };
    if sort.property.unicode_len() == 0 {
        return Err(ComputeError::Page(String::from_str("sort property must be non-empty")));
    }
    if request.cursor.is_some() && request.page_size == 0 {
        return Err(ComputeError::Page(String::from_str("cursor requires page_size")));
    }
    Ok(())
}

/// How a page ranks the result keys: by the sort property's value, read as
/// type `t`, in strictly increasing rank order; or, without a sort, in key
/// order, each as a missing string value.
pub open spec fn page_ranks(rows: Seq<RowView>, req: EvaluateRequest, keys: Seq<Seq<char>>, t: PropertyType, ranks: Seq<
    RankView,
>) -> bool {
    match req.sort {
        Some(s) => {
            let kind = result_kind_of(req.root_kind@, req.hops@);
            &&& ptype(rows, kind, s.property@) == Some(t)
            &&& ranked_of(rows, kind, s.property@, t, keys) matches Some(u)
            &&& rank_sorted(t, s.descending, ranks)
            &&& ranks.to_set() == u.to_set()
            &&& ranks.len() == u.len()
        },
        None => t == PropertyType::String && ranks == keys.map_values(
            |k: Seq<char>| RankView { key: k, missing: true, value: Seq::<char>::empty() },
        ),
    }
}

/// Whether the request sorts in descending order.
pub open spec fn sort_descending(req: EvaluateRequest) -> bool {
    match req.sort {
        Some(s) => s.descending,
        None => false,
    }
}

/// The ranked keys after the request's cursor: all of them without one; with
/// one, those ranked after the position it names, when it was made for this
/// request at `stamp` and names a value of type `t`. `None` when the cursor
/// does not serve.
pub open spec fn after_page_cursor(req: EvaluateRequest, stamp: (u32, u32, u32), t: PropertyType, ranks: Seq<RankView>) -> Option<
    Seq<RankView>,
> {
    match req.cursor {
        None => Some(ranks),
        Some(token) => match read_token(token@) {
            Some((st, fp, k, m, v)) => if st == stamp && fp == fingerprint(req) && (m || canonical(t, v) is Some) {
                Some(after_cursor(t, sort_descending(req), ranks, RankView { key: k, missing: m, value: v }))
            } else {
                None
            },
            None => None,
        },
    }
}

/// At most `page_size` ranked keys (all of them when it is zero), and
/// whether more follow.
pub open spec fn page_cut(ranks: Seq<RankView>, page_size: usize) -> (Seq<RankView>, bool) {
    if page_size == 0 || ranks.len() <= page_size {
        (ranks, false)
    } else {
        (ranks.subrange(0, page_size as int), true)
    }
}

/// The page listed for the result keys `keys`: the keys ranked for the page,
/// those after the cursor, cut to the page size; `more` when more follow.
pub open spec fn listed_page(rows: Seq<RowView>, stamp: (u32, u32, u32), req: EvaluateRequest, keys: Seq<Seq<char>>, page: Seq<
    RankView,
>, more: bool) -> bool {
    exists|t: PropertyType, ranks: Seq<RankView>|
        #[trigger] page_ranks(rows, req, keys, t, ranks) && (after_page_cursor(req, stamp, t, ranks) matches Some(after)
            && page_cut(after, req.page_size) == (page, more))
}

/// The type a page reads its sort values as: the sort property's type, or
/// string without a sort; `None` when the schema row does not decode.
pub open spec fn page_type(rows: Seq<RowView>, req: EvaluateRequest) -> Option<PropertyType> {
    match req.sort {
        Some(s) => ptype(rows, result_kind_of(req.root_kind@, req.hops@), s.property@),
        None => Some(PropertyType::String),
    }
}

/// Whether a page can be made of the result keys `leaves`: every sort value
/// present reads as the page type, and a cursor, when there is one, was made
/// for this request at `stamp` and names a value of that type.
pub open spec fn page_serves(rows: Seq<RowView>, stamp: (u32, u32, u32), req: EvaluateRequest, leaves: Set<Seq<char>>) -> bool {
    &&& page_type(rows, req) matches Some(t)
    &&& ranks_serve(rows, req, leaves, t)
    &&& cursor_serves(stamp, req, t)
}

/// Whether every present sort value of the leaves reads as `t`.
pub open spec fn ranks_serve(rows: Seq<RowView>, req: EvaluateRequest, leaves: Set<Seq<char>>, t: PropertyType) -> bool {
    req.sort matches Some(s) ==> forall|k: Seq<char>|
        #[trigger] leaves.contains(k) ==> (row_prop(rows, result_kind_of(req.root_kind@, req.hops@), k, s.property@) matches Some(v)
            ==> canonical(t, v) is Some)
}

/// Whether the request's cursor, if any, was made for this query and
/// restriction at writer position `stamp`, after a value that reads as `t`.
pub open spec fn cursor_serves(stamp: (u32, u32, u32), req: EvaluateRequest, t: PropertyType) -> bool {
    req.cursor matches Some(token) ==> (read_token(token@) matches Some((st, fp, k, m, v)) && st == stamp && fp
        == fingerprint(req) && (m || canonical(t, v) is Some))
}

/// Whether an accepted request is answered: its roots and paths are read,
/// and, when it lists objects, they fit the bound, a page can be made of
/// them, and each loads as the request sees it.
pub open spec fn evaluable(store: StoreView, stamp: (u32, u32, u32), req: EvaluateRequest) -> bool {
    &&& root_keys(store.rows, req) matches Some(roots)
    &&& walk_kept(store.rows, req.acl, start_paths(roots), req.root_kind@, req.hops@) matches Some(paths)
    &&& req.object_bound > 0 ==> {
        &&& path_leaves(paths).len() <= req.object_bound
        &&& page_serves(store.rows, stamp, req, path_leaves(paths))
        &&& forall|k: Seq<char>| #[trigger]
            path_leaves(paths).contains(k) ==> loaded(store, req.acl, result_kind_of(req.root_kind@, req.hops@), k) is Some
    }
}

/// How many objects an accepted request lists when that is more than its
/// bound allows.
pub open spec fn over_bound(store: StoreView, req: EvaluateRequest) -> Option<nat> {
    match root_keys(store.rows, req) {
        None => None,
        Some(roots) => match walk_kept(store.rows, req.acl, start_paths(roots), req.root_kind@, req.hops@) {
            None => None,
            Some(paths) => if req.object_bound > 0 && path_leaves(paths).len() > req.object_bound {
                Some(path_leaves(paths).len())
            } else {
                None
            },
        },
    }
}

/// Whether an accepted request that lists objects within its bound is
/// refused for its cursor: the sort values read, but the cursor was made for
/// another query, restriction or writer position, or is no cursor.
pub open spec fn page_refused(store: StoreView, stamp: (u32, u32, u32), req: EvaluateRequest) -> bool {
    match root_keys(store.rows, req) {
        None => false,
        Some(roots) => match walk_kept(store.rows, req.acl, start_paths(roots), req.root_kind@, req.hops@) {
            None => false,
            Some(paths) => req.object_bound > 0 && path_leaves(paths).len() <= req.object_bound && match page_type(
                store.rows,
                req,
            ) {
                None => false,
                Some(t) => ranks_serve(store.rows, req, path_leaves(paths), t) && !cursor_serves(stamp, req, t),
            },
        },
    }
}

/// Ranking keys whose present values all read as `t` succeeds.
proof fn lemma_ranked_some(rows: Seq<RowView>, kind: Seq<char>, property: Seq<char>, t: PropertyType, keys: Seq<Seq<char>>)
    requires
        forall|i: int| 0 <= i < keys.len() ==> (row_prop(rows, kind, #[trigger] keys[i], property) matches Some(v)
            ==> canonical(t, v) is Some),
    ensures
        ranked_of(rows, kind, property, t, keys) is Some,
    decreases keys.len(),
{
    if keys.len() > 0 {
        let init = keys.drop_last();
        assert forall|i: int| 0 <= i < init.len() implies (row_prop(rows, kind, #[trigger] init[i], property) matches Some(v)
            ==> canonical(t, v) is Some) by {
            assert(init[i] == keys[i]);
        }
        lemma_ranked_some(rows, kind, property, t, init);
        assert(keys.last() == keys[keys.len() - 1]);
    }
}

/// The objects and cursor of a listed page: each listed key loaded as the
/// request sees it, in page order, and a cursor after the last one exactly
/// when more follow.
pub open spec fn page_answer(store: StoreView, stamp: (u32, u32, u32), req: EvaluateRequest, page: Seq<RankView>, more: bool, objects: Seq<
    ObjectRecord,
>, cursor: Option<String>) -> bool {
    &&& objects.len() == page.len()
    &&& forall|q: int|
        0 <= q < page.len() ==> load_gives(
            store,
            req.acl,
            result_kind_of(req.root_kind@, req.hops@),
            page[q].key,
            #[trigger] objects[q]@,
        )
    &&& match cursor {
        Some(c) => more && page.len() > 0 && c@ == cursor_token(
            fingerprint(req),
            stamp,
            page.last().key,
            page.last().missing,
            page.last().value,
        ),
        None => !(more && page.len() > 0),
    }
}

/// The page of objects of `keys` (the result keys in increasing key order),
/// with a cursor when more follow.
fn page_objects(store: &Store, request: &EvaluateRequest, keys: Vec<String>) -> (r: Result<(Vec<ObjectRecord>, Option<String>), ComputeError>)
    requires
        store.wf(),
        page_request_ok(*request),
        sorted_strs(strs_view(keys@)),
    ensures
        r matches Ok((objects, cursor)) ==> (request.object_bound == 0 ==> objects@.len() == 0 && cursor is None),
        r matches Ok((objects, cursor)) ==> (request.object_bound > 0 ==> keys@.len() <= request.object_bound),
        r matches Ok((objects, cursor)) ==> (request.object_bound > 0 ==> exists|page: Seq<RankView>, more: bool|
            #[trigger] listed_page(store@.rows, store.spec_stamp(), *request, strs_view(keys@), page, more)
                && page_answer(store@, store.spec_stamp(), *request, page, more, objects@, cursor)),
        request.object_bound > 0 && keys@.len() > request.object_bound ==> (r matches Err(
            ComputeError::ObjectBound { bound, count },
        ) && bound == request.object_bound && count == keys@.len()),
        request.object_bound == 0 ==> r is Ok,
        (page_type(store@.rows, *request) matches Some(t) && request.object_bound > 0 && keys@.len()
            <= request.object_bound && ranks_serve(store@.rows, *request, strs_view(keys@).to_set(), t) && !cursor_serves(
            store.spec_stamp(),
            *request,
            t,
        )) ==> (r matches Err(e) && e is Page),
        (request.object_bound > 0 && keys@.len() <= request.object_bound && page_serves(
            store@.rows,
            store.spec_stamp(),
            *request,
            strs_view(keys@).to_set(),
        ) && forall|k: Seq<char>| #[trigger]
            strs_view(keys@).to_set().contains(k) ==> loaded(
                store@,
                request.acl,
                result_kind_of(request.root_kind@, request.hops@),
                k,
            ) is Some) ==> r is Ok,
{
    if request.object_bound == 0 {
        return Ok((Vec::new(), None));
    }
    if keys.len() > request.object_bound {
        return Err(ComputeError::ObjectBound { bound: request.object_bound, count: keys.len() });
    }
    let kind = result_kind(request);
    proof {
        crate::strs::lemma_sorted_no_duplicates(strs_view(keys@));
        assert(strs_view(keys@) == crate::strs::strs(keys@));
    }
    let ghost kv = strs_view(keys@);
    let ghost rows = store@.rows;
    let ghost promised = page_serves(store@.rows, store.spec_stamp(), *request, kv.to_set()) && forall|k: Seq<char>|
        #[trigger] kv.to_set().contains(k) ==> loaded(store@, request.acl, result_kind_of(request.root_kind@, request.hops@), k)
            is Some;
    let stamp = store.snapshot_stamp();
    let ghost ranks_ok = page_type(rows, *request) matches Some(t0) && ranks_serve(rows, *request, kv.to_set(), t0);
    let (t, ranked) = match &request.sort {
        Some(sort) => match rank_keys(store, kind, &keys, sort) {
            Ok(x) => x,
            Err(e) => {
                proof {
                    if promised || ranks_ok {
                        let pt = page_type(rows, *request).unwrap();
                        assert forall|i: int| 0 <= i < kv.len() implies (row_prop(rows, kind@, #[trigger] kv[i], sort.property@)
                            matches Some(v) ==> canonical(pt, v) is Some) by {
                            assert(kv.to_set().contains(kv[i]));
                        }
                        lemma_ranked_some(rows, kind@, sort.property@, pt, kv);
                    }
                }
                return Err(e);
            },
        },
        None => {
            let mut plain: Vec<RankedKey> = Vec::new();
            let mut i: usize = 0;
            while i < keys.len()
                invariant
                    i <= keys@.len(),
                    plain@.len() == i,
                    forall|q: int| 0 <= q < i ==> (#[trigger] plain@[q]).key@ == keys@[q]@ && plain@[q].missing
                        && plain@[q].value@ == Seq::<char>::empty(),
                decreases keys@.len() - i,
            {
                plain.push(RankedKey { key: keys[i].clone(), missing: true, value: String::new() });
                i = i + 1;
            }
            proof {
                reveal(rank_ok);
                assert forall|q: int| 0 <= q < plain@.len() implies rank_ok(PropertyType::String, #[trigger] ranks_view(plain@)[q]) by {
                    assert(ranks_view(plain@)[q] == rank_view(plain@[q]));
                }
                assert(ranks_view(plain@) =~= kv.map_values(
                    |k: Seq<char>| RankView { key: k, missing: true, value: Seq::<char>::empty() },
                ));
            }
            (PropertyType::String, plain)
        },
    };
    let ghost ranks = ranks_view(ranked@);
    assert(page_ranks(rows, *request, kv, t, ranks));
    assert(all_rank_ok(t, ranks));
    assert(page_type(rows, *request) == Some(t));
    assert forall|q: int| 0 <= q < ranks.len() implies kv.contains(#[trigger] ranks[q].key) by {
        match request.sort {
            Some(srt) => {
                let u = ranked_of(rows, kind@, srt.property@, t, kv).unwrap();
                lemma_ranked_keys(rows, kind@, srt.property@, t, kv);
                assert(ranks.to_set().contains(ranks[q]));
                assert(u.to_set().contains(ranks[q]));
                let m = choose|m: int| 0 <= m < u.len() && u[m] == ranks[q];
                assert(u[m].key == kv[m]);
            },
            None => {
                assert(ranks[q].key == kv[q]);
            },
        }
    }
    let ranked = match &request.cursor {
        None => ranked,
        Some(token) => {
            let c = match decode_cursor(token.as_str(), request, stamp) {
                Ok(c) => c,
                Err(e) => return Err(ComputeError::Page(e)),
            };
            if !c.after_missing {
                match t.parse_canonical(c.after_value.as_str()) {
                    Ok(_) => {},
                    Err(e) => return Err(ComputeError::Page(e)),
                }
            }
            let after = RankedKey { key: c.after_key, missing: c.after_missing, value: c.after_value };
            proof {
                reveal(rank_ok);
            }
            let descending = match &request.sort {
                Some(s) => s.descending,
                None => false,
            };
            let kept = keep_after(t, descending, ranked, &after);
            proof {
                lemma_after_subset(t, descending, ranks, rank_view(after));
                assert forall|q: int| 0 <= q < kept@.len() implies kv.contains(#[trigger] ranks_view(kept@)[q].key) by {
                    let m = choose|m: int| 0 <= m < ranks.len() && ranks[m] == ranks_view(kept@)[q];
                    assert(kv.contains(ranks[m].key));
                }
            }
            kept
        },
    };
    assert(after_page_cursor(*request, stamp, t, ranks) == Some(ranks_view(ranked@)));
    assert(cursor_serves(stamp, *request, t));
    let ghost served = cursor_serves(store.spec_stamp(), *request, t) && page_type(rows, *request) == Some(t);
    let ghost rv = ranks_view(ranked@);
    assert(forall|q: int| 0 <= q < rv.len() ==> kv.contains(#[trigger] rv[q].key));
    let (page, has_more) = split_page(ranked, request.page_size);
    let ghost pv = ranks_view(page@);
    assert forall|q: int| 0 <= q < pv.len() implies kv.contains(#[trigger] pv[q].key) by {
        assert(pv[q] == rv[q]);
    }
    assert(page_cut(rv, request.page_size) == (pv, has_more)) by {
        if !(request.page_size == 0 || rv.len() <= request.page_size) {
            assert(pv =~= rv.subrange(0, request.page_size as int));
        }
    }
    assert(listed_page(rows, stamp, *request, kv, pv, has_more));
    let cursor = if has_more && page.len() > 0 {
        let last = &page[page.len() - 1];
        assert(pv.last() == rank_view(*last));
        Some(encode_cursor(request, stamp, last.key.as_str(), last.missing, last.value.as_str()))
    } else {
        None
    };
    let mut objects: Vec<ObjectRecord> = Vec::new();
    let mut i: usize = 0;
    while i < page.len()
        invariant
            i <= page@.len(),
            objects@.len() == i,
            store.wf(),
            kind@ == result_kind_of(request.root_kind@, request.hops@),
            keys@.len() <= request.object_bound,
            pv == ranks_view(page@),
            forall|q: int| 0 <= q < pv.len() ==> kv.contains(#[trigger] pv[q].key),
            promised == (page_serves(store@.rows, store.spec_stamp(), *request, kv.to_set()) && forall|k: Seq<char>|
                #[trigger] kv.to_set().contains(k) ==> loaded(store@, request.acl, result_kind_of(request.root_kind@, request.hops@), k)
                    is Some),
            kv == strs_view(keys@),
            served == (cursor_serves(store.spec_stamp(), *request, t) && page_type(store@.rows, *request) == Some(t)),
            served,
            forall|q: int| 0 <= q < i ==> load_gives(store@, request.acl, kind@, pv[q].key, #[trigger] objects@[q]@),
        decreases page@.len() - i,
    {
        assert(pv[i as int] == rank_view(page@[i as int]));
        match store.load(kind, page[i].key.as_str(), &request.acl) {
            Ok(o) => {
                objects.push(o);
            },
            Err(e) => {
                proof {
                    assert(kv.contains(pv[i as int].key));
                    assert(kv.to_set().contains(pv[i as int].key));
                }
                return Err(ComputeError::Load(e));
            },
        }
        i = i + 1;
    }
    assert(page_answer(store@, store.spec_stamp(), *request, pv, has_more, objects@, cursor));
    assert(listed_page(store@.rows, store.spec_stamp(), *request, strs_view(keys@), pv, has_more));
    Ok((objects, cursor))
}

proof fn lemma_after_subset(t: PropertyType, descending: bool, s: Seq<RankView>, after: RankView)
    ensures
        forall|q: int| 0 <= q < after_cursor(t, descending, s, after).len() ==> s.contains(
            #[trigger] after_cursor(t, descending, s, after)[q],
        ),
        after_cursor(t, descending, s, after).len() <= s.len(),
    decreases s.len(),
{
    if s.len() > 0 {
        lemma_after_subset(t, descending, s.drop_last(), after);
        let a = after_cursor(t, descending, s, after);
        let a0 = after_cursor(t, descending, s.drop_last(), after);
        assert forall|q: int| 0 <= q < a.len() implies s.contains(#[trigger] a[q]) by {
            if q < a0.len() {
                assert(a[q] == a0[q]);
                let m = choose|m: int| 0 <= m < s.drop_last().len() && s.drop_last()[m] == a0[q];
                assert(s[m] == a0[q]);
            } else {
                assert(a[q] == s.last());
                assert(s[s.len() - 1] == s.last());
            }
        }
    }
}

/// Every hop's join property may be read where the join reads it, and every
/// hop predicate may be read, is well shaped and is typed.
pub open spec fn hops_ok(rows: Seq<RowView>, acl: PropertyAcl, frontier: Seq<char>, hops: Seq<Hop>) -> bool
    decreases hops.len(),
{
    if hops.len() == 0 {
        true
    } else {
        let h = hops[0];
        let join_kind = if h.incoming {
            frontier
        } else {
            h.far_kind@
        };
        &&& acl.allows(join_kind, h.join_property@)
        &&& (h.predicate matches Some(p) ==> pred_allowed(acl, h.far_kind@, p)
            && crate::objectset::shape_ok(p) && pred_typed(rows, h.far_kind@, p))
        &&& hops_ok(rows, acl, h.far_kind@, hops.drop_first())
    }
}

/// Whether `e` is a refusal of a predicate on `kind` by the request's deny
/// list: a denial of a property the predicate reads.
pub open spec fn pred_denial(acl: PropertyAcl, kind: Seq<char>, p: Predicate, e: ComputeError) -> bool {
    e matches ComputeError::Acl(AclError::Denied { kind: k, property: q }) && k@ == kind && pred_props(p).contains(q@)
        && !acl.allows(kind, q@)
}

/// Whether `e` is how the first failing hop check refuses: a denied join
/// property, a denied hop predicate property, or a badly shaped or typed
/// hop predicate, hop by hop.
pub open spec fn hop_refusal(rows: Seq<RowView>, acl: PropertyAcl, frontier: Seq<char>, hops: Seq<Hop>, e: ComputeError) -> bool
    decreases hops.len(),
{
    if hops.len() == 0 {
        false
    } else {
        let h = hops[0];
        let join_kind = if h.incoming {
            frontier
        } else {
            h.far_kind@
        };
        if !acl.allows(join_kind, h.join_property@) {
            e matches ComputeError::Acl(AclError::Denied { kind: k, property: q }) && k@ == join_kind && q@
                == h.join_property@
        } else if h.predicate matches Some(p) && !pred_allowed(acl, h.far_kind@, p) {
            pred_denial(acl, h.far_kind@, h.predicate.unwrap(), e)
        } else if h.predicate matches Some(p) && !crate::objectset::shape_ok(p) {
            e matches ComputeError::Predicate(m) && shape_message(m@)
        } else if h.predicate matches Some(p) && !pred_typed(rows, h.far_kind@, p) {
            e is Predicate || e is Load
        } else {
            hop_refusal(rows, acl, h.far_kind@, hops.drop_first(), e)
        }
    }
}

/// Whether `e` is how the checks refuse `req`, taken in order: the sum
/// property's denial; a filter together with a predicate; the filter
/// property's denial; the predicate's denial, shape or types; the page
/// parameters; the sort property's denial; then the hops.
pub open spec fn refused_as(rows: Seq<RowView>, req: EvaluateRequest, e: ComputeError) -> bool {
    if !req.acl.allows(req.sum_kind@, req.sum_property@) {
        e matches ComputeError::Acl(AclError::Denied { kind, property }) && kind@ == req.sum_kind@ && property@
            == req.sum_property@
    } else if req.filter is Some && req.predicate is Some {
        e matches ComputeError::Predicate(m) && m@ == "evaluate accepts filter or predicate, not both"@
    } else if req.filter matches Some(f) && !req.acl.allows(req.root_kind@, f.property@) {
        e matches ComputeError::Acl(AclError::Denied { kind, property }) && kind@ == req.root_kind@ && property@
            == req.filter.unwrap().property@
    } else if req.predicate matches Some(p) && !pred_allowed(req.acl, req.root_kind@, p) {
        pred_denial(req.acl, req.root_kind@, req.predicate.unwrap(), e)
    } else if req.predicate matches Some(p) && !crate::objectset::shape_ok(p) {
        e matches ComputeError::Predicate(m) && shape_message(m@)
    } else if req.predicate matches Some(p) && !pred_typed(rows, req.root_kind@, p) {
        e is Predicate || e is Load
    } else if !page_request_ok(req) {
        e is Page
    } else if req.sort matches Some(st) && !req.acl.allows(result_kind_of(req.root_kind@, req.hops@), st.property@) {
        e matches ComputeError::Acl(AclError::Denied { kind, property }) && kind@ == result_kind_of(
            req.root_kind@,
            req.hops@,
        ) && property@ == req.sort.unwrap().property@
    } else {
        hop_refusal(rows, req.acl, req.root_kind@, req.hops@, e)
    }
}

/// The checks an evaluation passes before it reads any object.
pub open spec fn request_ok(rows: Seq<RowView>, req: EvaluateRequest) -> bool {
    &&& req.acl.allows(req.sum_kind@, req.sum_property@)
    &&& !(req.filter is Some && req.predicate is Some)
    &&& (req.filter matches Some(f) ==> req.acl.allows(req.root_kind@, f.property@))
    &&& (req.predicate matches Some(p) ==> pred_allowed(req.acl, req.root_kind@, p)
        && crate::objectset::shape_ok(p) && pred_typed(rows, req.root_kind@, p))
    &&& page_request_ok(req)
    &&& (req.sort matches Some(s) ==> req.acl.allows(result_kind_of(req.root_kind@, req.hops@), s.property@))
    &&& hops_ok(rows, req.acl, req.root_kind@, req.hops@)
}

fn check_hops(store: &Store, request: &EvaluateRequest) -> (r: Result<(), ComputeError>)
    ensures
        r is Ok <==> hops_ok(store@.rows, request.acl, request.root_kind@, request.hops@),
        r matches Err(e) ==> hop_refusal(store@.rows, request.acl, request.root_kind@, request.hops@, e),
{
    let ghost rows = store@.rows;
    let ghost hv = request.hops@;
    let ghost whole = hops_ok(rows, request.acl, request.root_kind@, hv);
    assert(hv.subrange(0, hv.len() as int) =~= hv);
    let mut frontier: &str = request.root_kind.as_str();
    let mut h: usize = 0;
    while h < request.hops.len()
        invariant
            h <= hv.len(),
            hv == request.hops@,
            rows == store@.rows,
            whole == hops_ok(rows, request.acl, request.root_kind@, hv),
            whole == hops_ok(rows, request.acl, frontier@, hv.subrange(h as int, hv.len() as int)),
            forall|e: ComputeError| hop_refusal(rows, request.acl, frontier@, hv.subrange(h as int, hv.len() as int), e)
                ==> hop_refusal(rows, request.acl, request.root_kind@, hv, e),
        decreases hv.len() - h,
    {
        let hop = &request.hops[h];
        let ghost rest = hv.subrange(h as int, hv.len() as int);
        assert(rest[0] == hop);
        assert(rest.drop_first() =~= hv.subrange(h + 1, hv.len() as int));
        let join_kind = if hop.incoming { frontier } else { hop.far_kind.as_str() };
        match request.acl.check(join_kind, hop.join_property.as_str()) {
            Ok(()) => {},
            Err(e) => return Err(ComputeError::Acl(e)),
        }
        match &hop.predicate {
            Some(p) => {
                match check_predicate_acl(&request.acl, hop.far_kind.as_str(), p) {
                    Ok(()) => {},
                    Err(e) => return Err(e),
                }
                match check_predicate_types(store, hop.far_kind.as_str(), p) {
                    Ok(()) => {},
                    Err(e) => return Err(e),
                }
            },
            None => {},
        }
        frontier = hop.far_kind.as_str();
        h = h + 1;
    }
    Ok(())
}

/// Fail unless the request passes every check that precedes evaluation.
fn check_request(store: &Store, request: &EvaluateRequest) -> (r: Result<(), ComputeError>)
    ensures
        r is Ok <==> request_ok(store@.rows, *request),
        r matches Err(e) ==> refused_as(store@.rows, *request, e),
{
    match request.acl.check(request.sum_kind.as_str(), request.sum_property.as_str()) {
        Ok(()) => {},
        Err(e) => return Err(ComputeError::Acl(e)),
    }
    if request.filter.is_some() && request.predicate.is_some() {
        return Err(ComputeError::Predicate(String::from_str("evaluate accepts filter or predicate, not both")));
    }
    match &request.filter {
        Some(f) => match request.acl.check(request.root_kind.as_str(), f.property.as_str()) {
            Ok(()) => {},
            Err(e) => return Err(ComputeError::Acl(e)),
        },
        None => {},
    }
    match &request.predicate {
        Some(p) => {
            match check_predicate_acl(&request.acl, request.root_kind.as_str(), p) {
                Ok(()) => {},
                Err(e) => return Err(e),
            }
            match check_predicate_types(store, request.root_kind.as_str(), p) {
                Ok(()) => {},
                Err(e) => return Err(e),
            }
        },
        None => {},
    }
    match check_page_request(request) {
        Ok(()) => {},
        Err(e) => return Err(e),
    }
    match &request.sort {
        Some(sort) => match request.acl.check(result_kind(request), sort.property.as_str()) {
            Ok(()) => {},
            Err(e) => return Err(ComputeError::Acl(e)),
        },
        None => {},
    }
    check_hops(store, request)
}

/// What an accepted evaluation answers: the distinct roots of the surviving
/// paths, the leaf sum, and the listed page of result objects, read at the
/// writer position `stamp`.
pub open spec fn answers(store: StoreView, stamp: (u32, u32, u32), req: EvaluateRequest, resp: EvaluateResponse) -> bool {
    exists|roots: Seq<Seq<char>>, paths: Seq<(Seq<char>, Seq<char>)>|
        {
            &&& root_keys(store.rows, req) == Some(roots)
            &&& walk_kept(store.rows, req.acl, start_paths(roots), req.root_kind@, req.hops@) == Some(paths)
            &&& resp.two_hop_count == path_roots(paths).len()
            &&& resp.sum_amount == walk_total(
                store.rows,
                paths,
                result_kind_of(req.root_kind@, req.hops@),
                req.sum_kind@,
                req.sum_property@,
            )
            &&& (req.object_bound == 0 ==> resp.objects@.len() == 0 && resp.cursor is None)
            &&& (req.object_bound > 0 ==> path_leaves(paths).len() <= req.object_bound && exists|
                keys: Seq<Seq<char>>,
                page: Seq<RankView>,
                more: bool,
            |
                sorted_strs(keys) && keys.to_set() == path_leaves(paths) && #[trigger] listed_page(
                    store.rows,
                    stamp,
                    req,
                    keys,
                    page,
                    more,
                ) && page_answer(store, stamp, req, page, more, resp.objects@, resp.cursor))
        }
}

/// Evaluate a checked request.
fn evaluate_local(store: &Store, request: &EvaluateRequest) -> (r: Result<EvaluateResponse, ComputeError>)
    requires
        store.wf(),
        request_ok(store@.rows, *request),
    ensures
        r matches Ok(resp) ==> answers(store@, store.spec_stamp(), *request, resp),
        evaluable(store@, store.spec_stamp(), *request) ==> r is Ok,
        over_bound(store@, *request) matches Some(n) ==> (r matches Err(ComputeError::ObjectBound { bound, count })
            && bound == request.object_bound && count == n),
        page_refused(store@, store.spec_stamp(), *request) ==> (r matches Err(e) && e is Page),
{
    let roots = match root_ids(store, request) {
        Ok(r) => r,
        Err(e) => return Err(e),
    };
    let paths = match walk_hops(store, request, &roots) {
        Ok(p) => p,
        Err(e) => return Err(e),
    };
    let count = JoinMaps::count_roots(&paths);
    let leaf = result_kind(request);
    let total = if crate::text::str_eq(leaf, request.sum_kind.as_str()) {
        store.joins().sum_paths(&paths, request.sum_kind.as_str(), request.sum_property.as_str())
    } else {
        0
    };
    let keys = JoinMaps::sorted_leaves(&paths);
    proof {
        let kv = strs_view(keys@);
        let pl = path_leaves(paths_view(paths@));
        crate::strs::lemma_sorted_no_duplicates(kv);
        kv.unique_seq_to_set();
        assert(kv.to_set() == pl);
        assert(kv.len() == pl.len());
    }
    let (objects, cursor) = match page_objects(store, request, keys) {
        Ok(x) => x,
        Err(e) => return Err(e),
    };
    let resp = EvaluateResponse { two_hop_count: count, sum_amount: total, objects, cursor };
    proof {
        let rv = strs_view(roots@);
        let pv = paths_view(paths@);
        assert(root_keys(store@.rows, *request) == Some(rv));
        assert(walk_kept(store@.rows, request.acl, start_paths(rv), request.root_kind@, request.hops@) == Some(pv));
        let kv = strs_view(keys@);
        assert(kv.to_set() == path_leaves(pv));
        assert(kv.to_set().len() == kv.len());
        assert(resp.two_hop_count == path_roots(pv).len());
        assert(resp.sum_amount == walk_total(store@.rows, pv, result_kind_of(request.root_kind@, request.hops@), request.sum_kind@, request.sum_property@));
        assert(request.object_bound == 0 ==> resp.objects@.len() == 0 && resp.cursor is None);
        if request.object_bound > 0 {
            assert(path_leaves(pv).len() <= request.object_bound);
            let (page, more) = choose|page: Seq<RankView>, more: bool|
                listed_page(store@.rows, store.spec_stamp(), *request, kv, page, more) && page_answer(
                    store@,
                    store.spec_stamp(),
                    *request,
                    page,
                    more,
                    resp.objects@,
                    resp.cursor,
                );
            assert(sorted_strs(kv) && kv.to_set() == path_leaves(pv) && listed_page(store@.rows, store.spec_stamp(), *request, kv, page, more)
                && page_answer(store@, store.spec_stamp(), *request, page, more, resp.objects@, resp.cursor));
        }
    }
    Ok(resp)
}

/// A compute backend evaluates object-set requests against a store.
pub trait ComputeBackend {
    fn name(&self) -> (n: String);

    /// An answer that comes back is the answer to a well-formed request.
    fn evaluate(&self, store: &Store, request: &EvaluateRequest) -> (r: Result<EvaluateResponse, ComputeError>)
        requires
            store.wf(),
        ensures
            r matches Ok(resp) ==> request_ok(store@.rows, *request) && answers(store@, store.spec_stamp(), *request, resp),
    ;
}

/// Evaluation over the store's own join projection.
#[derive(Clone, Copy, Debug, Default)]
pub struct LocalCompute;

impl LocalCompute {
    /// Check the request, then answer it from the projection.
    pub fn evaluate_checked(&self, store: &Store, request: &EvaluateRequest) -> (r: Result<EvaluateResponse, ComputeError>)
        requires
            store.wf(),
        ensures
            !request_ok(store@.rows, *request) ==> (r matches Err(e) && refused_as(store@.rows, *request, e)),
            request_ok(store@.rows, *request) && evaluable(store@, store.spec_stamp(), *request) ==> r is Ok,
            request_ok(store@.rows, *request) ==> (over_bound(store@, *request) matches Some(n) ==> (r matches Err(
                ComputeError::ObjectBound { bound, count },
            ) && bound == request.object_bound && count == n)),
            request_ok(store@.rows, *request) && page_refused(store@, store.spec_stamp(), *request) ==> (r matches Err(
                e,
            ) && e is Page),
            r matches Ok(resp) ==> request_ok(store@.rows, *request) && answers(store@, store.spec_stamp(), *request, resp),
    {
        match request.aggregate {
            Aggregate::CountAndSum => {
                match check_request(store, request) {
                    Ok(()) => {},
                    Err(e) => return Err(e),
                }
                evaluate_local(store, request)
            },
        }
    }
}

impl ComputeBackend for LocalCompute {
    fn name(&self) -> (n: String)
        ensures
            n@ == "local"@,
    {
        String::from_str("local")
    }

    fn evaluate(&self, store: &Store, request: &EvaluateRequest) -> (r: Result<EvaluateResponse, ComputeError>)
        ensures
            !request_ok(store@.rows, *request) ==> (r matches Err(e) && refused_as(store@.rows, *request, e)),
            request_ok(store@.rows, *request) && evaluable(store@, store.spec_stamp(), *request) ==> r is Ok,
            request_ok(store@.rows, *request) ==> (over_bound(store@, *request) matches Some(n) ==> (r matches Err(
                ComputeError::ObjectBound { bound, count },
            ) && bound == request.object_bound && count == n)),
            request_ok(store@.rows, *request) && page_refused(store@, store.spec_stamp(), *request) ==> (r matches Err(
                e,
            ) && e is Page),
    {
        self.evaluate_checked(store, request)
    }
}

/// A backend this build does not provide; every request fails.
#[derive(Clone, Copy, Debug, Default)]
pub struct SparkCompute;

impl SparkCompute {
    /// Refuse the request: this backend is not available.
    pub fn refuse(&self) -> (r: Result<EvaluateResponse, ComputeError>)
        ensures
            r matches Err(ComputeError::UnsupportedBackend { name }) && name@ == seq!['s', 'p', 'a', 'r', 'k'],
    {
        proof {
            reveal_strlit("spark");
        }
        let name = String::from_str("spark");
        assert(name@ =~= seq!['s', 'p', 'a', 'r', 'k']);
        Err(ComputeError::UnsupportedBackend { name })
    }
}

impl ComputeBackend for SparkCompute {
    fn name(&self) -> (n: String)
        ensures
            n@ == "spark"@,
    {
        String::from_str("spark")
    }

    fn evaluate(&self, store: &Store, request: &EvaluateRequest) -> (r: Result<EvaluateResponse, ComputeError>)
        ensures
            r matches Err(ComputeError::UnsupportedBackend { name }) && name@ == seq!['s', 'p', 'a', 'r', 'k'],
    {
        self.refuse()
    }
}

/// A comparison reads a present value: `neq` selects an object only when it
/// has the property, so never one that `missing` selects, and never one that
/// `eq` selects for the same value; on an object with the property whose
/// value can be compared, `neq` answers the opposite of `eq`.
pub proof fn law_neq_reads_a_present_value(
    rows: Seq<RowView>,
    kind: Seq<char>,
    key: Seq<char>,
    property: String,
    value: String,
)
    ensures
        pred_eval(rows, kind, key, Predicate::Neq { property, value }) == Some(true) ==> row_prop(
            rows,
            kind,
            key,
            property@,
        ) is Some,
        pred_eval(rows, kind, key, Predicate::Missing { property }) == Some(true) ==> pred_eval(
            rows,
            kind,
            key,
            Predicate::Neq { property, value },
        ) == Some(false) && pred_eval(rows, kind, key, Predicate::Eq { property, value }) == Some(false),
        pred_eval(rows, kind, key, Predicate::Neq { property, value }) == Some(true) ==> pred_eval(
            rows,
            kind,
            key,
            Predicate::Eq { property, value },
        ) == Some(false) && pred_eval(rows, kind, key, Predicate::Missing { property }) == Some(false),
        row_prop(rows, kind, key, property@) is Some && pred_eval(rows, kind, key, Predicate::Eq { property, value })
            == Some(true) ==> pred_eval(rows, kind, key, Predicate::Neq { property, value }) == Some(false),
        row_prop(rows, kind, key, property@) is Some && pred_eval(rows, kind, key, Predicate::Eq { property, value })
            == Some(false) ==> pred_eval(rows, kind, key, Predicate::Neq { property, value }) == Some(true),
{
}

} // verus!
