//! Object-set requests: hops, root selection, predicates, sort and pages.

use vstd::prelude::*;

use crate::acl::PropertyAcl;
use crate::compute::{answers, request_ok, ComputeBackend, ComputeError};
use crate::store::Store;
use crate::record::ObjectRecord;
use crate::strs::strs;

verus! {

/// What an evaluation aggregates.
#[derive(Clone, Copy, Debug, Default, PartialEq, Eq, Structural)]
pub enum Aggregate {
    /// Distinct reachable roots plus sum of a numeric leaf property.
    #[default]
    CountAndSum,
}

/// One join step from the current kind to `far_kind`.
#[derive(Debug)]
pub struct Hop {
    pub far_kind: String,
    pub join_property: String,
    /// When true, follow `props[join_property]` on the frontier to `far_kind`.
    /// When false, find `far_kind` rows whose `join_property` equals the frontier key.
    pub incoming: bool,
    /// Restrict the far set after this hop. `None` keeps every visible far
    /// identity the join produced.
    pub predicate: Option<Predicate>,
}

/// Exact equality on a root property. No phrase, prefix, or query language.
#[derive(Debug)]
pub struct ExactMatch {
    pub property: String,
    pub value: String,
}

/// Structured selection on the current kind.
///
/// There is no query language. Unsupported operators are not in this enum.
#[derive(Debug)]
pub enum Predicate {
    Eq { property: String, value: String },
    Neq { property: String, value: String },
    Range { property: String, min: Option<String>, max: Option<String> },
    Missing { property: String },
    And(Vec<Predicate>),
    Or(Vec<Predicate>),
    Not(Box<Predicate>),
}

/// Order of a page: by one property, missing values last.
#[derive(Debug)]
pub struct Sort {
    pub property: String,
    pub descending: bool,
}

/// Every comparison names a property and every boolean combination has an
/// argument.
pub open spec fn shape_ok(p: Predicate) -> bool
    decreases p,
{
    match p {
        Predicate::Eq { property, .. } => property@.len() > 0,
        Predicate::Neq { property, .. } => property@.len() > 0,
        Predicate::Range { property, .. } => property@.len() > 0,
        Predicate::Missing { property } => property@.len() > 0,
        Predicate::And(args) => args@.len() > 0 && forall|i: int|
            0 <= i < args@.len() ==> shape_ok(#[trigger] args@[i]),
        Predicate::Or(args) => args@.len() > 0 && forall|i: int|
            0 <= i < args@.len() ==> shape_ok(#[trigger] args@[i]),
        Predicate::Not(inner) => shape_ok(*inner),
    }
}

/// The property names a predicate reads, in the order they appear.
pub open spec fn pred_props(p: Predicate) -> Seq<Seq<char>>
    decreases p, 0nat,
{
    match p {
        Predicate::Eq { property, .. } => seq![property@],
        Predicate::Neq { property, .. } => seq![property@],
        Predicate::Range { property, .. } => seq![property@],
        Predicate::Missing { property } => seq![property@],
        Predicate::And(args) => list_props(args@, args@.len()),
        Predicate::Or(args) => list_props(args@, args@.len()),
        Predicate::Not(inner) => pred_props(*inner),
    }
}

/// The property names of the first `n` predicates of `args`.
pub open spec fn list_props(args: Seq<Predicate>, n: nat) -> Seq<Seq<char>>
    decreases args, n,
{
    if n == 0 || n > args.len() {
        seq![]
    } else {
        list_props(args, (n - 1) as nat) + pred_props(args[n - 1])
    }
}

impl Predicate {
    /// `property` equals `value`.
    pub fn eq(property: &str, value: &str) -> (p: Predicate)
        ensures
            p matches Predicate::Eq { property: a, value: b } && a@ == property@ && b@ == value@,
    {
        Predicate::Eq { property: property.to_owned(), value: value.to_owned() }
    }

    /// `property` is present and differs from `value`.
    pub fn neq(property: &str, value: &str) -> (p: Predicate)
        ensures
            p matches Predicate::Neq { property: a, value: b } && a@ == property@ && b@ == value@,
    {
        Predicate::Neq { property: property.to_owned(), value: value.to_owned() }
    }

    /// `property` lies between the optional inclusive bounds.
    pub fn range(property: &str, min: Option<&str>, max: Option<&str>) -> (p: Predicate)
        ensures
            p matches Predicate::Range { property: a, min: lo, max: hi } && a@ == property@
                && (lo matches Some(x) ==> min matches Some(y) && x@ == y@) && (lo is None <==> min is None)
                && (hi matches Some(x) ==> max matches Some(y) && x@ == y@) && (hi is None <==> max is None),
    {
        let lo = match min {
            Some(s) => Some(s.to_owned()),
            None => None,
        };
        let hi = match max {
            Some(s) => Some(s.to_owned()),
            None => None,
        };
        Predicate::Range { property: property.to_owned(), min: lo, max: hi }
    }

    /// `property` is absent.
    pub fn missing(property: &str) -> (p: Predicate)
        ensures
            p matches Predicate::Missing { property: a } && a@ == property@,
    {
        Predicate::Missing { property: property.to_owned() }
    }

    /// Every argument holds.
    pub fn and(args: Vec<Predicate>) -> (p: Predicate)
        ensures
            p == Predicate::And(args),
    {
        Predicate::And(args)
    }

    /// Some argument holds.
    pub fn or(args: Vec<Predicate>) -> (p: Predicate)
        ensures
            p == Predicate::Or(args),
    {
        Predicate::Or(args)
    }

    /// The argument does not hold.
    pub fn negate(self) -> (p: Predicate)
        ensures
            p == Predicate::Not(Box::new(self)),
    {
        Predicate::Not(Box::new(self))
    }

    /// The property names this predicate reads, in the order they appear.
    pub fn properties(&self) -> (r: Vec<String>)
        ensures
            strs(r@) == pred_props(*self),
    {
        let mut out: Vec<String> = Vec::new();
        self.collect_properties(&mut out);
        assert(strs(out@) =~= pred_props(*self));
        out
    }

    fn collect_properties(&self, out: &mut Vec<String>)
        ensures
            strs(final(out)@) == strs(old(out)@) + pred_props(*self),
        decreases self, 0nat,
    {
        let ghost before = strs(out@);
        match self {
            Predicate::Eq { property, .. } | Predicate::Neq { property, .. } | Predicate::Range {
                property,
                ..
            } | Predicate::Missing { property } => {
                out.push(property.clone());
                assert(strs(out@) =~= before + seq![property@]);
            },
            Predicate::And(args) | Predicate::Or(args) => {
                collect_list(args, out);
            },
            Predicate::Not(inner) => {
                inner.collect_properties(out);
            },
        }
    }
}

fn collect_list(args: &Vec<Predicate>, out: &mut Vec<String>)
    ensures
        strs(final(out)@) == strs(old(out)@) + list_props(args@, args@.len()),
    decreases args@, args@.len() + 1,
{
    let ghost start = strs(out@);
    let mut i: usize = 0;
    assert(start + list_props(args@, 0) =~= start);
    while i < args.len()
        invariant
            i <= args@.len(),
            strs(out@) == start + list_props(args@, i as nat),
        decreases args@.len() - i,
    {
        proof {
            assert(decreases_to!(args@, args@.len() + 1 => args@[i as int], 0nat));
        }
        let ghost before = strs(out@);
        args[i].collect_properties(out);
        assert(strs(out@) =~= start + list_props(args@, (i + 1) as nat));
        i = i + 1;
    }
}

impl Sort {
    /// Ascending by `property`.
    pub fn ascending(property: &str) -> (s: Sort)
        ensures
            s.property@ == property@,
            !s.descending,
    {
        Sort { property: property.to_owned(), descending: false }
    }
}

/// One object-set evaluation.
#[derive(Debug)]
pub struct EvaluateRequest {
    pub root_kind: String,
    pub hops: Vec<Hop>,
    pub sum_kind: String,
    pub sum_property: String,
    pub aggregate: Aggregate,
    pub acl: PropertyAcl,
    /// When set, only visible roots whose `props[property] == value` survive.
    /// Do not combine with [`Self::predicate`].
    pub filter: Option<ExactMatch>,
    /// Composed selection on `root_kind`, evaluated after visibility and
    /// before hops.
    pub predicate: Option<Predicate>,
    /// When greater than zero, return distinct result objects up to this
    /// many identities. Exceeding the bound fails closed. Zero keeps the
    /// count/sum-only response.
    pub object_bound: usize,
    /// Order of the returned objects.
    pub sort: Option<Sort>,
    /// Objects per page; zero returns every object.
    pub page_size: usize,
    /// Continuation token of the previous page.
    pub cursor: Option<String>,
}

/// The answer to one evaluation.
#[derive(Debug)]
pub struct EvaluateResponse {
    /// Distinct root keys in surviving hop paths. The name is historical;
    /// hop count is `EvaluateRequest.hops.len()`, which may be zero.
    pub two_hop_count: usize,
    pub sum_amount: i64,
    /// Distinct current objects of the last hop's `far_kind`, or of
    /// `root_kind` when there are no hops. Empty when `object_bound` is 0.
    pub objects: Vec<ObjectRecord>,
    /// Token of the next page, when there is one.
    pub cursor: Option<String>,
}

/// Evaluates requests with one compute backend.
pub struct ObjectSet<B> {
    backend: B,
}

impl<B: ComputeBackend> ObjectSet<B> {
    pub closed spec fn spec_backend(&self) -> B {
        self.backend
    }

    /// An object set over `backend`.
    pub fn new(backend: B) -> (s: ObjectSet<B>)
        ensures
            s.spec_backend() == backend,
    {
        ObjectSet { backend }
    }

    /// Evaluate `request` against `store` with the backend.
    pub fn evaluate(&self, store: &Store, request: &EvaluateRequest) -> (r: Result<EvaluateResponse, ComputeError>)
        requires
            store.wf(),
        ensures
            r matches Ok(resp) ==> request_ok(store@.rows, *request) && answers(store@, store.spec_stamp(), *request, resp),
            call_ensures(B::evaluate, (&self.spec_backend(), store, request), r),
    {
        self.backend.evaluate(store, request)
    }
}

} // verus!
