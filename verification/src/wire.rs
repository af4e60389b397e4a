//! Requests as a host receives them on the wire, and their checked
//! conversion into the library's own requests.

use vstd::prelude::*;

use crate::acl::PropertyAcl;
use crate::objectset::{Aggregate, EvaluateRequest, ExactMatch, Hop, Predicate, Sort};
use crate::record::{clone_opt_str, opt_str_view};
use crate::text::{concat_str, decimal, decimal_string};

verus! {

/// Version of the host's JSON-line envelope.
pub const WIRE_V: u32 = 1;

/// Default most bytes of one request line.
pub const DEFAULT_REQUEST_BOUND: usize = 1048576;

/// Default wall-clock budget, in milliseconds, for reading one request line.
pub const DEFAULT_REQUEST_TIMEOUT_MS: u64 = 5000;

/// One hop of an evaluate request on the wire.
#[derive(Debug)]
pub struct WireHop {
    pub far_kind: String,
    pub join_property: String,
    pub incoming: bool,
    pub predicate: Option<WirePredicate>,
}

/// A denied `(kind, property)` pair on the wire.
#[derive(Debug)]
pub struct WireDeny {
    pub kind: String,
    pub property: String,
}

/// An object identity on the wire.
#[derive(Debug)]
pub struct WireIdentity {
    pub kind: String,
    pub key: String,
}

/// A request's restriction document: denied properties, hidden kinds and
/// hidden identities.
#[derive(Debug)]
pub struct WireRestriction {
    pub deny_properties: Vec<WireDeny>,
    pub hide_kinds: Vec<String>,
    pub hide_identities: Vec<WireIdentity>,
}

/// An exact-match root filter on the wire.
#[derive(Debug)]
pub struct WireFilter {
    pub property: String,
    pub value: String,
}

/// A predicate tree on the wire.
#[derive(Debug)]
pub enum WirePredicate {
    Eq { property: String, value: String },
    Neq { property: String, value: String },
    Range { property: String, min: Option<String>, max: Option<String> },
    Missing { property: String },
    And { args: Vec<WirePredicate> },
    Or { args: Vec<WirePredicate> },
    Not { arg: Box<WirePredicate> },
}

/// An evaluate request on the wire.
#[derive(Debug)]
pub struct WireEvaluate {
    pub root_kind: String,
    pub hops: Vec<WireHop>,
    pub sum_kind: String,
    pub sum_property: String,
    pub deny: Vec<WireDeny>,
    pub restriction: Option<WireRestriction>,
    pub filter: Option<WireFilter>,
    pub predicate: Option<WirePredicate>,
    /// Distinct result objects to return; `0` keeps count and sum only.
    pub object_bound: usize,
    pub sort: Option<WireSort>,
    pub page_size: usize,
    pub cursor: Option<String>,
}

/// The order of a page on the wire.
#[derive(Debug)]
pub struct WireSort {
    pub property: String,
    pub descending: bool,
}

/// Whether `p` is the wire predicate `w` in the library's form.
pub open spec fn pred_from_wire(w: WirePredicate, p: Predicate) -> bool
    decreases w,
{
    match w {
        WirePredicate::Eq { property, value } => match p {
            Predicate::Eq { property: a, value: b } => a@ == property@ && b@ == value@,
            _ => false,
        },
        WirePredicate::Neq { property, value } => match p {
            Predicate::Neq { property: a, value: b } => a@ == property@ && b@ == value@,
            _ => false,
        },
        WirePredicate::Range { property, min, max } => match p {
            Predicate::Range { property: a, min: lo, max: hi } => a@ == property@ && opt_str_view(lo)
                == opt_str_view(min) && opt_str_view(hi) == opt_str_view(max),
            _ => false,
        },
        WirePredicate::Missing { property } => match p {
            Predicate::Missing { property: a } => a@ == property@,
            _ => false,
        },
        WirePredicate::And { args } => match p {
            Predicate::And(ps) => ps@.len() == args@.len() && forall|i: int|
                0 <= i < args@.len() ==> pred_from_wire(#[trigger] args@[i], ps@[i]),
            _ => false,
        },
        WirePredicate::Or { args } => match p {
            Predicate::Or(ps) => ps@.len() == args@.len() && forall|i: int|
                0 <= i < args@.len() ==> pred_from_wire(#[trigger] args@[i], ps@[i]),
            _ => false,
        },
        WirePredicate::Not { arg } => match p {
            Predicate::Not(q) => pred_from_wire(*arg, *q),
            _ => false,
        },
    }
}

/// The library's form of a wire predicate.
pub fn predicate_from_wire(pred: &WirePredicate) -> (p: Predicate)
    ensures
        pred_from_wire(*pred, p),
    decreases *pred, 0int,
{
    match pred {
        WirePredicate::Eq { property, value } => Predicate::Eq { property: property.clone(), value: value.clone() },
        WirePredicate::Neq { property, value } => Predicate::Neq { property: property.clone(), value: value.clone() },
        WirePredicate::Range { property, min, max } => Predicate::Range {
            property: property.clone(),
            min: clone_opt_str(min),
            max: clone_opt_str(max),
        },
        WirePredicate::Missing { property } => Predicate::Missing { property: property.clone() },
        WirePredicate::And { args } => {
            let ps = predicates_from_wire(args);
            Predicate::and(ps)
        },
        WirePredicate::Or { args } => {
            let ps = predicates_from_wire(args);
            Predicate::or(ps)
        },
        WirePredicate::Not { arg } => {
            assert(decreases_to!(*pred => **arg));
            predicate_from_wire(arg).negate()
        },
    }
}

/// The library's form of each wire predicate of `args`.
fn predicates_from_wire(args: &Vec<WirePredicate>) -> (ps: Vec<Predicate>)
    ensures
        ps@.len() == args@.len(),
        forall|i: int| 0 <= i < args@.len() ==> pred_from_wire(#[trigger] args@[i], ps@[i]),
    decreases args@, 1int,
{
    let mut ps: Vec<Predicate> = Vec::new();
    let mut i: usize = 0;
    while i < args.len()
        invariant
            i <= args@.len(),
            ps@.len() == i,
            forall|k: int| 0 <= k < i ==> pred_from_wire(#[trigger] args@[k], ps@[k]),
        decreases args@.len() - i,
    {
        assert(decreases_to!(args@, 1int => args@[i as int], 0int));
        let p = predicate_from_wire(&args[i]);
        ps.push(p);
        i = i + 1;
    }
    ps
}

/// The `(kind, property)` pairs of a wire deny list.
pub open spec fn deny_pairs(d: Seq<WireDeny>) -> Set<(Seq<char>, Seq<char>)> {
    d.map_values(|x: WireDeny| (x.kind@, x.property@)).to_set()
}

/// The identities of a wire identity list.
pub open spec fn identity_pairs(d: Seq<WireIdentity>) -> Set<(Seq<char>, Seq<char>)> {
    d.map_values(|x: WireIdentity| (x.kind@, x.key@)).to_set()
}

/// The kinds of a wire kind list.
pub open spec fn kind_set(d: Seq<String>) -> Set<Seq<char>> {
    d.map_values(|x: String| x@).to_set()
}

/// The refusal of a request that carries both a deny list and a restriction.
pub open spec fn both_message(op: Seq<char>) -> Seq<char> {
    "host "@ + op + " accepts deny or restriction, not both"@
}

/// The request view of a deny list: those pairs denied, nothing hidden.
pub fn acl_from_denies(deny: &Vec<WireDeny>) -> (acl: PropertyAcl)
    ensures
        acl.denied_set() == deny_pairs(deny@),
        acl.hidden_kind_set() == Set::<Seq<char>>::empty(),
        acl.hidden_id_set() == Set::<(Seq<char>, Seq<char>)>::empty(),
{
    let mut acl = PropertyAcl::allow_all();
    let mut i: usize = 0;
    while i < deny.len()
        invariant
            i <= deny@.len(),
            acl.denied_set() == deny_pairs(deny@.subrange(0, i as int)),
            acl.hidden_kind_set() == Set::<Seq<char>>::empty(),
            acl.hidden_id_set() == Set::<(Seq<char>, Seq<char>)>::empty(),
        decreases deny@.len() - i,
    {
        acl.insert_deny(deny[i].kind.as_str(), deny[i].property.as_str());
        proof {
            let a = deny@.subrange(0, i as int).map_values(|x: WireDeny| (x.kind@, x.property@));
            let b = deny@.subrange(0, i + 1).map_values(|x: WireDeny| (x.kind@, x.property@));
            assert(b =~= a.push((deny@[i as int].kind@, deny@[i as int].property@)));
            a.lemma_push_to_set_commute((deny@[i as int].kind@, deny@[i as int].property@));
        }
        i = i + 1;
    }
    assert(deny@.subrange(0, deny@.len() as int) =~= deny@);
    acl
}

/// The request view of a restriction document, or of a deny list when there
/// is no document. A request may carry one of the two, not both.
pub fn restriction_from_wire(deny: &Vec<WireDeny>, restriction: &Option<WireRestriction>, op: &str) -> (r: Result<
    PropertyAcl,
    String,
>)
    ensures
        (restriction is Some && deny@.len() > 0) <==> r is Err,
        r matches Err(e) ==> e@ == both_message(op@),
        r matches Ok(acl) ==> match restriction {
            None => acl.denied_set() == deny_pairs(deny@) && acl.hidden_kind_set() == Set::<Seq<char>>::empty()
                && acl.hidden_id_set() == Set::<(Seq<char>, Seq<char>)>::empty(),
            Some(w) => acl.denied_set() == deny_pairs(w.deny_properties@) && acl.hidden_kind_set() == kind_set(
                w.hide_kinds@,
            ) && acl.hidden_id_set() == identity_pairs(w.hide_identities@),
        },
{
    match restriction {
        None => Ok(acl_from_denies(deny)),
        Some(w) => {
            if deny.len() > 0 {
                let mut m = concat_str("host ", op);
                m.append(" accepts deny or restriction, not both");
                proof {
                    reveal_strlit("host ");
                    reveal_strlit(" accepts deny or restriction, not both");
                }
                return Err(m);
            }
            let mut acl = acl_from_denies(&w.deny_properties);
            let mut i: usize = 0;
            assert(w.hide_kinds@.subrange(0, 0).map_values(|x: String| x@) =~= Seq::<Seq<char>>::empty());
            while i < w.hide_kinds.len()
                invariant
                    i <= w.hide_kinds@.len(),
                    acl.denied_set() == deny_pairs(w.deny_properties@),
                    acl.hidden_kind_set() == kind_set(w.hide_kinds@.subrange(0, i as int)),
                    acl.hidden_id_set() == Set::<(Seq<char>, Seq<char>)>::empty(),
                decreases w.hide_kinds@.len() - i,
            {
                acl.insert_hide_kind(w.hide_kinds[i].as_str());
                proof {
                    let a = w.hide_kinds@.subrange(0, i as int).map_values(|x: String| x@);
                    let b = w.hide_kinds@.subrange(0, i + 1).map_values(|x: String| x@);
                    assert(b =~= a.push(w.hide_kinds@[i as int]@));
                    a.lemma_push_to_set_commute(w.hide_kinds@[i as int]@);
                }
                i = i + 1;
            }
            assert(w.hide_kinds@.subrange(0, w.hide_kinds@.len() as int) =~= w.hide_kinds@);
            let mut j: usize = 0;
            assert(w.hide_identities@.subrange(0, 0).map_values(|x: WireIdentity| (x.kind@, x.key@)) =~= Seq::<
                (Seq<char>, Seq<char>),
            >::empty());
            while j < w.hide_identities.len()
                invariant
                    j <= w.hide_identities@.len(),
                    acl.denied_set() == deny_pairs(w.deny_properties@),
                    acl.hidden_kind_set() == kind_set(w.hide_kinds@),
                    acl.hidden_id_set() == identity_pairs(w.hide_identities@.subrange(0, j as int)),
                decreases w.hide_identities@.len() - j,
            {
                acl.insert_hide_identity(w.hide_identities[j].kind.as_str(), w.hide_identities[j].key.as_str());
                proof {
                    let a = w.hide_identities@.subrange(0, j as int).map_values(|x: WireIdentity| (x.kind@, x.key@));
                    let b = w.hide_identities@.subrange(0, j + 1).map_values(
                        |x: WireIdentity| (x.kind@, x.key@),
                    );
                    let e = (w.hide_identities@[j as int].kind@, w.hide_identities@[j as int].key@);
                    assert(b =~= a.push(e));
                    a.lemma_push_to_set_commute(e);
                }
                j = j + 1;
            }
            assert(w.hide_identities@.subrange(0, w.hide_identities@.len() as int) =~= w.hide_identities@);
            Ok(acl)
        },
    }
}

/// Whether `h` is the wire hop `w` in the library's form.
pub open spec fn hop_from_wire(w: WireHop, h: Hop) -> bool {
    &&& h.far_kind@ == w.far_kind@
    &&& h.join_property@ == w.join_property@
    &&& h.incoming == w.incoming
    &&& match (w.predicate, h.predicate) {
        (None, None) => true,
        (Some(a), Some(b)) => pred_from_wire(a, b),
        _ => false,
    }
}

/// Whether `acl` is the request view that `deny` or `restriction` gives.
pub open spec fn acl_from_wire(deny: Seq<WireDeny>, restriction: Option<WireRestriction>, acl: PropertyAcl) -> bool {
    match restriction {
        None => acl.denied_set() == deny_pairs(deny) && acl.hidden_kind_set() == Set::<Seq<char>>::empty()
            && acl.hidden_id_set() == Set::<(Seq<char>, Seq<char>)>::empty(),
        Some(w) => acl.denied_set() == deny_pairs(w.deny_properties@) && acl.hidden_kind_set() == kind_set(
            w.hide_kinds@,
        ) && acl.hidden_id_set() == identity_pairs(w.hide_identities@),
    }
}

/// Whether `q` is the wire evaluate request `w` in the library's form.
pub open spec fn evaluate_from_wire(w: WireEvaluate, q: EvaluateRequest) -> bool {
    &&& q.root_kind@ == w.root_kind@
    &&& q.sum_kind@ == w.sum_kind@
    &&& q.sum_property@ == w.sum_property@
    &&& q.aggregate == Aggregate::CountAndSum
    &&& acl_from_wire(w.deny@, w.restriction, q.acl)
    &&& q.hops@.len() == w.hops@.len()
    &&& forall|i: int| 0 <= i < w.hops@.len() ==> hop_from_wire(#[trigger] w.hops@[i], q.hops@[i])
    &&& match (w.filter, q.filter) {
        (None, None) => true,
        (Some(a), Some(b)) => b.property@ == a.property@ && b.value@ == a.value@,
        _ => false,
    }
    &&& match (w.predicate, q.predicate) {
        (None, None) => true,
        (Some(a), Some(b)) => pred_from_wire(a, b),
        _ => false,
    }
    &&& q.object_bound == w.object_bound
    &&& match (w.sort, q.sort) {
        (None, None) => true,
        (Some(a), Some(b)) => b.property@ == a.property@ && b.descending == a.descending,
        _ => false,
    }
    &&& q.page_size == w.page_size
    &&& opt_str_view(q.cursor) == opt_str_view(w.cursor)
}

/// Whether the wire request filters on an empty property or value.
pub open spec fn empty_filter(w: WireEvaluate) -> bool {
    w.filter matches Some(f) && (f.property@.len() == 0 || f.value@.len() == 0)
}

/// The library's form of a wire evaluate request. Refused, in this order:
/// both a deny list and a restriction; a filter with an empty property or
/// value; both a filter and a predicate.
pub fn evaluate_request_from_wire(request: &WireEvaluate) -> (r: Result<EvaluateRequest, String>)
    ensures
        (request.restriction is Some && request.deny@.len() > 0) ==> (r matches Err(e) && e@ == both_message(
            "evaluate"@,
        )),
        !(request.restriction is Some && request.deny@.len() > 0) && empty_filter(*request) ==> (r matches Err(e)
            && e@ == "evaluate filter requires non-empty property and value"@),
        !(request.restriction is Some && request.deny@.len() > 0) && !empty_filter(*request) && request.filter is Some
            && request.predicate is Some ==> (r matches Err(e) && e@ == "evaluate accepts filter or predicate, not both"@),
        r is Ok <==> !(request.restriction is Some && request.deny@.len() > 0) && !empty_filter(*request) && !(
        request.filter is Some && request.predicate is Some),
        r matches Ok(q) ==> evaluate_from_wire(*request, q),
{
    let acl = match restriction_from_wire(&request.deny, &request.restriction, "evaluate") {
        Ok(a) => a,
        Err(e) => {
            proof {
                reveal_strlit("evaluate");
            }
            return Err(e);
        },
    };
    match &request.filter {
        Some(f) => {
            if f.property.unicode_len() == 0 || f.value.unicode_len() == 0 {
                return Err(String::from_str("evaluate filter requires non-empty property and value"));
            }
        },
        None => {},
    }
    if request.filter.is_some() && request.predicate.is_some() {
        return Err(String::from_str("evaluate accepts filter or predicate, not both"));
    }
    let mut hops: Vec<Hop> = Vec::new();
    let mut i: usize = 0;
    while i < request.hops.len()
        invariant
            i <= request.hops@.len(),
            hops@.len() == i,
            forall|k: int| 0 <= k < i ==> hop_from_wire(#[trigger] request.hops@[k], hops@[k]),
        decreases request.hops@.len() - i,
    {
        let w = &request.hops[i];
        let predicate = match &w.predicate {
            Some(p) => Some(predicate_from_wire(p)),
            None => None,
        };
        hops.push(Hop {
            far_kind: w.far_kind.clone(),
            join_property: w.join_property.clone(),
            incoming: w.incoming,
            predicate,
        });
        i = i + 1;
    }
    let filter = match &request.filter {
        Some(f) => Some(ExactMatch { property: f.property.clone(), value: f.value.clone() }),
        None => None,
    };
    let predicate = match &request.predicate {
        Some(p) => Some(predicate_from_wire(p)),
        None => None,
    };
    let sort = match &request.sort {
        Some(s) => Some(Sort { property: s.property.clone(), descending: s.descending }),
        None => None,
    };
    Ok(EvaluateRequest {
        root_kind: request.root_kind.clone(),
        hops,
        sum_kind: request.sum_kind.clone(),
        sum_property: request.sum_property.clone(),
        aggregate: Aggregate::CountAndSum,
        acl,
        filter,
        predicate,
        object_bound: request.object_bound,
        sort,
        page_size: request.page_size,
        cursor: clone_opt_str(&request.cursor),
    })
}

/// Whether two tokens are equal, comparing every byte whatever differs.
pub fn tokens_equal(expected: &str, presented: &str) -> (r: bool)
    ensures
        r == (expected@ == presented@),
{
    let e = expected.as_bytes();
    let p = presented.as_bytes();
    proof {
        vstd::utf8::encode_utf8_decode_utf8(expected@);
        vstd::utf8::encode_utf8_decode_utf8(presented@);
    }
    if e.len() != p.len() {
        return false;
    }
    let mut diff: u8 = 0;
    let mut i: usize = 0;
    while i < e.len()
        invariant
            i <= e@.len(),
            e@.len() == p@.len(),
            diff == 0 <==> forall|k: int| 0 <= k < i ==> e@[k] == p@[k],
        decreases e@.len() - i,
    {
        let l = e[i];
        let m = p[i];
        let d = diff;
        assert((d | (l ^ m)) == 0u8 <==> (d == 0u8 && l == m)) by (bit_vector);
        diff = diff | (l ^ m);
        i = i + 1;
    }
    proof {
        if diff == 0 {
            assert(e@ =~= p@);
        }
    }
    diff == 0
}

/// Accept a request when no bearer is required, or when it presents the
/// bearer.
pub fn check_token(bearer: &Option<String>, presented: Option<&str>) -> (r: Result<(), String>)
    ensures
        r is Ok <==> match bearer {
            None => true,
            Some(b) => presented matches Some(t) && t@ == b@,
        },
        r matches Err(e) ==> e@ == "bearer required"@,
{
    match bearer {
        None => Ok(()),
        Some(expected) => match presented {
            Some(got) => {
                if tokens_equal(expected.as_str(), got) {
                    Ok(())
                } else {
                    Err(String::from_str("bearer required"))
                }
            },
            None => Err(String::from_str("bearer required")),
        },
    }
}

/// The refusal of an unsupported envelope version.
pub open spec fn version_message(v: nat) -> Seq<char> {
    "unsupported host wire v "@ + decimal(v)
}

/// Check the envelope's `v`: absent, or the integer [`WIRE_V`]. `v` is
/// `None` when the envelope has no `v`, `Some(None)` when its `v` is not an
/// unsigned integer.
pub fn wire_version(v: Option<Option<u64>>) -> (r: Result<u32, String>)
    ensures
        v is None ==> r == Ok::<u32, String>(WIRE_V),
        v matches Some(None) ==> (r matches Err(e) && e@ == "host wire v must be an integer"@),
        v matches Some(Some(n)) ==> (n == WIRE_V ==> r == Ok::<u32, String>(WIRE_V)),
        v matches Some(Some(n)) ==> (n != WIRE_V ==> (r matches Err(e) && e@ == version_message(n as nat))),
{
    match v {
        None => Ok(WIRE_V),
        Some(None) => Err(String::from_str("host wire v must be an integer")),
        Some(Some(n)) => {
            if n == 1 {
                Ok(WIRE_V)
            } else {
                let m = concat_str("unsupported host wire v ", decimal_string(n).as_str());
                proof {
                    reveal_strlit("unsupported host wire v ");
                }
                Err(m)
            }
        },
    }
}

/// The refusal of a request line of `bytes` bytes over the bound.
pub open spec fn request_bound_message(bound: nat, bytes: nat) -> Seq<char> {
    "RequestBound { bound: "@ + decimal(bound) + ", bytes: "@ + decimal(bytes) + " }"@
}

/// The refusal of a request line of `bytes` bytes over `bound`.
pub fn request_bound_text(bound: u64, bytes: u64) -> (m: String)
    ensures
        m@ == request_bound_message(bound as nat, bytes as nat),
{
    let mut m = concat_str("RequestBound { bound: ", decimal_string(bound).as_str());
    m.append(", bytes: ");
    m.append(decimal_string(bytes).as_str());
    m.append(" }");
    proof {
        reveal_strlit("RequestBound { bound: ");
        reveal_strlit(", bytes: ");
        reveal_strlit(" }");
    }
    m
}

/// Refuse, with `message`, a routable address without a bearer.
pub fn require_bearer_if_routable(loopback: bool, present: bool, message: &str) -> (r: Result<(), String>)
    ensures
        r is Err <==> !loopback && !present,
        r matches Err(e) ==> e@ == message@,
{
    if !loopback && !present {
        return Err(message.to_owned());
    }
    Ok(())
}

/// Check a host's request limits: both the byte bound and the timeout must
/// be greater than zero.
pub fn check_request_limits(bound: usize, timeout_nanos: u128) -> (r: Result<(), String>)
    ensures
        r is Ok <==> bound > 0 && timeout_nanos > 0,
        r matches Err(e) ==> (e@ == "request bound must be greater than zero"@ <==> bound == 0),
{
    if bound == 0 {
        return Err(String::from_str("request bound must be greater than zero"));
    }
    if timeout_nanos == 0 {
        let e = String::from_str("request timeout must be greater than zero");
        proof {
            reveal_strlit("request bound must be greater than zero");
            reveal_strlit("request timeout must be greater than zero");
            assert(e@[8] != "request bound must be greater than zero"@[8]);
        }
        return Err(e);
    }
    Ok(())
}

/// Check the bearer a host is told to require: it must be non-empty.
pub fn check_bearer_secret(bearer: &str) -> (r: Result<(), String>)
    ensures
        r is Ok <==> bearer@.len() > 0,
{
    if bearer.unicode_len() == 0 {
        return Err(String::from_str("clerk bearer must be non-empty"));
    }
    Ok(())
}

} // verus!
