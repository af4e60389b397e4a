//! One object version as it is logged and projected.

use vstd::prelude::*;
use vstd::std_specs::cmp::PartialEqSpecImpl;

use crate::props::Props;

verus! {

/// The mathematical value of an [`ObjectRecord`].
pub struct RecordView {
    pub gen: u64,
    pub kind: Seq<char>,
    pub key: Seq<char>,
    pub hidden: bool,
    pub action_id: Option<Seq<char>>,
    pub props: Seq<(Seq<char>, Seq<char>)>,
}

/// One write of an object identity `(kind, key)`.
#[derive(Debug)]
pub struct ObjectRecord {
    pub gen: u64,
    pub kind: String,
    pub key: String,
    pub hidden: bool,
    /// Clerk-assigned Action id that produced this version, if any.
    pub action_id: Option<String>,
    pub props: Props,
}

pub open spec fn opt_str_view(o: Option<String>) -> Option<Seq<char>> {
    match o {
        Some(s) => Some(s@),
        None => None,
    }
}

impl View for ObjectRecord {
    type V = RecordView;

    open spec fn view(&self) -> RecordView {
        RecordView {
            gen: self.gen,
            kind: self.kind@,
            key: self.key@,
            hidden: self.hidden,
            action_id: opt_str_view(self.action_id),
            props: self.props@,
        }
    }
}

pub fn clone_opt_str(o: &Option<String>) -> (r: Option<String>)
    ensures
        opt_str_view(r) == opt_str_view(*o),
{
    match o {
        Some(s) => Some(s.clone()),
        None => None,
    }
}

impl Clone for ObjectRecord {
    fn clone(&self) -> (r: Self)
        ensures
            r@ == self@,
    {
        ObjectRecord {
            gen: self.gen,
            kind: self.kind.clone(),
            key: self.key.clone(),
            hidden: self.hidden,
            action_id: clone_opt_str(&self.action_id),
            props: self.props.clone(),
        }
    }
}

/// Whether two optional strings are equal.
pub fn opt_str_equal(a: &Option<String>, b: &Option<String>) -> (r: bool)
    ensures
        r == (opt_str_view(*a) == opt_str_view(*b)),
{
    match (a, b) {
        (Some(x), Some(y)) => crate::text::str_eq(x.as_str(), y.as_str()),
        (None, None) => true,
        _ => false,
    }
}

impl ObjectRecord {
    /// Whether both records hold the same generation, identity, flag,
    /// Action id and properties.
    pub fn same_record(&self, other: &ObjectRecord) -> (r: bool)
        ensures
            r == (self@ == other@),
    {
        let r = self.gen == other.gen && crate::text::str_eq(self.kind.as_str(), other.kind.as_str())
            && crate::text::str_eq(self.key.as_str(), other.key.as_str()) && self.hidden == other.hidden
            && opt_str_equal(&self.action_id, &other.action_id) && self.props.same(&other.props);
        proof {
            if !r && self@ == other@ {
                assert(self@.kind == other@.kind);
            }
        }
        r
    }
}

impl PartialEq for ObjectRecord {
    fn eq(&self, other: &Self) -> (r: bool) {
        self.same_record(other)
    }
}

impl PartialEqSpecImpl for ObjectRecord {
    open spec fn obeys_eq_spec() -> bool {
        true
    }

    open spec fn eq_spec(&self, other: &ObjectRecord) -> bool {
        self@ == other@
    }
}

} // verus!
