//! Clerk-issued writes.

use vstd::prelude::*;

use crate::props::Props;

verus! {

/// One clerk write of an identity's properties under an opaque id.
#[derive(Clone, Debug)]
pub struct Action {
    /// Clerk-assigned opaque id. Empty fails closed on `Store::apply_action`.
    pub id: String,
    pub kind: String,
    pub key: String,
    pub props: Props,
}

} // verus!
