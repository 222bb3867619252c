//! Fresh identifiers for nodes and edges.

use vstd::prelude::*;

verus! {

/// Draws a random 128-bit identifier: calls `uuid::Uuid::new_v4` and reads
/// the value out with `Uuid::as_u128`. The value comes from the operating
/// system's random source, so nothing is promised about it; where the system
/// has no random bytes to give, `new_v4` panics instead of returning.
#[verifier::external_body]
pub(crate) fn random_id() -> (id: u128) {
    uuid::Uuid::new_v4().as_u128()
}

} // verus!
