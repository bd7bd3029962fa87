//! Generation of node identities.
//!
//! Every node is named by a statistically-unique 128-bit value rendered as
//! the canonical lowercase hyphenated hex string of 36 characters. The
//! arena performs no collision detection; uniqueness is probabilistic.

use vstd::prelude::*;

verus! {

/// Relies on `uuid::Uuid::new_v4` and its `Display` impl: a fresh random
/// version-4 UUID, rendered in the canonical hyphenated form, which is
/// always 36 characters long. Nothing is assumed about which id comes out.
#[verifier::external_body]
pub(crate) fn fresh_id() -> (r: String)
    ensures
        r@.len() == 36,
{
    uuid::Uuid::new_v4().to_string()
}

} // verus!
