use vstd::prelude::*;

verus! {

/// A fresh random identifier for a new entity.
/// Relies on uuid::Uuid::new_v4 (random version-4 id) and Uuid::as_u128 (its 128 bits);
/// nothing is promised of the value.
#[verifier::external_body]
pub(crate) fn random_id() -> u128 {
    uuid::Uuid::new_v4().as_u128()
}

} // verus!
