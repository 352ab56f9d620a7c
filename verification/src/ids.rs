//! Opaque unique identifiers for items, sessions and reset tokens.

use vstd::prelude::*;

verus! {

/// Relies on uuid's `Uuid::new_v4`, rendered in the hyphenated form, which
/// is documented as 36 characters. The value is random, so nothing more is
/// promised of it.
#[verifier::external_body]
pub fn new_uuid_string() -> (id: String)
    ensures
        id@.len() == 36,
{
    uuid::Uuid::new_v4().to_string()
}

} // verus!
