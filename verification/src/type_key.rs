//! Runtime identity of Rust types, used to index component storages and systems.

use std::any::TypeId;
use vstd::prelude::*;

verus! {

/// `std::any::TypeId`, an opaque value that identifies a type.
#[verifier::external_type_specification]
#[verifier::external_body]
pub struct ExTypeId(TypeId);

/// Compares two type identities with `TypeId`'s `==`.
///
/// Trusted: `TypeId` equality is the equality of the identities, so the result
/// is `true` exactly when both arguments denote the same identity.
#[verifier::external_body]
pub fn same_type_key(a: &TypeId, b: &TypeId) -> (r: bool)
    ensures
        r == (*a == *b),
{
    *a == *b
}

} // verus!
