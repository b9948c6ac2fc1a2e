//! Entity identifiers.

use std::collections::hash_map::RandomState;
use std::hash::BuildHasher;
use vstd::prelude::*;

verus! {

/// A unique identifier for entities in the ECS.
///
/// Entities are created by [`World::spawn_entity`](crate::World::spawn_entity);
/// an entity is nothing but its identifier.
#[derive(Clone, Copy, Debug, PartialEq, Eq, Hash)]
pub struct Entity {
    id: u64,
}

impl Entity {
    /// The identifier of this entity.
    pub closed spec fn id(self) -> u64 {
        self.id
    }

    /// The entity with the given identifier.
    pub(crate) fn from_id(id: u64) -> (e: Entity)
        ensures
            e.id() == id,
    {
        Entity { id }
    }

    /// The identifier of this entity.
    pub(crate) fn raw_id(&self) -> (id: u64)
        ensures
            id == self.id(),
    {
        self.id
    }

    /// An entity is determined by its identifier.
    pub proof fn lemma_id_determines(a: Entity, b: Entity)
        ensures
            a.id() == b.id() ==> a == b,
    {
    }

    /// Creates an entity with a fresh random identifier, not tied to any world.
    ///
    /// Two calls give different entities with overwhelming probability; the
    /// identifier is drawn from a freshly seeded hasher, so nothing is promised
    /// of its value.
    pub fn new() -> (e: Entity) {
        Entity { id: random_u64() }
    }
}

/// A random 64-bit value: the hash of `0` under a freshly seeded `RandomState`.
pub(crate) fn random_u64() -> u64 {
    let state = new_random_state();
    hash_with(&state, 0)
}

/// `RandomState::new()`: a hasher builder with fresh random keys.
///
/// Trusted; nothing is promised of the keys.
#[verifier::external_body]
pub(crate) fn new_random_state() -> RandomState {
    RandomState::new()
}

/// `BuildHasher::hash_one` on a `RandomState`.
///
/// Trusted; the result depends on the random keys of `state`, so nothing is
/// promised of it.
#[verifier::external_body]
pub(crate) fn hash_with(state: &RandomState, value: u64) -> u64 {
    state.hash_one(value)
}

/// `RandomState::clone`: a hasher builder with the same keys.
///
/// Trusted; nothing is promised of the keys.
#[verifier::external_body]
pub(crate) fn clone_state(state: &RandomState) -> RandomState {
    state.clone()
}

} // verus!
