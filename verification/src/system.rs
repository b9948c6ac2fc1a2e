//! Systems: the units of logic that a scheduler runs on a world.

use crate::world::World;
use std::any::TypeId;
use vstd::prelude::*;

verus! {

/// A system processes a world in three phases: `before_run` (read-only
/// preparation), `run` (mutation) and `after_run` (read-only output).
///
/// Every phase does nothing by default. `dependencies` lists the type
/// identities of the systems that must run before this one (none by default).
///
/// The world's public operations all keep it well formed, never hand out an
/// identifier twice and keep the resource identifier, so every `run` does the
/// same; the contract of `run` states those facts.
pub trait System {
    /// The systems that must execute before this one.
    fn dependencies(&self) -> (r: &[TypeId])
        default_ensures
            r@ == Seq::<TypeId>::empty(),
    {
        &[]
    }

    /// Read-only preparation phase.
    fn before_run(&self, world: &World) {
    }

    /// Main phase, with mutable access to the world.
    fn run(&self, world: &mut World)
        requires
            old(world).wf(),
        ensures
            final(world).wf(),
            old(world)@.spawned.subset_of(final(world)@.spawned),
            final(world)@.resource_id == old(world)@.resource_id,
    {
    }

    /// Read-only output phase.
    fn after_run(&self, world: &World) {
    }
}

} // verus!
