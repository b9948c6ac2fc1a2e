//! A small entity–component–system library.
//!
//! Entities are plain identifiers, components are arbitrary values attached to
//! entities (one value per component type and entity), resources are global
//! singleton values, queries select the entities that carry a given set of
//! component types, and a sequential scheduler runs systems in dependency order.

pub mod component;
pub mod entity;
pub mod laws;
pub mod query;
pub mod schedule;
pub mod sequential_system_scheduler;
pub mod system;
pub mod type_key;
pub mod world;

pub use component::{AnyStorage, Component, ComponentError, ComponentStorage, HashMapComponentStorage};
pub use entity::Entity;
pub use query::Query;
pub use sequential_system_scheduler::SequentialSystemScheduler;
pub use system::System;
pub use world::{StorageMut, StorageRef, World};
