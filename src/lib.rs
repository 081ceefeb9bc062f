//! Multi-world physics bookkeeping for an entity/component host.
//!
//! - [`registry`]: one world's containers and its entity-to-handle maps, kept in
//!   one-to-one correspondence.
//! - [`sync`]: the per-cycle pass that removes the physics objects of entities the host
//!   removed or orphaned.
//! - [`propagate`]: carrying world-link changes through the entity hierarchy.
//! - [`scheduler`] and [`time_sync`]: dispatching background steps one at a time per
//!   world, and reconciling simulated time with render time.
//! - [`access`]: reaching a world by its link.
//! - [`physics`]: the rapier containers, as the rest of the crate sees them.
pub mod access;
pub mod physics;
pub mod propagate;
pub mod registry;
pub mod scheduler;
pub mod sync;
pub mod time_sync;
