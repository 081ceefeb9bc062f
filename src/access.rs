//! Access to the worlds by world link.
use crate::propagate::WorldId;
use crate::registry::PhysicsWorld;
use vstd::prelude::*;

verus! {

/// Read access to the world of a setup that has exactly one.
pub struct DefaultRapierContextAccess<'a> {
    pub rapier_context: &'a Vec<PhysicsWorld>,
}

impl<'a> DefaultRapierContextAccess<'a> {
    /// The only world.
    pub fn single(&self) -> (r: &'a PhysicsWorld)
        requires
            self.rapier_context@.len() == 1,
        ensures
            *r == self.rapier_context@[0],
    {
        &self.rapier_context[0]
    }
}

/// Write access to the world of a setup that has exactly one.
pub struct DefaultRapierContextAccessMut<'a> {
    pub rapier_context: &'a mut Vec<PhysicsWorld>,
}

impl<'a> DefaultRapierContextAccessMut<'a> {
    /// The only world.
    pub fn single_mut(&mut self) -> (r: &mut PhysicsWorld)
        requires
            old(self).rapier_context@.len() == 1,
        ensures
            *r == old(self).rapier_context@[0],
            final(self).rapier_context@ == old(self).rapier_context@.update(0, *final(r)),
    {
        &mut self.rapier_context[0]
    }
}

/// Read access to any world.
pub struct RapierContextAccess<'a> {
    pub rapier_context: &'a Vec<PhysicsWorld>,
}

impl<'a> RapierContextAccess<'a> {
    /// The world that a world link names.
    pub fn context(&self, link: WorldId) -> (r: &'a PhysicsWorld)
        requires
            link < self.rapier_context@.len(),
        ensures
            *r == self.rapier_context@[link as int],
    {
        &self.rapier_context[link]
    }
}

/// Write access to any world.
pub struct RapierContextAccessMut<'a> {
    pub rapier_context: &'a mut Vec<PhysicsWorld>,
}

impl<'a> RapierContextAccessMut<'a> {
    /// The world that a world link names.
    pub fn context(&mut self, link: WorldId) -> (r: &mut PhysicsWorld)
        requires
            link < old(self).rapier_context@.len(),
        ensures
            *r == old(self).rapier_context@[link as int],
            final(self).rapier_context@ == old(self).rapier_context@.update(link as int, *final(r)),
    {
        &mut self.rapier_context[link]
    }
}

} // verus!
