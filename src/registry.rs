//! One physics world: its containers and the entity-to-handle registry beside them.
use crate::physics::{
    bodies_insert, bodies_remove, body_enable, collider_clear_sensor, collider_enable,
    collider_parent, collider_parents, colliders_insert, disabled_bodies, disabled_colliders,
    sensor_colliders, colliders_insert_with_parent,
    colliders_remove, impulse_joints_contains, impulse_joints_insert, impulse_joints_remove, live_bodies, live_colliders,
    live_impulse_joints, multibody_links, new_body_set,
    new_collider_set, new_impulse_joint_set, new_island_manager, new_multibody_joint_set,
    RawHandle,
};
use rapier3d::prelude::{
    Collider, ColliderSet, GenericJoint, ImpulseJointSet, IslandManager, MultibodyJointSet,
    RigidBody, RigidBodySet,
};
use std::collections::HashMap;
use vstd::std_specs::iter::IteratorSpec;
use vstd::prelude::*;

verus! {

broadcast use vstd::std_specs::hash::group_hash_axioms;

/// Identifier of an entity of the host.
pub type EntityId = usize;

/// The four kinds of physics object an entity can own.
#[derive(Clone, Copy, Debug, PartialEq, Eq, Structural)]
pub enum HandleKind {
    Body,
    Collider,
    ImpulseJoint,
    MultibodyJoint,
}

/// Every entity of the map has a handle that `live` holds.
pub open spec fn maps_into(m: Map<EntityId, RawHandle>, live: Set<RawHandle>) -> bool {
    forall|e: EntityId| #[trigger] m.contains_key(e) ==> live.contains(m[e])
}

/// Every handle that `live` holds is the handle of some entity of the map.
pub open spec fn covers(m: Map<EntityId, RawHandle>, live: Set<RawHandle>) -> bool {
    forall|h: RawHandle| #[trigger]
        live.contains(h) ==> exists|e: EntityId| m.contains_key(e) && #[trigger] m[e] == h
}

/// No two entities of the map share a handle.
pub open spec fn injective(m: Map<EntityId, RawHandle>) -> bool {
    forall|e1: EntityId, e2: EntityId|
        #[trigger] m.contains_key(e1) && #[trigger] m.contains_key(e2) && m[e1] == m[e2] ==> e1
            == e2
}

/// The map and the container are in one-to-one correspondence.
pub open spec fn consistent(m: Map<EntityId, RawHandle>, live: Set<RawHandle>) -> bool {
    maps_into(m, live) && covers(m, live) && injective(m)
}

proof fn lemma_consistent_remove(m: Map<EntityId, RawHandle>, live: Set<RawHandle>, e: EntityId)
    requires
        consistent(m, live),
        m.contains_key(e),
    ensures
        consistent(m.remove(e), live.remove(m[e])),
{
    let m2 = m.remove(e);
    let l2 = live.remove(m[e]);
    assert forall|h: RawHandle| #[trigger] l2.contains(h) implies exists|x: EntityId|
        m2.contains_key(x) && #[trigger] m2[x] == h by {
        let x = choose|x: EntityId| m.contains_key(x) && #[trigger] m[x] == h;
        assert(m2.contains_key(x) && m2[x] == h);
    }
}

proof fn lemma_consistent_insert(
    m: Map<EntityId, RawHandle>,
    live: Set<RawHandle>,
    e: EntityId,
    h: RawHandle,
)
    requires
        consistent(m, live),
        !m.contains_key(e),
        !live.contains(h),
    ensures
        consistent(m.insert(e, h), live.insert(h)),
{
    let m2 = m.insert(e, h);
    let l2 = live.insert(h);
    assert forall|h2: RawHandle| #[trigger] l2.contains(h2) implies exists|x: EntityId|
        m2.contains_key(x) && #[trigger] m2[x] == h2 by {
        if h2 == h {
            assert(m2.contains_key(e) && m2[e] == h2);
        } else {
            let x = choose|x: EntityId| m.contains_key(x) && #[trigger] m[x] == h2;
            assert(m2.contains_key(x) && m2[x] == h2);
        }
    }
}

/// One physics world: its containers, and for each kind of physics object the map from
/// owning entity to handle.
pub struct PhysicsWorld {
    pub entity2body: HashMap<EntityId, RawHandle>,
    pub entity2collider: HashMap<EntityId, RawHandle>,
    pub entity2impulse_joint: HashMap<EntityId, RawHandle>,
    pub entity2multibody_joint: HashMap<EntityId, RawHandle>,
    pub bodies: RigidBodySet,
    pub colliders: ColliderSet,
    pub impulse_joints: ImpulseJointSet,
    pub multibody_joints: MultibodyJointSet,
    pub islands: IslandManager,
    /// Colliders removed from this world, with their entity, until downstream readers
    /// consume them.
    pub deleted_colliders: Vec<(RawHandle, EntityId)>,
}

impl PhysicsWorld {
    /// The registry map of one kind.
    pub open spec fn map_of(&self, kind: HandleKind) -> Map<EntityId, RawHandle> {
        match kind {
            HandleKind::Body => self.entity2body@,
            HandleKind::Collider => self.entity2collider@,
            HandleKind::ImpulseJoint => self.entity2impulse_joint@,
            HandleKind::MultibodyJoint => self.entity2multibody_joint@,
        }
    }

    /// Whether any registry map of this world holds the entity.
    pub open spec fn holds_entity(&self, e: EntityId) -> bool {
        self.entity2body@.contains_key(e) || self.entity2collider@.contains_key(e)
            || self.entity2impulse_joint@.contains_key(e)
            || self.entity2multibody_joint@.contains_key(e)
    }

    /// Every body, collider and impulse-joint handle of the registry names an object
    /// that the world holds and the reverse, one to one.
    ///
    /// The multibody-joint set is kept without links, and so is its registry map: once a
    /// removal has split a multibody, rapier's set keeps links to multibodies it has
    /// dropped, and later removals or insertions touching them panic. Multibody joints
    /// are therefore not inserted through this world.
    pub open spec fn wf(&self) -> bool {
        &&& consistent(self.entity2body@, live_bodies(self.bodies))
        &&& consistent(self.entity2collider@, live_colliders(self.colliders))
        &&& consistent(self.entity2impulse_joint@, live_impulse_joints(self.impulse_joints))
        &&& multibody_links(self.multibody_joints) == Set::<RawHandle>::empty()
        &&& consistent(self.entity2multibody_joint@, multibody_links(self.multibody_joints))
    }

    pub fn new() -> (r: Self)
        ensures
            r.wf(),
            r.entity2body@ == Map::<EntityId, RawHandle>::empty(),
            r.entity2collider@ == Map::<EntityId, RawHandle>::empty(),
            r.entity2impulse_joint@ == Map::<EntityId, RawHandle>::empty(),
            r.entity2multibody_joint@ == Map::<EntityId, RawHandle>::empty(),
            r.deleted_colliders@.len() == 0,
    {
        PhysicsWorld {
            entity2body: HashMap::new(),
            entity2collider: HashMap::new(),
            entity2impulse_joint: HashMap::new(),
            entity2multibody_joint: HashMap::new(),
            bodies: new_body_set(),
            colliders: new_collider_set(),
            impulse_joints: new_impulse_joint_set(),
            multibody_joints: new_multibody_joint_set(),
            islands: new_island_manager(),
            deleted_colliders: Vec::new(),
        }
    }

    /// Registers a new body for `entity`; declines (returning `None`) when the entity
    /// already has one.
    pub fn insert_body(&mut self, entity: EntityId, rb: RigidBody) -> (r: Option<RawHandle>)
        requires
            old(self).wf(),
        ensures
            final(self).wf(),
            r.is_some() == !old(self).entity2body@.contains_key(entity),
            r.is_some() ==> final(self).entity2body@ == old(self).entity2body@.insert(
                entity,
                r.unwrap(),
            ),
            r.is_none() ==> final(self).entity2body@ == old(self).entity2body@,
            final(self).entity2collider@ == old(self).entity2collider@,
            final(self).entity2impulse_joint@ == old(self).entity2impulse_joint@,
            final(self).entity2multibody_joint@ == old(self).entity2multibody_joint@,
            final(self).deleted_colliders@ == old(self).deleted_colliders@,
            final(self).impulse_joints == old(self).impulse_joints,
    {
        if self.entity2body.contains_key(&entity) {
            return None;
        }
        let h = bodies_insert(&mut self.bodies, rb);
        proof {
            lemma_consistent_insert(old(self).entity2body@, live_bodies(old(self).bodies), entity, h);
        }
        self.entity2body.insert(entity, h);
        Some(h)
    }

    /// Registers a new collider for `entity`, attached to the body of `parent` when that
    /// entity has a body in this world; declines (returning `None`) when `entity`
    /// already has a collider.
    pub fn insert_collider(&mut self, entity: EntityId, co: Collider, parent: Option<EntityId>) -> (r:
        Option<RawHandle>)
        requires
            old(self).wf(),
        ensures
            final(self).wf(),
            r.is_some() == !old(self).entity2collider@.contains_key(entity),
            r.is_some() ==> final(self).entity2collider@ == old(self).entity2collider@.insert(
                entity,
                r.unwrap(),
            ),
            r.is_some() ==> match parent {
                Some(p) => if old(self).entity2body@.contains_key(p) {
                    collider_parents(final(self).colliders) == collider_parents(
                        old(self).colliders,
                    ).insert(r.unwrap(), old(self).entity2body@[p])
                } else {
                    collider_parents(final(self).colliders) == collider_parents(
                        old(self).colliders,
                    )
                },
                None => collider_parents(final(self).colliders) == collider_parents(
                    old(self).colliders,
                ),
            },
            r.is_none() ==> final(self).entity2collider@ == old(self).entity2collider@,
            final(self).entity2body@ == old(self).entity2body@,
            final(self).entity2impulse_joint@ == old(self).entity2impulse_joint@,
            final(self).entity2multibody_joint@ == old(self).entity2multibody_joint@,
            final(self).deleted_colliders@ == old(self).deleted_colliders@,
            final(self).impulse_joints == old(self).impulse_joints,
    {
        if self.entity2collider.contains_key(&entity) {
            return None;
        }
        let parent_body: Option<RawHandle> = match parent {
            Some(p) => match self.entity2body.get(&p) {
                Some(b) => Some(*b),
                None => None,
            },
            None => None,
        };
        let h = match parent_body {
            Some(b) => colliders_insert_with_parent(&mut self.colliders, co, b, &mut self.bodies),
            None => colliders_insert(&mut self.colliders, co),
        };
        proof {
            lemma_consistent_insert(
                old(self).entity2collider@,
                live_colliders(old(self).colliders),
                entity,
                h,
            );
        }
        self.entity2collider.insert(entity, h);
        Some(h)
    }

    /// Registers a new impulse joint for `entity` between the bodies of `entity1` and
    /// `entity2`; declines (returning `None`) when `entity` already has an impulse
    /// joint or either entity has no body in this world.
    pub fn insert_impulse_joint(
        &mut self,
        entity: EntityId,
        entity1: EntityId,
        entity2: EntityId,
        data: GenericJoint,
    ) -> (r: Option<RawHandle>)
        requires
            old(self).wf(),
        ensures
            final(self).wf(),
            r.is_some() == (!old(self).entity2impulse_joint@.contains_key(entity)
                && old(self).entity2body@.contains_key(entity1)
                && old(self).entity2body@.contains_key(entity2)),
            r.is_some() ==> final(self).entity2impulse_joint@
                == old(self).entity2impulse_joint@.insert(entity, r.unwrap()),
            r.is_none() ==> final(self).entity2impulse_joint@ == old(self).entity2impulse_joint@,
            final(self).entity2body@ == old(self).entity2body@,
            final(self).entity2collider@ == old(self).entity2collider@,
            final(self).entity2multibody_joint@ == old(self).entity2multibody_joint@,
            final(self).deleted_colliders@ == old(self).deleted_colliders@,
    {
        if self.entity2impulse_joint.contains_key(&entity) {
            return None;
        }
        let b1 = match self.entity2body.get(&entity1) {
            Some(b) => *b,
            None => return None,
        };
        let b2 = match self.entity2body.get(&entity2) {
            Some(b) => *b,
            None => return None,
        };
        let h = impulse_joints_insert(&mut self.impulse_joints, b1, b2, data);
        proof {
            lemma_consistent_insert(
                old(self).entity2impulse_joint@,
                live_impulse_joints(old(self).impulse_joints),
                entity,
                h,
            );
        }
        self.entity2impulse_joint.insert(entity, h);
        Some(h)
    }

    /// Drops the impulse-joint entries whose joint the world no longer holds.
    fn purge_removed_joints(&mut self)
        requires
            covers(old(self).entity2impulse_joint@, live_impulse_joints(old(self).impulse_joints)),
            injective(old(self).entity2impulse_joint@),
        ensures
            consistent(final(self).entity2impulse_joint@, live_impulse_joints(final(self).impulse_joints)),
            final(self).entity2impulse_joint@.submap_of(old(self).entity2impulse_joint@),
            final(self).impulse_joints == old(self).impulse_joints,
            final(self).multibody_joints == old(self).multibody_joints,
            final(self).bodies == old(self).bodies,
            final(self).colliders == old(self).colliders,
            final(self).entity2body@ == old(self).entity2body@,
            final(self).entity2collider@ == old(self).entity2collider@,
            final(self).entity2multibody_joint@ == old(self).entity2multibody_joint@,
            final(self).deleted_colliders@ == old(self).deleted_colliders@,
    {
        let ghost m0 = self.entity2impulse_joint@;
        let ghost live = live_impulse_joints(self.impulse_joints);
        let keys = keys_of(&self.entity2impulse_joint);
        let mut i: usize = 0;
        while i < keys.len()
            invariant
                i <= keys@.len(),
                live == live_impulse_joints(self.impulse_joints),
                self.impulse_joints == old(self).impulse_joints,
                self.multibody_joints == old(self).multibody_joints,
                self.bodies == old(self).bodies,
                self.colliders == old(self).colliders,
                self.entity2body@ == old(self).entity2body@,
                self.entity2collider@ == old(self).entity2collider@,
                self.entity2multibody_joint@ == old(self).entity2multibody_joint@,
                self.deleted_colliders@ == old(self).deleted_colliders@,
                m0 == old(self).entity2impulse_joint@,
                forall|e: EntityId| m0.contains_key(e) ==> keys@.contains(e),
                self.entity2impulse_joint@.submap_of(m0),
                forall|e: EntityId|
                    #[trigger] m0.contains_key(e) && live.contains(m0[e])
                        ==> self.entity2impulse_joint@.contains_key(e),
                forall|j: int|
                    0 <= j < i && self.entity2impulse_joint@.contains_key(#[trigger] keys@[j])
                        ==> live.contains(self.entity2impulse_joint@[keys@[j]]),
            decreases keys@.len() - i,
        {
            let k = keys[i];
            let dangling = match self.entity2impulse_joint.get(&k) {
                Some(h) => !impulse_joints_contains(&self.impulse_joints, *h),
                None => false,
            };
            if dangling {
                self.entity2impulse_joint.remove(&k);
            }
            i = i + 1;
        }
        proof {
            let m = self.entity2impulse_joint@;
            assert forall|e: EntityId| #[trigger] m.contains_key(e) implies live.contains(m[e]) by {
                assert(m0.contains_key(e));
                let j = choose|j: int| 0 <= j < keys@.len() && keys@[j] == e;
                assert(m.contains_key(keys@[j]));
            }
            assert forall|h: RawHandle| #[trigger] live.contains(h) implies exists|x: EntityId|
                m.contains_key(x) && #[trigger] m[x] == h by {
                let x = choose|x: EntityId| m0.contains_key(x) && #[trigger] m0[x] == h;
                assert(m.contains_key(x) && m[x] == h);
            }
            assert forall|e1: EntityId, e2: EntityId|
                #[trigger] m.contains_key(e1) && #[trigger] m.contains_key(e2) && m[e1] == m[e2] implies e1
                    == e2 by {
                assert(m0.contains_key(e1) && m0.contains_key(e2));
            }
        }
    }

    /// Removes the body of `entity` from the registry and from the world, detaching its
    /// colliders; the impulse joints attached to it leave the world and the registry.
    /// Returns its handle.
    pub fn remove_body_of(&mut self, entity: EntityId) -> (r: Option<RawHandle>)
        requires
            old(self).wf(),
        ensures
            final(self).wf(),
            r.is_some() == old(self).entity2body@.contains_key(entity),
            r.is_some() ==> r.unwrap() == old(self).entity2body@[entity],
            final(self).entity2body@ == old(self).entity2body@.remove(entity),
            r.is_some() ==> live_bodies(final(self).bodies) == live_bodies(old(self).bodies).remove(
                r.unwrap(),
            ),
            r.is_none() ==> live_bodies(final(self).bodies) == live_bodies(old(self).bodies),
            live_colliders(final(self).colliders) == live_colliders(old(self).colliders),
            r.is_none() ==> live_impulse_joints(final(self).impulse_joints) == live_impulse_joints(
                old(self).impulse_joints,
            ),
            r.is_none() ==> final(self).entity2impulse_joint@ == old(self).entity2impulse_joint@,
            final(self).entity2impulse_joint@.submap_of(old(self).entity2impulse_joint@),
            final(self).entity2collider@ == old(self).entity2collider@,
            final(self).entity2multibody_joint@ == old(self).entity2multibody_joint@,
            final(self).deleted_colliders@ == old(self).deleted_colliders@,
            collider_parents(final(self).colliders).submap_of(collider_parents(old(self).colliders)),
    {
        match self.entity2body.remove(&entity) {
            Some(h) => {
                proof {
                    lemma_consistent_remove(old(self).entity2body@, live_bodies(old(self).bodies), entity);
                }
                bodies_remove(
                    &mut self.bodies,
                    h,
                    &mut self.islands,
                    &mut self.colliders,
                    &mut self.impulse_joints,
                    &mut self.multibody_joints,
                );
                self.purge_removed_joints();
                proof {
                    assert(collider_parents(self.colliders).submap_of(collider_parents(old(self).colliders)));
                }
                Some(h)
            },
            None => {
                proof {
                    assert(old(self).entity2body@.remove(entity) =~= old(self).entity2body@);
                }
                None
            },
        }
    }

    /// Removes the collider of `entity` from the registry and from the world, and
    /// records it among the deleted colliders; returns its handle with the body it was
    /// attached to, whose mass has then changed.
    pub fn remove_collider_of(&mut self, entity: EntityId) -> (r: Option<(RawHandle, Option<RawHandle>)>)
        requires
            old(self).wf(),
        ensures
            final(self).wf(),
            r.is_some() == old(self).entity2collider@.contains_key(entity),
            final(self).entity2collider@ == old(self).entity2collider@.remove(entity),
            r.is_none() ==> final(self).deleted_colliders@ == old(self).deleted_colliders@,
            r.is_none() ==> live_colliders(final(self).colliders) == live_colliders(old(self).colliders),
            match r {
                Some((h, parent)) => {
                    &&& h == old(self).entity2collider@[entity]
                    &&& parent.is_some() == collider_parents(old(self).colliders).contains_key(h)
                    &&& parent.is_some() ==> parent.unwrap() == collider_parents(old(self).colliders)[h]
                    &&& live_colliders(final(self).colliders) == live_colliders(old(self).colliders).remove(h)
                    &&& final(self).deleted_colliders@ == old(self).deleted_colliders@.push((h, entity))
                    &&& collider_parents(final(self).colliders) == collider_parents(old(self).colliders).remove(h)
                },
                None => final(self).colliders == old(self).colliders,
            },
            live_bodies(final(self).bodies) == live_bodies(old(self).bodies),
            live_impulse_joints(final(self).impulse_joints) == live_impulse_joints(old(self).impulse_joints),
            final(self).entity2body@ == old(self).entity2body@,
            final(self).entity2impulse_joint@ == old(self).entity2impulse_joint@,
            final(self).entity2multibody_joint@ == old(self).entity2multibody_joint@,
    {
        match self.entity2collider.remove(&entity) {
            Some(h) => {
                proof {
                    lemma_consistent_remove(
                        old(self).entity2collider@,
                        live_colliders(old(self).colliders),
                        entity,
                    );
                }
                let parent = collider_parent(&self.colliders, h);
                colliders_remove(&mut self.colliders, h, &mut self.islands, &mut self.bodies);
                self.deleted_colliders.push((h, entity));
                Some((h, parent))
            },
            None => {
                proof {
                    assert(old(self).entity2collider@.remove(entity) =~= old(self).entity2collider@);
                }
                None
            },
        }
    }

    /// Removes the impulse joint of `entity` from the registry and from the world;
    /// returns its handle.
    pub fn remove_impulse_joint_of(&mut self, entity: EntityId) -> (r: Option<RawHandle>)
        requires
            old(self).wf(),
        ensures
            final(self).wf(),
            r.is_some() == old(self).entity2impulse_joint@.contains_key(entity),
            r.is_some() ==> r.unwrap() == old(self).entity2impulse_joint@[entity],
            final(self).entity2impulse_joint@ == old(self).entity2impulse_joint@.remove(entity),
            r.is_some() ==> live_impulse_joints(final(self).impulse_joints) == live_impulse_joints(
                old(self).impulse_joints,
            ).remove(r.unwrap()),
            r.is_none() ==> live_impulse_joints(final(self).impulse_joints) == live_impulse_joints(
                old(self).impulse_joints,
            ),
            live_bodies(final(self).bodies) == live_bodies(old(self).bodies),
            live_colliders(final(self).colliders) == live_colliders(old(self).colliders),
            final(self).entity2body@ == old(self).entity2body@,
            final(self).entity2collider@ == old(self).entity2collider@,
            final(self).entity2multibody_joint@ == old(self).entity2multibody_joint@,
            final(self).deleted_colliders@ == old(self).deleted_colliders@,
            final(self).colliders == old(self).colliders,
    {
        match self.entity2impulse_joint.remove(&entity) {
            Some(h) => {
                proof {
                    lemma_consistent_remove(
                        old(self).entity2impulse_joint@,
                        live_impulse_joints(old(self).impulse_joints),
                        entity,
                    );
                }
                impulse_joints_remove(&mut self.impulse_joints, h);
                Some(h)
            },
            None => {
                proof {
                    assert(old(self).entity2impulse_joint@.remove(entity) =~= old(self).entity2impulse_joint@);
                }
                None
            },
        }
    }

    /// Removes the multibody-joint entry of `entity` from the registry; returns its handle.
    pub fn remove_multibody_joint_of(&mut self, entity: EntityId) -> (r: Option<RawHandle>)
        requires
            old(self).wf(),
        ensures
            final(self).wf(),
            r.is_some() == old(self).entity2multibody_joint@.contains_key(entity),
            r.is_some() ==> r.unwrap() == old(self).entity2multibody_joint@[entity],
            final(self).entity2multibody_joint@ == old(self).entity2multibody_joint@.remove(entity),
            live_bodies(final(self).bodies) == live_bodies(old(self).bodies),
            live_colliders(final(self).colliders) == live_colliders(old(self).colliders),
            live_impulse_joints(final(self).impulse_joints) == live_impulse_joints(old(self).impulse_joints),
            final(self).entity2body@ == old(self).entity2body@,
            final(self).entity2collider@ == old(self).entity2collider@,
            final(self).entity2impulse_joint@ == old(self).entity2impulse_joint@,
            final(self).deleted_colliders@ == old(self).deleted_colliders@,
            final(self).colliders == old(self).colliders,
    {
        match self.entity2multibody_joint.remove(&entity) {
            Some(h) => Some(h),
            None => {
                proof {
                    assert(old(self).entity2multibody_joint@.remove(entity) =~= old(self).entity2multibody_joint@);
                }
                None
            },
        }
    }

    /// Clears the sensor flag of the collider of `entity`; returns whether it has one.
    pub fn clear_sensor_of(&mut self, entity: EntityId) -> (r: bool)
        requires
            old(self).wf(),
        ensures
            final(self).wf(),
            r == old(self).entity2collider@.contains_key(entity),
            r ==> sensor_colliders(final(self).colliders) == sensor_colliders(old(self).colliders).remove(
                old(self).entity2collider@[entity],
            ),
            !r ==> sensor_colliders(final(self).colliders) == sensor_colliders(old(self).colliders),
            disabled_colliders(final(self).colliders) == disabled_colliders(old(self).colliders),
            final(self).bodies == old(self).bodies,
            live_colliders(final(self).colliders) == live_colliders(old(self).colliders),
            final(self).entity2body@ == old(self).entity2body@,
            final(self).entity2collider@ == old(self).entity2collider@,
            final(self).entity2impulse_joint@ == old(self).entity2impulse_joint@,
            final(self).entity2multibody_joint@ == old(self).entity2multibody_joint@,
            final(self).deleted_colliders@ == old(self).deleted_colliders@,
            final(self).impulse_joints == old(self).impulse_joints,
            collider_parents(final(self).colliders) == collider_parents(old(self).colliders),
    {
        match self.entity2collider.get(&entity) {
            Some(h) => collider_clear_sensor(&mut self.colliders, *h),
            None => false,
        }
    }

    /// Enables again the collider of `entity`; returns whether it has one.
    pub fn enable_collider_of(&mut self, entity: EntityId) -> (r: bool)
        requires
            old(self).wf(),
        ensures
            final(self).wf(),
            r == old(self).entity2collider@.contains_key(entity),
            r ==> disabled_colliders(final(self).colliders) == disabled_colliders(
                old(self).colliders,
            ).remove(old(self).entity2collider@[entity]),
            !r ==> disabled_colliders(final(self).colliders) == disabled_colliders(old(self).colliders),
            sensor_colliders(final(self).colliders) == sensor_colliders(old(self).colliders),
            final(self).bodies == old(self).bodies,
            live_colliders(final(self).colliders) == live_colliders(old(self).colliders),
            final(self).entity2body@ == old(self).entity2body@,
            final(self).entity2collider@ == old(self).entity2collider@,
            final(self).entity2impulse_joint@ == old(self).entity2impulse_joint@,
            final(self).entity2multibody_joint@ == old(self).entity2multibody_joint@,
            final(self).deleted_colliders@ == old(self).deleted_colliders@,
            final(self).impulse_joints == old(self).impulse_joints,
            collider_parents(final(self).colliders) == collider_parents(old(self).colliders),
    {
        match self.entity2collider.get(&entity) {
            Some(h) => collider_enable(&mut self.colliders, *h),
            None => false,
        }
    }

    /// Enables again the body of `entity`; returns whether it has one.
    pub fn enable_body_of(&mut self, entity: EntityId) -> (r: bool)
        requires
            old(self).wf(),
        ensures
            final(self).wf(),
            r == old(self).entity2body@.contains_key(entity),
            r ==> disabled_bodies(final(self).bodies) == disabled_bodies(old(self).bodies).remove(
                old(self).entity2body@[entity],
            ),
            !r ==> disabled_bodies(final(self).bodies) == disabled_bodies(old(self).bodies),
            final(self).colliders == old(self).colliders,
            live_bodies(final(self).bodies) == live_bodies(old(self).bodies),
            final(self).entity2body@ == old(self).entity2body@,
            final(self).entity2collider@ == old(self).entity2collider@,
            final(self).entity2impulse_joint@ == old(self).entity2impulse_joint@,
            final(self).entity2multibody_joint@ == old(self).entity2multibody_joint@,
            final(self).deleted_colliders@ == old(self).deleted_colliders@,
            final(self).impulse_joints == old(self).impulse_joints,
    {
        match self.entity2body.get(&entity) {
            Some(h) => body_enable(&mut self.bodies, *h),
            None => false,
        }
    }

}

fn keys_of(m: &HashMap<EntityId, RawHandle>) -> (r: Vec<EntityId>)
    ensures
        forall|e: EntityId| m@.contains_key(e) ==> r@.contains(e),
        forall|i: int| 0 <= i < r@.len() ==> m@.contains_key(#[trigger] r@[i]),
{
    let mut r: Vec<EntityId> = Vec::new();
    let iter = m.iter();
    let ghost full = iter.remaining();
    proof {
        broadcast use vstd::std_specs::hash::axiom_spec_hash_map_iter;
        assert(full == vstd::std_specs::hash::spec_hash_map_iter(m).remaining());
    }
    for kv in it: iter
        invariant
            it.seq() == full,
            r@.len() == it.index(),
            forall|i: int| 0 <= i < r@.len() ==> r@[i] == *full[i].0,
    {
        r.push(*kv.0);
    }
    proof {
        assert(r@.len() == full.len());
        assert forall|e: EntityId| m@.contains_key(e) implies r@.contains(e) by {
            assert(full.contains((&e, &m@[e])));
            let i = choose|i: int| 0 <= i < full.len() && full[i] == (&e, &m@[e]);
            assert(r@[i] == e);
        }
    }
    r
}

} // verus!
