//! The physics containers of a world, as rapier provides them.
//!
//! Handles are carried as plain `(index, generation)` pairs; what a container holds is
//! named by the spec functions below and related to each call by its wrapper.
use rapier3d::prelude::{
    Collider, ColliderHandle, ColliderSet, GenericJoint, ImpulseJointHandle, ImpulseJointSet,
    IslandManager, MultibodyJointSet, RigidBody, RigidBodyHandle,
    RigidBodySet,
};
use vstd::prelude::*;

verus! {

/// A physics-object handle as its `(index, generation)` parts.
pub type RawHandle = (u32, u32);

#[verifier::external_type_specification]
#[verifier::external_body]
pub struct ExRigidBodySet(RigidBodySet);

#[verifier::external_type_specification]
#[verifier::external_body]
pub struct ExColliderSet(ColliderSet);

#[verifier::external_type_specification]
#[verifier::external_body]
pub struct ExImpulseJointSet(ImpulseJointSet);

#[verifier::external_type_specification]
#[verifier::external_body]
pub struct ExMultibodyJointSet(MultibodyJointSet);

#[verifier::external_type_specification]
#[verifier::external_body]
pub struct ExIslandManager(IslandManager);

#[verifier::external_type_specification]
#[verifier::external_body]
pub struct ExRigidBody(RigidBody);

#[verifier::external_type_specification]
#[verifier::external_body]
pub struct ExCollider(Collider);

#[verifier::external_type_specification]
#[verifier::external_body]
pub struct ExGenericJoint(GenericJoint);

/// Handles of the rigid bodies that a body set holds.
pub uninterp spec fn live_bodies(s: RigidBodySet) -> Set<RawHandle>;

/// Handles of the colliders that a collider set holds.
pub uninterp spec fn live_colliders(s: ColliderSet) -> Set<RawHandle>;

/// For each collider of a collider set that is attached to a rigid body, that body.
pub uninterp spec fn collider_parents(s: ColliderSet) -> Map<RawHandle, RawHandle>;

/// Handles of the impulse joints that an impulse-joint set holds.
pub uninterp spec fn live_impulse_joints(s: ImpulseJointSet) -> Set<RawHandle>;

/// Rigid bodies for which a multibody-joint set has a link (what `rigid_body_link` reads).
pub uninterp spec fn multibody_links(s: MultibodyJointSet) -> Set<RawHandle>;

/// Handles of the colliders of a collider set that are sensors.
pub uninterp spec fn sensor_colliders(s: ColliderSet) -> Set<RawHandle>;

/// Handles of the colliders of a collider set whose own enabled flag is off (not those
/// disabled only through their parent body).
pub uninterp spec fn disabled_colliders(s: ColliderSet) -> Set<RawHandle>;

/// Handles of the rigid bodies of a body set that are disabled.
pub uninterp spec fn disabled_bodies(s: RigidBodySet) -> Set<RawHandle>;

/// Relies on `RigidBodySet::new`: the set starts empty.
#[verifier::external_body]
pub(crate) fn new_body_set() -> (r: RigidBodySet)
    ensures
        live_bodies(r) == Set::<RawHandle>::empty(),
{
    RigidBodySet::new()
}

/// Relies on `ColliderSet::new`: the set starts empty.
#[verifier::external_body]
pub(crate) fn new_collider_set() -> (r: ColliderSet)
    ensures
        live_colliders(r) == Set::<RawHandle>::empty(),
        collider_parents(r).dom() == Set::<RawHandle>::empty(),
{
    ColliderSet::new()
}

/// Relies on `ImpulseJointSet::new`: the set starts empty.
#[verifier::external_body]
pub(crate) fn new_impulse_joint_set() -> (r: ImpulseJointSet)
    ensures
        live_impulse_joints(r) == Set::<RawHandle>::empty(),
{
    ImpulseJointSet::new()
}

/// Relies on `MultibodyJointSet::new`: the set starts without links.
#[verifier::external_body]
pub(crate) fn new_multibody_joint_set() -> (r: MultibodyJointSet)
    ensures
        multibody_links(r) == Set::<RawHandle>::empty(),
{
    MultibodyJointSet::new()
}

/// Relies on `IslandManager::new`.
#[verifier::external_body]
pub(crate) fn new_island_manager() -> (r: IslandManager) {
    IslandManager::new()
}

/// Relies on `RigidBodySet::insert`: the body is stored under a handle that the set
/// did not hold.
#[verifier::external_body]
pub(crate) fn bodies_insert(bodies: &mut RigidBodySet, rb: RigidBody) -> (r: RawHandle)
    ensures
        !live_bodies(*old(bodies)).contains(r),
        live_bodies(*final(bodies)) == live_bodies(*old(bodies)).insert(r),
{
    bodies.insert(rb).into_raw_parts()
}

/// Relies on `RigidBodySet::remove` with `remove_attached_colliders == false`: the body
/// leaves the set, its colliders are detached (they lose their parent) but stay, and the
/// impulse joints attached to it are removed. The multibody-joint set is only consulted
/// through the body's link, which the caller rules out, so it is left as it was.
#[verifier::external_body]
pub(crate) fn bodies_remove(
    bodies: &mut RigidBodySet,
    h: RawHandle,
    islands: &mut IslandManager,
    colliders: &mut ColliderSet,
    impulse_joints: &mut ImpulseJointSet,
    multibody_joints: &mut MultibodyJointSet,
)
    requires
        !multibody_links(*old(multibody_joints)).contains(h),
    ensures
        live_bodies(*final(bodies)) == live_bodies(*old(bodies)).remove(h),
        live_colliders(*final(colliders)) == live_colliders(*old(colliders)),
        collider_parents(*final(colliders)).submap_of(collider_parents(*old(colliders))),
        multibody_links(*final(multibody_joints)) == multibody_links(*old(multibody_joints)),
        live_impulse_joints(*final(impulse_joints)).subset_of(
            live_impulse_joints(*old(impulse_joints)),
        ),
{
    let _ = bodies.remove(
        RigidBodyHandle::from_raw_parts(h.0, h.1),
        islands,
        colliders,
        impulse_joints,
        multibody_joints,
        false,
    );
}

/// Relies on `RigidBodySet::get_mut` and `RigidBody::set_enabled(true)`: the body is
/// enabled, nothing else is; returns whether the set holds the body.
#[verifier::external_body]
pub(crate) fn body_enable(bodies: &mut RigidBodySet, h: RawHandle) -> (r: bool)
    ensures
        r == live_bodies(*old(bodies)).contains(h),
        live_bodies(*final(bodies)) == live_bodies(*old(bodies)),
        disabled_bodies(*final(bodies)) == disabled_bodies(*old(bodies)).remove(h),
{
    bodies.get_mut(RigidBodyHandle::from_raw_parts(h.0, h.1)).map(|rb| rb.set_enabled(true)).is_some()
}

/// Relies on `ColliderSet::insert`: a collider without parent, stored under a handle
/// that the set did not hold.
#[verifier::external_body]
pub(crate) fn colliders_insert(colliders: &mut ColliderSet, co: Collider) -> (r: RawHandle)
    ensures
        !live_colliders(*old(colliders)).contains(r),
        live_colliders(*final(colliders)) == live_colliders(*old(colliders)).insert(r),
        collider_parents(*final(colliders)) == collider_parents(*old(colliders)),
{
    colliders.insert(co).into_raw_parts()
}

/// Relies on `ColliderSet::insert_with_parent`, which panics unless the body set holds
/// the parent: the collider is stored under a fresh handle, attached to `parent`.
#[verifier::external_body]
pub(crate) fn colliders_insert_with_parent(
    colliders: &mut ColliderSet,
    co: Collider,
    parent: RawHandle,
    bodies: &mut RigidBodySet,
) -> (r: RawHandle)
    requires
        live_bodies(*old(bodies)).contains(parent),
    ensures
        !live_colliders(*old(colliders)).contains(r),
        live_colliders(*final(colliders)) == live_colliders(*old(colliders)).insert(r),
        collider_parents(*final(colliders)) == collider_parents(*old(colliders)).insert(
            r,
            parent,
        ),
        live_bodies(*final(bodies)) == live_bodies(*old(bodies)),
{
    colliders.insert_with_parent(co, RigidBodyHandle::from_raw_parts(parent.0, parent.1), bodies).into_raw_parts()
}

/// Relies on `ColliderSet::remove`: the collider leaves the set, its parent body stays.
#[verifier::external_body]
pub(crate) fn colliders_remove(
    colliders: &mut ColliderSet,
    h: RawHandle,
    islands: &mut IslandManager,
    bodies: &mut RigidBodySet,
)
    ensures
        live_colliders(*final(colliders)) == live_colliders(*old(colliders)).remove(h),
        collider_parents(*final(colliders)) == collider_parents(*old(colliders)).remove(h),
        live_bodies(*final(bodies)) == live_bodies(*old(bodies)),
{
    let _ = colliders.remove(ColliderHandle::from_raw_parts(h.0, h.1), islands, bodies, true);
}

/// Relies on `ColliderSet::get` and `Collider::parent`: the body the collider is
/// attached to, if the set holds it and it has one.
#[verifier::external_body]
pub(crate) fn collider_parent(colliders: &ColliderSet, h: RawHandle) -> (r: Option<RawHandle>)
    ensures
        r.is_some() == collider_parents(*colliders).contains_key(h),
        r.is_some() ==> r.unwrap() == collider_parents(*colliders)[h],
{
    colliders.get(ColliderHandle::from_raw_parts(h.0, h.1)).and_then(|co| co.parent()).map(|p| p.into_raw_parts())
}

/// Relies on `ColliderSet::get_mut` and `Collider::set_sensor(false)`: the collider stops
/// being a sensor, nothing else changes; returns whether the set holds the collider.
#[verifier::external_body]
pub(crate) fn collider_clear_sensor(colliders: &mut ColliderSet, h: RawHandle) -> (r: bool)
    ensures
        r == live_colliders(*old(colliders)).contains(h),
        live_colliders(*final(colliders)) == live_colliders(*old(colliders)),
        collider_parents(*final(colliders)) == collider_parents(*old(colliders)),
        sensor_colliders(*final(colliders)) == sensor_colliders(*old(colliders)).remove(h),
        disabled_colliders(*final(colliders)) == disabled_colliders(*old(colliders)),
{
    colliders.get_mut(ColliderHandle::from_raw_parts(h.0, h.1)).map(|co| co.set_sensor(false)).is_some()
}

/// Relies on `ColliderSet::get_mut` and `Collider::set_enabled(true)`: the collider's own
/// enabled flag is set, nothing else changes; returns whether the set holds the collider.
#[verifier::external_body]
pub(crate) fn collider_enable(colliders: &mut ColliderSet, h: RawHandle) -> (r: bool)
    ensures
        r == live_colliders(*old(colliders)).contains(h),
        live_colliders(*final(colliders)) == live_colliders(*old(colliders)),
        collider_parents(*final(colliders)) == collider_parents(*old(colliders)),
        disabled_colliders(*final(colliders)) == disabled_colliders(*old(colliders)).remove(h),
        sensor_colliders(*final(colliders)) == sensor_colliders(*old(colliders)),
{
    colliders.get_mut(ColliderHandle::from_raw_parts(h.0, h.1)).map(|co| co.set_enabled(true)).is_some()
}

/// Relies on `ImpulseJointSet::insert`: the joint is stored under a handle that the
/// set did not hold.
#[verifier::external_body]
pub(crate) fn impulse_joints_insert(
    joints: &mut ImpulseJointSet,
    body1: RawHandle,
    body2: RawHandle,
    data: GenericJoint,
) -> (r: RawHandle)
    ensures
        !live_impulse_joints(*old(joints)).contains(r),
        live_impulse_joints(*final(joints)) == live_impulse_joints(*old(joints)).insert(r),
{
    joints.insert(
        RigidBodyHandle::from_raw_parts(body1.0, body1.1),
        RigidBodyHandle::from_raw_parts(body2.0, body2.1),
        data,
        true,
    ).into_raw_parts()
}

/// Relies on `ImpulseJointSet::contains`: whether the set holds the joint.
#[verifier::external_body]
pub(crate) fn impulse_joints_contains(joints: &ImpulseJointSet, h: RawHandle) -> (r: bool)
    ensures
        r == live_impulse_joints(*joints).contains(h),
{
    joints.contains(ImpulseJointHandle::from_raw_parts(h.0, h.1))
}

/// Relies on `ImpulseJointSet::remove`: the joint leaves the set.
#[verifier::external_body]
pub(crate) fn impulse_joints_remove(joints: &mut ImpulseJointSet, h: RawHandle)
    ensures
        live_impulse_joints(*final(joints)) == live_impulse_joints(*old(joints)).remove(h),
{
    let _ = joints.remove(ImpulseJointHandle::from_raw_parts(h.0, h.1), true);
}

} // verus!
