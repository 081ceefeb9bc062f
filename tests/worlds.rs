use rapier3d::prelude::{
    ColliderBuilder, ColliderHandle, FixedJointBuilder, ImpulseJointHandle, RigidBodyBuilder,
    RigidBodyHandle,
};
use rapier_worlds::access::{
    DefaultRapierContextAccess, DefaultRapierContextAccessMut, RapierContextAccess,
    RapierContextAccessMut,
};
use rapier_worlds::propagate::{
    on_add_entity_with_parent, on_change_world, strip_signals, Hierarchy, Node,
};
use rapier_worlds::registry::{HandleKind, PhysicsWorld};
use rapier_worlds::sync::{
    find_context_entity, find_duplicated_entity, is_held_twice, sync_removals, MassModified,
    RemovalSignals,
};

fn no_signals() -> RemovalSignals {
    RemovalSignals {
        removed_bodies: vec![],
        orphan_bodies: vec![],
        removed_colliders: vec![],
        orphan_colliders: vec![],
        removed_impulse_joints: vec![],
        orphan_impulse_joints: vec![],
        removed_multibody_joints: vec![],
        orphan_multibody_joints: vec![],
        removed_sensors: vec![],
        removed_colliders_disabled: vec![],
        removed_rigid_body_disabled: vec![],
    }
}

fn node(parent: Option<usize>, children: Vec<usize>, link: Option<usize>) -> Node {
    Node { parent, children, link }
}

#[test]
fn collider_removal_records_deletion_and_notifies_parent() {
    let mut world = PhysicsWorld::new();
    let p = world.insert_body(1, RigidBodyBuilder::dynamic().build()).unwrap();
    let c = world.insert_collider(2, ColliderBuilder::ball(0.5).build(), Some(1)).unwrap();
    let mut worlds = vec![world];
    let mut signals = no_signals();
    signals.removed_colliders = vec![2];
    let events = sync_removals(&mut worlds, &signals);
    assert_eq!(events, vec![MassModified { world: 0, body: p }]);
    assert_eq!(worlds[0].deleted_colliders, vec![(c, 2)]);
    assert!(!worlds[0].colliders.contains(ColliderHandle::from_raw_parts(c.0, c.1)));
    assert!(worlds[0].entity2collider.is_empty());
    assert_eq!(worlds[0].entity2body.get(&1), Some(&p));
    assert!(worlds[0].bodies.contains(RigidBodyHandle::from_raw_parts(p.0, p.1)));
}

#[test]
fn collider_without_parent_gives_no_notification() {
    let mut world = PhysicsWorld::new();
    let c = world.insert_collider(4, ColliderBuilder::ball(0.5).build(), None).unwrap();
    let mut worlds = vec![world];
    let mut signals = no_signals();
    signals.orphan_colliders = vec![4];
    let events = sync_removals(&mut worlds, &signals);
    assert!(events.is_empty());
    assert_eq!(worlds[0].deleted_colliders, vec![(c, 4)]);
    assert_eq!(worlds[0].colliders.len(), 0);
}

#[test]
fn orphan_body_is_removed_and_its_collider_detached() {
    let mut world = PhysicsWorld::new();
    let b = world.insert_body(1, RigidBodyBuilder::dynamic().build()).unwrap();
    let c = world.insert_collider(2, ColliderBuilder::ball(0.5).build(), Some(1)).unwrap();
    let mut worlds = vec![world];
    let mut signals = no_signals();
    signals.orphan_bodies = vec![1];
    let events = sync_removals(&mut worlds, &signals);
    assert!(events.is_empty());
    assert!(worlds[0].entity2body.is_empty());
    assert!(!worlds[0].bodies.contains(RigidBodyHandle::from_raw_parts(b.0, b.1)));
    let co = worlds[0].colliders.get(ColliderHandle::from_raw_parts(c.0, c.1)).unwrap();
    assert_eq!(co.parent(), None);
    assert_eq!(worlds[0].entity2collider.get(&2), Some(&c));
}

#[test]
fn removing_both_body_and_collider_in_one_pass() {
    let mut world = PhysicsWorld::new();
    world.insert_body(1, RigidBodyBuilder::dynamic().build()).unwrap();
    let c = world.insert_collider(1, ColliderBuilder::ball(0.5).build(), Some(1)).unwrap();
    let mut worlds = vec![world];
    let mut signals = no_signals();
    signals.removed_bodies = vec![1];
    signals.removed_colliders = vec![1];
    let events = sync_removals(&mut worlds, &signals);
    assert!(events.is_empty());
    assert_eq!(worlds[0].bodies.len(), 0);
    assert_eq!(worlds[0].colliders.len(), 0);
    assert_eq!(worlds[0].deleted_colliders, vec![(c, 1)]);
}

#[test]
fn joints_are_removed_with_their_entities() {
    let mut world = PhysicsWorld::new();
    world.insert_body(1, RigidBodyBuilder::dynamic().build()).unwrap();
    world.insert_body(2, RigidBodyBuilder::dynamic().build()).unwrap();
    world.insert_body(3, RigidBodyBuilder::dynamic().build()).unwrap();
    let j = world.insert_impulse_joint(2, 1, 2, FixedJointBuilder::new().into()).unwrap();
    assert!(world.insert_impulse_joint(2, 1, 2, FixedJointBuilder::new().into()).is_none());
    assert!(world.insert_impulse_joint(5, 1, 9, FixedJointBuilder::new().into()).is_none());
    let mut worlds = vec![world];
    let mut signals = no_signals();
    signals.removed_impulse_joints = vec![2];
    signals.orphan_multibody_joints = vec![3];
    sync_removals(&mut worlds, &signals);
    assert!(!worlds[0].impulse_joints.contains(ImpulseJointHandle::from_raw_parts(j.0, j.1)));
    assert!(worlds[0].entity2impulse_joint.is_empty());
    assert!(worlds[0].entity2multibody_joint.is_empty());
    assert_eq!(worlds[0].entity2body.len(), 3);
}

#[test]
fn inserting_twice_for_one_entity_is_declined() {
    let mut world = PhysicsWorld::new();
    let a = world.insert_body(1, RigidBodyBuilder::dynamic().build()).unwrap();
    assert!(world.insert_body(1, RigidBodyBuilder::dynamic().build()).is_none());
    let b = world.insert_body(2, RigidBodyBuilder::dynamic().build()).unwrap();
    assert_ne!(a, b);
    assert_eq!(world.bodies.len(), 2);
    let c = world.insert_collider(1, ColliderBuilder::ball(0.5).build(), None).unwrap();
    assert!(world.insert_collider(1, ColliderBuilder::ball(0.5).build(), None).is_none());
    let d = world.insert_collider(2, ColliderBuilder::ball(0.5).build(), Some(2)).unwrap();
    assert_ne!(c, d);
    let parent = world.colliders.get(ColliderHandle::from_raw_parts(d.0, d.1)).unwrap().parent();
    assert_eq!(parent, Some(RigidBodyHandle::from_raw_parts(b.0, b.1)));
}

#[test]
fn removed_markers_reset_flags() {
    let mut world = PhysicsWorld::new();
    let b = world.insert_body(1, RigidBodyBuilder::dynamic().enabled(false).build()).unwrap();
    let c = world.insert_collider(1, ColliderBuilder::ball(0.5).sensor(true).build(), None).unwrap();
    let d = world.insert_collider(2, ColliderBuilder::ball(0.5).enabled(false).build(), None).unwrap();
    let mut worlds = vec![world];
    let mut signals = no_signals();
    signals.removed_sensors = vec![1];
    signals.removed_colliders_disabled = vec![2];
    signals.removed_rigid_body_disabled = vec![1];
    sync_removals(&mut worlds, &signals);
    let w = &worlds[0];
    assert!(!w.colliders.get(ColliderHandle::from_raw_parts(c.0, c.1)).unwrap().is_sensor());
    assert!(w.colliders.get(ColliderHandle::from_raw_parts(d.0, d.1)).unwrap().is_enabled());
    assert!(w.bodies.get(RigidBodyHandle::from_raw_parts(b.0, b.1)).unwrap().is_enabled());
    assert_eq!(w.colliders.len(), 2);
}

#[test]
fn removal_reaches_whichever_world_holds_the_entity() {
    let mut w0 = PhysicsWorld::new();
    let mut w1 = PhysicsWorld::new();
    w0.insert_body(1, RigidBodyBuilder::dynamic().build()).unwrap();
    w1.insert_body(2, RigidBodyBuilder::dynamic().build()).unwrap();
    let mut worlds = vec![w0, w1];
    assert_eq!(find_context_entity(&worlds, 2, HandleKind::Body), Some(1));
    assert_eq!(find_context_entity(&worlds, 1, HandleKind::Body), Some(0));
    assert_eq!(find_context_entity(&worlds, 1, HandleKind::Collider), None);
    let mut signals = no_signals();
    signals.removed_bodies = vec![2, 7];
    sync_removals(&mut worlds, &signals);
    assert_eq!(worlds[0].bodies.len(), 1);
    assert_eq!(worlds[1].bodies.len(), 0);
    assert_eq!(find_context_entity(&worlds, 2, HandleKind::Body), None);
}

#[test]
fn new_unlinked_child_takes_its_parents_world() {
    let mut h = Hierarchy {
        nodes: vec![node(None, vec![1], Some(1)), node(Some(0), vec![], None)],
    };
    let stripped = on_add_entity_with_parent(&mut h, &vec![1]);
    assert_eq!(h.nodes[1].link, Some(1));
    assert_eq!(stripped, vec![1]);
    assert_eq!(h.nodes[0].link, Some(1));
}

#[test]
fn child_takes_the_nearest_linked_ancestor() {
    let mut h = Hierarchy {
        nodes: vec![
            node(None, vec![1], Some(3)),
            node(Some(0), vec![2], None),
            node(Some(1), vec![], Some(0)),
        ],
    };
    let stripped = on_add_entity_with_parent(&mut h, &vec![2]);
    assert_eq!(h.nodes[2].link, Some(3));
    assert_eq!(stripped, vec![2]);
    let again = on_add_entity_with_parent(&mut h, &vec![2]);
    assert!(again.is_empty());
}

#[test]
fn entity_without_linked_ancestor_keeps_its_link() {
    let mut h = Hierarchy {
        nodes: vec![node(None, vec![1], None), node(Some(0), vec![], Some(2))],
    };
    let stripped = on_add_entity_with_parent(&mut h, &vec![1, 0]);
    assert!(stripped.is_empty());
    assert_eq!(h.nodes[1].link, Some(2));
}

#[test]
fn world_change_reaches_every_descendant_and_clears_the_old_world() {
    let mut w0 = PhysicsWorld::new();
    for e in 0..3usize {
        w0.insert_body(e, RigidBodyBuilder::dynamic().build()).unwrap();
        w0.insert_collider(e, ColliderBuilder::ball(0.5).build(), Some(e)).unwrap();
    }
    let mut worlds = vec![w0, PhysicsWorld::new()];
    let mut h = Hierarchy {
        nodes: vec![
            node(None, vec![1], Some(1)),
            node(Some(0), vec![2], Some(0)),
            node(Some(1), vec![], Some(0)),
        ],
    };
    let stripped = on_change_world(&mut h, &worlds, &vec![0]);
    assert_eq!(stripped, vec![0, 1, 2]);
    for e in 0..3 {
        assert_eq!(h.nodes[e].link, Some(1));
    }
    let signals = strip_signals(&stripped);
    sync_removals(&mut worlds, &signals);
    assert!(worlds[0].entity2body.is_empty());
    assert!(worlds[0].entity2collider.is_empty());
    assert_eq!(worlds[0].bodies.len(), 0);
    assert_eq!(worlds[0].colliders.len(), 0);
    assert_eq!(worlds[0].deleted_colliders.len(), 3);
}

#[test]
fn world_change_stops_at_descendants_already_there() {
    let worlds = vec![PhysicsWorld::new(), PhysicsWorld::new()];
    let mut h = Hierarchy {
        nodes: vec![
            node(None, vec![1, 2], Some(1)),
            node(Some(0), vec![3], Some(1)),
            node(Some(0), vec![], Some(0)),
            node(Some(1), vec![], Some(0)),
        ],
    };
    let stripped = on_change_world(&mut h, &worlds, &vec![0]);
    assert_eq!(stripped, vec![0, 2]);
    assert_eq!(h.nodes[2].link, Some(1));
    assert_eq!(h.nodes[3].link, Some(0));
}

#[test]
fn world_change_is_skipped_when_the_new_world_holds_the_entity() {
    let mut w1 = PhysicsWorld::new();
    w1.insert_body(0, RigidBodyBuilder::dynamic().build()).unwrap();
    let worlds = vec![PhysicsWorld::new(), w1];
    let mut h = Hierarchy {
        nodes: vec![node(None, vec![1], Some(1)), node(Some(0), vec![], Some(0))],
    };
    let stripped = on_change_world(&mut h, &worlds, &vec![0]);
    assert!(stripped.is_empty());
    assert_eq!(h.nodes[1].link, Some(0));
}

#[test]
fn strip_signals_cover_every_kind() {
    let s = strip_signals(&vec![4, 9]);
    assert_eq!(s.removed_bodies, vec![4, 9]);
    assert_eq!(s.removed_colliders, vec![4, 9]);
    assert_eq!(s.removed_impulse_joints, vec![4, 9]);
    assert_eq!(s.removed_multibody_joints, vec![4, 9]);
    assert!(s.orphan_bodies.is_empty());
}

#[test]
fn world_access_by_link() {
    let mut w1 = PhysicsWorld::new();
    w1.insert_body(3, RigidBodyBuilder::dynamic().build()).unwrap();
    let mut worlds = vec![PhysicsWorld::new(), w1];
    {
        let access = RapierContextAccess { rapier_context: &worlds };
        assert_eq!(access.context(1).entity2body.len(), 1);
        assert!(access.context(0).entity2body.is_empty());
    }
    {
        let mut access = RapierContextAccessMut { rapier_context: &mut worlds };
        access.context(0).insert_body(5, RigidBodyBuilder::dynamic().build()).unwrap();
    }
    assert_eq!(worlds[0].entity2body.len(), 1);
    let mut single = vec![PhysicsWorld::new()];
    {
        let mut access = DefaultRapierContextAccessMut { rapier_context: &mut single };
        access.single_mut().insert_body(8, RigidBodyBuilder::dynamic().build()).unwrap();
    }
    let access = DefaultRapierContextAccess { rapier_context: &single };
    assert_eq!(access.single().entity2body.len(), 1);
}

#[test]
fn removing_a_body_drops_the_entries_of_its_joints() {
    let mut world = PhysicsWorld::new();
    world.insert_body(1, RigidBodyBuilder::dynamic().build()).unwrap();
    world.insert_body(2, RigidBodyBuilder::dynamic().build()).unwrap();
    world.insert_body(3, RigidBodyBuilder::dynamic().build()).unwrap();
    let j = world.insert_impulse_joint(10, 1, 2, FixedJointBuilder::new().into()).unwrap();
    let k = world.insert_impulse_joint(11, 2, 3, FixedJointBuilder::new().into()).unwrap();
    let mut worlds = vec![world];
    let mut signals = no_signals();
    signals.removed_bodies = vec![1];
    sync_removals(&mut worlds, &signals);
    let w = &worlds[0];
    assert!(!w.impulse_joints.contains(ImpulseJointHandle::from_raw_parts(j.0, j.1)));
    assert!(w.entity2impulse_joint.get(&10).is_none());
    assert!(w.impulse_joints.contains(ImpulseJointHandle::from_raw_parts(k.0, k.1)));
    assert_eq!(w.entity2impulse_joint.get(&11), Some(&k));
}

#[test]
fn an_entity_held_by_two_worlds_is_reported() {
    let mut w0 = PhysicsWorld::new();
    let mut w1 = PhysicsWorld::new();
    w0.insert_body(4, RigidBodyBuilder::dynamic().build()).unwrap();
    w1.insert_body(4, RigidBodyBuilder::dynamic().build()).unwrap();
    w1.insert_body(5, RigidBodyBuilder::dynamic().build()).unwrap();
    let worlds = vec![w0, w1];
    assert!(is_held_twice(&worlds, 4, HandleKind::Body));
    assert!(!is_held_twice(&worlds, 5, HandleKind::Body));
    let mut signals = no_signals();
    signals.removed_bodies = vec![5];
    assert_eq!(find_duplicated_entity(&worlds, &signals), None);
    signals.orphan_bodies = vec![4];
    assert_eq!(find_duplicated_entity(&worlds, &signals), Some(4));
    signals.orphan_bodies = vec![];
    signals.removed_colliders = vec![4];
    assert_eq!(find_duplicated_entity(&worlds, &signals), None);
}

#[test]
fn multibody_entries_stay_empty() {
    let mut world = PhysicsWorld::new();
    world.insert_body(1, RigidBodyBuilder::dynamic().build()).unwrap();
    let mut worlds = vec![world];
    let mut signals = no_signals();
    signals.removed_multibody_joints = vec![1];
    signals.removed_bodies = vec![1];
    sync_removals(&mut worlds, &signals);
    assert!(worlds[0].entity2multibody_joint.is_empty());
    assert_eq!(worlds[0].bodies.len(), 0);
}
