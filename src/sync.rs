//! Removal and orphan synchronization: the registry follows what the host removed.
use crate::physics::{
    collider_parents, disabled_bodies, disabled_colliders, live_bodies, live_colliders,
    live_impulse_joints, multibody_links, sensor_colliders, RawHandle,
};
use crate::registry::{consistent, covers, EntityId, HandleKind, PhysicsWorld};
use vstd::prelude::*;

verus! {

/// What the host reports for one cycle.
///
/// A removed entity lost the component holding one kind of handle; an orphan still holds
/// a handle but no longer the description it was made from. The marker lists name
/// entities whose sensor flag, collider-disabled or body-disabled marker went away.
pub struct RemovalSignals {
    pub removed_bodies: Vec<EntityId>,
    pub orphan_bodies: Vec<EntityId>,
    pub removed_colliders: Vec<EntityId>,
    pub orphan_colliders: Vec<EntityId>,
    pub removed_impulse_joints: Vec<EntityId>,
    pub orphan_impulse_joints: Vec<EntityId>,
    pub removed_multibody_joints: Vec<EntityId>,
    pub orphan_multibody_joints: Vec<EntityId>,
    pub removed_sensors: Vec<EntityId>,
    pub removed_colliders_disabled: Vec<EntityId>,
    pub removed_rigid_body_disabled: Vec<EntityId>,
}

/// The mass of a body changed because one of its colliders was removed.
#[derive(Clone, Copy, Debug, PartialEq, Eq)]
pub struct MassModified {
    /// Index of the world holding the body.
    pub world: usize,
    pub body: RawHandle,
}

/// `m` with the entities listed in `s` taken out.
pub open spec fn without(m: Map<EntityId, RawHandle>, s: Seq<EntityId>) -> Map<EntityId, RawHandle> {
    m.remove_keys(s.to_set())
}

/// Every world is well formed.
pub open spec fn all_wf(worlds: Seq<PhysicsWorld>) -> bool {
    forall|i: int| 0 <= i < worlds.len() ==> #[trigger] worlds[i].wf()
}

/// World `a` equals world `b` in every registry map but the one of `kind`, except that
/// removing bodies may also drop impulse-joint entries.
pub open spec fn others_unchanged(a: PhysicsWorld, b: PhysicsWorld, kind: HandleKind) -> bool {
    &&& kind != HandleKind::Body ==> a.entity2body@ == b.entity2body@
    &&& kind != HandleKind::Collider ==> a.entity2collider@ == b.entity2collider@
    &&& kind == HandleKind::Body ==> a.entity2impulse_joint@.submap_of(b.entity2impulse_joint@)
    &&& kind == HandleKind::Collider || kind == HandleKind::MultibodyJoint
        ==> a.entity2impulse_joint@ == b.entity2impulse_joint@
    &&& kind != HandleKind::MultibodyJoint ==> a.entity2multibody_joint@
        == b.entity2multibody_joint@
}

/// Worlds `a` and `b` have the same registry maps.
pub open spec fn same_registry(a: PhysicsWorld, b: PhysicsWorld) -> bool {
    &&& a.entity2body@ == b.entity2body@
    &&& a.entity2collider@ == b.entity2collider@
    &&& a.entity2impulse_joint@ == b.entity2impulse_joint@
    &&& a.entity2multibody_joint@ == b.entity2multibody_joint@
}

proof fn lemma_submap_without(
    m1: Map<EntityId, RawHandle>,
    m0: Map<EntityId, RawHandle>,
    s: Seq<EntityId>,
)
    requires
        m1.submap_of(m0),
    ensures
        without(m1, s).submap_of(without(m0, s)),
{
    assert forall|k: EntityId| #[trigger] without(m1, s).contains_key(k) implies without(
        m0,
        s,
    ).contains_key(k) && without(m1, s)[k] == without(m0, s)[k] by {
        assert(m1.contains_key(k));
    }
}

proof fn lemma_in_without(m: Map<EntityId, RawHandle>, s: Seq<EntityId>, k: EntityId)
    requires
        without(m, s).contains_key(k),
    ensures
        m.contains_key(k),
        !s.contains(k),
        without(m, s)[k] == m[k],
{
    if s.contains(k) {
        assert(s.to_set().contains(k));
    }
}

/// `a` was reached from `b` by removing colliders of entities listed in `s`: `b`'s
/// deleted-collider records are kept, every new record names an entity of `s` with the
/// collider `b` gave it, and collider parents were only dropped.
pub open spec fn collider_progress(a: PhysicsWorld, b: PhysicsWorld, s: Seq<EntityId>) -> bool {
    &&& a.deleted_colliders@.len() >= b.deleted_colliders@.len()
    &&& forall|k: int|
        0 <= k < b.deleted_colliders@.len() ==> #[trigger] a.deleted_colliders@[k]
            == b.deleted_colliders@[k]
    &&& forall|k: int|
        b.deleted_colliders@.len() <= k < a.deleted_colliders@.len() ==> {
            let r = #[trigger] a.deleted_colliders@[k];
            &&& s.contains(r.1)
            &&& b.entity2collider@.contains_key(r.1)
            &&& b.entity2collider@[r.1] == r.0
        }
    &&& collider_parents(a.colliders).submap_of(collider_parents(b.colliders))
}

/// `a` records the removal of collider `h` of entity `e` beyond the records of `b`.
pub open spec fn recorded(a: PhysicsWorld, b: PhysicsWorld, h: RawHandle, e: EntityId) -> bool {
    exists|k: int|
        b.deleted_colliders@.len() <= k < a.deleted_colliders@.len() && #[trigger] a.deleted_colliders@[k]
            == (h, e)
}

/// `a` records, beyond the records of `b`, the removal of collider `h`.
pub open spec fn new_handle(a: PhysicsWorld, b: PhysicsWorld, h: RawHandle) -> bool {
    exists|k: int|
        b.deleted_colliders@.len() <= k < a.deleted_colliders@.len() && (#[trigger] a.deleted_colliders@[k]).0
            == h
}

/// The collider map of `a` is that of `b` without the entities of `s`.
pub open spec fn collider_map_without(a: PhysicsWorld, b: PhysicsWorld, s: Seq<EntityId>) -> bool {
    a.entity2collider@ == without(b.entity2collider@, s)
}

/// Some notification of `events` from position `from` on is for `body` in world `w`.
pub open spec fn notified(events: Seq<MassModified>, from: int, w: int, body: RawHandle) -> bool {
    exists|q: int| from <= q < events.len() && (#[trigger] events[q]).world as int == w && events[q].body == body
}

/// `a` and `b` attach collider `h` to the same body, or both to none.
pub open spec fn same_parent(a: PhysicsWorld, b: PhysicsWorld, h: RawHandle) -> bool {
    &&& collider_parents(a.colliders).contains_key(h) == collider_parents(b.colliders).contains_key(h)
    &&& collider_parents(a.colliders).contains_key(h) ==> collider_parents(a.colliders)[h]
        == collider_parents(b.colliders)[h]
}

/// A mass notification that a recorded collider removal accounts for: the removed
/// collider was attached, in `before`, to the notified body.
pub open spec fn justified(ev: MassModified, after: Seq<PhysicsWorld>, before: Seq<PhysicsWorld>) -> bool {
    &&& ev.world < after.len()
    &&& exists|h: RawHandle, e: EntityId|
        #[trigger] recorded(after[ev.world as int], before[ev.world as int], h, e)
            && collider_parents(before[ev.world as int].colliders).contains_key(h)
            && collider_parents(before[ev.world as int].colliders)[h] == ev.body
}

proof fn lemma_without_iff(m: Map<EntityId, RawHandle>, s: Seq<EntityId>, x: EntityId)
    ensures
        without(m, s).contains_key(x) == (m.contains_key(x) && !s.contains(x)),
        without(m, s).contains_key(x) ==> without(m, s)[x] == m[x],
{
    if s.contains(x) {
        assert(s.to_set().contains(x));
    }
    if m.contains_key(x) && !s.contains(x) {
        assert(!s.to_set().contains(x));
    }
}

proof fn lemma_recorded_extend(a2: PhysicsWorld, a1: PhysicsWorld, b: PhysicsWorld, h: RawHandle, e: EntityId)
    requires
        recorded(a1, b, h, e),
        a2.deleted_colliders@.len() >= a1.deleted_colliders@.len(),
        forall|k: int|
            0 <= k < a1.deleted_colliders@.len() ==> #[trigger] a2.deleted_colliders@[k]
                == a1.deleted_colliders@[k],
    ensures
        recorded(a2, b, h, e),
{
    let k = choose|k: int|
        b.deleted_colliders@.len() <= k < a1.deleted_colliders@.len() && #[trigger] a1.deleted_colliders@[k]
            == (h, e);
    assert(a2.deleted_colliders@[k] == (h, e));
}

proof fn lemma_recorded_rebase(a: PhysicsWorld, b: PhysicsWorld, c: PhysicsWorld, h: RawHandle, e: EntityId)
    requires
        recorded(a, b, h, e),
        b.deleted_colliders@.len() >= c.deleted_colliders@.len(),
    ensures
        recorded(a, c, h, e),
{
    let k = choose|k: int|
        b.deleted_colliders@.len() <= k < a.deleted_colliders@.len() && #[trigger] a.deleted_colliders@[k]
            == (h, e);
    assert(c.deleted_colliders@.len() <= k < a.deleted_colliders@.len() && a.deleted_colliders@[k] == (h, e));
}

proof fn lemma_progress_compose(a: PhysicsWorld, b: PhysicsWorld, c: PhysicsWorld, e: EntityId, s: Seq<EntityId>)
    requires
        collider_progress(a, b, seq![e]),
        collider_progress(b, c, s),
        s.contains(e),
        b.entity2collider@.submap_of(c.entity2collider@),
    ensures
        collider_progress(a, c, s),
{
    assert forall|k: int| 0 <= k < c.deleted_colliders@.len() implies #[trigger] a.deleted_colliders@[k]
        == c.deleted_colliders@[k] by {
        assert(a.deleted_colliders@[k] == b.deleted_colliders@[k]);
    }
    assert forall|k: int| c.deleted_colliders@.len() <= k < a.deleted_colliders@.len() implies {
        let r = #[trigger] a.deleted_colliders@[k];
        &&& s.contains(r.1)
        &&& c.entity2collider@.contains_key(r.1)
        &&& c.entity2collider@[r.1] == r.0
    } by {
        if k < b.deleted_colliders@.len() {
            assert(a.deleted_colliders@[k] == b.deleted_colliders@[k]);
        } else {
            let r = a.deleted_colliders@[k];
            assert(seq![e].contains(r.1));
            assert(r.1 == e) by {
                let i = choose|i: int| 0 <= i < seq![e].len() && seq![e][i] == r.1;
            }
            assert(b.entity2collider@.dom().contains(r.1));
        }
    }
    vstd::map_lib::lemma_submap_of_trans(
        collider_parents(a.colliders),
        collider_parents(b.colliders),
        collider_parents(c.colliders),
    );
}

/// `a`'s deleted-collider records begin with `b`'s.
pub open spec fn records_extend(a: PhysicsWorld, b: PhysicsWorld) -> bool {
    &&& a.deleted_colliders@.len() >= b.deleted_colliders@.len()
    &&& forall|k: int|
        0 <= k < b.deleted_colliders@.len() ==> #[trigger] a.deleted_colliders@[k]
            == b.deleted_colliders@[k]
}

proof fn lemma_extend_trans(a: PhysicsWorld, b: PhysicsWorld, c: PhysicsWorld)
    requires
        records_extend(a, b),
        records_extend(b, c),
    ensures
        records_extend(a, c),
{
    assert forall|k: int| 0 <= k < c.deleted_colliders@.len() implies #[trigger] a.deleted_colliders@[k]
        == c.deleted_colliders@[k] by {
        assert(a.deleted_colliders@[k] == b.deleted_colliders@[k]);
    }
}

proof fn lemma_lift_recorded(a: PhysicsWorld, a1: PhysicsWorld, b1: PhysicsWorld, b0: PhysicsWorld, h: RawHandle, e: EntityId)
    requires
        recorded(a1, b1, h, e),
        records_extend(a, a1),
        b1.deleted_colliders@.len() >= b0.deleted_colliders@.len(),
    ensures
        recorded(a, b0, h, e),
{
    lemma_recorded_extend(a, a1, b1, h, e);
    lemma_recorded_rebase(a, b1, b0, h, e);
}

proof fn lemma_progress_trans(
    a: PhysicsWorld,
    b: PhysicsWorld,
    c: PhysicsWorld,
    s1: Seq<EntityId>,
    s2: Seq<EntityId>,
    s: Seq<EntityId>,
)
    requires
        collider_progress(a, b, s1),
        collider_progress(b, c, s2),
        b.entity2collider@.submap_of(c.entity2collider@),
        forall|x: EntityId| s1.contains(x) ==> s.contains(x),
        forall|x: EntityId| s2.contains(x) ==> s.contains(x),
    ensures
        collider_progress(a, c, s),
{
    assert forall|k: int| 0 <= k < c.deleted_colliders@.len() implies #[trigger] a.deleted_colliders@[k]
        == c.deleted_colliders@[k] by {
        assert(a.deleted_colliders@[k] == b.deleted_colliders@[k]);
    }
    assert forall|k: int| c.deleted_colliders@.len() <= k < a.deleted_colliders@.len() implies {
        let r = #[trigger] a.deleted_colliders@[k];
        &&& s.contains(r.1)
        &&& c.entity2collider@.contains_key(r.1)
        &&& c.entity2collider@[r.1] == r.0
    } by {
        if k < b.deleted_colliders@.len() {
            assert(a.deleted_colliders@[k] == b.deleted_colliders@[k]);
        } else {
            assert(b.entity2collider@.dom().contains(a.deleted_colliders@[k].1));
        }
    }
    vstd::map_lib::lemma_submap_of_trans(
        collider_parents(a.colliders),
        collider_parents(b.colliders),
        collider_parents(c.colliders),
    );
}

/// Removes the physics object of the given kind of `entity` from one world.
fn remove_one(
    world: &mut PhysicsWorld,
    w: usize,
    entity: EntityId,
    kind: HandleKind,
    events: &mut Vec<MassModified>,
)
    requires
        old(world).wf(),
    ensures
        final(world).wf(),
        final(world).map_of(kind) == old(world).map_of(kind).remove(entity),
        others_unchanged(*final(world), *old(world), kind),
        kind != HandleKind::Collider ==> final(events)@ == old(events)@,
        final(events)@.len() >= old(events)@.len(),
        forall|k: int|
            0 <= k < old(events)@.len() ==> #[trigger] final(events)@[k] == old(events)@[k],
        forall|k: int|
            old(events)@.len() <= k < final(events)@.len() ==> (#[trigger] final(events)@[k]).world == w,
        collider_progress(*final(world), *old(world), seq![entity]),
        kind != HandleKind::Collider ==> final(world).deleted_colliders@ == old(world).deleted_colliders@,
        kind == HandleKind::Collider && old(world).entity2collider@.contains_key(entity) ==> recorded(
            *final(world),
            *old(world),
            old(world).entity2collider@[entity],
            entity,
        ),
        final(events)@.len() <= old(events)@.len() + 1,
        kind == HandleKind::Collider ==> if old(world).entity2collider@.contains_key(entity) {
            collider_parents(final(world).colliders) == collider_parents(old(world).colliders).remove(
                old(world).entity2collider@[entity],
            )
        } else {
            collider_parents(final(world).colliders) == collider_parents(old(world).colliders)
        },
        kind == HandleKind::Collider && old(world).entity2collider@.contains_key(entity)
            && collider_parents(old(world).colliders).contains_key(old(world).entity2collider@[entity])
            ==> final(events)@.len() == old(events)@.len() + 1,
        final(events)@.len() == old(events)@.len() + 1 ==> {
            let h = old(world).entity2collider@[entity];
            &&& old(world).entity2collider@.contains_key(entity)
            &&& recorded(*final(world), *old(world), h, entity)
            &&& collider_parents(old(world).colliders).contains_key(h)
            &&& final(events)@.last() == MassModified {
                world: w,
                body: collider_parents(old(world).colliders)[h],
            }
        },
{
    let ghost w0 = *world;
    match kind {
        HandleKind::Body => {
            let _ = world.remove_body_of(entity);
        },
        HandleKind::Collider => {
            let r = world.remove_collider_of(entity);
            proof {
                if r.is_some() {
                    let k = w0.deleted_colliders@.len() as int;
                    assert(world.deleted_colliders@[k] == (w0.entity2collider@[entity], entity));
                    assert(seq![entity].contains(entity)) by {
                        assert(seq![entity][0] == entity);
                    }
                    let h = w0.entity2collider@[entity];
                    assert(collider_parents(world.colliders) =~= collider_parents(w0.colliders).remove(h));
                    assert(collider_parents(world.colliders).submap_of(collider_parents(w0.colliders)));
                    assert forall|j: int|
                        w0.deleted_colliders@.len() <= j < world.deleted_colliders@.len() implies {
                        let rr = #[trigger] world.deleted_colliders@[j];
                        &&& seq![entity].contains(rr.1)
                        &&& w0.entity2collider@.contains_key(rr.1)
                        &&& w0.entity2collider@[rr.1] == rr.0
                    } by {
                        assert(j == k);
                    }
                }
            }
            match r {
                Some((_, Some(parent))) => {
                    events.push(MassModified { world: w, body: parent });
                },
                _ => {},
            }
        },
        HandleKind::ImpulseJoint => {
            let _ = world.remove_impulse_joint_of(entity);
        },
        HandleKind::MultibodyJoint => {
            let _ = world.remove_multibody_joint_of(entity);
        },
    }
    proof {
        if kind == HandleKind::Body {
            assert(collider_parents(world.colliders).submap_of(collider_parents(w0.colliders)));
        } else if kind == HandleKind::Collider {
            assert(collider_parents(world.colliders).submap_of(collider_parents(w0.colliders)));
        } else {
            assert(world.colliders == w0.colliders);
            assert(collider_parents(world.colliders).submap_of(collider_parents(w0.colliders)));
        }
    }
}

/// Removes the physics objects of the given kind of every listed entity from every
/// world that holds them.
fn remove_all(
    worlds: &mut Vec<PhysicsWorld>,
    entities: &Vec<EntityId>,
    kind: HandleKind,
    events: &mut Vec<MassModified>,
)
    requires
        all_wf(old(worlds)@),
    ensures
        final(worlds)@.len() == old(worlds)@.len(),
        all_wf(final(worlds)@),
        forall|i: int|
            0 <= i < final(worlds)@.len() ==> (#[trigger] final(worlds)@[i]).map_of(kind)
                == without(old(worlds)@[i].map_of(kind), entities@) && others_unchanged(
                final(worlds)@[i],
                old(worlds)@[i],
                kind,
            ),
        kind != HandleKind::Collider || entities@.len() == 0 ==> final(events)@ == old(events)@,
        final(events)@.len() >= old(events)@.len(),
        forall|k: int|
            0 <= k < final(events)@.len() ==> (#[trigger] final(events)@[k]).world < final(worlds)@.len()
                || k < old(events)@.len() && final(events)@[k] == old(events)@[k],
        forall|k: int| 0 <= k < old(events)@.len() ==> #[trigger] final(events)@[k] == old(events)@[k],
        forall|i: int|
            0 <= i < final(worlds)@.len() ==> collider_progress(
                #[trigger] final(worlds)@[i],
                old(worlds)@[i],
                entities@,
            ),
        kind != HandleKind::Collider ==> forall|i: int|
            0 <= i < final(worlds)@.len() ==> (#[trigger] final(worlds)@[i]).deleted_colliders@
                == old(worlds)@[i].deleted_colliders@,
        kind == HandleKind::Collider ==> forall|i: int, j: int|
            0 <= i < final(worlds)@.len() && 0 <= j < entities@.len()
                && old(worlds)@[i].entity2collider@.contains_key(#[trigger] entities@[j]) ==> recorded(
                #[trigger] final(worlds)@[i],
                old(worlds)@[i],
                old(worlds)@[i].entity2collider@[entities@[j]],
                entities@[j],
            ),
        forall|q: int|
            old(events)@.len() <= q < final(events)@.len() ==> justified(
                #[trigger] final(events)@[q],
                final(worlds)@,
                old(worlds)@,
            ),
        entities@.len() == 0 ==> final(worlds)@ == old(worlds)@ && final(events)@ == old(events)@,
        kind == HandleKind::Collider ==> forall|i: int, h: RawHandle|
            0 <= i < final(worlds)@.len() && !#[trigger] new_handle(final(worlds)@[i], old(worlds)@[i], h)
                ==> same_parent(final(worlds)@[i], old(worlds)@[i], h),
        kind == HandleKind::Collider ==> forall|i: int, j: int|
            0 <= i < final(worlds)@.len() && 0 <= j < entities@.len()
                && #[trigger] old(worlds)@[i].entity2collider@.contains_key(entities@[j])
                && collider_parents(old(worlds)@[i].colliders).contains_key(
                old(worlds)@[i].entity2collider@[entities@[j]],
            ) ==> notified(
                final(events)@,
                old(events)@.len() as int,
                i,
                collider_parents(old(worlds)@[i].colliders)[old(worlds)@[i].entity2collider@[entities@[j]]],
            ),
{
    let n = worlds.len();
    let ghost ev0 = events@;
    let mut k: usize = 0;
    while k < entities.len()
        invariant
            k <= entities@.len(),
            worlds@.len() == n,
            n == old(worlds)@.len(),
            all_wf(worlds@),
            all_wf(old(worlds)@),
            forall|i: int|
                0 <= i < n ==> (#[trigger] worlds@[i]).map_of(kind) == without(
                    old(worlds)@[i].map_of(kind),
                    entities@.subrange(0, k as int),
                ) && others_unchanged(worlds@[i], old(worlds)@[i], kind),
            kind != HandleKind::Collider || k == 0 ==> events@ == ev0,
            events@.len() >= ev0.len(),
            forall|q: int|
                0 <= q < events@.len() ==> (#[trigger] events@[q]).world < n || q < ev0.len()
                    && events@[q] == ev0[q],
            forall|q: int| 0 <= q < ev0.len() ==> #[trigger] events@[q] == ev0[q],
            forall|i: int| 0 <= i < n ==> collider_progress(#[trigger] worlds@[i], old(worlds)@[i], entities@),
            kind != HandleKind::Collider ==> forall|i: int|
                0 <= i < n ==> (#[trigger] worlds@[i]).deleted_colliders@ == old(worlds)@[i].deleted_colliders@,
            forall|q: int|
                ev0.len() <= q < events@.len() ==> justified(#[trigger] events@[q], worlds@, old(worlds)@),
            kind == HandleKind::Collider ==> forall|i: int, j: int|
                0 <= i < n && 0 <= j < k && old(worlds)@[i].entity2collider@.contains_key(
                    #[trigger] entities@[j],
                ) ==> recorded(
                    #[trigger] worlds@[i],
                    old(worlds)@[i],
                    old(worlds)@[i].entity2collider@[entities@[j]],
                    entities@[j],
                ),
            k == 0 ==> worlds@ == old(worlds)@ && events@ == ev0,
            kind == HandleKind::Collider ==> forall|i: int, q: int|
                0 <= i < n && old(worlds)@[i].deleted_colliders@.len() <= q
                    < worlds@[i].deleted_colliders@.len() ==> entities@.subrange(0, k as int).contains(
                    (#[trigger] worlds@[i].deleted_colliders@[q]).1,
                ),
            kind == HandleKind::Collider ==> forall|i: int, h: RawHandle|
                0 <= i < n && !#[trigger] new_handle(worlds@[i], old(worlds)@[i], h) ==> same_parent(
                    worlds@[i],
                    old(worlds)@[i],
                    h,
                ),
            kind == HandleKind::Collider ==> forall|i: int, j: int|
                0 <= i < n && 0 <= j < k && #[trigger] old(worlds)@[i].entity2collider@.contains_key(entities@[j])
                    && collider_parents(old(worlds)@[i].colliders).contains_key(
                    old(worlds)@[i].entity2collider@[entities@[j]],
                ) ==> notified(
                    events@,
                    ev0.len() as int,
                    i,
                    collider_parents(old(worlds)@[i].colliders)[old(worlds)@[i].entity2collider@[entities@[j]]],
                ),
        decreases entities@.len() - k,
    {
        let e = entities[k];
        let mut w: usize = 0;
        while w < n
            invariant
                k < entities@.len(),
                e == entities@[k as int],
                w <= n,
                worlds@.len() == n,
                n == old(worlds)@.len(),
                all_wf(worlds@),
                all_wf(old(worlds)@),
                forall|i: int|
                    0 <= i < w ==> (#[trigger] worlds@[i]).map_of(kind) == without(
                        old(worlds)@[i].map_of(kind),
                        entities@.subrange(0, k + 1),
                    ) && others_unchanged(worlds@[i], old(worlds)@[i], kind),
                forall|i: int|
                    w <= i < n ==> (#[trigger] worlds@[i]).map_of(kind) == without(
                        old(worlds)@[i].map_of(kind),
                        entities@.subrange(0, k as int),
                    ) && others_unchanged(worlds@[i], old(worlds)@[i], kind),
                kind != HandleKind::Collider ==> events@ == ev0,
                events@.len() >= ev0.len(),
                forall|q: int|
                    0 <= q < events@.len() ==> (#[trigger] events@[q]).world < n || q < ev0.len()
                        && events@[q] == ev0[q],
                forall|q: int| 0 <= q < ev0.len() ==> #[trigger] events@[q] == ev0[q],
                forall|i: int| 0 <= i < n ==> collider_progress(#[trigger] worlds@[i], old(worlds)@[i], entities@),
                kind != HandleKind::Collider ==> forall|i: int|
                    0 <= i < n ==> (#[trigger] worlds@[i]).deleted_colliders@ == old(worlds)@[i].deleted_colliders@,
                forall|q: int|
                    ev0.len() <= q < events@.len() ==> justified(#[trigger] events@[q], worlds@, old(worlds)@),
                kind == HandleKind::Collider ==> forall|i: int, j: int|
                    0 <= i < n && 0 <= j < k && old(worlds)@[i].entity2collider@.contains_key(
                        #[trigger] entities@[j],
                    ) ==> recorded(
                        #[trigger] worlds@[i],
                        old(worlds)@[i],
                        old(worlds)@[i].entity2collider@[entities@[j]],
                        entities@[j],
                    ),
                kind == HandleKind::Collider ==> forall|i: int|
                    0 <= i < w && old(worlds)@[i].entity2collider@.contains_key(e) ==> recorded(
                        #[trigger] worlds@[i],
                        old(worlds)@[i],
                        old(worlds)@[i].entity2collider@[e],
                        e,
                    ),
                kind == HandleKind::Collider ==> forall|i: int, q: int|
                    0 <= i < n && old(worlds)@[i].deleted_colliders@.len() <= q
                        < worlds@[i].deleted_colliders@.len() ==> entities@.subrange(
                        0,
                        if i < w {
                            k + 1
                        } else {
                            k as int
                        },
                    ).contains((#[trigger] worlds@[i].deleted_colliders@[q]).1),
                kind == HandleKind::Collider ==> forall|i: int, h: RawHandle|
                    0 <= i < n && !#[trigger] new_handle(worlds@[i], old(worlds)@[i], h) ==> same_parent(
                        worlds@[i],
                        old(worlds)@[i],
                        h,
                    ),
                kind == HandleKind::Collider ==> forall|i: int, j: int|
                    0 <= i < n && 0 <= j < k && #[trigger] old(worlds)@[i].entity2collider@.contains_key(entities@[j])
                        && collider_parents(old(worlds)@[i].colliders).contains_key(
                        old(worlds)@[i].entity2collider@[entities@[j]],
                    ) ==> notified(
                        events@,
                        ev0.len() as int,
                        i,
                        collider_parents(old(worlds)@[i].colliders)[old(worlds)@[i].entity2collider@[entities@[j]]],
                    ),
                kind == HandleKind::Collider ==> forall|i: int|
                    0 <= i < w && old(worlds)@[i].entity2collider@.contains_key(e)
                        && collider_parents(old(worlds)@[i].colliders).contains_key(
                        old(worlds)@[i].entity2collider@[e],
                    ) ==> notified(
                        events@,
                        ev0.len() as int,
                        i,
                        collider_parents(#[trigger] old(worlds)@[i].colliders)[old(worlds)@[i].entity2collider@[e]],
                    ),
            decreases n - w,
        {
            proof {
                let before = worlds@[w as int].map_of(kind);
                let m0 = old(worlds)@[w as int].map_of(kind);
                assert(entities@.subrange(0, k + 1).to_set() =~= entities@.subrange(
                    0,
                    k as int,
                ).to_set().insert(e)) by {
                    assert(entities@.subrange(0, k + 1) =~= entities@.subrange(0, k as int).push(e));
                    entities@.subrange(0, k as int).lemma_push_to_set_commute(e);
                }
                assert(without(m0, entities@.subrange(0, k + 1)) =~= before.remove(e));
            }
            let ghost ev1 = events@;
            let ghost wprev = worlds@[w as int];
            let ghost wprev_all = worlds@;
            remove_one(&mut worlds[w], w, e, kind, events);
            proof {
                if kind == HandleKind::Body {
                    assert(others_unchanged(wprev, old(worlds)@[w as int], kind));
                    vstd::map_lib::lemma_submap_of_trans(
                        worlds@[w as int].entity2impulse_joint@,
                        wprev.entity2impulse_joint@,
                        old(worlds)@[w as int].entity2impulse_joint@,
                    );
                }
                assert forall|q: int| 0 <= q < events@.len() implies (#[trigger] events@[q]).world < n || q < ev0.len()
                    && events@[q] == ev0[q] by {
                    if q < ev1.len() {
                        assert(events@[q] == ev1[q]);
                    }
                }
                let wi = w as int;
                let ow = old(worlds)@[wi];
                let nw = worlds@[wi];
                assert(entities@.contains(e)) by {
                    assert(entities@[k as int] == e);
                }
                assert(wprev.entity2collider@.submap_of(ow.entity2collider@)) by {
                    assert forall|x: EntityId| #[trigger] wprev.entity2collider@.dom().contains(x) implies ow.entity2collider@.dom().contains(x)
                        && wprev.entity2collider@[x] == ow.entity2collider@[x] by {
                        if kind == HandleKind::Collider {
                            lemma_without_iff(ow.entity2collider@, entities@.subrange(0, k as int), x);
                        }
                    }
                }
                lemma_progress_compose(nw, wprev, ow, e, entities@);
                assert forall|i: int| 0 <= i < n implies collider_progress(#[trigger] worlds@[i], old(worlds)@[i], entities@) by {
                    if i != wi {
                        assert(worlds@[i] == wprev_all[i]);
                    }
                }
                assert forall|j: int| 0 <= j < nw.deleted_colliders@.len() && j < wprev.deleted_colliders@.len()
                    implies #[trigger] nw.deleted_colliders@[j] == wprev.deleted_colliders@[j] by {}
                if kind == HandleKind::Collider {
                    assert forall|i: int, j: int|
                        0 <= i < n && 0 <= j < k && old(worlds)@[i].entity2collider@.contains_key(
                            #[trigger] entities@[j],
                        ) implies recorded(
                            #[trigger] worlds@[i],
                            old(worlds)@[i],
                            old(worlds)@[i].entity2collider@[entities@[j]],
                            entities@[j],
                        ) by {
                        if i == wi {
                            lemma_recorded_extend(nw, wprev, ow, ow.entity2collider@[entities@[j]], entities@[j]);
                        } else {
                            assert(worlds@[i] == wprev_all[i]);
                        }
                    }
                    assert forall|i: int|
                        0 <= i < w + 1 && old(worlds)@[i].entity2collider@.contains_key(e) implies recorded(
                            #[trigger] worlds@[i],
                            old(worlds)@[i],
                            old(worlds)@[i].entity2collider@[e],
                            e,
                        ) by {
                        if i == wi {
                            lemma_without_iff(ow.entity2collider@, entities@.subrange(0, k as int), e);
                            if entities@.subrange(0, k as int).contains(e) {
                                let j = choose|j: int| 0 <= j < k && #[trigger] entities@.subrange(0, k as int)[j] == e;
                                assert(entities@[j] == e);
                                lemma_recorded_extend(nw, wprev, ow, ow.entity2collider@[e], e);
                            } else {
                                lemma_recorded_rebase(nw, wprev, ow, ow.entity2collider@[e], e);
                            }
                        } else {
                            assert(worlds@[i] == wprev_all[i]);
                        }
                    }
                }
                if kind == HandleKind::Collider {
                    let pre = entities@.subrange(0, k as int);
                    let pre1 = entities@.subrange(0, k + 1);
                    assert(collider_map_without(wprev, ow, pre)) by {
                        assert(wprev.entity2collider@ == without(ow.entity2collider@, pre));
                    }
                    assert forall|i: int, q: int|
                        0 <= i < n && old(worlds)@[i].deleted_colliders@.len() <= q
                            < worlds@[i].deleted_colliders@.len() implies entities@.subrange(
                        0,
                        if i < w + 1 {
                            k + 1
                        } else {
                            k as int
                        },
                    ).contains((#[trigger] worlds@[i].deleted_colliders@[q]).1) by {
                        if i == wi {
                            if q < wprev.deleted_colliders@.len() {
                                assert(worlds@[i].deleted_colliders@[q] == wprev.deleted_colliders@[q]);
                                let x = wprev.deleted_colliders@[q].1;
                                assert(pre.contains(x));
                                let jj = choose|jj: int| 0 <= jj < pre.len() && pre[jj] == x;
                                assert(pre1[jj] == x);
                            } else {
                                let x = worlds@[i].deleted_colliders@[q].1;
                                assert(seq![e].contains(x));
                                let jj = choose|jj: int| 0 <= jj < 1 && seq![e][jj] == x;
                                assert(pre1[k as int] == e);
                            }
                        } else {
                            assert(worlds@[i] == wprev_all[i]);
                        }
                    }
                    let in_map = wprev.entity2collider@.contains_key(e);
                    let he = ow.entity2collider@[e];
                    lemma_without_iff(ow.entity2collider@, pre, e);
                    if in_map {
                        assert(wprev.entity2collider@[e] == he);
                        if new_handle(wprev, ow, he) {
                            let q = choose|q: int|
                                ow.deleted_colliders@.len() <= q < wprev.deleted_colliders@.len()
                                    && (#[trigger] wprev.deleted_colliders@[q]).0 == he;
                            let e2 = wprev.deleted_colliders@[q].1;
                            assert(ow.wf());
                            assert(ow.entity2collider@.contains_key(e2) && ow.entity2collider@[e2] == he);
                            assert(e2 == e);
                            assert(pre.contains(e2));
                            assert(false);
                        }
                        assert(same_parent(wprev, ow, he));
                        let k0 = wprev.deleted_colliders@.len() as int;
                        assert(worlds@[wi].deleted_colliders@[k0].0 == he);
                        assert(new_handle(worlds@[wi], ow, he));
                    }
                    assert forall|i: int, h: RawHandle|
                        0 <= i < n && !#[trigger] new_handle(worlds@[i], old(worlds)@[i], h) implies same_parent(
                        worlds@[i],
                        old(worlds)@[i],
                        h,
                    ) by {
                        if i == wi {
                            if new_handle(wprev, ow, h) {
                                let q = choose|q: int|
                                    ow.deleted_colliders@.len() <= q < wprev.deleted_colliders@.len()
                                        && (#[trigger] wprev.deleted_colliders@[q]).0 == h;
                                assert(worlds@[i].deleted_colliders@[q] == wprev.deleted_colliders@[q]);
                            }
                            assert(same_parent(wprev, ow, h));
                            if in_map {
                                assert(h != he);
                            }
                        } else {
                            assert(worlds@[i] == wprev_all[i]);
                        }
                    }
                    assert forall|i: int, j: int|
                        0 <= i < n && 0 <= j < k && #[trigger] old(worlds)@[i].entity2collider@.contains_key(entities@[j])
                            && collider_parents(old(worlds)@[i].colliders).contains_key(
                            old(worlds)@[i].entity2collider@[entities@[j]],
                        ) implies notified(
                        events@,
                        ev0.len() as int,
                        i,
                        collider_parents(old(worlds)@[i].colliders)[old(worlds)@[i].entity2collider@[entities@[j]]],
                    ) by {
                        let body = collider_parents(old(worlds)@[i].colliders)[old(worlds)@[i].entity2collider@[entities@[j]]];
                        assert(notified(ev1, ev0.len() as int, i, body));
                        let q = choose|q: int|
                            ev0.len() <= q < ev1.len() && (#[trigger] ev1[q]).world as int == i && ev1[q].body == body;
                        assert(events@[q] == ev1[q]);
                    }
                    assert forall|i: int|
                        0 <= i < w + 1 && old(worlds)@[i].entity2collider@.contains_key(e)
                            && collider_parents(old(worlds)@[i].colliders).contains_key(
                            old(worlds)@[i].entity2collider@[e],
                        ) implies notified(
                        events@,
                        ev0.len() as int,
                        i,
                        collider_parents(#[trigger] old(worlds)@[i].colliders)[old(worlds)@[i].entity2collider@[e]],
                    ) by {
                        let body = collider_parents(old(worlds)@[i].colliders)[old(worlds)@[i].entity2collider@[e]];
                        if i < wi {
                            assert(notified(ev1, ev0.len() as int, i, body));
                            let q = choose|q: int|
                                ev0.len() <= q < ev1.len() && (#[trigger] ev1[q]).world as int == i && ev1[q].body == body;
                            assert(events@[q] == ev1[q]);
                        } else if in_map {
                            assert(events@.len() == ev1.len() + 1);
                            let q = ev1.len() as int;
                            assert(events@[q] == events@.last());
                            assert(events@[q].world as int == i && events@[q].body == body);
                        } else {
                            assert(pre.contains(e));
                            let jj = choose|jj: int| 0 <= jj < pre.len() && pre[jj] == e;
                            assert(entities@[jj] == e);
                            assert(old(worlds)@[i].entity2collider@.contains_key(entities@[jj]));
                            assert(notified(ev1, ev0.len() as int, i, body));
                            let q = choose|q: int|
                                ev0.len() <= q < ev1.len() && (#[trigger] ev1[q]).world as int == i && ev1[q].body == body;
                            assert(events@[q] == ev1[q]);
                        }
                    }
                }
                assert forall|q: int| ev0.len() <= q < events@.len() implies justified(#[trigger] events@[q], worlds@, old(worlds)@) by {
                    let ev = events@[q];
                    if q < ev1.len() {
                        assert(ev == ev1[q]);
                        assert(justified(ev, wprev_all, old(worlds)@));
                        let ww = ev.world as int;
                        let (h, ee) = choose|h: RawHandle, ee: EntityId|
                            #[trigger] recorded(wprev_all[ww], old(worlds)@[ww], h, ee)
                                && collider_parents(old(worlds)@[ww].colliders).contains_key(h)
                                && collider_parents(old(worlds)@[ww].colliders)[h] == ev.body;
                        if ww == wi {
                            lemma_recorded_extend(nw, wprev, ow, h, ee);
                        } else {
                            assert(worlds@[ww] == wprev_all[ww]);
                        }
                        assert(recorded(worlds@[ww], old(worlds)@[ww], h, ee));
                        assert(ev.world < worlds@.len());
                    } else {
                        let h = wprev.entity2collider@[e];
                        assert(events@.len() == ev1.len() + 1);
                        assert(ev == events@.last());
                        assert(ev.world == w);
                        assert(ev.body == collider_parents(wprev.colliders)[h]);
                        lemma_recorded_rebase(nw, wprev, ow, h, e);
                        assert(collider_parents(wprev.colliders).submap_of(collider_parents(ow.colliders)));
                        assert(collider_parents(wprev.colliders).dom().contains(h));
                        assert(collider_parents(ow.colliders).dom().contains(h));
                        assert(collider_parents(ow.colliders)[h] == ev.body);
                        assert(recorded(worlds@[wi], old(worlds)@[wi], h, e));
                        assert(ev.world < worlds@.len());
                    }
                }
            }
            w = w + 1;
        }
        k = k + 1;
    }
    proof {
        assert(entities@.subrange(0, entities@.len() as int) =~= entities@);
    }
}


/// Registry maps of `after` are those of `before` without the entities that `signals`
/// reports for each kind; the impulse-joint map may also have lost the joints that
/// went with a removed body.
pub open spec fn synced(before: Seq<PhysicsWorld>, after: Seq<PhysicsWorld>, signals: RemovalSignals) -> bool {
    &&& after.len() == before.len()
    &&& forall|i: int|
        0 <= i < after.len() ==> {
            &&& (#[trigger] after[i]).entity2body@ == without(
                without(before[i].entity2body@, signals.removed_bodies@),
                signals.orphan_bodies@,
            )
            &&& after[i].entity2collider@ == without(
                without(before[i].entity2collider@, signals.removed_colliders@),
                signals.orphan_colliders@,
            )
            &&& after[i].entity2impulse_joint@.submap_of(
                without(
                    without(before[i].entity2impulse_joint@, signals.removed_impulse_joints@),
                    signals.orphan_impulse_joints@,
                ),
            )
            &&& after[i].entity2multibody_joint@ == without(
                without(before[i].entity2multibody_joint@, signals.removed_multibody_joints@),
                signals.orphan_multibody_joints@,
            )
        }
}

/// No entity is held by the registries of two different worlds.
pub open spec fn single_membership(worlds: Seq<PhysicsWorld>) -> bool {
    forall|e: EntityId, i: int, j: int|
        0 <= i < worlds.len() && 0 <= j < worlds.len() && #[trigger] worlds[i].holds_entity(e)
            && #[trigger] worlds[j].holds_entity(e) ==> i == j
}

/// Whether the pass reports `e` for every kind, as for an entity whose handles were all
/// stripped.
pub open spec fn fully_signalled(signals: RemovalSignals, e: EntityId) -> bool {
    &&& (signals.removed_bodies@.contains(e) || signals.orphan_bodies@.contains(e))
    &&& (signals.removed_colliders@.contains(e) || signals.orphan_colliders@.contains(e))
    &&& (signals.removed_impulse_joints@.contains(e) || signals.orphan_impulse_joints@.contains(e))
    &&& (signals.removed_multibody_joints@.contains(e) || signals.orphan_multibody_joints@.contains(
        e,
    ))
}

/// Index of the first world whose registry map of `kind` holds `entity`.
pub fn find_context_entity(worlds: &Vec<PhysicsWorld>, entity: EntityId, kind: HandleKind) -> (r:
    Option<usize>)
    ensures
        match r {
            Some(i) => i < worlds@.len() && worlds@[i as int].map_of(kind).contains_key(entity)
                && forall|j: int| 0 <= j < i ==> !(#[trigger] worlds@[j]).map_of(kind).contains_key(entity),
            None => forall|j: int|
                0 <= j < worlds@.len() ==> !(#[trigger] worlds@[j]).map_of(kind).contains_key(entity),
        },
{
    let mut i: usize = 0;
    while i < worlds.len()
        invariant
            i <= worlds@.len(),
            forall|j: int| 0 <= j < i ==> !(#[trigger] worlds@[j]).map_of(kind).contains_key(entity),
        decreases worlds@.len() - i,
    {
        let w = &worlds[i];
        let found = match kind {
            HandleKind::Body => w.entity2body.contains_key(&entity),
            HandleKind::Collider => w.entity2collider.contains_key(&entity),
            HandleKind::ImpulseJoint => w.entity2impulse_joint.contains_key(&entity),
            HandleKind::MultibodyJoint => w.entity2multibody_joint.contains_key(&entity),
        };
        if found {
            return Some(i);
        }
        i = i + 1;
    }
    None
}

/// World `i` is the first world whose registry map of `kind` holds `e`.
pub open spec fn first_holder(worlds: Seq<PhysicsWorld>, e: EntityId, kind: HandleKind, i: int) -> bool {
    &&& 0 <= i < worlds.len()
    &&& worlds[i].map_of(kind).contains_key(e)
    &&& forall|j: int| 0 <= j < i ==> !(#[trigger] worlds[j]).map_of(kind).contains_key(e)
}

/// The flag reset for `e` holds in `world`: its collider is no sensor (`sensor`), or its
/// collider is not disabled, or its body is not disabled (`kind == Body`).
pub open spec fn flag_cleared(world: PhysicsWorld, e: EntityId, kind: HandleKind, sensor: bool) -> bool {
    if kind == HandleKind::Body {
        !disabled_bodies(world.bodies).contains(world.entity2body@[e])
    } else if sensor {
        !sensor_colliders(world.colliders).contains(world.entity2collider@[e])
    } else {
        !disabled_colliders(world.colliders).contains(world.entity2collider@[e])
    }
}

/// The flags of `a` are those of `b` or fewer.
pub open spec fn flags_shrunk(a: PhysicsWorld, b: PhysicsWorld) -> bool {
    &&& sensor_colliders(a.colliders).subset_of(sensor_colliders(b.colliders))
    &&& disabled_colliders(a.colliders).subset_of(disabled_colliders(b.colliders))
    &&& disabled_bodies(a.bodies).subset_of(disabled_bodies(b.bodies))
}

/// Resets a flag on the object of `kind` of each listed entity, in the first world that
/// holds it: clears the sensor flag or enables a collider, or enables a body.
fn reset_flags(worlds: &mut Vec<PhysicsWorld>, entities: &Vec<EntityId>, kind: HandleKind, sensor: bool)
    requires
        all_wf(old(worlds)@),
        kind == HandleKind::Body || kind == HandleKind::Collider,
    ensures
        final(worlds)@.len() == old(worlds)@.len(),
        all_wf(final(worlds)@),
        forall|i: int|
            0 <= i < final(worlds)@.len() ==> same_registry(#[trigger] final(worlds)@[i], old(worlds)@[i])
                && final(worlds)@[i].impulse_joints == old(worlds)@[i].impulse_joints
                && final(worlds)@[i].deleted_colliders@ == old(worlds)@[i].deleted_colliders@
                && collider_parents(final(worlds)@[i].colliders) == collider_parents(old(worlds)@[i].colliders)
                && flags_shrunk(final(worlds)@[i], old(worlds)@[i]),
        forall|j: int, i: int|
            0 <= j < entities@.len() && first_holder(final(worlds)@, #[trigger] entities@[j], kind, i)
                ==> flag_cleared(#[trigger] final(worlds)@[i], entities@[j], kind, sensor),
{
    let n = worlds.len();
    let mut k: usize = 0;
    while k < entities.len()
        invariant
            k <= entities@.len(),
            worlds@.len() == n,
            n == old(worlds)@.len(),
            kind == HandleKind::Body || kind == HandleKind::Collider,
            all_wf(worlds@),
            forall|i: int|
                0 <= i < n ==> same_registry(#[trigger] worlds@[i], old(worlds)@[i])
                    && worlds@[i].impulse_joints == old(worlds)@[i].impulse_joints
                    && worlds@[i].deleted_colliders@ == old(worlds)@[i].deleted_colliders@
                    && collider_parents(worlds@[i].colliders) == collider_parents(old(worlds)@[i].colliders)
                    && flags_shrunk(worlds@[i], old(worlds)@[i]),
            forall|j: int, i: int|
                0 <= j < k && first_holder(worlds@, #[trigger] entities@[j], kind, i)
                    ==> flag_cleared(#[trigger] worlds@[i], entities@[j], kind, sensor),
        decreases entities@.len() - k,
    {
        let e = entities[k];
        let ghost before = worlds@;
        match find_context_entity(worlds, e, kind) {
            Some(w) => {
                if kind == HandleKind::Body {
                    let _ = worlds[w].enable_body_of(e);
                } else if sensor {
                    let _ = worlds[w].clear_sensor_of(e);
                } else {
                    let _ = worlds[w].enable_collider_of(e);
                }
                proof {
                    let wi = w as int;
                    assert forall|i: int| 0 <= i < n implies same_registry(#[trigger] worlds@[i], old(worlds)@[i])
                        && worlds@[i].impulse_joints == old(worlds)@[i].impulse_joints
                        && worlds@[i].deleted_colliders@ == old(worlds)@[i].deleted_colliders@
                        && collider_parents(worlds@[i].colliders) == collider_parents(old(worlds)@[i].colliders)
                        && flags_shrunk(worlds@[i], old(worlds)@[i]) by {
                        if i != wi {
                            assert(worlds@[i] == before[i]);
                        } else {
                            let a = worlds@[i];
                            let b = before[i];
                            assert(sensor_colliders(a.colliders).subset_of(sensor_colliders(b.colliders)));
                            assert(disabled_colliders(a.colliders).subset_of(disabled_colliders(b.colliders)));
                            assert(disabled_bodies(a.bodies).subset_of(disabled_bodies(b.bodies)));
                            assert(flags_shrunk(b, old(worlds)@[i]));
                        }
                    }
                    assert(first_holder(worlds@, e, kind, wi));
                    assert(flag_cleared(worlds@[wi], e, kind, sensor));
                    assert forall|j: int, i: int|
                        0 <= j < k + 1 && first_holder(worlds@, #[trigger] entities@[j], kind, i)
                            implies flag_cleared(#[trigger] worlds@[i], entities@[j], kind, sensor) by {
                        if j < k {
                            assert forall|jj: int| 0 <= jj < i implies !(#[trigger] before[jj]).map_of(kind).contains_key(entities@[j]) by {
                                assert(same_registry(worlds@[jj], old(worlds)@[jj]));
                                assert(same_registry(before[jj], old(worlds)@[jj]));
                            }
                            assert(same_registry(worlds@[i], old(worlds)@[i]));
                            assert(same_registry(before[i], old(worlds)@[i]));
                            assert(first_holder(before, entities@[j], kind, i));
                            if i != wi {
                                assert(worlds@[i] == before[i]);
                            }
                        } else {
                            if i != wi {
                                if i < wi {
                                    assert(!worlds@[i].map_of(kind).contains_key(e));
                                } else {
                                    assert(!worlds@[wi].map_of(kind).contains_key(e));
                                }
                            }
                        }
                    }
                }
            },
            None => {
                proof {
                    assert forall|j: int, i: int|
                        0 <= j < k + 1 && first_holder(worlds@, #[trigger] entities@[j], kind, i)
                            implies flag_cleared(#[trigger] worlds@[i], entities@[j], kind, sensor) by {
                        if j == k {
                            assert(!worlds@[i].map_of(kind).contains_key(e));
                        }
                    }
                }
            },
        }
        k = k + 1;
    }
}

/// Whether two different worlds hold `e` in their registry map of `kind`.
pub open spec fn held_twice(worlds: Seq<PhysicsWorld>, e: EntityId, kind: HandleKind) -> bool {
    exists|i: int, j: int|
        0 <= i < j < worlds.len() && #[trigger] worlds[i].map_of(kind).contains_key(e)
            && #[trigger] worlds[j].map_of(kind).contains_key(e)
}

/// Whether two different worlds hold `e` in their registry map of `kind`.
pub fn is_held_twice(worlds: &Vec<PhysicsWorld>, e: EntityId, kind: HandleKind) -> (r: bool)
    ensures
        r == held_twice(worlds@, e, kind),
{
    let n = worlds.len();
    match find_context_entity(worlds, e, kind) {
        None => false,
        Some(first) => {
            let mut j: usize = first + 1;
            while j < worlds.len()
                invariant
                    first < j <= worlds@.len(),
                    worlds@[first as int].map_of(kind).contains_key(e),
                    forall|x: int| 0 <= x < first ==> !(#[trigger] worlds@[x]).map_of(kind).contains_key(e),
                    forall|x: int| first < x < j ==> !(#[trigger] worlds@[x]).map_of(kind).contains_key(e),
                decreases worlds@.len() - j,
            {
                let w = &worlds[j];
                let found = match kind {
                    HandleKind::Body => w.entity2body.contains_key(&e),
                    HandleKind::Collider => w.entity2collider.contains_key(&e),
                    HandleKind::ImpulseJoint => w.entity2impulse_joint.contains_key(&e),
                    HandleKind::MultibodyJoint => w.entity2multibody_joint.contains_key(&e),
                };
                if found {
                    proof {
                        assert(worlds@[first as int].map_of(kind).contains_key(e) && worlds@[j as int].map_of(kind).contains_key(e));
                    }
                    return true;
                }
                j = j + 1;
            }
            proof {
                if held_twice(worlds@, e, kind) {
                    let (a, b) = choose|a: int, b: int|
                        0 <= a < b < worlds@.len() && #[trigger] worlds@[a].map_of(kind).contains_key(e)
                            && #[trigger] worlds@[b].map_of(kind).contains_key(e);
                    assert(a >= first as int);
                    assert(b > first as int);
                }
            }
            false
        },
    }
}

/// The first entity of `entities` that two different worlds hold in their map of `kind`.
fn first_held_twice(worlds: &Vec<PhysicsWorld>, entities: &Vec<EntityId>, kind: HandleKind) -> (r: Option<EntityId>)
    ensures
        r.is_none() == forall|j: int| 0 <= j < entities@.len() ==> !held_twice(worlds@, #[trigger] entities@[j], kind),
        r.is_some() ==> entities@.contains(r.unwrap()) && held_twice(worlds@, r.unwrap(), kind),
{
    let mut k: usize = 0;
    while k < entities.len()
        invariant
            k <= entities@.len(),
            forall|j: int| 0 <= j < k ==> !held_twice(worlds@, #[trigger] entities@[j], kind),
        decreases entities@.len() - k,
    {
        let e = entities[k];
        if is_held_twice(worlds, e, kind) {
            proof {
                assert(entities@[k as int] == e);
            }
            return Some(e);
        }
        k = k + 1;
    }
    None
}

/// Whether some entity that `signals` reports for removal is held by two different
/// worlds for the kind it is reported for: a broken single-world membership.
pub open spec fn duplicate_reported(worlds: Seq<PhysicsWorld>, signals: RemovalSignals, e: EntityId) -> bool {
    ||| (signals.removed_bodies@.contains(e) || signals.orphan_bodies@.contains(e)) && held_twice(worlds, e, HandleKind::Body)
    ||| (signals.removed_colliders@.contains(e) || signals.orphan_colliders@.contains(e)) && held_twice(worlds, e, HandleKind::Collider)
    ||| (signals.removed_impulse_joints@.contains(e) || signals.orphan_impulse_joints@.contains(e)) && held_twice(worlds, e, HandleKind::ImpulseJoint)
    ||| (signals.removed_multibody_joints@.contains(e) || signals.orphan_multibody_joints@.contains(e)) && held_twice(worlds, e, HandleKind::MultibodyJoint)
}

/// An entity reported for removal that two different worlds hold, if there is one. The
/// registry is meant to hold each entity in one world at most; a pass over such an
/// entity would remove it from every world, so callers check before the pass.
pub fn find_duplicated_entity(worlds: &Vec<PhysicsWorld>, signals: &RemovalSignals) -> (r: Option<EntityId>)
    ensures
        r.is_none() == forall|e: EntityId| !#[trigger] duplicate_reported(worlds@, *signals, e),
        r.is_some() ==> duplicate_reported(worlds@, *signals, r.unwrap()),
{
    let r1 = first_held_twice(worlds, &signals.removed_bodies, HandleKind::Body);
    if r1.is_some() {
        proof {
            assert(duplicate_reported(worlds@, *signals, r1.unwrap()));
        }
        return r1;
    }
    let r2 = first_held_twice(worlds, &signals.orphan_bodies, HandleKind::Body);
    if r2.is_some() {
        proof {
            assert(duplicate_reported(worlds@, *signals, r2.unwrap()));
        }
        return r2;
    }
    let r3 = first_held_twice(worlds, &signals.removed_colliders, HandleKind::Collider);
    if r3.is_some() {
        proof {
            assert(duplicate_reported(worlds@, *signals, r3.unwrap()));
        }
        return r3;
    }
    let r4 = first_held_twice(worlds, &signals.orphan_colliders, HandleKind::Collider);
    if r4.is_some() {
        proof {
            assert(duplicate_reported(worlds@, *signals, r4.unwrap()));
        }
        return r4;
    }
    let r5 = first_held_twice(worlds, &signals.removed_impulse_joints, HandleKind::ImpulseJoint);
    if r5.is_some() {
        proof {
            assert(duplicate_reported(worlds@, *signals, r5.unwrap()));
        }
        return r5;
    }
    let r6 = first_held_twice(worlds, &signals.orphan_impulse_joints, HandleKind::ImpulseJoint);
    if r6.is_some() {
        proof {
            assert(duplicate_reported(worlds@, *signals, r6.unwrap()));
        }
        return r6;
    }
    let r7 = first_held_twice(worlds, &signals.removed_multibody_joints, HandleKind::MultibodyJoint);
    if r7.is_some() {
        proof {
            assert(duplicate_reported(worlds@, *signals, r7.unwrap()));
        }
        return r7;
    }
    let r8 = first_held_twice(worlds, &signals.orphan_multibody_joints, HandleKind::MultibodyJoint);
    if r8.is_some() {
        proof {
            assert(duplicate_reported(worlds@, *signals, r8.unwrap()));
        }
        return r8;
    }
    proof {
        assert forall|e: EntityId| !#[trigger] duplicate_reported(worlds@, *signals, e) by {
            if signals.removed_bodies@.contains(e) {
                let j = choose|j: int| 0 <= j < signals.removed_bodies@.len() && signals.removed_bodies@[j] == e;
                assert(!held_twice(worlds@, signals.removed_bodies@[j], HandleKind::Body));
            }
            if signals.orphan_bodies@.contains(e) {
                let j = choose|j: int| 0 <= j < signals.orphan_bodies@.len() && signals.orphan_bodies@[j] == e;
                assert(!held_twice(worlds@, signals.orphan_bodies@[j], HandleKind::Body));
            }
            if signals.removed_colliders@.contains(e) {
                let j = choose|j: int| 0 <= j < signals.removed_colliders@.len() && signals.removed_colliders@[j] == e;
                assert(!held_twice(worlds@, signals.removed_colliders@[j], HandleKind::Collider));
            }
            if signals.orphan_colliders@.contains(e) {
                let j = choose|j: int| 0 <= j < signals.orphan_colliders@.len() && signals.orphan_colliders@[j] == e;
                assert(!held_twice(worlds@, signals.orphan_colliders@[j], HandleKind::Collider));
            }
            if signals.removed_impulse_joints@.contains(e) {
                let j = choose|j: int| 0 <= j < signals.removed_impulse_joints@.len() && signals.removed_impulse_joints@[j] == e;
                assert(!held_twice(worlds@, signals.removed_impulse_joints@[j], HandleKind::ImpulseJoint));
            }
            if signals.orphan_impulse_joints@.contains(e) {
                let j = choose|j: int| 0 <= j < signals.orphan_impulse_joints@.len() && signals.orphan_impulse_joints@[j] == e;
                assert(!held_twice(worlds@, signals.orphan_impulse_joints@[j], HandleKind::ImpulseJoint));
            }
            if signals.removed_multibody_joints@.contains(e) {
                let j = choose|j: int| 0 <= j < signals.removed_multibody_joints@.len() && signals.removed_multibody_joints@[j] == e;
                assert(!held_twice(worlds@, signals.removed_multibody_joints@[j], HandleKind::MultibodyJoint));
            }
            if signals.orphan_multibody_joints@.contains(e) {
                let j = choose|j: int| 0 <= j < signals.orphan_multibody_joints@.len() && signals.orphan_multibody_joints@[j] == e;
                assert(!held_twice(worlds@, signals.orphan_multibody_joints@[j], HandleKind::MultibodyJoint));
            }
        }
    }
    None
}

/// One synchronization pass over all worlds.
///
/// Bodies, then colliders, then impulse joints, then multibody joints: the object of
/// every entity that lost its handle component or became an orphan is removed from
/// every world that holds it, with its registry entry, and each removed collider is
/// recorded with its entity among the world's deleted colliders. Each removed collider
/// that was attached to a body yields a mass notification for that body. Then the flags
/// whose markers went away are reset, in the first world that holds the entity. Returns
/// the mass notifications. An entity that two worlds hold is removed from both:
/// [`find_duplicated_entity`] reports that case beforehand.
pub fn sync_removals(worlds: &mut Vec<PhysicsWorld>, signals: &RemovalSignals) -> (events: Vec<
    MassModified,
>)
    requires
        all_wf(old(worlds)@),
    ensures
        final(worlds)@.len() == old(worlds)@.len(),
        all_wf(final(worlds)@),
        synced(old(worlds)@, final(worlds)@, *signals),
        signals.removed_colliders@.len() == 0 && signals.orphan_colliders@.len() == 0
            ==> events@.len() == 0,
        forall|k: int| 0 <= k < events@.len() ==> (#[trigger] events@[k]).world < final(worlds)@.len(),
        forall|i: int|
            0 <= i < final(worlds)@.len() ==> collider_progress(
                #[trigger] final(worlds)@[i],
                old(worlds)@[i],
                signals.removed_colliders@ + signals.orphan_colliders@,
            ),
        forall|i: int, e: EntityId|
            0 <= i < final(worlds)@.len() && (signals.removed_colliders@.contains(e)
                || signals.orphan_colliders@.contains(e)) && #[trigger] old(
                worlds,
            )@[i].entity2collider@.contains_key(e) ==> recorded(
                #[trigger] final(worlds)@[i],
                old(worlds)@[i],
                old(worlds)@[i].entity2collider@[e],
                e,
            ),
        forall|q: int|
            0 <= q < events@.len() ==> justified(#[trigger] events@[q], final(worlds)@, old(worlds)@),
        signals.removed_bodies@.len() == 0 && signals.orphan_bodies@.len() == 0 ==> forall|i: int, e: EntityId|
            0 <= i < final(worlds)@.len() && (signals.removed_colliders@.contains(e)
                || signals.orphan_colliders@.contains(e)) && #[trigger] old(
                worlds,
            )@[i].entity2collider@.contains_key(e) && collider_parents(old(worlds)@[i].colliders).contains_key(
                old(worlds)@[i].entity2collider@[e],
            ) ==> notified(
                events@,
                0,
                i,
                collider_parents(old(worlds)@[i].colliders)[old(worlds)@[i].entity2collider@[e]],
            ),
        forall|j: int, i: int|
            0 <= j < signals.removed_sensors@.len() && first_holder(
                final(worlds)@,
                #[trigger] signals.removed_sensors@[j],
                HandleKind::Collider,
                i,
            ) ==> flag_cleared(#[trigger] final(worlds)@[i], signals.removed_sensors@[j], HandleKind::Collider, true),
        forall|j: int, i: int|
            0 <= j < signals.removed_colliders_disabled@.len() && first_holder(
                final(worlds)@,
                #[trigger] signals.removed_colliders_disabled@[j],
                HandleKind::Collider,
                i,
            ) ==> flag_cleared(
                #[trigger] final(worlds)@[i],
                signals.removed_colliders_disabled@[j],
                HandleKind::Collider,
                false,
            ),
        forall|j: int, i: int|
            0 <= j < signals.removed_rigid_body_disabled@.len() && first_holder(
                final(worlds)@,
                #[trigger] signals.removed_rigid_body_disabled@[j],
                HandleKind::Body,
                i,
            ) ==> flag_cleared(
                #[trigger] final(worlds)@[i],
                signals.removed_rigid_body_disabled@[j],
                HandleKind::Body,
                false,
            ),
{
    let mut events: Vec<MassModified> = Vec::new();
    let ghost w0 = worlds@;
    remove_all(worlds, &signals.removed_bodies, HandleKind::Body, &mut events);
    let ghost wm = worlds@;
    remove_all(worlds, &signals.orphan_bodies, HandleKind::Body, &mut events);
    let ghost w1 = worlds@;
    proof {
        assert forall|i: int| 0 <= i < w1.len() implies (#[trigger] w1[i]).entity2impulse_joint@.submap_of(
            w0[i].entity2impulse_joint@,
        ) by {
            assert(others_unchanged(w1[i], wm[i], HandleKind::Body));
            assert(others_unchanged(wm[i], w0[i], HandleKind::Body));
            vstd::map_lib::lemma_submap_of_trans(
                w1[i].entity2impulse_joint@,
                wm[i].entity2impulse_joint@,
                w0[i].entity2impulse_joint@,
            );
        }
    }
    let ghost e1 = events@;
    remove_all(worlds, &signals.removed_colliders, HandleKind::Collider, &mut events);
    let ghost w2 = worlds@;
    let ghost e2 = events@;
    remove_all(worlds, &signals.orphan_colliders, HandleKind::Collider, &mut events);
    let ghost w3 = worlds@;
    let ghost e3 = events@;
    remove_all(worlds, &signals.removed_impulse_joints, HandleKind::ImpulseJoint, &mut events);
    let ghost wj1 = worlds@;
    remove_all(worlds, &signals.orphan_impulse_joints, HandleKind::ImpulseJoint, &mut events);
    let ghost wj2 = worlds@;
    remove_all(worlds, &signals.removed_multibody_joints, HandleKind::MultibodyJoint, &mut events);
    let ghost wj3 = worlds@;
    remove_all(worlds, &signals.orphan_multibody_joints, HandleKind::MultibodyJoint, &mut events);
    let ghost w4 = worlds@;
    reset_flags(worlds, &signals.removed_sensors, HandleKind::Collider, true);
    let ghost w5 = worlds@;
    reset_flags(worlds, &signals.removed_colliders_disabled, HandleKind::Collider, false);
    let ghost w6 = worlds@;
    reset_flags(worlds, &signals.removed_rigid_body_disabled, HandleKind::Body, false);
    proof {
        let rc = signals.removed_colliders@;
        let oc = signals.orphan_colliders@;
        let sc = rc + oc;
        let fw = worlds@;
        assert forall|x: EntityId| rc.contains(x) implies sc.contains(x) by {
            let j = choose|j: int| 0 <= j < rc.len() && rc[j] == x;
            assert(sc[j] == x);
        }
        assert forall|x: EntityId| oc.contains(x) implies sc.contains(x) by {
            let j = choose|j: int| 0 <= j < oc.len() && oc[j] == x;
            assert(sc[rc.len() + j] == x);
        }
        assert forall|i: int| 0 <= i < fw.len() implies {
            &&& records_extend(#[trigger] fw[i], w3[i])
            &&& records_extend(fw[i], w2[i])
            &&& w1[i].deleted_colliders@ == w0[i].deleted_colliders@
            &&& w1[i].entity2collider@ == w0[i].entity2collider@
            &&& collider_parents(w1[i].colliders).submap_of(collider_parents(w0[i].colliders))
            &&& collider_parents(w2[i].colliders).submap_of(collider_parents(w1[i].colliders))
            &&& collider_progress(fw[i], w0[i], sc)
        } by {
            // body phase
            assert(collider_progress(wm[i], w0[i], signals.removed_bodies@));
            assert(collider_progress(w1[i], wm[i], signals.orphan_bodies@));
            vstd::map_lib::lemma_submap_of_trans(
                collider_parents(w1[i].colliders),
                collider_parents(wm[i].colliders),
                collider_parents(w0[i].colliders),
            );
            assert(others_unchanged(wm[i], w0[i], HandleKind::Body));
            assert(others_unchanged(w1[i], wm[i], HandleKind::Body));
            // joint phases and resets keep records and only drop parents
            assert(collider_progress(wj1[i], w3[i], signals.removed_impulse_joints@));
            assert(collider_progress(wj2[i], wj1[i], signals.orphan_impulse_joints@));
            assert(collider_progress(wj3[i], wj2[i], signals.removed_multibody_joints@));
            assert(collider_progress(w4[i], wj3[i], signals.orphan_multibody_joints@));
            assert(same_registry(w5[i], w4[i]));
            assert(same_registry(w6[i], w5[i]));
            assert(same_registry(fw[i], w6[i]));
            assert(records_extend(fw[i], w4[i]));
            assert(records_extend(w4[i], w3[i])) by {
                lemma_extend_trans(wj2[i], wj1[i], w3[i]);
                lemma_extend_trans(wj3[i], wj2[i], w3[i]);
                lemma_extend_trans(w4[i], wj3[i], w3[i]);
            }
            lemma_extend_trans(fw[i], w4[i], w3[i]);
            assert(records_extend(w3[i], w2[i]));
            lemma_extend_trans(fw[i], w3[i], w2[i]);
            // collider phases
            assert(collider_progress(w2[i], w1[i], rc));
            assert(collider_progress(w3[i], w2[i], oc));
            assert(w2[i].entity2collider@ == without(w1[i].entity2collider@, rc));
            assert(w2[i].entity2collider@.submap_of(w1[i].entity2collider@)) by {
                assert forall|x: EntityId| #[trigger] w2[i].entity2collider@.dom().contains(x) implies w1[i].entity2collider@.dom().contains(x)
                    && w2[i].entity2collider@[x] == w1[i].entity2collider@[x] by {
                    lemma_without_iff(w1[i].entity2collider@, rc, x);
                }
            }
            lemma_progress_trans(w3[i], w2[i], w1[i], oc, rc, sc);
            assert(collider_progress(w1[i], w0[i], sc)) by {
                assert(w1[i].deleted_colliders@ =~= w0[i].deleted_colliders@);
            }
            lemma_progress_trans(w3[i], w1[i], w0[i], sc, sc, sc);
            // later phases add no records and only drop parents
            vstd::map_lib::lemma_submap_of_trans(
                collider_parents(wj2[i].colliders),
                collider_parents(wj1[i].colliders),
                collider_parents(w3[i].colliders),
            );
            vstd::map_lib::lemma_submap_of_trans(
                collider_parents(wj3[i].colliders),
                collider_parents(wj2[i].colliders),
                collider_parents(w3[i].colliders),
            );
            vstd::map_lib::lemma_submap_of_trans(
                collider_parents(w4[i].colliders),
                collider_parents(wj3[i].colliders),
                collider_parents(w3[i].colliders),
            );
            vstd::map_lib::lemma_submap_of_trans(
                collider_parents(fw[i].colliders),
                collider_parents(w4[i].colliders),
                collider_parents(w3[i].colliders),
            );
            assert(fw[i].deleted_colliders@ =~= w3[i].deleted_colliders@);
            assert(fw[i].entity2collider@ == w3[i].entity2collider@);
            assert(collider_progress(fw[i], w3[i], sc));
            assert(w3[i].entity2collider@.submap_of(w0[i].entity2collider@)) by {
                assert forall|x: EntityId| #[trigger] w3[i].entity2collider@.dom().contains(x) implies w0[i].entity2collider@.dom().contains(x)
                    && w3[i].entity2collider@[x] == w0[i].entity2collider@[x] by {
                    lemma_without_iff(w2[i].entity2collider@, oc, x);
                    lemma_without_iff(w1[i].entity2collider@, rc, x);
                }
            }
            lemma_progress_trans(fw[i], w3[i], w0[i], sc, sc, sc);
        }
        // records of every reported collider
        assert forall|i: int, e: EntityId|
            0 <= i < fw.len() && (rc.contains(e) || oc.contains(e)) && #[trigger] w0[i].entity2collider@.contains_key(e)
                implies recorded(#[trigger] fw[i], w0[i], w0[i].entity2collider@[e], e) by {
            if rc.contains(e) {
                let j = choose|j: int| 0 <= j < rc.len() && rc[j] == e;
                assert(w1[i].entity2collider@.contains_key(rc[j]));
                assert(recorded(w2[i], w1[i], w1[i].entity2collider@[rc[j]], rc[j]));
                lemma_lift_recorded(fw[i], w2[i], w1[i], w0[i], w0[i].entity2collider@[e], e);
            } else {
                let j = choose|j: int| 0 <= j < oc.len() && oc[j] == e;
                lemma_without_iff(w1[i].entity2collider@, rc, e);
                assert(w2[i].entity2collider@.contains_key(oc[j]));
                assert(recorded(w3[i], w2[i], w2[i].entity2collider@[oc[j]], oc[j]));
                lemma_lift_recorded(fw[i], w3[i], w2[i], w0[i], w0[i].entity2collider@[e], e);
            }
        }
        // notifications
        assert forall|q: int| 0 <= q < events@.len() implies justified(#[trigger] events@[q], fw, w0) by {
            let ev = events@[q];
            assert(e1.len() == 0);
            if q < e2.len() {
                assert(ev == e2[q]);
                assert(justified(ev, w2, w1));
                let wi = ev.world as int;
                let (h, ee) = choose|h: RawHandle, ee: EntityId|
                    #[trigger] recorded(w2[wi], w1[wi], h, ee)
                        && collider_parents(w1[wi].colliders).contains_key(h)
                        && collider_parents(w1[wi].colliders)[h] == ev.body;
                lemma_lift_recorded(fw[wi], w2[wi], w1[wi], w0[wi], h, ee);
                assert(collider_parents(w0[wi].colliders).dom().contains(h));
            } else {
                assert(ev == e3[q]);
                assert(justified(ev, w3, w2));
                let wi = ev.world as int;
                let (h, ee) = choose|h: RawHandle, ee: EntityId|
                    #[trigger] recorded(w3[wi], w2[wi], h, ee)
                        && collider_parents(w2[wi].colliders).contains_key(h)
                        && collider_parents(w2[wi].colliders)[h] == ev.body;
                assert(records_extend(fw[wi], w3[wi]));
                lemma_lift_recorded(fw[wi], w3[wi], w2[wi], w0[wi], h, ee);
                vstd::map_lib::lemma_submap_of_trans(
                    collider_parents(w2[wi].colliders),
                    collider_parents(w1[wi].colliders),
                    collider_parents(w0[wi].colliders),
                );
                assert(collider_parents(w0[wi].colliders).dom().contains(h));
            }
        }
        // every attached removed collider is notified when no body goes in the same pass
        if signals.removed_bodies@.len() == 0 && signals.orphan_bodies@.len() == 0 {
            assert(wm == w0);
            assert(w1 == w0);
            assert(events@ == e3);
            assert forall|i: int, e: EntityId|
                0 <= i < fw.len() && (rc.contains(e) || oc.contains(e)) && #[trigger] w0[i].entity2collider@.contains_key(e)
                    && collider_parents(w0[i].colliders).contains_key(w0[i].entity2collider@[e])
                    implies notified(events@, 0, i, collider_parents(w0[i].colliders)[w0[i].entity2collider@[e]]) by {
                let h = w0[i].entity2collider@[e];
                let body = collider_parents(w0[i].colliders)[h];
                if rc.contains(e) {
                    let j = choose|j: int| 0 <= j < rc.len() && rc[j] == e;
                    assert(w1[i].entity2collider@.contains_key(rc[j]));
                    assert(notified(e2, e1.len() as int, i, body));
                    let q = choose|q: int| e1.len() <= q < e2.len() && (#[trigger] e2[q]).world as int == i && e2[q].body == body;
                    assert(events@[q] == e2[q]);
                } else {
                    let j = choose|j: int| 0 <= j < oc.len() && oc[j] == e;
                    lemma_without_iff(w1[i].entity2collider@, rc, e);
                    assert(w2[i].entity2collider@ == without(w1[i].entity2collider@, rc));
                    assert(w2[i].entity2collider@.contains_key(e));
                    if new_handle(w2[i], w1[i], h) {
                        let q = choose|q: int|
                            w1[i].deleted_colliders@.len() <= q < w2[i].deleted_colliders@.len()
                                && (#[trigger] w2[i].deleted_colliders@[q]).0 == h;
                        assert(collider_progress(w2[i], w1[i], rc));
                        let e2x = w2[i].deleted_colliders@[q].1;
                        assert(w1[i].entity2collider@[e2x] == h);
                        assert(w0[i].wf());
                        assert(e2x == e);
                        assert(rc.contains(e2x));
                        assert(false);
                    }
                    assert(same_parent(w2[i], w1[i], h));
                    assert(w2[i].entity2collider@.contains_key(oc[j]));
                    assert(notified(e3, e2.len() as int, i, body));
                    let q = choose|q: int| e2.len() <= q < e3.len() && (#[trigger] e3[q]).world as int == i && e3[q].body == body;
                }
            }
        }
        // flags
        assert forall|j: int, i: int|
            0 <= j < signals.removed_sensors@.len() && first_holder(fw, #[trigger] signals.removed_sensors@[j], HandleKind::Collider, i)
                implies flag_cleared(#[trigger] fw[i], signals.removed_sensors@[j], HandleKind::Collider, true) by {
            let e = signals.removed_sensors@[j];
            assert forall|jj: int| 0 <= jj < i implies !(#[trigger] w5[jj]).map_of(HandleKind::Collider).contains_key(e) by {
                assert(same_registry(fw[jj], w6[jj]) && same_registry(w6[jj], w5[jj]));
            }
            assert(same_registry(fw[i], w6[i]) && same_registry(w6[i], w5[i]));
            assert(first_holder(w5, e, HandleKind::Collider, i));
            assert(flags_shrunk(w6[i], w5[i]) && flags_shrunk(fw[i], w6[i]));
        }
        assert forall|j: int, i: int|
            0 <= j < signals.removed_colliders_disabled@.len() && first_holder(fw, #[trigger] signals.removed_colliders_disabled@[j], HandleKind::Collider, i)
                implies flag_cleared(#[trigger] fw[i], signals.removed_colliders_disabled@[j], HandleKind::Collider, false) by {
            let e = signals.removed_colliders_disabled@[j];
            assert forall|jj: int| 0 <= jj < i implies !(#[trigger] w6[jj]).map_of(HandleKind::Collider).contains_key(e) by {
                assert(same_registry(fw[jj], w6[jj]));
            }
            assert(same_registry(fw[i], w6[i]));
            assert(first_holder(w6, e, HandleKind::Collider, i));
            assert(flags_shrunk(fw[i], w6[i]));
        }
    }
    proof {
        assert forall|i: int| 0 <= i < worlds@.len() implies (#[trigger] worlds@[i]).entity2impulse_joint@.submap_of(
            without(
                without(w0[i].entity2impulse_joint@, signals.removed_impulse_joints@),
                signals.orphan_impulse_joints@,
            ),
        ) by {
            let j0 = w0[i].entity2impulse_joint@;
            let j1 = w1[i].entity2impulse_joint@;
            lemma_submap_without(j1, j0, signals.removed_impulse_joints@);
            lemma_submap_without(
                without(j1, signals.removed_impulse_joints@),
                without(j0, signals.removed_impulse_joints@),
                signals.orphan_impulse_joints@,
            );
        }
    }
    events
}

/// No dangling handles: after a pass, in every world each body, collider, impulse-joint
/// and multibody-joint handle of the registry names an object that the world holds, each
/// such object has exactly one entity, and the body, collider and impulse joint of every entity reported
/// for removal are gone from the world that held them.
pub proof fn lemma_sync_leaves_no_dangling_handles(
    before: Seq<PhysicsWorld>,
    after: Seq<PhysicsWorld>,
    signals: RemovalSignals,
    i: int,
    e: EntityId,
)
    requires
        all_wf(before),
        all_wf(after),
        synced(before, after, signals),
        0 <= i < after.len(),
    ensures
        consistent(after[i].entity2body@, live_bodies(after[i].bodies)),
        consistent(after[i].entity2collider@, live_colliders(after[i].colliders)),
        consistent(after[i].entity2impulse_joint@, live_impulse_joints(after[i].impulse_joints)),
        consistent(after[i].entity2multibody_joint@, multibody_links(after[i].multibody_joints)),
        before[i].entity2body@.contains_key(e) && (signals.removed_bodies@.contains(e)
            || signals.orphan_bodies@.contains(e)) ==> !live_bodies(after[i].bodies).contains(
            before[i].entity2body@[e],
        ),
        before[i].entity2collider@.contains_key(e) && (signals.removed_colliders@.contains(e)
            || signals.orphan_colliders@.contains(e)) ==> !live_colliders(
            after[i].colliders,
        ).contains(before[i].entity2collider@[e]),
        before[i].entity2impulse_joint@.contains_key(e) && (signals.removed_impulse_joints@.contains(e)
            || signals.orphan_impulse_joints@.contains(e)) ==> !live_impulse_joints(
            after[i].impulse_joints,
        ).contains(before[i].entity2impulse_joint@[e]),
{
    assert(before[i].wf());
    assert(after[i].wf());
    let mb = before[i].entity2body@;
    let ma = after[i].entity2body@;
    if mb.contains_key(e) && (signals.removed_bodies@.contains(e) || signals.orphan_bodies@.contains(e)) {
        let h = mb[e];
        if live_bodies(after[i].bodies).contains(h) {
            let x = choose|x: EntityId| ma.contains_key(x) && #[trigger] ma[x] == h;
            assert(mb.contains_key(x) && mb[x] == h);
            assert(x == e);
            assert(signals.removed_bodies@.to_set().contains(e) || signals.orphan_bodies@.to_set().contains(e));
        }
    }
    let cb = before[i].entity2collider@;
    let ca = after[i].entity2collider@;
    if cb.contains_key(e) && (signals.removed_colliders@.contains(e) || signals.orphan_colliders@.contains(e)) {
        let h = cb[e];
        if live_colliders(after[i].colliders).contains(h) {
            let x = choose|x: EntityId| ca.contains_key(x) && #[trigger] ca[x] == h;
            assert(cb.contains_key(x) && cb[x] == h);
            assert(x == e);
            assert(signals.removed_colliders@.to_set().contains(e) || signals.orphan_colliders@.to_set().contains(e));
        }
    }
    let jb = before[i].entity2impulse_joint@;
    let ja = after[i].entity2impulse_joint@;
    if jb.contains_key(e) && (signals.removed_impulse_joints@.contains(e) || signals.orphan_impulse_joints@.contains(e)) {
        let h = jb[e];
        if live_impulse_joints(after[i].impulse_joints).contains(h) {
            let x = choose|x: EntityId| ja.contains_key(x) && #[trigger] ja[x] == h;
            let j1 = without(jb, signals.removed_impulse_joints@);
            assert(without(j1, signals.orphan_impulse_joints@).contains_key(x));
            lemma_in_without(j1, signals.orphan_impulse_joints@, x);
            lemma_in_without(jb, signals.removed_impulse_joints@, x);
            assert(jb[x] == h);
            assert(x == e);
        }
    }
}

proof fn lemma_held_after_was_held(
    before: Seq<PhysicsWorld>,
    after: Seq<PhysicsWorld>,
    signals: RemovalSignals,
    i: int,
    x: EntityId,
)
    requires
        synced(before, after, signals),
        0 <= i < after.len(),
        after[i].holds_entity(x),
    ensures
        before[i].holds_entity(x),
{
    let a = after[i];
    let b = before[i];
    if a.entity2body@.contains_key(x) {
        lemma_in_without(without(b.entity2body@, signals.removed_bodies@), signals.orphan_bodies@, x);
        lemma_in_without(b.entity2body@, signals.removed_bodies@, x);
    } else if a.entity2collider@.contains_key(x) {
        lemma_in_without(without(b.entity2collider@, signals.removed_colliders@), signals.orphan_colliders@, x);
        lemma_in_without(b.entity2collider@, signals.removed_colliders@, x);
    } else if a.entity2impulse_joint@.contains_key(x) {
        let j = without(without(b.entity2impulse_joint@, signals.removed_impulse_joints@), signals.orphan_impulse_joints@);
        assert(j.contains_key(x));
        lemma_in_without(without(b.entity2impulse_joint@, signals.removed_impulse_joints@), signals.orphan_impulse_joints@, x);
        lemma_in_without(b.entity2impulse_joint@, signals.removed_impulse_joints@, x);
    } else {
        lemma_in_without(
            without(b.entity2multibody_joint@, signals.removed_multibody_joints@),
            signals.orphan_multibody_joints@,
            x,
        );
        lemma_in_without(b.entity2multibody_joint@, signals.removed_multibody_joints@, x);
    }
}

/// An entity reported for every kind is held by no world after the pass.
pub proof fn lemma_sync_clears_stripped(
    before: Seq<PhysicsWorld>,
    after: Seq<PhysicsWorld>,
    signals: RemovalSignals,
    e: EntityId,
)
    requires
        synced(before, after, signals),
        fully_signalled(signals, e),
    ensures
        forall|i: int| 0 <= i < after.len() ==> !(#[trigger] after[i]).holds_entity(e),
{
    assert forall|i: int| 0 <= i < after.len() implies !(#[trigger] after[i]).holds_entity(e) by {
        if after[i].holds_entity(e) {
            let a = after[i];
            let b = before[i];
            if a.entity2body@.contains_key(e) {
                lemma_in_without(without(b.entity2body@, signals.removed_bodies@), signals.orphan_bodies@, e);
                lemma_in_without(b.entity2body@, signals.removed_bodies@, e);
            } else if a.entity2collider@.contains_key(e) {
                lemma_in_without(without(b.entity2collider@, signals.removed_colliders@), signals.orphan_colliders@, e);
                lemma_in_without(b.entity2collider@, signals.removed_colliders@, e);
            } else if a.entity2impulse_joint@.contains_key(e) {
                let j = without(without(b.entity2impulse_joint@, signals.removed_impulse_joints@), signals.orphan_impulse_joints@);
                assert(j.contains_key(e));
                lemma_in_without(without(b.entity2impulse_joint@, signals.removed_impulse_joints@), signals.orphan_impulse_joints@, e);
                lemma_in_without(b.entity2impulse_joint@, signals.removed_impulse_joints@, e);
            } else {
                lemma_in_without(
                    without(b.entity2multibody_joint@, signals.removed_multibody_joints@),
                    signals.orphan_multibody_joints@,
                    e,
                );
                lemma_in_without(b.entity2multibody_joint@, signals.removed_multibody_joints@, e);
            }
        }
    }
}

/// Single-world membership: a pass never makes an entity appear in a second world, and
/// an entity reported for every kind (all its handles stripped) is held by no world
/// afterwards.
pub proof fn lemma_sync_keeps_single_membership(
    before: Seq<PhysicsWorld>,
    after: Seq<PhysicsWorld>,
    signals: RemovalSignals,
    e: EntityId,
)
    requires
        synced(before, after, signals),
        single_membership(before),
    ensures
        single_membership(after),
        fully_signalled(signals, e) ==> forall|i: int|
            0 <= i < after.len() ==> !(#[trigger] after[i]).holds_entity(e),
{
    assert forall|x: EntityId, i: int, j: int|
        0 <= i < after.len() && 0 <= j < after.len() && #[trigger] after[i].holds_entity(x)
            && #[trigger] after[j].holds_entity(x) implies i == j by {
        lemma_held_after_was_held(before, after, signals, i, x);
        lemma_held_after_was_held(before, after, signals, j, x);
    }
    if fully_signalled(signals, e) {
        lemma_sync_clears_stripped(before, after, signals, e);
    }
}

} // verus!
