//! World-change propagation over the entity hierarchy.
//!
//! Entities are indices into the hierarchy's node list. When an entity moves to another
//! world its physics handles are stripped (to be removed by the next synchronization
//! pass) and the move is carried down to its descendants.
use crate::registry::{EntityId, PhysicsWorld};
use crate::sync::{fully_signalled, lemma_sync_clears_stripped, synced, RemovalSignals};
use vstd::prelude::*;

verus! {

/// Identifier of a world: its index in the list of worlds.
pub type WorldId = usize;

/// One entity of the host hierarchy.
pub struct Node {
    pub parent: Option<EntityId>,
    pub children: Vec<EntityId>,
    /// The world the entity belongs to.
    pub link: Option<WorldId>,
}

/// The parent/children relation of the host's entities, with their world links.
pub struct Hierarchy {
    pub nodes: Vec<Node>,
}

/// Number of nodes not linked to `w`.
pub open spec fn count_unlinked(nodes: Seq<Node>, w: WorldId) -> nat
    decreases nodes.len(),
{
    if nodes.len() == 0 {
        0
    } else {
        count_unlinked(nodes.drop_last(), w) + if nodes.last().link == Some(w) {
            0nat
        } else {
            1nat
        }
    }
}

proof fn lemma_count_relink(nodes: Seq<Node>, w: WorldId, i: int, n: Node)
    requires
        0 <= i < nodes.len(),
        nodes[i].link != Some(w),
        n.link == Some(w),
    ensures
        count_unlinked(nodes.update(i, n), w) + 1 == count_unlinked(nodes, w),
    decreases nodes.len(),
{
    if i == nodes.len() - 1 {
        assert(nodes.update(i, n).drop_last() =~= nodes.drop_last());
    } else {
        lemma_count_relink(nodes.drop_last(), w, i, n);
        assert(nodes.update(i, n).drop_last() =~= nodes.drop_last().update(i, n));
    }
}

/// The link of the nearest of `cur` and its ancestors that has one, looking at most
/// `fuel` generations up.
pub open spec fn link_above(nodes: Seq<Node>, cur: Option<EntityId>, fuel: nat) -> Option<WorldId>
    decreases fuel,
{
    if fuel == 0 {
        None
    } else {
        match cur {
            None => None,
            Some(p) => if nodes[p as int].link.is_some() {
                nodes[p as int].link
            } else {
                link_above(nodes, nodes[p as int].parent, (fuel - 1) as nat)
            },
        }
    }
}

/// `u` is one of the children of `p`.
pub open spec fn is_child(h: Hierarchy, p: int, u: int) -> bool {
    exists|j: int| 0 <= j < h.nodes@[p].children@.len() && #[trigger] h.nodes@[p].children@[j] as int == u
}

/// `p` is a downward path in `h` from `root` to `x` whose nodes after `root` are not
/// linked to `w`.
pub open spec fn open_path(h: Hierarchy, p: Seq<int>, root: int, x: int, w: WorldId) -> bool {
    &&& p.len() >= 1
    &&& p[0] == root
    &&& p.last() == x
    &&& forall|i: int| 0 <= i < p.len() ==> 0 <= #[trigger] p[i] < h.nodes@.len()
    &&& forall|i: int|
        1 <= i < p.len() ==> is_child(h, p[i - 1], #[trigger] p[i]) && h.link_of(p[i]) != Some(w)
}

/// The signals of a pass that removes every kind of handle of the listed entities.
pub open spec fn strips(signals: RemovalSignals, s: Seq<EntityId>) -> bool {
    &&& signals.removed_bodies@ == s
    &&& signals.removed_colliders@ == s
    &&& signals.removed_impulse_joints@ == s
    &&& signals.removed_multibody_joints@ == s
}

impl Hierarchy {
    /// Every parent and child names a node of the hierarchy.
    pub open spec fn wf(&self) -> bool {
        forall|i: int|
            0 <= i < self.nodes@.len() ==> {
                &&& (#[trigger] self.nodes@[i]).parent.is_some()
                    ==> (self.nodes@[i].parent.unwrap() as int) < self.nodes@.len()
                &&& forall|j: int|
                    0 <= j < self.nodes@[i].children@.len() ==> (
                    #[trigger] self.nodes@[i].children@[j] as int) < self.nodes@.len()
            }
    }

    pub open spec fn link_of(&self, e: int) -> Option<WorldId> {
        self.nodes@[e].link
    }

    /// `other` has the same nodes, parents and children.
    pub open spec fn same_shape(&self, other: &Hierarchy) -> bool {
        &&& self.nodes@.len() == other.nodes@.len()
        &&& forall|i: int|
            0 <= i < self.nodes@.len() ==> (#[trigger] self.nodes@[i]).parent
                == other.nodes@[i].parent && self.nodes@[i].children@
                == other.nodes@[i].children@
    }

    /// Relinks one node.
    fn set_link(&mut self, e: EntityId, w: WorldId)
        requires
            (e as int) < old(self).nodes@.len(),
        ensures
            final(self).nodes@ == old(self).nodes@.update(
                e as int,
                Node { link: Some(w), ..old(self).nodes@[e as int] },
            ),
    {
        self.nodes[e].link = Some(w);
    }
}

/// `after` is `before` with the move of `root` to world `w` carried down: every child of
/// `root` or of a relinked node is linked to `w`; only descendants of `root` reached
/// through nodes not linked to `w` were relinked, each to `w`; and every relinked node
/// was appended to the stripped list.
pub open spec fn bubbled(
    before: Hierarchy,
    after: Hierarchy,
    root: int,
    w: WorldId,
    stripped_before: Seq<EntityId>,
    stripped_after: Seq<EntityId>,
) -> bool {
    &&& after.same_shape(&before)
    &&& forall|x: int|
        0 <= x < after.nodes@.len() && #[trigger] after.link_of(x) != before.link_of(x) ==> x
            != root && after.link_of(x) == Some(w) && stripped_after.contains(x as EntityId)
    &&& forall|x: int|
        0 <= x < after.nodes@.len() && #[trigger] after.link_of(x) != before.link_of(x)
            ==> exists|p: Seq<int>| #[trigger] open_path(before, p, root, x, w)
    &&& forall|u: int, j: int|
        0 <= u < after.nodes@.len() && (u == root || after.link_of(u) != before.link_of(u)) && 0
            <= j < after.nodes@[u].children@.len() ==> after.link_of(
            #[trigger] after.nodes@[u].children@[j] as int,
        ) == Some(w)
    &&& stripped_after.len() >= stripped_before.len()
    &&& stripped_after.subrange(0, stripped_before.len() as int) == stripped_before
    &&& forall|k: int|
        stripped_before.len() <= k < stripped_after.len() ==> {
            let x = #[trigger] stripped_after[k] as int;
            0 <= x < after.nodes@.len() && after.link_of(x) != before.link_of(x)
        }
}

/// Flags the entity's physics handles for removal.
fn remove_old_physics(entity: EntityId, stripped: &mut Vec<EntityId>)
    ensures
        final(stripped)@ == old(stripped)@.push(entity),
{
    stripped.push(entity);
}

/// Carries the move of `root` to world `w` down the hierarchy: each descendant not yet
/// linked to `w` has its handles stripped and is linked to `w`, and the walk goes on
/// below it; it stops at descendants already linked to `w`.
pub fn bubble_down_world_change(
    h: &mut Hierarchy,
    root: EntityId,
    w: WorldId,
    stripped: &mut Vec<EntityId>,
)
    requires
        old(h).wf(),
        (root as int) < old(h).nodes@.len(),
        old(h).link_of(root as int) == Some(w),
    ensures
        final(h).wf(),
        bubbled(*old(h), *final(h), root as int, w, old(stripped)@, final(stripped)@),
{
    let ghost h0 = *h;
    let ghost s0 = stripped@;
    let ghost mut visited: Set<EntityId> = set![root];
    let mut stack: Vec<EntityId> = Vec::new();
    stack.push(root);
    proof {
        assert(stack@[0] == root);
        assert(stack@.contains(root));
        assert(open_path(h0, seq![root as int], root as int, root as int, w));
    }
    while stack.len() > 0
        invariant
            h.wf(),
            h.same_shape(&h0),
            h0.link_of(root as int) == Some(w),
            (root as int) < h.nodes@.len(),
            visited.contains(root),
            stack@.no_duplicates(),
            forall|k: int| 0 <= k < stack@.len() ==> visited.contains(#[trigger] stack@[k]),
            forall|x: EntityId|
                #[trigger] visited.contains(x) ==> (x as int) < h.nodes@.len() && h.link_of(x as int)
                    == Some(w),
            forall|x: int|
                0 <= x < h.nodes@.len() && #[trigger] h.link_of(x) != h0.link_of(x) ==> x != root
                    && visited.contains(x as EntityId) && h.link_of(x) == Some(w)
                    && stripped@.contains(x as EntityId),
            forall|x: EntityId|
                #[trigger] visited.contains(x) && x != root ==> h.link_of(x as int) != h0.link_of(
                    x as int,
                ),
            forall|x: EntityId|
                #[trigger] visited.contains(x) ==> exists|p: Seq<int>|
                    #[trigger] open_path(h0, p, root as int, x as int, w),
            forall|u: EntityId, j: int|
                visited.contains(u) && !stack@.contains(u) && 0 <= j
                    < h.nodes@[u as int].children@.len() ==> h.link_of(
                    #[trigger] h.nodes@[u as int].children@[j] as int,
                ) == Some(w),
            stripped@.len() >= s0.len(),
            stripped@.subrange(0, s0.len() as int) == s0,
            forall|k: int|
                s0.len() <= k < stripped@.len() ==> {
                    let x = #[trigger] stripped@[k] as int;
                    0 <= x < h.nodes@.len() && h.link_of(x) != h0.link_of(x)
                },
        decreases count_unlinked(h.nodes@, w), stack@.len(),
    {
        let ghost stack_before = stack@;
        let u = stack.pop().unwrap();
        proof {
            assert(stack@ =~= stack_before.drop_last());
            assert forall|v: EntityId| stack_before.contains(v) && v != u implies stack@.contains(v) by {
                let k = choose|k: int| 0 <= k < stack_before.len() && stack_before[k] == v;
                assert(k != stack_before.len() - 1);
                assert(stack@[k] == v);
            }
            assert(!stack@.contains(u)) by {
                if stack@.contains(u) {
                    let k = choose|k: int| 0 <= k < stack@.len() && stack@[k] == u;
                    assert(stack_before[k] == stack_before[stack_before.len() - 1]);
                }
            }
        }
        let ghost count0 = count_unlinked(h.nodes@, w);
        let ghost len0 = stack@.len();
        let n_children = h.nodes[u].children.len();
        let mut j: usize = 0;
        while j < n_children
            invariant
                h.wf(),
                h.same_shape(&h0),
                (u as int) < h.nodes@.len(),
                visited.contains(u),
                !stack@.contains(u),
                n_children == h.nodes@[u as int].children@.len(),
                j <= n_children,
                visited.contains(root),
                (root as int) < h.nodes@.len(),
                h0.link_of(root as int) == Some(w),
                stack@.no_duplicates(),
                forall|k: int| 0 <= k < stack@.len() ==> visited.contains(#[trigger] stack@[k]),
                forall|x: EntityId|
                    #[trigger] visited.contains(x) ==> (x as int) < h.nodes@.len() && h.link_of(
                        x as int,
                    ) == Some(w),
                forall|x: int|
                    0 <= x < h.nodes@.len() && #[trigger] h.link_of(x) != h0.link_of(x) ==> x
                        != root && visited.contains(x as EntityId) && h.link_of(x) == Some(w)
                        && stripped@.contains(x as EntityId),
                forall|x: EntityId|
                    #[trigger] visited.contains(x) && x != root ==> h.link_of(x as int)
                        != h0.link_of(x as int),
                forall|x: EntityId|
                    #[trigger] visited.contains(x) ==> exists|p: Seq<int>|
                        #[trigger] open_path(h0, p, root as int, x as int, w),
                forall|v: EntityId, i: int|
                    visited.contains(v) && !stack@.contains(v) && v != u && 0 <= i
                        < h.nodes@[v as int].children@.len() ==> h.link_of(
                        #[trigger] h.nodes@[v as int].children@[i] as int,
                    ) == Some(w),
                forall|i: int|
                    0 <= i < j ==> h.link_of(#[trigger] h.nodes@[u as int].children@[i] as int)
                        == Some(w),
                stripped@.len() >= s0.len(),
                stripped@.subrange(0, s0.len() as int) == s0,
                forall|k: int|
                    s0.len() <= k < stripped@.len() ==> {
                        let x = #[trigger] stripped@[k] as int;
                        0 <= x < h.nodes@.len() && h.link_of(x) != h0.link_of(x)
                    },
                count_unlinked(h.nodes@, w) + (stack@.len() - len0) == count0,
                stack@.len() >= len0,
            decreases n_children - j,
        {
            let c = h.nodes[u].children[j];
            proof {
                assert(h.nodes@[u as int].children@[j as int] == c);
            }
            let linked = match h.nodes[c].link {
                Some(l) => l == w,
                None => false,
            };
            if !linked {
                let ghost h_before = *h;
                let ghost stripped_before = stripped@;
                let ghost stack_prev = stack@;
                proof {
                    assert(!visited.contains(c));
                    assert(!stack@.contains(c));
                    let pu = choose|p: Seq<int>| #[trigger] open_path(h0, p, root as int, u as int, w);
                    let pc = pu.push(c as int);
                    assert(h.link_of(c as int) == h0.link_of(c as int));
                    assert(h0.nodes@[u as int].children@[j as int] == c);
                    assert(is_child(h0, u as int, c as int));
                    assert(pc[pc.len() - 2] == u as int);
                    assert forall|i: int| 1 <= i < pc.len() implies is_child(h0, pc[i - 1], #[trigger] pc[i])
                        && h0.link_of(pc[i]) != Some(w) by {
                        if i < pu.len() {
                            assert(pc[i] == pu[i] && pc[i - 1] == pu[i - 1]);
                        }
                    }
                    assert(open_path(h0, pc, root as int, c as int, w));
                    lemma_count_relink(h.nodes@, w, c as int, Node { link: Some(w), ..h.nodes@[c as int] });
                }
                remove_old_physics(c, stripped);
                h.set_link(c, w);
                stack.push(c);
                proof {
                    visited = visited.insert(c);
                    assert forall|y: int| 0 <= y < h.nodes@.len() && y != c as int implies h.link_of(y)
                        == h_before.link_of(y) && #[trigger] h.nodes@[y].children@ == h_before.nodes@[y].children@ by {}
                    assert forall|x: EntityId| stripped_before.contains(x) implies #[trigger] stripped@.contains(x) by {
                        let k = choose|k: int| 0 <= k < stripped_before.len() && stripped_before[k] == x;
                        assert(stripped@[k] == x);
                    }
                    assert(stripped@[stripped@.len() - 1] == c);
                    assert forall|v: EntityId| stack_prev.contains(v) implies #[trigger] stack@.contains(v) by {
                        let k = choose|k: int| 0 <= k < stack_prev.len() && stack_prev[k] == v;
                        assert(stack@[k] == v);
                    }
                    assert(stack@[stack@.len() - 1] == c);
                    assert forall|v: EntityId| #[trigger] stack@.contains(v) implies stack_prev.contains(v) || v == c by {
                        let k = choose|k: int| 0 <= k < stack@.len() && stack@[k] == v;
                        if k < stack_prev.len() {
                            assert(stack_prev[k] == v);
                        }
                    }
                    assert(stripped@.subrange(0, s0.len() as int) =~= s0);
                    assert(stack@.no_duplicates()) by {
                        assert forall|a: int, b: int| 0 <= a < stack@.len() && 0 <= b < stack@.len() && a != b implies stack@[a] != stack@[b] by {
                            if a < stack_prev.len() && b < stack_prev.len() {
                            } else if a == stack_prev.len() {
                                assert(stack_prev.contains(stack@[b]));
                            } else {
                                assert(stack_prev.contains(stack@[a]));
                            }
                        }
                    }
                }
            }
            j = j + 1;
        }
    }
    let n_nodes = h.nodes.len();
    proof {
        assert forall|x: int|
            0 <= x < h.nodes@.len() && #[trigger] h.link_of(x) != h0.link_of(x) implies exists|
            p: Seq<int>,
        | #[trigger] open_path(h0, p, root as int, x, w) by {
            let xe = x as EntityId;
            assert(x < n_nodes);
            assert(xe as int == x);
            assert(visited.contains(xe));
        }
        assert forall|u: int, j: int|
            0 <= u < h.nodes@.len() && (u == root || h.link_of(u) != h0.link_of(u)) && 0 <= j
                < h.nodes@[u].children@.len() implies h.link_of(
            #[trigger] h.nodes@[u].children@[j] as int,
        ) == Some(w) by {
            let ue = u as EntityId;
            assert(u < n_nodes);
            assert(ue as int == u);
            assert(visited.contains(ue));
            assert(!stack@.contains(ue));
            assert(h.nodes@[ue as int].children@[j] == h.nodes@[u].children@[j]);
        }
    }
}

/// What the move of one entity `e` does: nothing when `e` is outside the hierarchy, has
/// no link, or the world it is linked to already holds it; otherwise `e` is stripped and
/// the move is carried down.
pub open spec fn change_one(
    worlds: Seq<PhysicsWorld>,
    before: Hierarchy,
    after: Hierarchy,
    e: EntityId,
    s0: Seq<EntityId>,
    s1: Seq<EntityId>,
) -> bool {
    if (e as int) < before.nodes@.len() {
        match before.link_of(e as int) {
            Some(w) => if w < worlds.len() && worlds[w as int].holds_entity(e) {
                after == before && s1 == s0
            } else {
                bubbled(before, after, e as int, w, s0.push(e), s1)
            },
            None => after == before && s1 == s0,
        }
    } else {
        after == before && s1 == s0
    }
}

/// The moves of the listed entities, applied in order: `states[i + 1]` and `strips[i + 1]`
/// are the hierarchy and the stripped list after the move of `changed[i]`.
pub open spec fn changes_through(
    worlds: Seq<PhysicsWorld>,
    states: Seq<Hierarchy>,
    strips: Seq<Seq<EntityId>>,
    changed: Seq<EntityId>,
) -> bool {
    &&& states.len() == changed.len() + 1
    &&& strips.len() == changed.len() + 1
    &&& forall|i: int|
        0 <= i < changed.len() ==> change_one(
            worlds,
            states[i],
            states[i + 1],
            #[trigger] changed[i],
            strips[i],
            strips[i + 1],
        )
}

/// The nodes after `e` takes the link of its nearest linked ancestor, and whether its
/// link changed.
pub open spec fn adopt_step(nodes: Seq<Node>, e: EntityId) -> (Seq<Node>, bool) {
    if (e as int) < nodes.len() {
        match link_above(nodes, nodes[e as int].parent, nodes.len()) {
            Some(pw) => if nodes[e as int].link != Some(pw) {
                (nodes.update(e as int, Node { link: Some(pw), ..nodes[e as int] }), true)
            } else {
                (nodes, false)
            },
            None => (nodes, false),
        }
    } else {
        (nodes, false)
    }
}

/// The nodes after each listed entity, in order, takes the link of its nearest linked
/// ancestor, and the entities whose link changed, in order.
pub open spec fn adopt_all(nodes: Seq<Node>, changed: Seq<EntityId>) -> (Seq<Node>, Seq<EntityId>)
    decreases changed.len(),
{
    if changed.len() == 0 {
        (nodes, Seq::<EntityId>::empty())
    } else {
        let prev = adopt_all(nodes, changed.drop_last());
        let step = adopt_step(prev.0, changed.last());
        (step.0, if step.1 {
            prev.1.push(changed.last())
        } else {
            prev.1
        })
    }
}

/// The move of one entity whose link changed: unless the world it is now linked to
/// already holds one of its handles, its handles are stripped and the move is carried
/// down to its descendants.
pub fn on_change_world_of(
    h: &mut Hierarchy,
    worlds: &Vec<PhysicsWorld>,
    entity: EntityId,
    stripped: &mut Vec<EntityId>,
)
    requires
        old(h).wf(),
        (entity as int) < old(h).nodes@.len(),
    ensures
        final(h).wf(),
        final(h).same_shape(&*old(h)),
        change_one(worlds@, *old(h), *final(h), entity, old(stripped)@, final(stripped)@),
{
    match h.nodes[entity].link {
        Some(w) => {
            let already = w < worlds.len() && {
                let world = &worlds[w];
                world.entity2collider.contains_key(&entity) || world.entity2body.contains_key(&entity)
                    || world.entity2impulse_joint.contains_key(&entity)
                    || world.entity2multibody_joint.contains_key(&entity)
            };
            if !already {
                remove_old_physics(entity, stripped);
                bubble_down_world_change(h, entity, w, stripped);
            }
        },
        None => {},
    }
}

/// Applies the move of every entity whose link changed, in order; returns the entities
/// whose handles were stripped. Every entity whose link changed is among them.
pub fn on_change_world(h: &mut Hierarchy, worlds: &Vec<PhysicsWorld>, changed: &Vec<EntityId>) -> (r:
    Vec<EntityId>)
    requires
        old(h).wf(),
    ensures
        final(h).wf(),
        final(h).same_shape(&*old(h)),
        exists|states: Seq<Hierarchy>, strips: Seq<Seq<EntityId>>|
            #[trigger] changes_through(worlds@, states, strips, changed@) && states[0] == *old(h)
                && states.last() == *final(h) && strips[0] == Seq::<EntityId>::empty()
                && strips.last() == r@,
        forall|x: int|
            0 <= x < final(h).nodes@.len() && #[trigger] final(h).link_of(x) != old(h).link_of(x)
                ==> r@.contains(x as EntityId),
        forall|k: int| 0 <= k < r@.len() ==> (#[trigger] r@[k] as int) < final(h).nodes@.len(),
{
    let mut stripped: Vec<EntityId> = Vec::new();
    let ghost h0 = *h;
    let ghost mut states: Seq<Hierarchy> = seq![*h];
    let ghost mut strips: Seq<Seq<EntityId>> = seq![Seq::<EntityId>::empty()];
    let mut k: usize = 0;
    while k < changed.len()
        invariant
            h.wf(),
            h.same_shape(&h0),
            forall|x: int|
                0 <= x < h.nodes@.len() && #[trigger] h.link_of(x) != h0.link_of(x)
                    ==> stripped@.contains(x as EntityId),
            forall|i: int| 0 <= i < stripped@.len() ==> (#[trigger] stripped@[i] as int) < h.nodes@.len(),
            k <= changed@.len(),
            changes_through(worlds@, states, strips, changed@.subrange(0, k as int)),
            states[0] == h0,
            states.last() == *h,
            strips[0] == Seq::<EntityId>::empty(),
            strips.last() == stripped@,
        decreases changed@.len() - k,
    {
        let e = changed[k];
        let ghost hp = *h;
        let ghost sp0 = stripped@;
        proof {
            assert(changed@.subrange(0, k + 1).drop_last() =~= changed@.subrange(0, k as int));
            assert(changed@.subrange(0, k + 1).last() == e);
        }
        if e < h.nodes.len() {
            let ghost h1 = *h;
            let ghost s1 = stripped@;
            on_change_world_of(h, worlds, e, &mut stripped);
            proof {
                if stripped@ != s1 || *h != h1 {
                    let w = h1.link_of(e as int).unwrap();
                    let sp = s1.push(e);
                    assert(stripped@.subrange(0, sp.len() as int) == sp);
                    assert forall|i: int| 0 <= i < sp.len() implies stripped@[i] == #[trigger] sp[i] by {
                        assert(stripped@.subrange(0, sp.len() as int)[i] == stripped@[i]);
                    }
                    assert forall|x: EntityId| s1.contains(x) implies #[trigger] stripped@.contains(x) by {
                        let i = choose|i: int| 0 <= i < s1.len() && s1[i] == x;
                        assert(sp[i] == x);
                    }
                    assert(sp[s1.len() as int] == e);
                    assert(stripped@[s1.len() as int] == e);
                    assert forall|i: int| 0 <= i < stripped@.len() implies (#[trigger] stripped@[i] as int)
                        < h.nodes@.len() by {
                        if i < s1.len() {
                            assert(sp[i] == s1[i]);
                        } else if i > s1.len() {
                            let x = stripped@[i] as int;
                            assert(0 <= x < h.nodes@.len());
                        }
                    }
                }
            }
        }
        proof {
            assert(change_one(worlds@, hp, *h, e, sp0, stripped@));
            let pre = changed@.subrange(0, k + 1);
            let states2 = states.push(*h);
            let strips2 = strips.push(stripped@);
            assert forall|i: int| 0 <= i < pre.len() implies change_one(
                worlds@,
                states2[i],
                states2[i + 1],
                #[trigger] pre[i],
                strips2[i],
                strips2[i + 1],
            ) by {
                if i < k {
                    assert(pre[i] == changed@.subrange(0, k as int)[i]);
                } else {
                    assert(pre[i] == e);
                }
            }
            states = states2;
            strips = strips2;
        }
        k = k + 1;
    }
    proof {
        assert(changed@.subrange(0, changed@.len() as int) =~= changed@);
        assert(changes_through(worlds@, states, strips, changed@));
    }
    stripped
}

/// The entity takes the link of its nearest linked ancestor: when that differs from
/// its own link, its handles are stripped and it is linked there.
pub fn adopt_ancestor_link(h: &mut Hierarchy, entity: EntityId, stripped: &mut Vec<EntityId>)
    requires
        old(h).wf(),
        (entity as int) < old(h).nodes@.len(),
    ensures
        final(h).wf(),
        final(h).same_shape(&*old(h)),
        match link_above(
            old(h).nodes@,
            old(h).nodes@[entity as int].parent,
            old(h).nodes@.len(),
        ) {
            Some(pw) => if old(h).link_of(entity as int) != Some(pw) {
                &&& final(h).nodes@ == old(h).nodes@.update(
                    entity as int,
                    Node { link: Some(pw), ..old(h).nodes@[entity as int] },
                )
                &&& final(stripped)@ == old(stripped)@.push(entity)
            } else {
                *final(h) == *old(h) && final(stripped)@ == old(stripped)@
            },
            None => *final(h) == *old(h) && final(stripped)@ == old(stripped)@,
        },
{
    let ghost target = link_above(h.nodes@, h.nodes@[entity as int].parent, h.nodes@.len());
    let mut cur: Option<EntityId> = h.nodes[entity].parent;
    let mut fuel: usize = h.nodes.len();
    let mut found: Option<WorldId> = None;
    let mut done = false;
    while fuel > 0 && !done
        invariant
            h.wf(),
            (entity as int) < h.nodes@.len(),
            fuel <= h.nodes@.len(),
            cur.is_some() ==> (cur.unwrap() as int) < h.nodes@.len(),
            !done ==> found.is_none() && link_above(h.nodes@, cur, fuel as nat) == target,
            done ==> found == target,
        decreases fuel as int + if done {
            0int
        } else {
            1int
        },
    {
        match cur {
            None => {
                done = true;
            },
            Some(p) => {
                match h.nodes[p].link {
                    Some(l) => {
                        found = Some(l);
                        done = true;
                    },
                    None => {
                        cur = h.nodes[p].parent;
                        fuel = fuel - 1;
                    },
                }
            },
        }
    }
    proof {
        assert(found == target);
    }
    match found {
        Some(pw) => {
            let same = match h.nodes[entity].link {
                Some(l) => l == pw,
                None => false,
            };
            if !same {
                remove_old_physics(entity, stripped);
                h.set_link(entity, pw);
                proof {
                    assert forall|i: int| 0 <= i < h.nodes@.len() implies (#[trigger] h.nodes@[i]).parent
                        == old(h).nodes@[i].parent && h.nodes@[i].children@ == old(h).nodes@[i].children@ by {}
                }
            }
        },
        None => {},
    }
}

/// Entities that became children, or whose link changed, take the link of their
/// nearest linked ancestor; returns the entities whose handles were stripped. Every
/// entity whose link changed is among them.
pub fn on_add_entity_with_parent(h: &mut Hierarchy, changed: &Vec<EntityId>) -> (r: Vec<EntityId>)
    requires
        old(h).wf(),
    ensures
        final(h).wf(),
        final(h).same_shape(&*old(h)),
        final(h).nodes@ == adopt_all(old(h).nodes@, changed@).0,
        r@ == adopt_all(old(h).nodes@, changed@).1,
        forall|x: int|
            0 <= x < final(h).nodes@.len() && #[trigger] final(h).link_of(x) != old(h).link_of(x)
                ==> r@.contains(x as EntityId),
        forall|k: int| 0 <= k < r@.len() ==> (#[trigger] r@[k] as int) < final(h).nodes@.len(),
{
    let mut stripped: Vec<EntityId> = Vec::new();
    let ghost h0 = *h;
    let mut k: usize = 0;
    while k < changed.len()
        invariant
            h.wf(),
            h.same_shape(&h0),
            forall|x: int|
                0 <= x < h.nodes@.len() && #[trigger] h.link_of(x) != h0.link_of(x)
                    ==> stripped@.contains(x as EntityId),
            forall|i: int| 0 <= i < stripped@.len() ==> (#[trigger] stripped@[i] as int) < h.nodes@.len(),
            k <= changed@.len(),
            h.nodes@ == adopt_all(h0.nodes@, changed@.subrange(0, k as int)).0,
            stripped@ == adopt_all(h0.nodes@, changed@.subrange(0, k as int)).1,
        decreases changed@.len() - k,
    {
        let e = changed[k];
        proof {
            assert(changed@.subrange(0, k + 1).drop_last() =~= changed@.subrange(0, k as int));
            assert(changed@.subrange(0, k + 1).last() == e);
        }
        if e < h.nodes.len() {
            let ghost s1 = stripped@;
            let ghost h1 = *h;
            adopt_ancestor_link(h, e, &mut stripped);
            proof {
                if stripped@ != s1 {
                    assert forall|x: int| 0 <= x < h.nodes@.len() && x != e as int implies #[trigger] h.link_of(x)
                        == h1.link_of(x) by {}
                    assert(stripped@[s1.len() as int] == e);
                    assert forall|x: EntityId| s1.contains(x) implies #[trigger] stripped@.contains(x) by {
                        let i = choose|i: int| 0 <= i < s1.len() && s1[i] == x;
                        assert(stripped@[i] == x);
                    }
                    assert forall|i: int| 0 <= i < stripped@.len() implies (#[trigger] stripped@[i] as int)
                        < h.nodes@.len() by {
                        if i < s1.len() {
                            assert(stripped@[i] == s1[i]);
                        }
                    }
                }
            }
        }
        k = k + 1;
    }
    proof {
        assert(changed@.subrange(0, changed@.len() as int) =~= changed@);
    }
    stripped
}

/// The removal signals that strip every kind of handle from the listed entities.
pub fn strip_signals(stripped: &Vec<EntityId>) -> (r: RemovalSignals)
    ensures
        strips(r, stripped@),
        r.orphan_bodies@.len() == 0,
        r.orphan_colliders@.len() == 0,
        r.orphan_impulse_joints@.len() == 0,
        r.orphan_multibody_joints@.len() == 0,
        r.removed_sensors@.len() == 0,
        r.removed_colliders_disabled@.len() == 0,
        r.removed_rigid_body_disabled@.len() == 0,
{
    RemovalSignals {
        removed_bodies: copy_ids(stripped),
        orphan_bodies: Vec::new(),
        removed_colliders: copy_ids(stripped),
        orphan_colliders: Vec::new(),
        removed_impulse_joints: copy_ids(stripped),
        orphan_impulse_joints: Vec::new(),
        removed_multibody_joints: copy_ids(stripped),
        orphan_multibody_joints: Vec::new(),
        removed_sensors: Vec::new(),
        removed_colliders_disabled: Vec::new(),
        removed_rigid_body_disabled: Vec::new(),
    }
}

fn copy_ids(v: &Vec<EntityId>) -> (r: Vec<EntityId>)
    ensures
        r@ == v@,
{
    let mut r: Vec<EntityId> = Vec::new();
    let mut i: usize = 0;
    while i < v.len()
        invariant
            i <= v@.len(),
            r@ == v@.subrange(0, i as int),
        decreases v@.len() - i,
    {
        r.push(v[i]);
        i = i + 1;
        proof {
            assert(r@ =~= v@.subrange(0, i as int));
        }
    }
    proof {
        assert(v@.subrange(0, v@.len() as int) =~= v@);
    }
    r
}

/// Propagation completeness: once the move of `root` to world `w` is carried down, every
/// entity of a chain of descendants below `root` none of which was linked to `w` before
/// is linked to `w`, and had its handles stripped.
pub proof fn lemma_propagation_reaches_descendants(
    before: Hierarchy,
    after: Hierarchy,
    root: int,
    w: WorldId,
    s0: Seq<EntityId>,
    s1: Seq<EntityId>,
    chain: Seq<int>,
)
    requires
        bubbled(before, after, root, w, s0, s1),
        chain.len() >= 1,
        chain[0] == root,
        forall|i: int| 0 <= i < chain.len() ==> 0 <= #[trigger] chain[i] < before.nodes@.len(),
        forall|i: int| 1 <= i < chain.len() ==> is_child(before, chain[i - 1], #[trigger] chain[i]),
        forall|i: int| 1 <= i < chain.len() ==> before.link_of(#[trigger] chain[i]) != Some(w),
    ensures
        forall|i: int|
            1 <= i < chain.len() ==> after.link_of(#[trigger] chain[i]) == Some(w) && s1.contains(
                chain[i] as EntityId,
            ),
    decreases chain.len(),
{
    if chain.len() > 1 {
        let prefix = chain.drop_last();
        assert forall|i: int| 1 <= i < prefix.len() implies is_child(before, prefix[i - 1], #[trigger] prefix[i]) by {
            assert(prefix[i] == chain[i] && prefix[i - 1] == chain[i - 1]);
        }
        assert forall|i: int| 0 <= i < prefix.len() implies 0 <= #[trigger] prefix[i] < before.nodes@.len() by {
            assert(prefix[i] == chain[i]);
        }
        assert forall|i: int| 1 <= i < prefix.len() implies before.link_of(#[trigger] prefix[i]) != Some(w) by {
            assert(prefix[i] == chain[i]);
        }
        lemma_propagation_reaches_descendants(before, after, root, w, s0, s1, prefix);
        let last = chain.len() - 1;
        let p = chain[last - 1];
        let c = chain[last];
        assert(is_child(before, p, c));
        let j = choose|j: int|
            0 <= j < before.nodes@[p].children@.len() && #[trigger] before.nodes@[p].children@[j] as int == c;
        assert(0 <= p < after.nodes@.len());
        assert(after.nodes@[p].children@ == before.nodes@[p].children@);
        if last - 1 >= 1 {
            assert(prefix[last - 1] == p);
            assert(after.link_of(p) == Some(w));
            assert(before.link_of(p) != Some(w));
        }
        assert(after.link_of(after.nodes@[p].children@[j] as int) == Some(w));
        assert(after.link_of(c) == Some(w));
        assert(before.link_of(c) != after.link_of(c));
        assert forall|i: int| 1 <= i < chain.len() implies after.link_of(#[trigger] chain[i]) == Some(w)
            && s1.contains(chain[i] as EntityId) by {
            if i < last {
                assert(prefix[i] == chain[i]);
            }
        }
    }
}

/// Moved descendants leave every world: when the stripped handles of such a chain are
/// synchronized away, no world's registry holds any entity of the chain below `root`.
pub proof fn lemma_moved_descendants_leave_every_world(
    before: Hierarchy,
    after: Hierarchy,
    root: int,
    w: WorldId,
    s0: Seq<EntityId>,
    s1: Seq<EntityId>,
    chain: Seq<int>,
    worlds_before: Seq<PhysicsWorld>,
    worlds_after: Seq<PhysicsWorld>,
    signals: RemovalSignals,
)
    requires
        bubbled(before, after, root, w, s0, s1),
        chain.len() >= 1,
        chain[0] == root,
        forall|i: int| 0 <= i < chain.len() ==> 0 <= #[trigger] chain[i] < before.nodes@.len(),
        forall|i: int| 1 <= i < chain.len() ==> is_child(before, chain[i - 1], #[trigger] chain[i]),
        forall|i: int| 1 <= i < chain.len() ==> before.link_of(#[trigger] chain[i]) != Some(w),
        strips(signals, s1),
        synced(worlds_before, worlds_after, signals),
    ensures
        forall|i: int, k: int|
            1 <= i < chain.len() && 0 <= k < worlds_after.len() ==> !(
            #[trigger] worlds_after[k]).holds_entity(#[trigger] chain[i] as EntityId),
{
    lemma_propagation_reaches_descendants(before, after, root, w, s0, s1, chain);
    assert forall|i: int, k: int|
        1 <= i < chain.len() && 0 <= k < worlds_after.len() implies !(
        #[trigger] worlds_after[k]).holds_entity(#[trigger] chain[i] as EntityId) by {
        let e = chain[i] as EntityId;
        assert(s1.contains(e));
        assert(fully_signalled(signals, e));
        lemma_sync_clears_stripped(worlds_before, worlds_after, signals, e);
    }
}

} // verus!
