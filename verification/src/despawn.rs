use vstd::prelude::*;

use crate::archetype::swap_removed;
use crate::entities::next_generation;
use crate::entity::{Entity, NO_ARCHETYPE};
use crate::world::{World, CHILDREN_KEY};

verus! {

/// `x` was live in `old` and is not in `w`.
pub open spec fn killed(old: &World, w: &World, x: Entity) -> bool {
    old.alive(x) && !w.alive(x)
}

/// `x` is listed among the children of an entity that died between `old`
/// and `w` and carried the `Children` component in `old`.
pub open spec fn child_of_killed(old: &World, w: &World, x: Entity) -> bool {
    exists|p: Entity, i: int|
        killed(old, w, p) && old.has_children(p) && 0 <= i < old.children_of(p).len()
            && #[trigger] old.children_of(p)[i] == x
}

impl World {
    /// The outcome of killing `e` and, through the hierarchy, the
    /// descendants of every entity killed that carried `Children`: every
    /// survivor reads as before, every entity killed is `e` or a listed
    /// child of one killed, and no listed child of one killed survives.
    pub open spec fn kill_outcome(&self, old: &World, e: Entity) -> bool {
        &&& !self.alive(e)
        &&& forall|x: Entity| #[trigger] self.alive(x) ==> old.alive(x) && self.same_entity(old, x)
        &&& forall|x: Entity| #[trigger] killed(old, self, x) ==> x == e || child_of_killed(old, self, x)
        &&& forall|x: Entity, i: int|
            killed(old, self, x) && old.has_children(x) && 0 <= i < old.children_of(x).len()
                ==> !self.alive(#[trigger] old.children_of(x)[i])
    }

    /// The outcome of killing `e`, which carried no `Children`: its slot
    /// takes the next generation and goes on the free list, the live count
    /// drops by one, the structural generation advances, the last row of its
    /// archetype moves into its row, that archetype is stamped changed at the
    /// current tick, and the other archetypes are untouched.
    pub open spec fn single_kill(&self, old: &World, e: Entity) -> bool {
        let a = old.record(e.id).archetype_id as int;
        &&& self.record(e.id).generation == next_generation(e.generation)
        &&& self.free_entities@ == old.free_entities@.push(
            Entity { id: e.id, generation: next_generation(e.generation) },
        )
        &&& self.live_count() + 1 == old.live_count()
        &&& self.structural_gen == vstd::wrapping::u64_specs::wrapping_add(old.structural_gen, 1)
        &&& self.archetypes@[a].entities@ == swap_removed(old.archetype_of(e).entities@, old.record(e.id).row as int)
        &&& self.archetypes@[a].last_modified_tick == old.current_tick
        &&& forall|b: int| 0 <= b < old.n_archetypes() && b != a ==> #[trigger] self.archetypes@[b] == old.archetypes@[b]
    }

    /// Kills `entity` and, when it carries `Children`, all its descendants
    /// that are alive, depth first through the children lists; a dead
    /// handle changes nothing.
    #[verifier::rlimit(40)]
    pub fn kill(&mut self, entity: Entity)
        requires
            old(self).wf(),
        ensures
            final(self).wf(),
            !old(self).alive(entity) ==> *final(self) == *old(self),
            old(self).alive(entity) ==> final(self).kill_outcome(old(self), entity),
            old(self).alive(entity) && !old(self).has_children(entity) ==> final(self).single_kill(old(self), entity),
            old(self).alive(entity) ==> final(self).record(entity.id).generation == next_generation(entity.generation),
            old(self).alive(entity) && !old(self).has_children(entity) ==> final(self).same_except(
                old(self),
                entity.id,
            ),
            final(self).component_ids == old(self).component_ids,
            final(self).component_layouts == old(self).component_layouts,
            final(self).current_tick == old(self).current_tick,
            final(self).spawn_queue == old(self).spawn_queue,
            final(self).despawn_queue == old(self).despawn_queue,
            final(self).typed_queues == old(self).typed_queues,
            final(self).next_entity_id == old(self).next_entity_id,
            final(self).n_archetypes() == old(self).n_archetypes(),
            final(self).records@.len() == old(self).records@.len(),
    {
        if !self.is_alive(entity) {
            return;
        }
        let ghost old_self = *self;
        let children_cid = match self.get_component_id(CHILDREN_KEY) {
            Some(cid) => cid,
            None => {
                self.kill_single(entity);
                proof {
                    self.lemma_single_kill_outcome(&old_self, entity);
                }
                return;
            },
        };
        if self.get_component_by_id(entity, children_cid).is_none() {
            proof {
                assert(!self.has_children(entity));
            }
            self.kill_single(entity);
            proof {
                self.lemma_single_kill_outcome(&old_self, entity);
            }
            return;
        }
        let mut to_kill: Vec<Entity> = Vec::new();
        to_kill.push(entity);
        proof {
            assert(to_kill@[0] == entity);
            assert forall|x: Entity| #[trigger] self.alive(x) implies old_self.alive(x) && self.same_entity(&old_self, x) by {}
            assert(self.kill_inv(&old_self, entity, to_kill@));
        }
        while to_kill.len() > 0
            invariant
                self.wf(),
                old_self.wf(),
                old_self.alive(entity),
                old_self.component_id(CHILDREN_KEY) == Some(children_cid),
                self.component_ids == old_self.component_ids,
                self.component_layouts == old_self.component_layouts,
                self.current_tick == old_self.current_tick,
                self.spawn_queue == old_self.spawn_queue,
                self.despawn_queue == old_self.despawn_queue,
                self.typed_queues == old_self.typed_queues,
                self.next_entity_id == old_self.next_entity_id,
                self.n_archetypes() == old_self.n_archetypes(),
                self.records@.len() == old_self.records@.len(),
                self.kill_inv(&old_self, entity, to_kill@),
                self.alive(entity) || (entity.id < self.records@.len()
                    && self.record(entity.id).generation == next_generation(entity.generation)
                    && self.record(entity.id).archetype_id == NO_ARCHETYPE),
            decreases self.live_count(), to_kill@.len(),
        {
            let ghost stack_before = to_kill@;
            let x = to_kill.pop().unwrap();
            let ghost before = *self;
            proof {
                assert(stack_before =~= to_kill@.push(x));
            }
            if !self.is_alive(x) {
                proof {
                    self.lemma_kill_skip(&old_self, entity, x, to_kill@);
                }
                continue;
            }
            proof {
                assert(self.same_entity(&old_self, x));
                assert(self.children_of(x) == old_self.children_of(x));
            }
            let has_kids = self.get_component_by_id(x, children_cid).is_some();
            let ghost stack_mid = to_kill@;
            if has_kids {
                let id = x.id as usize;
                if id < self.links.len() {
                    let n = self.links[id].children.len();
                    let mut i: usize = 0;
                    while i < n
                        invariant
                            0 <= i <= n,
                            id < self.links@.len(),
                            n == self.links@[id as int].children@.len(),
                            to_kill@ == stack_mid + self.links@[id as int].children@.subrange(0, i as int),
                        decreases n - i,
                    {
                        let ch = self.links[id].children[i];
                        to_kill.push(ch);
                        proof {
                            assert(to_kill@ =~= stack_mid + self.links@[id as int].children@.subrange(0, i + 1));
                        }
                        i = i + 1;
                    }
                    proof {
                        assert(self.links@[id as int].children@.subrange(0, n as int) =~= self.links@[id as int].children@);
                    }
                } else {
                    proof {
                        assert(stack_mid + old_self.children_of(x) =~= stack_mid);
                    }
                }
            }
            proof {
                assert(has_kids == old_self.has_children(x));
                if has_kids {
                    assert(to_kill@ == stack_mid + old_self.children_of(x));
                }
            }
            self.kill_single(x);
            proof {
                self.lemma_kill_step(&old_self, &before, entity, x, stack_mid, to_kill@);
                lemma_root_generation(self, &before, entity, x);
            }
        }
        proof {
            assert forall|x: Entity, i: int|
                killed(&old_self, self, x) && old_self.has_children(x) && 0 <= i < old_self.children_of(x).len()
                    implies !self.alive(#[trigger] old_self.children_of(x)[i]) by {
                let ch = old_self.children_of(x)[i];
                if to_kill@.contains(ch) {
                    let k = to_kill@.index_of(ch);
                }
            }
            assert(!self.alive(entity)) by {
                if self.alive(entity) {
                    let k = to_kill@.index_of(entity);
                }
            }
        }
    }

    /// What stays true while `kill` works through its stack: survivors read
    /// as in `old` and keep their children lists, every entity killed is the
    /// root or a listed child of one killed, the listed children of those
    /// killed are dead or waiting on the stack, the stack holds the root or
    /// such children, and the root is dead or waiting.
    pub open spec fn kill_inv(&self, old: &World, entity: Entity, stack: Seq<Entity>) -> bool {
        &&& forall|x: Entity| #[trigger] self.alive(x) ==> old.alive(x) && self.same_entity(old, x)
        &&& forall|x: Entity| #[trigger] self.alive(x) ==> self.children_of(x) == old.children_of(x)
        &&& forall|x: Entity| #[trigger] killed(old, self, x) ==> x == entity || child_of_killed(old, self, x)
        &&& forall|x: Entity, i: int|
            killed(old, self, x) && old.has_children(x) && 0 <= i < old.children_of(x).len()
                ==> !self.alive(#[trigger] old.children_of(x)[i]) || stack.contains(old.children_of(x)[i])
        &&& forall|k: int|
            0 <= k < stack.len() ==> #[trigger] stack[k] == entity || child_of_killed(old, self, stack[k])
        &&& !self.alive(entity) || stack.contains(entity)
    }

    /// Popping a dead entity off the stack keeps the invariant.
    pub proof fn lemma_kill_skip(&self, old: &World, entity: Entity, x: Entity, stack: Seq<Entity>)
        requires
            self.kill_inv(old, entity, stack.push(x)),
            !self.alive(x),
        ensures
            self.kill_inv(old, entity, stack),
    {
        let sb = stack.push(x);
        assert forall|y: Entity, i: int|
            killed(old, self, y) && old.has_children(y) && 0 <= i < old.children_of(y).len()
                implies !self.alive(#[trigger] old.children_of(y)[i]) || stack.contains(old.children_of(y)[i]) by {
            let ch = old.children_of(y)[i];
            if self.alive(ch) {
                assert(sb.contains(ch));
                let k = sb.index_of(ch);
                if k < stack.len() {
                    assert(stack[k] == ch);
                }
            }
        }
        assert forall|k: int|
            0 <= k < stack.len() implies #[trigger] stack[k] == entity || child_of_killed(old, self, stack[k]) by {
            assert(sb[k] == stack[k]);
        }
        if self.alive(entity) {
            let k = sb.index_of(entity);
            assert(k < stack.len());
            assert(stack[k] == entity);
        }
    }

    /// Killing live `x`, popped off the stack, after pushing its listed
    /// children when it carries `Children`, keeps the invariant.
    #[verifier::rlimit(100)]
    pub proof fn lemma_kill_step(
        &self,
        old: &World,
        before: &World,
        entity: Entity,
        x: Entity,
        stack_mid: Seq<Entity>,
        stack_after: Seq<Entity>,
    )
        requires
            old.wf(),
            before.kill_inv(old, entity, stack_mid.push(x)),
            before.alive(x),
            old.has_children(x) ==> stack_after == stack_mid + old.children_of(x),
            !old.has_children(x) ==> stack_after == stack_mid,
            !self.alive(x),
            self.same_except(before, x.id),
            self.records@[x.id as int].archetype_id == NO_ARCHETYPE,
            self.links@.len() == before.links@.len(),
            forall|k: int|
                0 <= k < before.links@.len() && k != x.id ==> #[trigger] self.links@[k] == before.links@[k],
        ensures
            self.kill_inv(old, entity, stack_after),
    {
        let stack_before = stack_mid.push(x);
        assert(killed(old, self, x));
        assert forall|y: Entity| #[trigger] self.alive(y) implies old.alive(y) && self.same_entity(old, y) by {
            assert(y.id != x.id);
            assert(self.same_entity(before, y));
            assert(before.alive(y));
            assert(before.same_entity(old, y));
            assert forall|c: usize| #[trigger] self.has(y, c) implies self.cell(y, c) == old.cell(y, c) by {
                assert(before.has(y, c));
            }
            assert forall|c: usize| #[trigger] self.has(y, c) == old.has(y, c) by {
                assert(before.has(y, c) == old.has(y, c));
            }
        }
        assert forall|y: Entity| #[trigger] self.alive(y) implies self.children_of(y) == old.children_of(y) by {
            assert(y.id != x.id);
            assert(self.same_entity(before, y));
            assert(before.alive(y));
            if (y.id as int) < self.links@.len() {
                assert(self.links@[y.id as int] == before.links@[y.id as int]);
            }
        }
        assert forall|y: Entity| killed(old, before, y) implies killed(old, self, y) by {
            if y.id != x.id {
                assert(self.same_entity(before, y));
            }
        }
        assert forall|y: Entity| child_of_killed(old, before, y) implies child_of_killed(old, self, y) by {
            let (p, i) = choose|p: Entity, i: int|
                killed(old, before, p) && old.has_children(p) && 0 <= i < old.children_of(p).len()
                    && #[trigger] old.children_of(p)[i] == y;
            assert(killed(old, self, p));
        }
        assert forall|y: Entity| #[trigger] killed(old, self, y) implies y == entity || child_of_killed(old, self, y) by {
            if y == x {
                let k = stack_before.len() - 1;
                assert(stack_before[k] == x);
            } else {
                if y.id == x.id {
                    assert(old.alive(y) && before.alive(x));
                    assert(old.alive(x));
                }
                assert(killed(old, before, y)) by {
                    if y.id != x.id {
                        assert(self.same_entity(before, y));
                    }
                }
            }
        }
        assert forall|y: Entity, i: int|
            killed(old, self, y) && old.has_children(y) && 0 <= i < old.children_of(y).len()
                implies !self.alive(#[trigger] old.children_of(y)[i]) || stack_after.contains(old.children_of(y)[i]) by {
            let ch = old.children_of(y)[i];
            if y == x {
                if self.alive(ch) {
                    assert(stack_after[stack_mid.len() + i] == ch);
                }
            } else {
                if y.id == x.id {
                    assert(old.alive(y) && before.alive(x));
                    assert(old.alive(x));
                }
                if y.id != x.id {
                    assert(self.same_entity(before, y));
                }
                assert(killed(old, before, y));
                if self.alive(ch) {
                    assert(ch.id != x.id);
                    assert(self.same_entity(before, ch));
                    assert(before.alive(ch));
                    assert(stack_before.contains(ch));
                    let k = stack_before.index_of(ch);
                    if k < stack_mid.len() {
                        assert(stack_after[k] == ch);
                    } else {
                        assert(ch == x);
                    }
                }
            }
        }
        assert forall|k: int|
            0 <= k < stack_after.len() implies #[trigger] stack_after[k] == entity || child_of_killed(old, self, stack_after[k]) by {
            if k < stack_mid.len() {
                assert(stack_before[k] == stack_after[k]);
            } else {
                let i = k - stack_mid.len();
                assert(stack_after[k] == old.children_of(x)[i]);
            }
        }
        if self.alive(entity) {
            assert(entity.id != x.id);
            assert(self.same_entity(before, entity));
            let k = stack_before.index_of(entity);
            assert(k < stack_mid.len());
            assert(stack_after[k] == entity);
        }
    }

    /// After killing exactly `e`, everything else reads as before.
    pub proof fn lemma_single_kill_outcome(&self, old: &World, e: Entity)
        requires
            old.wf(),
            old.alive(e),
            !old.has_children(e),
            !self.alive(e),
            self.same_except(old, e.id),
            self.records@[e.id as int].archetype_id == NO_ARCHETYPE,
            self.records@.len() == old.records@.len(),
        ensures
            self.kill_outcome(old, e),
    {
        assert forall|x: Entity| #[trigger] self.alive(x) implies old.alive(x) && self.same_entity(old, x) by {
            if x.id == e.id {
                assert(!self.alive(x));
            } else {
                assert(self.same_entity(old, x));
            }
        }
        assert forall|x: Entity| #[trigger] killed(old, self, x) implies x == e || child_of_killed(old, self, x) by {
            if x.id != e.id {
                assert(self.same_entity(old, x));
            } else {
                assert(old.records@[x.id as int].generation == x.generation);
            }
        }
        assert forall|x: Entity, i: int|
            killed(old, self, x) && old.has_children(x) && 0 <= i < old.children_of(x).len()
                implies !self.alive(#[trigger] old.children_of(x)[i]) by {
            assert(x == e) by {
                if x.id != e.id {
                    assert(self.same_entity(old, x));
                } else {
                    assert(old.records@[x.id as int].generation == x.generation);
                }
            }
        }
    }
}

/// After live `x` is killed, the root `entity` of a kill is alive or has
/// the generation that follows its own, if it was so before.
proof fn lemma_root_generation(w: &World, before: &World, entity: Entity, x: Entity)
    requires
        before.wf(),
        before.alive(x),
        w.same_except(before, x.id),
        w.records@.len() == before.records@.len(),
        w.record(x.id).generation == next_generation(x.generation),
        w.record(x.id).archetype_id == NO_ARCHETYPE,
        forall|k: int|
            0 <= k < before.records@.len() && k != x.id ==> (#[trigger] w.records@[k]).generation
                == before.records@[k].generation && w.records@[k].archetype_id == before.records@[k].archetype_id,
        before.alive(entity) || (entity.id < before.records@.len() && before.record(entity.id).generation
            == next_generation(entity.generation) && before.record(entity.id).archetype_id == NO_ARCHETYPE),
    ensures
        w.alive(entity) || (entity.id < w.records@.len() && w.record(entity.id).generation == next_generation(
            entity.generation,
        ) && w.record(entity.id).archetype_id == NO_ARCHETYPE),
{
    if x != entity {
        if before.alive(entity) {
            assert(x.id != entity.id);
            assert(w.same_entity(before, entity));
        } else {
            assert(x.id != entity.id);
            assert(w.records@[entity.id as int].generation == before.records@[entity.id as int].generation);
            assert(w.records@[entity.id as int].archetype_id == before.records@[entity.id as int].archetype_id);
        }
    }
}

} // verus!
