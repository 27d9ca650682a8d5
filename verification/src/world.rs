//! The scheduler: runs systems in registration order and drains the dirty
//! queue after each one, so every system's membership reflects all mutations
//! made so far in the tick.

use vstd::prelude::*;

use crate::entity::Entity;
use crate::manager::Manager;
use crate::system::Behavior;
use crate::system::System;

verus! {

/// The top-level world: the manager plus the registered systems.
pub struct World<C, B> {
    pub manager: Manager<C>,
    pub systems: Vec<System<B>>,
}

impl<C, B: Behavior<C>> World<C, B> {
    /// System `s`'s cache is correct about `e`: it lists `e` exactly when
    /// `e` is alive and matches the predicate.
    pub open spec fn classified(m: Manager<C>, s: System<B>, e: Entity) -> bool {
        s.spec_member(e) == (m.entities.spec_alive(e) && s.sat(m.entities.spec_archetype(e)))
    }

    /// Every entity is either correctly classified by every system or still
    /// pending in the dirty queue.
    pub open spec fn synced(self) -> bool {
        forall|si: int, e: Entity|
            #![trigger self.systems@[si].spec_member(e)]
            0 <= si < self.systems@.len() ==> (Self::classified(
                self.manager,
                self.systems@[si],
                e,
            ) || self.manager.entities.spec_queued(e))
    }

    /// Consistent manager, consistent systems, and membership in sync up to
    /// the dirty queue.
    pub open spec fn wf(self) -> bool {
        &&& self.manager.wf()
        &&& forall|si: int| 0 <= si < self.systems@.len() ==> (#[trigger] self.systems@[si]).wf()
        &&& self.synced()
    }

    /// An empty world.
    pub fn new() -> (world: Self)
        ensures
            world.wf(),
            world.systems@.len() == 0,
            forall|e: Entity| !world.manager.spec_alive(e),
            world.manager.entities.spec_pending().len() == 0,
    {
        let world = Self { manager: Manager::new(), systems: Vec::new() };
        proof {
            assert(world.synced()) by {
                assert forall|si: int, e: Entity|
                    #![trigger world.systems@[si].spec_member(e)]
                    0 <= si < world.systems@.len() implies (Self::classified(
                    world.manager,
                    world.systems@[si],
                    e,
                ) || world.manager.entities.spec_queued(e)) by {}
            }
        }
        world
    }

    /// The world's manager, read-only.
    pub fn manager(&self) -> (manager: &Manager<C>)
        ensures
            manager == self.manager,
    {
        &self.manager
    }

    /// The world's manager, for spawning entities and mutating components
    /// between ticks.
    pub fn manager_mut(&mut self) -> (manager: &mut Manager<C>)
        ensures
            *manager == old(self).manager,
            final(self).manager == *final(manager),
            final(self).systems == old(self).systems,
    {
        &mut self.manager
    }

    /// Registers a system. Systems are registered once, at world-build time
    /// before any entity is spawned, and run in registration order.
    pub fn add_system(&mut self, system: System<B>)
        requires
            old(self).wf(),
            system.wf(),
            forall|e: Entity| !system.spec_member(e),
            forall|e: Entity| !old(self).manager.spec_alive(e),
        ensures
            final(self).wf(),
            final(self).manager == old(self).manager,
            final(self).systems@ == old(self).systems@.push(system),
    {
        self.systems.push(system);
        proof {
            assert forall|si: int, e: Entity|
                #![trigger final(self).systems@[si].spec_member(e)]
                0 <= si < final(self).systems@.len() implies (Self::classified(
                final(self).manager,
                final(self).systems@[si],
                e,
            ) || final(self).manager.entities.spec_queued(e)) by {
                if si < old(self).systems@.len() {
                    assert(final(self).systems@[si] == old(self).systems@[si]);
                } else {
                    assert(final(self).systems@[si] == system);
                    assert(!final(self).manager.spec_alive(e));
                    assert(!system.spec_member(e));
                }
            }
        }
    }

    /// One tick: each system runs in order, then the dirty queue is drained
    /// and every polled entity is re-classified against every system (or
    /// evicted everywhere if it died), so later systems see membership
    /// reflecting all changes made so far. After a tick with at least one
    /// system, the dirty queue is empty.
    pub fn run(&mut self)
        requires
            old(self).wf(),
        ensures
            final(self).wf(),
            final(self).systems@.len() == old(self).systems@.len(),
            old(self).systems@.len() > 0 ==> final(self).manager.entities.spec_pending().len()
                == 0,
            forall|si: int|
                0 <= si < old(self).systems@.len() ==> {
                    &&& (#[trigger] final(self).systems@[si]).archetype == old(self).systems@[si].archetype
                    &&& final(self).systems@[si].antitype == old(self).systems@[si].antitype
                    &&& final(self).systems@[si].callback == old(self).systems@[si].callback
                },
            (forall|pre: Manager<C>, post: Manager<C>, members: Seq<Entity>, si: int|
                0 <= si < old(self).systems@.len() && (#[trigger] old(self).systems@[si].callback.effect(pre, post, members)) ==> post == pre)
                ==> final(self).manager.entities.sparse == old(self).manager.entities.sparse
                    && final(self).manager.components == old(self).manager.components,
    {
        let n = self.systems.len();
        let mut i: usize = 0;
        while i < n
            invariant
                i <= n,
                n == self.systems@.len(),
                self.wf(),
                i > 0 ==> self.manager.entities.spec_pending().len() == 0,
                forall|si: int|
                    0 <= si < n ==> {
                        &&& (#[trigger] self.systems@[si]).archetype == old(self).systems@[si].archetype
                        &&& self.systems@[si].antitype == old(self).systems@[si].antitype
                        &&& self.systems@[si].callback == old(self).systems@[si].callback
                    },
                (forall|pre: Manager<C>, post: Manager<C>, members: Seq<Entity>, si: int|
                    0 <= si < n && (#[trigger] old(self).systems@[si].callback.effect(pre, post, members)) ==> post == pre)
                    ==> self.manager.entities.sparse == old(self).manager.entities.sparse
                        && self.manager.components == old(self).manager.components,
            decreases n - i,
        {
            let ghost before = *self;
            let system = &self.systems[i];
            system.run(&mut self.manager);
            proof {
                lemma_synced_stable(before, *self);
                // under the hypothesis that every registered callback's
                // declared effect pins the manager, this pass changed nothing
                if forall|pre: Manager<C>, post: Manager<C>, members: Seq<Entity>, si: int|
                    0 <= si < n && (#[trigger] old(self).systems@[si].callback.effect(
                        pre,
                        post,
                        members,
                    )) ==> post == pre {
                    assert(before.systems@[i as int].callback == old(self).systems@[i as int].callback);
                    assert(old(self).systems@[i as int].callback.effect(
                        before.manager,
                        self.manager,
                        before.systems@[i as int].dense@,
                    ));
                    assert(self.manager == before.manager);
                }
            }
            self.drain_dirty();
            i += 1;
        }
    }

    /// Drains the dirty queue: each pending entity is re-classified against
    /// every system, or evicted from all of them if it is dead.
    fn drain_dirty(&mut self)
        requires
            old(self).wf(),
        ensures
            final(self).wf(),
            final(self).manager.entities.spec_pending().len() == 0,
            final(self).systems@.len() == old(self).systems@.len(),
            final(self).manager.entities.sparse == old(self).manager.entities.sparse,
            final(self).manager.components == old(self).manager.components,
            forall|si: int|
                0 <= si < old(self).systems@.len() ==> {
                    &&& (#[trigger] final(self).systems@[si]).archetype == old(self).systems@[si].archetype
                    &&& final(self).systems@[si].antitype == old(self).systems@[si].antitype
                    &&& final(self).systems@[si].callback == old(self).systems@[si].callback
                },
    {
        loop
            invariant_except_break
                self.wf(),
                self.systems@.len() == old(self).systems@.len(),
                self.manager.entities.sparse == old(self).manager.entities.sparse,
                self.manager.components == old(self).manager.components,
                forall|si: int|
                    0 <= si < self.systems@.len() ==> {
                        &&& (#[trigger] self.systems@[si]).archetype == old(self).systems@[si].archetype
                        &&& self.systems@[si].antitype == old(self).systems@[si].antitype
                        &&& self.systems@[si].callback == old(self).systems@[si].callback
                    },
            ensures
                self.wf(),
                self.manager.entities.spec_pending().len() == 0,
                self.systems@.len() == old(self).systems@.len(),
                self.manager.entities.sparse == old(self).manager.entities.sparse,
                self.manager.components == old(self).manager.components,
                forall|si: int|
                    0 <= si < self.systems@.len() ==> {
                        &&& (#[trigger] self.systems@[si]).archetype == old(self).systems@[si].archetype
                        &&& self.systems@[si].antitype == old(self).systems@[si].antitype
                        &&& self.systems@[si].callback == old(self).systems@[si].callback
                    },
            decreases self.manager.entities.spec_pending().len(),
        {
            let ghost at_entry = *self;
            let polled = self.manager.poll_dirty();
            let entity = match polled {
                Some(entity) => entity,
                None => {
                    break ;
                },
            };
            let ghost after_poll = *self;
            proof {
                assert(after_poll.manager.entities.spec_pending().len() < at_entry.manager
                    .entities.spec_pending().len());
            }
            let upper = self.manager.entities.sparse.len();
            let m = self.systems.len();
            let mut j: usize = 0;
            while j < m
                invariant
                    j <= m,
                    m == self.systems@.len(),
                    self.manager == after_poll.manager,
                    self.manager.wf(),
                    upper == self.manager.entities.sparse@.len(),
                    forall|si: int|
                        0 <= si < self.systems@.len() ==> (#[trigger] self.systems@[si]).wf(),
                    forall|si: int|
                        0 <= si < self.systems@.len() ==> {
                            &&& (#[trigger] self.systems@[si]).archetype == at_entry.systems@[si].archetype
                            &&& self.systems@[si].antitype == at_entry.systems@[si].antitype
                            &&& self.systems@[si].callback == at_entry.systems@[si].callback
                        },
                    forall|si: int|
                        j <= si < self.systems@.len() ==> self.systems@[si]
                            == at_entry.systems@[si],
                    forall|si: int, e: Entity|
                        #![trigger self.systems@[si].spec_member(e)]
                        0 <= si < j ==> (Self::classified(
                            self.manager,
                            self.systems@[si],
                            e,
                        ) || (self.manager.entities.spec_queued(e) && e != entity)),
                    forall|si: int, e: Entity|
                        #![trigger self.systems@[si].spec_member(e)]
                        j <= si < self.systems@.len() ==> (Self::classified(
                            self.manager,
                            self.systems@[si],
                            e,
                        ) || self.manager.entities.spec_queued(e) || e == entity),
                decreases m - j,
            {
                let ghost sys_before = self.systems@[j as int];
                let alive = self.manager.is_entity_alive(entity);
                if alive {
                    proof {
                        assert(entity.0 < upper);
                        assert(self.manager.entities.spec_record_id(entity.0 as int)
                            == self.manager.entities.spec_record(entity));
                    }
                    let manager_ref = &self.manager;
                    let archetype = manager_ref.entity_archetype(entity).unwrap();
                    let system = vstd::std_specs::vec::vec_index_mut(&mut self.systems, j);
                    system.evaluate(entity, archetype);
                } else {
                    let system = vstd::std_specs::vec::vec_index_mut(&mut self.systems, j);
                    system.remove(entity);
                }
                proof {
                    assert forall|si: int, e: Entity|
                        #![trigger self.systems@[si].spec_member(e)]
                        0 <= si < j + 1 implies (Self::classified(
                        self.manager,
                        self.systems@[si],
                        e,
                    ) || (self.manager.entities.spec_queued(e) && e != entity)) by {
                        if si < j {
                            assert(self.systems@[si] == after_poll.systems@[si] || true);
                        } else {
                            assert(si == j);
                            if e == entity {
                            } else {
                                assert(self.systems@[j as int].spec_member(e)
                                    == sys_before.spec_member(e));
                                assert(self.systems@[j as int].sat(
                                    self.manager.entities.spec_archetype(e),
                                ) == sys_before.sat(self.manager.entities.spec_archetype(e)));
                            }
                        }
                    }
                    assert forall|si: int, e: Entity|
                        #![trigger self.systems@[si].spec_member(e)]
                        j + 1 <= si < self.systems@.len() implies (Self::classified(
                        self.manager,
                        self.systems@[si],
                        e,
                    ) || self.manager.entities.spec_queued(e) || e == entity) by {
                        assert(self.systems@[si] == at_entry.systems@[si]);
                    }
                }
                j += 1;
            }
        }
    }

    /// Once a tick has completed and the dirty queue is empty, every
    /// system's membership cache agrees exactly with its predicate: an
    /// entity is a member exactly when it is alive and its archetype has
    /// all required bits and no excluded bit.
    pub proof fn lemma_membership_synced(self, si: int, e: Entity)
        requires
            self.wf(),
            self.manager.entities.spec_pending().len() == 0,
            0 <= si < self.systems@.len(),
        ensures
            self.systems@[si].spec_member(e) == (self.manager.spec_alive(e)
                && self.systems@[si].sat(self.manager.entities.spec_archetype(e))),
    {
        if self.manager.entities.spec_queued(e) {
            let j = choose|j: int|
                self.manager.entities.cursor <= j < self.manager.entities.queue@.len() && (
                #[trigger] self.manager.entities.queue@[j]).0 == e.0;
            assert(self.manager.entities.spec_pending().len() > 0);
            assert(false);
        }
        assert(Self::classified(self.manager, self.systems@[si], e));
    }
}

/// A stable mutation of the manager keeps the world in sync: every entity
/// whose classification inputs changed is pending.
proof fn lemma_synced_stable<C, B: Behavior<C>>(before: World<C, B>, after: World<C, B>)
    requires
        before.wf(),
        after.systems == before.systems,
        after.manager.wf(),
        Manager::stable_from(before.manager, after.manager),
    ensures
        after.wf(),
{
    assert forall|si: int, e: Entity|
        #![trigger after.systems@[si].spec_member(e)]
        0 <= si < after.systems@.len() implies (World::<C, B>::classified(
        after.manager,
        after.systems@[si],
        e,
    ) || after.manager.entities.spec_queued(e)) by {
        assert(after.systems@ == before.systems@);
        assert(after.systems@[si] == before.systems@[si]);
        if !after.manager.entities.spec_queued(e) {
            assert(Manager::unchanged_for(before.manager, after.manager, e));
            assert(!before.manager.entities.spec_queued(e));
            assert(World::<C, B>::classified(before.manager, before.systems@[si], e));
            if before.manager.entities.spec_alive(e) {
                lemma_sat_same_bits(
                    after.systems@[si],
                    before.manager.entities.spec_archetype(e),
                    after.manager.entities.spec_archetype(e),
                );
            }
        }
    }
}

/// The membership predicate depends only on the bits and count of the
/// entity archetype.
proof fn lemma_sat_same_bits<B>(s: System<B>, a1: crate::archetype::Archetype, a2: crate::archetype::Archetype)
    requires
        forall|j: int| a2.spec_has(j) == a1.spec_has(j),
        a2.count == a1.count,
    ensures
        s.sat(a2) == s.sat(a1),
{
    assert(s.archetype.subset_of(a2) == s.archetype.subset_of(a1)) by {
        if s.archetype.subset_of(a1) {
            assert forall|id: int| s.archetype.spec_has(id) implies a2.spec_has(id) by {}
        }
        if s.archetype.subset_of(a2) {
            assert forall|id: int| s.archetype.spec_has(id) implies a1.spec_has(id) by {}
        }
    }
    assert(s.antitype.shares_bit_with(a2) == s.antitype.shares_bit_with(a1)) by {
        if s.antitype.shares_bit_with(a1) {
            let id = choose|id: int| s.antitype.spec_has(id) && a1.spec_has(id);
            assert(s.antitype.spec_has(id) && a2.spec_has(id));
        }
        if s.antitype.shares_bit_with(a2) {
            let id = choose|id: int| s.antitype.spec_has(id) && a2.spec_has(id);
            assert(s.antitype.spec_has(id) && a1.spec_has(id));
        }
    }
}

} // verus!
