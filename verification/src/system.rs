//! A system: a behavior callback plus an incrementally maintained sparse-set
//! cache of the entities matching its archetype predicate (required bits
//! present, excluded bits absent).

use vstd::prelude::*;

use crate::archetype::Archetype;
use crate::entity::Entity;
use crate::manager::Manager;

verus! {

/// A behavior unit run once per scheduler pass over the system's current
/// members. Implementations mutate the world only through the manager's
/// public API, which flags every entity they change as dirty; the contract
/// holds them to that.
pub trait Behavior<C> {
    /// What one pass does to the world, as a relation between the manager
    /// before and after and the member list the pass was handed. The default
    /// promises nothing; an implementation that overrides it must live up to
    /// it in `on_run`.
    open spec fn effect(&self, pre: Manager<C>, post: Manager<C>, members: Seq<Entity>) -> bool {
        true
    }

    /// One pass over the system's members.
    fn on_run(&self, manager: &mut Manager<C>, entities: &Vec<Entity>)
        requires
            old(manager).wf(),
        ensures
            final(manager).wf(),
            Manager::stable_from(*old(manager), *final(manager)),
            self.effect(*old(manager), *final(manager), entities@),
    ;
}

/// A behavior that does nothing, for systems whose membership is read
/// elsewhere.
pub struct NoopBehavior;

impl<C> Behavior<C> for NoopBehavior {
    /// Doing nothing leaves the manager exactly as it was.
    open spec fn effect(&self, pre: Manager<C>, post: Manager<C>, members: Seq<Entity>) -> bool {
        post == pre
    }

    fn on_run(&self, manager: &mut Manager<C>, entities: &Vec<Entity>) {
        proof {
            assert forall|e: Entity|
                final(manager).entities.spec_queued(e) || #[trigger] Manager::unchanged_for(
                *old(manager),
                *final(manager),
                e,
            ) by {}
        }
    }
}

/// An incremental membership cache over one archetype predicate.
pub struct System<B> {
    pub archetype: Archetype,
    pub antitype: Archetype,
    pub sparse: Vec<Option<usize>>,
    pub dense: Vec<Entity>,
    pub callback: B,
}

impl<B> System<B> {
    /// `e` is currently a member.
    pub open spec fn spec_member(self, e: Entity) -> bool {
        e.0 < self.sparse@.len() && self.sparse@[e.0 as int] is Some
    }

    /// The membership sparse-set arrays point at each other consistently.
    pub open spec fn members_wf(self) -> bool {
        &&& forall|i: int|
            0 <= i < self.dense@.len() ==> {
                &&& (#[trigger] self.dense@[i]).0 < self.sparse@.len()
                &&& self.sparse@[self.dense@[i].0 as int] == Some(i as usize)
            }
        &&& forall|e: int|
            0 <= e < self.sparse@.len() && (#[trigger] self.sparse@[e]) is Some ==> {
                &&& self.sparse@[e]->0 < self.dense@.len()
                &&& self.dense@[self.sparse@[e]->0 as int].0 == e
            }
    }

    /// Consistent membership arrays and well-formed predicate bitsets.
    pub open spec fn wf(self) -> bool {
        &&& self.members_wf()
        &&& self.archetype.wf()
        &&& self.antitype.wf()
    }

    /// The membership predicate: every required bit present, no excluded
    /// bit present.
    pub open spec fn sat(self, archetype: Archetype) -> bool {
        &&& self.archetype.subset_of(archetype)
        &&& !self.antitype.shares_bit_with(archetype)
    }

    /// A system over the given predicate with an empty membership cache.
    pub fn new(archetype: Archetype, antitype: Archetype, callback: B) -> (system: Self)
        requires
            archetype.wf(),
            antitype.wf(),
        ensures
            system.wf(),
            system.archetype == archetype,
            system.antitype == antitype,
            system.callback == callback,
            system.dense@.len() == 0,
            forall|e: Entity| !system.spec_member(e),
    {
        Self { archetype, antitype, sparse: Vec::new(), dense: Vec::new(), callback }
    }

    /// Re-classifies `entity` against the predicate using its current
    /// archetype: members that stopped matching are swap-removed, and
    /// non-members that now match are appended.
    pub fn evaluate(&mut self, entity: Entity, archetype: &Archetype)
        requires
            old(self).wf(),
            archetype.wf(),
            entity.0 < usize::MAX,
        ensures
            final(self).wf(),
            final(self).spec_member(entity) == old(self).sat(*archetype),
            forall|e: Entity|
                e != entity ==> final(self).spec_member(e) == old(self).spec_member(e),
            final(self).archetype == old(self).archetype,
            final(self).antitype == old(self).antitype,
            final(self).callback == old(self).callback,
    {
        let id = entity.id();
        let matched = self.archetype.is_subset_of(archetype) && !self.antitype.has_common_with(
            archetype,
        );
        if id < self.sparse.len() && self.sparse[id].is_some() {
            if !matched {
                let slot = self.sparse[id];
                let index = slot.unwrap();
                self.remove_unchecked(index);
                proof {
                    assert(old(self).dense@[index as int].0 == id);
                    assert(old(self).dense@[index as int] == entity);
                }
            }
        } else if matched {
            if self.sparse.len() <= id {
                let ghost pre = self.sparse@;
                while self.sparse.len() < id + 1
                    invariant
                        id < usize::MAX,
                        pre.len() <= self.sparse@.len() <= id + 1,
                        forall|i: int| 0 <= i < pre.len() ==> self.sparse@[i] == pre[i],
                        forall|i: int|
                            pre.len() <= i < self.sparse@.len() ==> self.sparse@[i] is None,
                        self.dense == old(self).dense,
                        self.archetype == old(self).archetype,
                        self.antitype == old(self).antitype,
                        self.callback == old(self).callback,
                    decreases id + 1 - self.sparse.len(),
                {
                    self.sparse.push(None);
                }
            }
            if self.sparse[id].is_none() {
                self.sparse.set(id, Some(self.dense.len()));
                self.dense.push(entity);
            }
            proof {
                assert forall|e: Entity|
                    e != entity implies final(self).spec_member(e) == old(self).spec_member(
                    e,
                ) by {}
                assert(final(self).members_wf());
            }
        }
    }

    /// Evicts `entity` from the membership cache if present, without
    /// consulting the predicate (used when an entity is destroyed).
    pub fn remove(&mut self, entity: Entity)
        requires
            old(self).wf(),
        ensures
            final(self).wf(),
            !final(self).spec_member(entity),
            forall|e: Entity|
                e != entity ==> final(self).spec_member(e) == old(self).spec_member(e),
            final(self).archetype == old(self).archetype,
            final(self).antitype == old(self).antitype,
            final(self).callback == old(self).callback,
    {
        let id = entity.id();
        if id < self.sparse.len() && self.sparse[id].is_some() {
            let slot = self.sparse[id];
            let index = slot.unwrap();
            self.remove_unchecked(index);
            proof {
                assert(old(self).dense@[index as int].0 == id);
                assert(old(self).dense@[index as int] == entity);
            }
        }
    }

    /// Runs the behavior callback once over the current dense membership
    /// list; the callback's declared effect relates the manager before and
    /// after to that list.
    pub fn run<C>(&self, manager: &mut Manager<C>) where B: Behavior<C>
        requires
            old(manager).wf(),
        ensures
            final(manager).wf(),
            Manager::stable_from(*old(manager), *final(manager)),
            self.callback.effect(*old(manager), *final(manager), self.dense@),
    {
        self.callback.on_run(manager, &self.dense);
    }

    /// Swap-removes the member in dense slot `index`.
    fn remove_unchecked(&mut self, index: usize)
        requires
            old(self).wf(),
            index < old(self).dense@.len(),
        ensures
            final(self).wf(),
            !final(self).spec_member(old(self).dense@[index as int]),
            forall|e: Entity|
                e != old(self).dense@[index as int] ==> final(self).spec_member(e) == old(
                    self,
                ).spec_member(e),
            final(self).archetype == old(self).archetype,
            final(self).antitype == old(self).antitype,
            final(self).callback == old(self).callback,
    {
        let entity = self.dense[index];
        let id = entity.id();
        self.sparse.set(id, None);
        if index == self.dense.len() - 1 {
            let _last = self.dense.pop();
        } else {
            self.dense.swap_remove(index);
            let moved = self.dense[index].id();
            self.sparse.set(moved, Some(index));
        }
        proof {
            assert(final(self).members_wf());
        }
    }
}

} // verus!
