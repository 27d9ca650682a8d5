//! Composition root binding the entity registry and the component registry.
//! It is the only component-mutation surface, and it keeps the cross
//! invariant: an entity's archetype has bit `p` set exactly when pool `p`
//! holds a component for it. Every mutation flags the affected entities in
//! the dirty queue.

use vstd::prelude::*;

use crate::archetype::Archetype;
use crate::component_manager::ComponentManager;
use crate::entity::Entity;
use crate::entity_manager::EntityManager;

verus! {

/// A pool index always answers through its own key.
proof fn lemma_contains_by_index<C>(m: ComponentManager<C>, p: int, e: Entity)
    requires
        m.wf(),
        0 <= p < m.pools@.len(),
    ensures
        m.spec_has_key(m.ids@[p]),
        m.spec_key_index(m.ids@[p]) == p,
        m.pools@[p].spec_contains(e) == m.spec_has_component(m.ids@[p], e),
        m.spec_pool(m.ids@[p]) == m.pools@[p],
{
    m.lemma_key_index(m.ids@[p], p);
}

/// A pool whose key is not the touched one survives a keyed update.
proof fn lemma_pool_entry_preserved<C>(
    a: ComponentManager<C>,
    b: ComponentManager<C>,
    key: u64,
    p: int,
)
    requires
        a.wf(),
        b.wf(),
        0 <= p < a.pools@.len(),
        a.ids@.len() <= b.ids@.len(),
        forall|i: int| 0 <= i < a.ids@.len() ==> b.ids@[i] == a.ids@[i],
        a.ids@[p] != key,
        forall|k: u64|
            k != key && a.spec_has_key(k) ==> b.spec_pool(k) == a.spec_pool(k),
    ensures
        p < b.pools@.len(),
        b.pools@[p] == a.pools@[p],
{
    let kp = a.ids@[p];
    a.lemma_key_index(kp, p);
    b.lemma_key_index(kp, p);
    assert(b.spec_pool(kp) == a.spec_pool(kp));
}

/// The world state: entities with their archetypes and hierarchy, plus the
/// component pools, kept mutually consistent.
pub struct Manager<C> {
    pub entities: EntityManager,
    pub components: ComponentManager<C>,
}

impl<C> Manager<C> {
    /// An entity's archetype has bit `p` exactly when pool `p` holds a
    /// component owned by it; dead entities own nothing, and no archetype
    /// holds a bit without a pool.
    pub open spec fn cross_ok(self) -> bool {
        &&& forall|e: Entity, p: int|
            0 <= p < self.components.pools@.len() ==> ((#[trigger] self.components.pools@[p].spec_contains(e))
                <==> (self.entities.spec_alive(e) && self.entities.spec_archetype(e).spec_has(p)))
        &&& forall|e: Entity, j: int|
            self.entities.spec_alive(e) && (#[trigger] self.entities.spec_archetype(e).spec_has(j))
                ==> 0 <= j < self.components.pools@.len()
    }

    /// Both registries are consistent, and so is the cross invariant.
    pub open spec fn wf(self) -> bool {
        &&& self.entities.wf()
        &&& self.components.wf()
        &&& self.cross_ok()
    }

    /// `e` is a live entity.
    pub open spec fn spec_alive(self, e: Entity) -> bool {
        self.entities.spec_alive(e)
    }

    /// `owner` has a component of kind `key`.
    pub open spec fn spec_has_component(self, key: u64, owner: Entity) -> bool {
        self.components.spec_has_component(key, owner)
    }

    /// The component of kind `key` owned by `owner`.
    pub open spec fn spec_component(self, key: u64, owner: Entity) -> C {
        self.components.spec_component(key, owner)
    }

    /// `e`'s liveness and archetype are the same in `pre` and `post`.
    pub open spec fn unchanged_for(pre: Self, post: Self, e: Entity) -> bool {
        &&& post.entities.spec_alive(e) == pre.entities.spec_alive(e)
        &&& (pre.entities.spec_alive(e) ==> {
            &&& forall|j: int|
                post.entities.spec_archetype(e).spec_has(j) == pre.entities.spec_archetype(e).spec_has(j)
            &&& post.entities.spec_archetype(e).count == pre.entities.spec_archetype(e).count
        })
    }

    /// Whatever a well-behaved caller did between `pre` and `post`, every
    /// entity whose liveness or archetype changed is flagged dirty, and no
    /// pending flag was consumed.
    pub open spec fn stable_from(pre: Self, post: Self) -> bool {
        &&& forall|e: Entity|
            pre.entities.spec_queued(e) ==> post.entities.spec_queued(e)
        &&& forall|e: Entity|
            post.entities.spec_queued(e) || #[trigger] Self::unchanged_for(pre, post, e)
    }

    /// The cross invariant, stated as a law: for every entity and every
    /// registered component kind, the entity's archetype has the kind's bit
    /// set exactly when the entity currently has a component of that kind.
    /// Every operation of this manager keeps `wf`, so this holds after any
    /// sequence of spawns, adds, removes and destroys.
    pub proof fn lemma_archetype_mirrors_pools(self, key: u64, e: Entity)
        requires
            self.wf(),
            self.components.spec_has_key(key),
        ensures
            (self.spec_alive(e) && self.entities.spec_archetype(e).spec_has(
                self.components.spec_key_index(key),
            )) == self.spec_has_component(key, e),
    {
        let p = self.components.spec_key_index(key);
        assert(self.components.ids@[p] == key);
        assert(self.components.pools@[p].spec_contains(e) == (self.entities.spec_alive(e)
            && self.entities.spec_archetype(e).spec_has(p)));
    }

    /// An empty world: no entities, no component kinds, nothing pending.
    pub fn new() -> (manager: Self)
        ensures
            manager.wf(),
            forall|e: Entity| !manager.spec_alive(e),
            forall|key: u64| !manager.components.spec_has_key(key),
            forall|e: Entity| !manager.entities.spec_queued(e),
            manager.entities.spec_pending().len() == 0,
            manager.entities.sparse@.len() == 0,
    {
        Self { entities: EntityManager::new(), components: ComponentManager::new() }
    }

    /// The pool index of component kind `key`, registering it on first use.
    pub fn component_id_or_register(&mut self, key: u64) -> (pool_id: usize)
        requires
            old(self).wf(),
        ensures
            final(self).wf(),
            final(self).components.spec_has_key(key),
            final(self).components.spec_key_index(key) == pool_id,
            final(self).entities == old(self).entities,
            forall|k: u64|
                k != key ==> final(self).components.spec_has_key(k) == old(self).components.spec_has_key(k),
            old(self).components.spec_has_key(key) ==> *final(self) == *old(self),
            Self::stable_from(*old(self), *final(self)),
    {
        let pool_id = self.components.register(key);
        proof {
            assert forall|e: Entity, p: int|
                0 <= p < final(self).components.pools@.len() implies ((#[trigger] final(self).components.pools@[p].spec_contains(e)) <==> (final(self).entities.spec_alive(e)
                && final(self).entities.spec_archetype(e).spec_has(p))) by {
                if p < old(self).components.pools@.len() {
                    assert(final(self).components.pools@[p] == old(self).components.pools@[p]);
                } else {
                    assert(!final(self).components.pools@[p].spec_contains(e));
                }
            }
            assert forall|e: Entity|
                !final(self).entities.spec_queued(e) implies #[trigger] Self::unchanged_for(
                *old(self),
                *final(self),
                e,
            ) by {}
        }
        pool_id
    }

    /// The archetype of `owner`, if it is alive.
    pub fn entity_archetype(&self, owner: Entity) -> (archetype: Option<&Archetype>)
        ensures
            archetype is Some <==> self.spec_alive(owner),
            self.spec_alive(owner) ==> archetype->0 == self.entities.spec_archetype(owner),
    {
        self.entities.archetype(owner)
    }

    /// Hands out the next entity pending in the dirty queue.
    pub fn poll_dirty(&mut self) -> (entity: Option<Entity>)
        requires
            old(self).wf(),
        ensures
            final(self).wf(),
            final(self).entities.sparse == old(self).entities.sparse,
            final(self).components == old(self).components,
            old(self).entities.spec_pending().len() == 0 ==> entity is None && final(self).entities.spec_pending().len() == 0,
            old(self).entities.spec_pending().len() > 0 ==> {
                &&& entity == Some(old(self).entities.spec_pending()[0])
                &&& final(self).entities.spec_pending() == old(self).entities.spec_pending()
                    .subrange(1, old(self).entities.spec_pending().len() as int)
                &&& forall|x: Entity|
                    final(self).entities.spec_queued(x) == (old(self).entities.spec_queued(x) && x
                        != old(self).entities.spec_pending()[0])
            },
    {
        let polled = self.entities.poll_dirty();
        proof {
            assert(final(self).entities.sparse@ == old(self).entities.sparse@);
            assert forall|e: Entity, p: int|
                0 <= p < final(self).components.pools@.len() implies ((#[trigger] final(self).components.pools@[p].spec_contains(e)) <==> (final(self).entities.spec_alive(e)
                && final(self).entities.spec_archetype(e).spec_has(p))) by {
                assert(final(self).entities.spec_alive(e) == old(self).entities.spec_alive(e));
                if old(self).entities.spec_alive(e) {
                    assert(final(self).entities.spec_record(e) == old(self).entities.spec_record(e));
                }
            }
            assert forall|e: Entity, j: int|
                final(self).entities.spec_alive(e) && (#[trigger] final(self).entities.spec_archetype(e).spec_has(j)) implies 0 <= j < final(self).components.pools@.len() by {
                assert(final(self).entities.spec_record(e) == old(self).entities.spec_record(e));
                assert(old(self).entities.spec_archetype(e).spec_has(j));
            }
        }
        polled
    }

    /// A fresh entity with an empty archetype, no components, and no
    /// hierarchy links, flagged dirty.
    pub fn spawn_entity(&mut self) -> (entity: Entity)
        requires
            old(self).wf(),
        ensures
            final(self).wf(),
            final(self).spec_alive(entity),
            !old(self).spec_alive(entity),
            old(self).entities.destroyed@.len() > 0 ==> entity == old(self).entities.destroyed@.last().owner && final(self).entities.destroyed@ == old(self).entities.destroyed@.drop_last(),
            old(self).entities.destroyed@.len() == 0 ==> entity.0 == old(self).entities.sparse@.len() && final(self).entities.destroyed@ == old(self).entities.destroyed@,
            final(self).entities.spec_record(entity).parent is None,
            forall|c: Entity| !final(self).entities.spec_record(entity).spec_has_child(c),
            forall|id: int| !final(self).entities.spec_archetype(entity).spec_has(id),
            forall|e: Entity| e != entity ==> final(self).spec_alive(e) == old(self).spec_alive(e),
            forall|e: Entity|
                e != entity && old(self).spec_alive(e) ==> final(self).entities.spec_record(e)
                    == old(self).entities.spec_record(e),
            final(self).components == old(self).components,
            forall|x: Entity|
                final(self).entities.spec_queued(x) == (old(self).entities.spec_queued(x) || x
                    == entity),
            final(self).entities.spec_pending().len() > 0,
            Self::stable_from(*old(self), *final(self)),
    {
        let entity = self.entities.spawn();
        proof {
            assert forall|e: Entity, p: int|
                0 <= p < final(self).components.pools@.len() implies ((#[trigger] final(self).components.pools@[p].spec_contains(e)) <==> (final(self).entities.spec_alive(e)
                && final(self).entities.spec_archetype(e).spec_has(p))) by {
                if e == entity {
                    assert(!old(self).entities.spec_alive(e));
                    assert(!old(self).components.pools@[p].spec_contains(e));
                }
            }
            assert forall|e: Entity, j: int|
                final(self).entities.spec_alive(e) && (#[trigger] final(self).entities.spec_archetype(e).spec_has(j)) implies 0 <= j < final(self).components.pools@.len() by {
                if e != entity {
                    assert(old(self).entities.spec_archetype(e).spec_has(j));
                }
            }
            assert forall|e: Entity|
                final(self).entities.spec_queued(e) || #[trigger] Self::unchanged_for(
                *old(self),
                *final(self),
                e,
            ) by {
                if e != entity && old(self).spec_alive(e) {
                    assert(final(self).entities.spec_record(e) == old(self).entities.spec_record(e));
                }
            }
            assert(final(self).entities.spec_pending().len() > 0) by {
                if !old(self).entities.spec_queued(entity) {
                } else {
                    let j = choose|j: int|
                        old(self).entities.cursor <= j < old(self).entities.queue@.len() && (
                        #[trigger] old(self).entities.queue@[j]).0 == entity.0;
                    assert(old(self).entities.spec_pending().len() > 0);
                }
            }
        }
        entity
    }

    /// Whether `entity` is alive.
    pub fn is_entity_alive(&self, entity: Entity) -> (alive: bool)
        ensures
            alive == self.spec_alive(entity),
    {
        self.entities.get(entity).is_some()
    }

    /// Whether two live entities' archetypes share a bit; `None` when either
    /// is dead.
    pub fn is_entity_has_common_with(&self, entity: Entity, other: Entity) -> (common: Option<
        bool,
    >)
        requires
            self.wf(),
        ensures
            common is Some <==> (self.spec_alive(entity) && self.spec_alive(other)),
            common matches Some(c) ==> c == self.entities.spec_archetype(entity).shares_bit_with(
                self.entities.spec_archetype(other),
            ),
    {
        match self.entities.archetype(entity) {
            Some(archetype) => match self.entities.archetype(other) {
                Some(other_archetype) => {
                    proof {
                        assert(self.entities.spec_record_id(entity.0 as int) == self.entities.spec_record(entity));
                        assert(self.entities.spec_record_id(other.0 as int) == self.entities.spec_record(other));
                    }
                    Some(archetype.has_common_with(other_archetype))
                },
                None => None,
            },
            None => None,
        }
    }

    /// Whether the first live entity's archetype is a subset of the
    /// second's; `None` when either is dead.
    pub fn is_entity_subset_of(&self, entity: Entity, other: Entity) -> (subset: Option<bool>)
        requires
            self.wf(),
        ensures
            subset is Some <==> (self.spec_alive(entity) && self.spec_alive(other)),
            subset matches Some(s) ==> s == self.entities.spec_archetype(entity).subset_of(
                self.entities.spec_archetype(other),
            ),
    {
        match self.entities.archetype(entity) {
            Some(archetype) => match self.entities.archetype(other) {
                Some(other_archetype) => {
                    proof {
                        assert(self.entities.spec_record_id(entity.0 as int) == self.entities.spec_record(entity));
                        assert(self.entities.spec_record_id(other.0 as int) == self.entities.spec_record(other));
                    }
                    Some(archetype.is_subset_of(other_archetype))
                },
                None => None,
            },
            None => None,
        }
    }

    /// Whether the first live entity's archetype is a superset of the
    /// second's; `None` when either is dead.
    pub fn is_entity_superset_of(&self, entity: Entity, other: Entity) -> (superset: Option<bool>)
        requires
            self.wf(),
        ensures
            superset is Some <==> (self.spec_alive(entity) && self.spec_alive(other)),
            superset matches Some(s) ==> s == self.entities.spec_archetype(other).subset_of(
                self.entities.spec_archetype(entity),
            ),
    {
        match self.entities.archetype(entity) {
            Some(archetype) => match self.entities.archetype(other) {
                Some(other_archetype) => {
                    proof {
                        assert(self.entities.spec_record_id(entity.0 as int) == self.entities.spec_record(entity));
                        assert(self.entities.spec_record_id(other.0 as int) == self.entities.spec_record(other));
                    }
                    Some(archetype.is_superset_of(other_archetype))
                },
                None => None,
            },
            None => None,
        }
    }

    /// Whether live entity `owner` has a component of kind `key`. The
    /// archetype bit and the pool always agree.
    pub fn has_component(&self, key: u64, owner: Entity) -> (present: bool)
        requires
            self.wf(),
        ensures
            present == self.spec_has_component(key, owner),
            present == (self.spec_alive(owner) && self.components.spec_has_key(key)
                && self.entities.spec_archetype(owner).spec_has(
                self.components.spec_key_index(key),
            )),
    {
        let archetype = match self.entities.archetype(owner) {
            Some(archetype) => archetype,
            None => {
                proof {
                    if self.components.spec_has_key(key) {
                        assert(!self.components.pools@[self.components.spec_key_index(key)].spec_contains(owner));
                    }
                }
                return false;
            },
        };
        let pool_id = match self.components.id(key) {
            Some(pool_id) => pool_id,
            None => {
                return false;
            },
        };
        proof {
            assert(self.entities.spec_record_id(owner.0 as int) == self.entities.spec_record(owner));
        }
        let present = archetype.has(pool_id);
        proof {
            assert(self.components.pools@[pool_id as int].spec_contains(owner) == present);
        }
        present
    }

    /// Gives `owner` a component of kind `key`: the pool stores the value,
    /// the matching archetype bit is set, and the owner is flagged dirty.
    /// Rejected, returning the component unconsumed and changing nothing,
    /// when the owner is dead or already has a component of this kind.
    pub fn add_component(&mut self, key: u64, owner: Entity, component: C) -> (result: Result<
        (),
        C,
    >)
        requires
            old(self).wf(),
        ensures
            final(self).wf(),
            result is Err <==> (!old(self).spec_alive(owner) || old(self).spec_has_component(
                key,
                owner,
            )),
            result is Err ==> result == Err::<(), C>(component) && *final(self) == *old(self),
            result is Ok ==> {
                &&& final(self).spec_has_component(key, owner)
                &&& final(self).spec_component(key, owner) == component
                &&& final(self).entities.spec_archetype(owner).spec_has(
                    final(self).components.spec_key_index(key),
                )
                &&& forall|e: Entity, k: u64|
                    !(e == owner && k == key) ==> final(self).spec_has_component(k, e) == old(self).spec_has_component(k, e)
                &&& forall|e: Entity, k: u64|
                    !(e == owner && k == key) && old(self).spec_has_component(k, e) ==> final(self).spec_component(k, e) == old(self).spec_component(k, e)
                &&& forall|e: Entity| final(self).spec_alive(e) == old(self).spec_alive(e)
                &&& forall|x: Entity|
                    final(self).entities.spec_queued(x) == (old(self).entities.spec_queued(x) || x
                        == owner)
            },
            Self::stable_from(*old(self), *final(self)),
    {
        let alive = self.is_entity_alive(owner);
        if !alive {
            return Err(component);
        }
        let pool_id = self.components.register(key);
        let ghost m1 = *self;
        proof {
            assert(m1.entities == old(self).entities);
            if old(self).spec_has_component(key, owner) {
                assert(m1.components == old(self).components);
            }
            assert(owner.0 < m1.entities.sparse@.len());
            assert(m1.entities.spec_record_id(owner.0 as int) == m1.entities.spec_record(owner));
        }
        let dup = match self.entities.archetype(owner) {
            Some(archetype) => archetype.has(pool_id),
            None => false,
        };
        if dup {
            proof {
                // the bit is in range, so the key was already registered and
                // the owner already holds this kind
                assert(pool_id < old(self).components.pools@.len());
                assert(old(self).components.pools@[pool_id as int].spec_contains(owner));
                assert(old(self).spec_has_component(key, owner));
                assert(*final(self) == *old(self));
            }
            return Err(component);
        }
        proof {
            if old(self).spec_has_component(key, owner) {
                assert(old(self).components.pools@[old(self).components.spec_key_index(key)].spec_contains(owner));
                assert(false);
            }
        }
        let upper = self.entities.sparse.len();
        let pool_upper = self.components.pools.len();
        proof {
            assert(owner.0 < upper);
            assert(pool_id < pool_upper);
        }
        let replaced = self.components.insert(key, owner, component);
        let ghost m2 = *self;
        proof {
            assert(m2.entities == m1.entities);
            assert(replaced is None);
            assert(pool_id < m2.components.pools@.len());
        }
        let _newly = self.entities.archetype_insert(owner, pool_id);
        proof {
            assert(final(self).components == m2.components);
            assert(final(self).components.spec_key_index(key) == pool_id);
            assert forall|e: Entity, p: int|
                0 <= p < final(self).components.pools@.len() implies ((#[trigger] final(self).components.pools@[p].spec_contains(e)) <==> (final(self).entities.spec_alive(e)
                && final(self).entities.spec_archetype(e).spec_has(p))) by {
                assert(final(self).entities.spec_alive(e) == m1.entities.spec_alive(e));
                if p == pool_id {
                    // the touched pool now holds exactly its old owners plus
                    // `owner`, and the new bit mirrors it
                    assert(m2.components.spec_key_index(key) == pool_id);
                    assert(m2.components.pools@[p] == m2.components.spec_pool(key));
                    if e == owner {
                    } else {
                        if m1.entities.spec_alive(e) {
                            assert(final(self).entities.spec_archetype(e) == m1
                                .entities.spec_archetype(e));
                        }
                        assert(m2.components.spec_pool(key).spec_contains(e) == (old(self).spec_has_component(key, e))) by {
                            assert(m2.components.spec_has_component(key, e) == (old(self).components.spec_has_component(key, e) || e == owner));
                        }
                        if old(self).components.spec_has_key(key) {
                            assert(old(self).components.spec_pool(key) == old(self).components.pools@[pool_id as int]) by {
                                assert(old(self).components.spec_key_index(key) == pool_id);
                            }
                        } else {
                            assert(!old(self).spec_has_component(key, e));
                            if final(self).entities.spec_alive(e) {
                                assert(!final(self).entities.spec_archetype(e).spec_has(p)) by {
                                    if old(self).entities.spec_archetype(e).spec_has(p) {
                                        assert(0 <= p < old(self).components.pools@.len());
                                        assert(false);
                                    }
                                }
                            }
                        }
                    }
                } else {
                    // untouched pools keep their owners bit for bit
                    assert(0 <= p < old(self).components.pools@.len()) by {
                        if p >= old(self).components.pools@.len() {
                            assert(!old(self).components.spec_has_key(key));
                            assert(p < m2.components.pools@.len());
                            assert(m2.components.pools@.len() == old(self).components.pools@.len() + 1);
                            assert(p == pool_id);
                        }
                    }
                    assert(old(self).components.ids@[p] != key) by {
                        if old(self).components.ids@[p] == key {
                            old(self).components.lemma_key_index(key, p);
                            assert(old(self).components.spec_has_key(key));
                            assert(pool_id == p);
                        }
                    }
                    assert forall|i: int|
                        0 <= i < old(self).components.ids@.len() implies m2.components.ids@[i]
                        == old(self).components.ids@[i] by {}
                    lemma_pool_entry_preserved(old(self).components, m2.components, key, p);
                    assert(m2.components.pools@[p] == old(self).components.pools@[p]);
                    if e == owner {
                        assert(final(self).entities.spec_archetype(owner).spec_has(p) == m1
                            .entities.spec_archetype(owner).spec_has(p));
                    } else {
                        if m1.entities.spec_alive(e) {
                            assert(final(self).entities.spec_archetype(e) == m1
                                .entities.spec_archetype(e));
                        }
                    }
                }
            }
            assert forall|e: Entity, j: int|
                final(self).entities.spec_alive(e) && (#[trigger] final(self).entities.spec_archetype(e).spec_has(j)) implies 0 <= j < final(self).components.pools@.len() by {
                if e == owner {
                    if j != pool_id {
                        assert(old(self).entities.spec_archetype(e).spec_has(j));
                    }
                } else {
                    if m1.entities.spec_alive(e) {
                        assert(old(self).entities.spec_archetype(e).spec_has(j));
                    }
                }
            }
            assert forall|e: Entity|
                final(self).entities.spec_queued(e) || #[trigger] Self::unchanged_for(
                *old(self),
                *final(self),
                e,
            ) by {
                if e != owner && old(self).spec_alive(e) {
                    assert(final(self).entities.spec_record(e) == old(self).entities.spec_record(e));
                }
            }
        }
        Ok(())
    }

    /// A shared borrow of `owner`'s component of kind `key`, if present.
    pub fn component(&self, key: u64, owner: Entity) -> (component: Option<&C>)
        requires
            self.wf(),
        ensures
            component is Some <==> self.spec_has_component(key, owner),
            self.spec_has_component(key, owner) ==> component->0 == self.spec_component(
                key,
                owner,
            ),
    {
        self.components.get(key, owner)
    }

    /// A mutable borrow of `owner`'s component of kind `key`, if present.
    /// Writing through the borrow changes only that value; the entities,
    /// archetypes and dirty queue are untouched.
    pub fn component_mut(&mut self, key: u64, owner: Entity) -> (component: Option<&mut C>)
        requires
            old(self).wf(),
        ensures
            component is Some <==> old(self).spec_has_component(key, owner),
            final(self).entities == old(self).entities,
            final(self).components.ids == old(self).components.ids,
            !old(self).spec_has_component(key, owner) ==> final(self).components.pools@ == old(self).components.pools@,
            old(self).spec_has_component(key, owner) ==> {
                &&& *component->0 == old(self).spec_component(key, owner)
                &&& final(self).components.pools@.len() == old(self).components.pools@.len()
                &&& forall|p: int|
                    0 <= p < old(self).components.pools@.len() && p != old(self).components.spec_key_index(key) ==> final(self).components.pools@[p] == old(self).components.pools@[p]
                &&& final(self).components.pools@[old(self).components.spec_key_index(key)].owners
                    == old(self).components.spec_pool(key).owners
                &&& final(self).components.pools@[old(self).components.spec_key_index(key)].sparse
                    == old(self).components.spec_pool(key).sparse
                &&& final(self).components.pools@[old(self).components.spec_key_index(key)].dense@
                    == old(self).components.spec_pool(key).dense@.update(
                    old(self).components.spec_pool(key).spec_index_of(owner),
                    *final(component->0),
                )
            },
    {
        self.components.get_mut(key, owner)
    }

    /// The dense array of all components of kind `key`.
    pub fn all_component(&self, key: u64) -> (components: &[C])
        requires
            self.wf(),
        ensures
            self.components.spec_has_key(key) ==> components@ == self.components.spec_pool(key).dense@,
            !self.components.spec_has_key(key) ==> components@.len() == 0,
    {
        self.components.all(key)
    }

    /// The dense array of all components of kind `key`, mutably. Writing
    /// through it changes only component values, never ownership.
    pub fn all_component_mut(&mut self, key: u64) -> (components: &mut [C])
        requires
            old(self).wf(),
        ensures
            final(self).entities == old(self).entities,
            final(self).components.ids == old(self).components.ids,
            !old(self).components.spec_has_key(key) ==> components@.len() == 0 && final(self).components.pools@ == old(self).components.pools@,
            old(self).components.spec_has_key(key) ==> {
                &&& components@ == old(self).components.spec_pool(key).dense@
                &&& final(self).components.pools@.len() == old(self).components.pools@.len()
                &&& forall|p: int|
                    0 <= p < old(self).components.pools@.len() && p != old(self).components.spec_key_index(key) ==> final(self).components.pools@[p] == old(self).components.pools@[p]
            },
    {
        self.components.all_mut(key)
    }

    /// The dense array of owners of components of kind `key`.
    pub fn component_owners(&self, key: u64) -> (owners: &[Entity])
        requires
            self.wf(),
        ensures
            self.components.spec_has_key(key) ==> owners@ == self.components.spec_pool(key).owners@,
            !self.components.spec_has_key(key) ==> owners@.len() == 0,
    {
        self.components.owners(key)
    }

    /// Takes `owner`'s component of kind `key` out of its pool and clears
    /// the matching archetype bit, flagging the owner dirty. A dead owner,
    /// an unknown kind, or an absent component is a no-op.
    pub fn remove_component(&mut self, key: u64, owner: Entity)
        requires
            old(self).wf(),
        ensures
            final(self).wf(),
            !old(self).spec_has_component(key, owner) ==> *final(self) == *old(self),
            old(self).spec_has_component(key, owner) ==> {
                &&& !final(self).spec_has_component(key, owner)
                &&& forall|e: Entity, k: u64|
                    !(e == owner && k == key) ==> final(self).spec_has_component(k, e) == old(self).spec_has_component(k, e)
                &&& forall|e: Entity, k: u64|
                    !(e == owner && k == key) && old(self).spec_has_component(k, e) ==> final(self).spec_component(k, e) == old(self).spec_component(k, e)
                &&& forall|e: Entity| final(self).spec_alive(e) == old(self).spec_alive(e)
                &&& !final(self).entities.spec_archetype(owner).spec_has(
                    old(self).components.spec_key_index(key),
                )
                &&& forall|x: Entity|
                    final(self).entities.spec_queued(x) == (old(self).entities.spec_queued(x) || x
                        == owner)
            },
            Self::stable_from(*old(self), *final(self)),
    {
        let alive = self.is_entity_alive(owner);
        if !alive {
            proof {
                if old(self).spec_has_component(key, owner) {
                    assert(old(self).components.pools@[old(self).components.spec_key_index(key)].spec_contains(owner));
                }
            }
            return ;
        }
        let pool_id = match self.components.id(key) {
            Some(pool_id) => pool_id,
            None => {
                return ;
            },
        };
        proof {
            assert(self.entities.spec_record_id(owner.0 as int) == self.entities.spec_record(owner));
        }
        let present = match self.entities.archetype(owner) {
            Some(archetype) => archetype.has(pool_id),
            None => false,
        };
        if !present {
            proof {
                assert(!old(self).components.pools@[pool_id as int].spec_contains(owner));
            }
            return ;
        }
        proof {
            assert(old(self).components.pools@[pool_id as int].spec_contains(owner));
            assert(old(self).spec_has_component(key, owner));
        }
        let _removed = self.components.remove(key, owner);
        let ghost m1 = *self;
        let _cleared = self.entities.archetype_remove(owner, pool_id);
        proof {
            assert(final(self).components == m1.components);
            assert forall|e: Entity, p: int|
                0 <= p < final(self).components.pools@.len() implies ((#[trigger] final(self).components.pools@[p].spec_contains(e)) <==> (final(self).entities.spec_alive(e)
                && final(self).entities.spec_archetype(e).spec_has(p))) by {
                assert(final(self).entities.spec_alive(e) == old(self).entities.spec_alive(e));
                assert(m1.components.pools@[p].spec_contains(e) == (old(self).components.pools@[p].spec_contains(e) && !(p == pool_id && e == owner))) by {
                    assert(m1.components.ids@ == old(self).components.ids@);
                    lemma_contains_by_index(old(self).components, p, e);
                    lemma_contains_by_index(m1.components, p, e);
                    let kp = old(self).components.ids@[p];
                    assert(kp == key <==> p == pool_id) by {
                        if kp == key {
                            old(self).components.lemma_key_index(key, p);
                        }
                        if p == pool_id {
                            assert(old(self).components.spec_key_index(key) == pool_id);
                            assert(old(self).components.ids@[pool_id as int] == key);
                        }
                    }
                    assert(m1.components.spec_has_component(kp, e) == (old(self).components.spec_has_component(kp, e) && !(kp == key && e == owner)));
                }
                if e != owner {
                    if old(self).entities.spec_alive(e) {
                        assert(final(self).entities.spec_record(e) == old(self).entities.spec_record(e));
                    }
                }
            }
            assert forall|e: Entity, j: int|
                final(self).entities.spec_alive(e) && (#[trigger] final(self).entities.spec_archetype(e).spec_has(j)) implies 0 <= j < final(self).components.pools@.len() by {
                if e == owner {
                    assert(old(self).entities.spec_archetype(e).spec_has(j));
                } else {
                    assert(old(self).entities.spec_archetype(e).spec_has(j));
                }
            }
            assert forall|e: Entity|
                final(self).entities.spec_queued(e) || #[trigger] Self::unchanged_for(
                *old(self),
                *final(self),
                e,
            ) by {
                if e != owner && old(self).spec_alive(e) {
                    assert(final(self).entities.spec_record(e) == old(self).entities.spec_record(e));
                }
            }
        }
    }

    /// Destroys `entity` and its whole subtree of children, purging every
    /// destroyed entity's components from every pool and flagging each as
    /// dirty. Destroying a dead entity is a no-op.
    pub fn destroy_entity(&mut self, entity: Entity)
        requires
            old(self).wf(),
        ensures
            final(self).wf(),
            !old(self).spec_alive(entity) ==> *final(self) == *old(self),
            old(self).spec_alive(entity) ==> {
                &&& !final(self).spec_alive(entity)
                &&& forall|x: Entity|
                    final(self).spec_alive(x) == (old(self).spec_alive(x) && !old(self).entities.spec_in_subtree(x.0 as int, entity.0 as int))
                &&& forall|x: Entity, k: u64|
                    final(self).spec_alive(x) ==> final(self).spec_has_component(k, x) == old(self).spec_has_component(k, x)
                &&& forall|x: Entity, k: u64|
                    final(self).spec_alive(x) && old(self).spec_has_component(k, x)
                        ==> final(self).spec_component(k, x) == old(self).spec_component(k, x)
                &&& final(self).entities.sparse@.len() == old(self).entities.sparse@.len()
                &&& final(self).entities.destroyed@.len() > old(self).entities.destroyed@.len()
                &&& forall|k: int|
                    0 <= k < old(self).entities.destroyed@.len() ==> final(self).entities.destroyed@[k] == old(self).entities.destroyed@[k]
                &&& forall|k: int|
                    old(self).entities.destroyed@.len() <= k < final(self).entities.destroyed@.len()
                        ==> old(self).spec_alive(#[trigger] final(self).entities.destroyed@[k].owner)
                            && old(self).entities.spec_in_subtree(final(self).entities.destroyed@[k].owner.0 as int, entity.0 as int)
                &&& forall|x: Entity|
                    old(self).spec_alive(x) && old(self).entities.spec_in_subtree(x.0 as int, entity.0 as int)
                        ==> exists|k: int|
                            old(self).entities.destroyed@.len() <= k < final(self).entities.destroyed@.len()
                                && (#[trigger] final(self).entities.destroyed@[k]).owner == x
                &&& ((forall|c: Entity| !old(self).entities.spec_record(entity).spec_has_child(c))
                    ==> final(self).entities.destroyed@ == old(self).entities.destroyed@.push(final(self).entities.destroyed@.last())
                        && final(self).entities.destroyed@.last().owner == entity)
            },
            Self::stable_from(*old(self), *final(self)),
    {
        let removed = self.entities.destroy(entity);
        let ghost m1 = *self;
        let ghost removed_seq = removed@;
        let n = removed.len();
        let mut i: usize = 0;
        while i < n
            invariant
                n == removed_seq.len(),
                removed@ == removed_seq,
                i <= n,
                self.entities == m1.entities,
                self.components.wf(),
                self.components.ids == m1.components.ids,
                self.components.pools@.len() == m1.components.pools@.len(),
                forall|e: Entity, p: int|
                    0 <= p < self.components.pools@.len() ==> ((#[trigger] self.components.pools@[p].spec_contains(e))
                        == (m1.components.pools@[p].spec_contains(e) && !removed_seq.subrange(
                        0,
                        i as int,
                    ).contains(e))),
                forall|e: Entity, p: int|
                    0 <= p < self.components.pools@.len() && (#[trigger] self.components.pools@[p].spec_contains(e))
                        ==> self.components.pools@[p].spec_value(e) == m1.components.pools@[p].spec_value(e),
                i == 0 ==> self.components == m1.components,
            decreases n - i,
        {
            let victim = removed[i];
            self.components.destroy(victim);
            proof {
                assert forall|e: Entity, p: int|
                    0 <= p < self.components.pools@.len() implies ((
                #[trigger] self.components.pools@[p].spec_contains(e)) == (
                m1.components.pools@[p].spec_contains(e) && !removed_seq.subrange(
                    0,
                    i + 1,
                ).contains(e))) by {
                    let longer = removed_seq.subrange(0, i + 1);
                    let shorter = removed_seq.subrange(0, i as int);
                    if longer.contains(e) {
                        let j = choose|j: int| 0 <= j < longer.len() && longer[j] == e;
                        if j < i {
                            assert(shorter[j] == e);
                            assert(shorter.contains(e));
                        } else {
                            assert(e == victim);
                        }
                    } else {
                        assert(!shorter.contains(e)) by {
                            if shorter.contains(e) {
                                let j = choose|j: int| 0 <= j < shorter.len() && shorter[j] == e;
                                assert(longer[j] == e);
                            }
                        }
                        assert(e != victim) by {
                            if e == victim {
                                assert(longer[i as int] == e);
                            }
                        }
                    }
                }
            }
            i += 1;
        }
        proof {
            assert(removed_seq.subrange(0, n as int) =~= removed_seq);
            if !old(self).spec_alive(entity) {
                assert(removed_seq.len() == 0);
                assert forall|e: Entity, p: int|
                    0 <= p < final(self).components.pools@.len() implies ((#[trigger] final(self).components.pools@[p].spec_contains(e)) <==> (final(self).entities.spec_alive(e)
                    && final(self).entities.spec_archetype(e).spec_has(p))) by {
                    assert(!removed_seq.subrange(0, n as int).contains(e));
                    assert(final(self).entities.spec_alive(e) == old(self).entities.spec_alive(e));
                    if old(self).entities.spec_alive(e) {
                        assert(final(self).entities.spec_record(e) == old(self).entities.spec_record(e)) by {
                            assert(final(self).entities.sparse@ == old(self).entities.sparse@);
                        }
                    }
                }
                assert forall|e: Entity|
                    final(self).entities.spec_queued(e) || #[trigger] Self::unchanged_for(
                    *old(self),
                    *final(self),
                    e,
                ) by {
                    assert(final(self).entities.sparse@ == old(self).entities.sparse@);
                }
                assert forall|e: Entity, j: int|
                    final(self).entities.spec_alive(e) && (#[trigger] final(self).entities.spec_archetype(e).spec_has(j)) implies 0 <= j < final(self).components.pools@.len() by {
                    assert(final(self).entities.sparse@ == old(self).entities.sparse@);
                    assert(old(self).entities.spec_archetype(e).spec_has(j));
                }
                assert(removed_seq.len() == 0);
                assert(m1.entities == old(self).entities);
                assert(final(self).entities == m1.entities);
                assert(final(self).components == m1.components);
                assert(m1.components == old(self).components);
                assert(*final(self) == *old(self));
            } else {
                assert forall|e: Entity, p: int|
                    0 <= p < final(self).components.pools@.len() implies ((#[trigger] final(self).components.pools@[p].spec_contains(e)) <==> (final(self).entities.spec_alive(e)
                    && final(self).entities.spec_archetype(e).spec_has(p))) by {
                    if final(self).entities.spec_alive(e) {
                        assert(!removed_seq.contains(e));
                        assert(old(self).entities.spec_alive(e));
                        assert(final(self).entities.spec_archetype(e).spec_has(p) == old(self).entities.spec_archetype(e).spec_has(p));
                    } else {
                        if old(self).entities.spec_alive(e) {
                            assert(removed_seq.contains(e));
                        } else {
                            assert(!old(self).components.pools@[p].spec_contains(e));
                        }
                    }
                }
                assert forall|e: Entity, j: int|
                    final(self).entities.spec_alive(e) && (#[trigger] final(self).entities.spec_archetype(e).spec_has(j)) implies 0 <= j < final(self).components.pools@.len() by {
                    assert(old(self).entities.spec_alive(e));
                    assert(old(self).entities.spec_archetype(e).spec_has(j));
                }
                assert forall|e: Entity|
                    final(self).entities.spec_queued(e) || #[trigger] Self::unchanged_for(
                    *old(self),
                    *final(self),
                    e,
                ) by {
                    if !final(self).entities.spec_queued(e) {
                        assert(!removed_seq.contains(e));
                        assert(final(self).spec_alive(e) == old(self).spec_alive(e));
                        if old(self).spec_alive(e) {
                            assert(final(self).spec_alive(e));
                        }
                    }
                }
                assert forall|x: Entity, k: u64|
                    final(self).spec_alive(x) && old(self).spec_has_component(k, x)
                        implies final(self).spec_component(k, x) == old(self).spec_component(
                    k,
                    x,
                ) by {
                    assert(!removed_seq.contains(x));
                    let p = old(self).components.spec_key_index(k);
                    assert(old(self).components.ids@[p] == k);
                    assert(final(self).components.ids@ == old(self).components.ids@);
                    final(self).components.lemma_key_index(k, p);
                    assert(final(self).components.pools@[p].spec_contains(x));
                    assert(final(self).components.pools@[p].spec_value(x) == m1
                        .components.pools@[p].spec_value(x));
                }
                // the freed records are exactly the destroyed subtree
                let ghost base = old(self).entities.destroyed@.len() as int;
                assert forall|k: int|
                    base <= k < final(self).entities.destroyed@.len() implies old(self).spec_alive(#[trigger] final(self).entities.destroyed@[k].owner) && old(self).entities.spec_in_subtree(
                    final(self).entities.destroyed@[k].owner.0 as int,
                    entity.0 as int,
                ) by {
                    let x = final(self).entities.destroyed@[k].owner;
                    assert(x == removed_seq[k - base]);
                    assert(removed_seq.contains(x));
                }
                assert forall|x: Entity|
                    old(self).spec_alive(x) && old(self).entities.spec_in_subtree(
                        x.0 as int,
                        entity.0 as int,
                    ) implies exists|k: int|
                    base <= k < final(self).entities.destroyed@.len() && (#[trigger] final(self).entities.destroyed@[k]).owner == x by {
                    assert(removed_seq.contains(x));
                    let j = choose|j: int| 0 <= j < removed_seq.len() && removed_seq[j] == x;
                    assert(final(self).entities.destroyed@[base + j].owner == x);
                }
                if forall|c: Entity| !old(self).entities.spec_record(entity).spec_has_child(c) {
                    assert(final(self).entities.destroyed@.len() == base + 1);
                    assert(final(self).entities.destroyed@.last().owner == entity);
                    assert(final(self).entities.destroyed@ =~= old(self).entities.destroyed@.push(final(self).entities.destroyed@.last()));
                }
            }
        }
    }
}

impl<C> Default for Manager<C> {
    /// Same as `Manager::new`.
    fn default() -> (manager: Self)
        ensures
            manager.wf(),
            forall|e: Entity| !manager.spec_alive(e),
            forall|key: u64| !manager.components.spec_has_key(key),
            manager.entities.spec_pending().len() == 0,
    {
        Self::new()
    }
}

} // verus!
