//! Type-indexed registry of component pools. Each component kind is named by
//! a caller-chosen key; the registry assigns every distinct key a stable pool
//! index on first use, and that index doubles as the kind's archetype bit.

use vstd::prelude::*;
use vstd::std_specs::vec::vec_index_mut;

use crate::component_pool::purged;
use crate::component_pool::AnyComponentPool;
use crate::component_pool::ComponentPool;
use crate::entity::Entity;

verus! {

/// Two registries with the same keys whose pools agree everywhere except at
/// `key`'s index assign every other key the same index and the same pool.
proof fn lemma_other_pools_equal<C>(a: ComponentManager<C>, b: ComponentManager<C>, key: u64)
    requires
        a.wf(),
        b.ids == a.ids,
        b.pools@.len() == a.pools@.len(),
        a.spec_has_key(key),
        forall|p: int|
            0 <= p < a.pools@.len() && p != a.spec_key_index(key) ==> b.pools@[p] == a.pools@[p],
    ensures
        forall|k: u64| b.spec_has_key(k) == a.spec_has_key(k),
        forall|k: u64|
            k != key && a.spec_has_key(k) ==> b.spec_key_index(k) == a.spec_key_index(k)
                && b.spec_pool(k) == a.spec_pool(k),
{
    assert(b.ids@ == a.ids@);
    assert forall|k: u64|
        k != key && a.spec_has_key(k) implies b.spec_key_index(k) == a.spec_key_index(k)
        && b.spec_pool(k) == a.spec_pool(k) by {
        let j = a.spec_key_index(k);
        assert(a.ids@[j] == k);
        let i = a.spec_key_index(key);
        assert(a.ids@[i] == key);
        assert(j != i);
        assert(b.pools@[j] == a.pools@[j]);
    }
}

/// A registry of component pools, one per registered component kind. All
/// pools store values of the component type `C` (typically an enum over the
/// game's component kinds); the key tells the kinds apart.
pub struct ComponentManager<C> {
    pub ids: Vec<u64>,
    pub pools: Vec<ComponentPool<C>>,
}

impl<C> ComponentManager<C> {
    /// One pool per key, keys distinct, every pool well-formed.
    pub open spec fn wf(self) -> bool {
        &&& self.ids@.len() == self.pools@.len()
        &&& forall|i: int, j: int|
            0 <= i < j < self.ids@.len() ==> self.ids@[i] != self.ids@[j]
        &&& forall|p: int| 0 <= p < self.pools@.len() ==> (#[trigger] self.pools@[p]).wf()
    }

    /// The key has been registered.
    pub open spec fn spec_has_key(self, key: u64) -> bool {
        self.ids@.contains(key)
    }

    /// The pool index assigned to a registered key.
    pub open spec fn spec_key_index(self, key: u64) -> int {
        self.ids@.index_of(key)
    }

    /// The pool assigned to a registered key.
    pub open spec fn spec_pool(self, key: u64) -> ComponentPool<C> {
        self.pools@[self.spec_key_index(key)]
    }

    /// `owner` has a component of the kind named by `key`.
    pub open spec fn spec_has_component(self, key: u64, owner: Entity) -> bool {
        self.spec_has_key(key) && self.spec_pool(key).spec_contains(owner)
    }

    /// The component of kind `key` owned by `owner`.
    pub open spec fn spec_component(self, key: u64, owner: Entity) -> C {
        self.spec_pool(key).spec_value(owner)
    }

    /// A registered key's index is the unique position holding it.
    pub proof fn lemma_key_index(self, key: u64, i: int)
        requires
            self.wf(),
            0 <= i < self.ids@.len(),
            self.ids@[i] == key,
        ensures
            self.spec_has_key(key),
            self.spec_key_index(key) == i,
    {
        assert(self.ids@.contains(key));
        let j = self.ids@.index_of(key);
        assert(self.ids@[j] == key);
        if i != j {
            if i < j {
                assert(self.ids@[i] != self.ids@[j]);
            } else {
                assert(self.ids@[j] != self.ids@[i]);
            }
        }
    }

    /// An empty registry.
    pub fn new() -> (manager: Self)
        ensures
            manager.wf(),
            manager.ids@.len() == 0,
            manager.pools@.len() == 0,
            forall|key: u64| !manager.spec_has_key(key),
    {
        Self { ids: Vec::new(), pools: Vec::new() }
    }

    /// The pool index of `key`, if the key has been registered.
    pub fn id(&self, key: u64) -> (pool_id: Option<usize>)
        requires
            self.wf(),
        ensures
            pool_id is Some <==> self.spec_has_key(key),
            pool_id matches Some(i) ==> self.spec_key_index(key) == i && i < self.pools@.len(),
    {
        let n = self.ids.len();
        let mut i: usize = 0;
        while i < n
            invariant
                i <= n,
                n == self.ids@.len(),
                self.wf(),
                forall|j: int| 0 <= j < i ==> self.ids@[j] != key,
            decreases n - i,
        {
            if self.ids[i] == key {
                proof {
                    self.lemma_key_index(key, i as int);
                }
                return Some(i);
            }
            i += 1;
        }
        proof {
            assert(!self.ids@.contains(key));
        }
        None
    }

    /// The pool index of `key`, registering the key with a fresh empty pool
    /// on first use. The index assigned to a key never changes.
    pub fn register(&mut self, key: u64) -> (pool_id: usize)
        requires
            old(self).wf(),
        ensures
            final(self).wf(),
            final(self).spec_has_key(key),
            final(self).spec_key_index(key) == pool_id,
            pool_id < final(self).pools@.len(),
            old(self).spec_has_key(key) ==> *final(self) == *old(self),
            !old(self).spec_has_key(key) ==> {
                &&& pool_id == old(self).ids@.len()
                &&& final(self).ids@ == old(self).ids@.push(key)
                &&& final(self).pools@.len() == old(self).pools@.len() + 1
                &&& forall|p: int|
                    0 <= p < old(self).pools@.len() ==> final(self).pools@[p] == old(self).pools@[p]
                &&& final(self).pools@[pool_id as int].dense@.len() == 0
                &&& final(self).pools@[pool_id as int].owners@.len() == 0
                &&& forall|e: Entity| !final(self).pools@[pool_id as int].spec_contains(e)
            },
            forall|k: u64|
                k != key ==> final(self).spec_has_key(k) == old(self).spec_has_key(k),
            forall|k: u64|
                k != key && old(self).spec_has_key(k) ==> final(self).spec_key_index(k) == old(self).spec_key_index(k) && final(self).spec_pool(k) == old(self).spec_pool(k),
    {
        let found = self.id(key);
        match found {
            Some(i) => i,
            None => {
                let i = self.pools.len();
                self.ids.push(key);
                self.pools.push(ComponentPool::new());
                proof {
                    assert(final(self).ids@[i as int] == key);
                    assert(final(self).wf());
                    final(self).lemma_key_index(key, i as int);
                    assert forall|k: u64| k != key && old(self).spec_has_key(k) implies final(self).spec_key_index(k) == old(self).spec_key_index(k) && final(self).spec_pool(k)
                        == old(self).spec_pool(k) by {
                        let j = old(self).spec_key_index(k);
                        assert(old(self).ids@[j] == k);
                        assert(final(self).ids@[j] == k);
                        final(self).lemma_key_index(k, j);
                    }
                    assert forall|k: u64|
                        k != key implies final(self).spec_has_key(k) == old(self).spec_has_key(
                        k,
                    ) by {
                        if final(self).ids@.contains(k) {
                            let j = choose|j: int|
                                0 <= j < final(self).ids@.len() && final(self).ids@[j] == k;
                            assert(j < old(self).ids@.len());
                            assert(old(self).ids@[j] == k);
                            assert(old(self).ids@.contains(k));
                        }
                        if old(self).ids@.contains(k) {
                            let j = choose|j: int|
                                0 <= j < old(self).ids@.len() && old(self).ids@[j] == k;
                            assert(final(self).ids@[j] == k);
                            assert(final(self).ids@.contains(k));
                        }
                    }
                }
                i
            },
        }
    }

    /// Stores `component` as `owner`'s component of kind `key`, registering
    /// the key if needed. Replaces and returns the previous component when
    /// the owner already had one of this kind.
    pub fn insert(&mut self, key: u64, owner: Entity, component: C) -> (replaced: Option<C>)
        requires
            old(self).wf(),
            owner.0 < usize::MAX,
        ensures
            final(self).wf(),
            final(self).spec_has_key(key),
            replaced == if old(self).spec_has_component(key, owner) {
                Some(old(self).spec_component(key, owner))
            } else {
                None::<C>
            },
            forall|e: Entity|
                final(self).spec_has_component(key, e) == (old(self).spec_has_component(key, e)
                    || e == owner),
            final(self).spec_component(key, owner) == component,
            forall|e: Entity|
                old(self).spec_has_component(key, e) && e != owner ==> final(self).spec_component(key, e) == old(self).spec_component(key, e),
            forall|k: u64|
                k != key ==> final(self).spec_has_key(k) == old(self).spec_has_key(k),
            forall|k: u64|
                k != key && old(self).spec_has_key(k) ==> final(self).spec_pool(k) == old(self).spec_pool(k),
            final(self).ids@ == if old(self).spec_has_key(key) {
                old(self).ids@
            } else {
                old(self).ids@.push(key)
            },
    {
        let ghost mid_has = old(self).spec_has_key(key);
        let p = self.register(key);
        let ghost mid = *self;
        let pool = vec_index_mut(&mut self.pools, p);
        let replaced = pool.insert(owner, component);
        proof {
            assert(final(self).ids == mid.ids);
            assert(final(self).pools@ == mid.pools@.update(p as int, final(self).pools@[p as int]));
            assert(final(self).wf());
            final(self).lemma_key_index(key, p as int);
            assert forall|k: u64|
                k != key && old(self).spec_has_key(k) implies final(self).spec_pool(k) == old(self).spec_pool(k) by {
                let j = old(self).spec_key_index(k);
                assert(old(self).ids@[j] == k);
                assert(final(self).ids@[j] == k);
                final(self).lemma_key_index(k, j);
                mid.lemma_key_index(k, j);
                assert(j != p);
            }
        }
        replaced
    }

    /// Whether `owner` has a component of kind `key`.
    pub fn has(&self, key: u64, owner: Entity) -> (present: bool)
        requires
            self.wf(),
        ensures
            present == self.spec_has_component(key, owner),
    {
        match self.pool(key) {
            Some(pool) => pool.has(owner),
            None => false,
        }
    }

    /// A shared borrow of `owner`'s component of kind `key`, if present.
    pub fn get(&self, key: u64, owner: Entity) -> (component: Option<&C>)
        requires
            self.wf(),
        ensures
            component is Some <==> self.spec_has_component(key, owner),
            self.spec_has_component(key, owner) ==> component->0 == self.spec_component(
                key,
                owner,
            ),
    {
        match self.pool(key) {
            Some(pool) => pool.get(owner),
            None => None,
        }
    }

    /// The dense array of all components of kind `key`; empty when the key
    /// is unregistered.
    pub fn all(&self, key: u64) -> (components: &[C])
        requires
            self.wf(),
        ensures
            self.spec_has_key(key) ==> components@ == self.spec_pool(key).dense@,
            !self.spec_has_key(key) ==> components@.len() == 0,
    {
        match self.pool(key) {
            Some(pool) => pool.all(),
            None => &[],
        }
    }

    /// The dense array of owners of components of kind `key`; empty when the
    /// key is unregistered.
    pub fn owners(&self, key: u64) -> (owners: &[Entity])
        requires
            self.wf(),
        ensures
            self.spec_has_key(key) ==> owners@ == self.spec_pool(key).owners@,
            !self.spec_has_key(key) ==> owners@.len() == 0,
    {
        match self.pool(key) {
            Some(pool) => pool.owners.as_slice(),
            None => &[],
        }
    }

    /// A mutable borrow of `owner`'s component of kind `key`, if present.
    /// Writing through the borrow changes only that owner's value: the keys,
    /// every other pool, and the pool's own index arrays are untouched.
    pub fn get_mut(&mut self, key: u64, owner: Entity) -> (component: Option<&mut C>)
        requires
            old(self).wf(),
        ensures
            component is Some <==> old(self).spec_has_component(key, owner),
            !old(self).spec_has_component(key, owner) ==> final(self).ids == old(self).ids
                && final(self).pools@ == old(self).pools@,
            old(self).spec_has_component(key, owner) ==> {
                &&& *component->0 == old(self).spec_component(key, owner)
                &&& final(self).ids == old(self).ids
                &&& final(self).pools@.len() == old(self).pools@.len()
                &&& forall|p: int|
                    0 <= p < old(self).pools@.len() && p != old(self).spec_key_index(key)
                        ==> final(self).pools@[p] == old(self).pools@[p]
                &&& final(self).pools@[old(self).spec_key_index(key)].owners == old(self).spec_pool(key).owners
                &&& final(self).pools@[old(self).spec_key_index(key)].sparse == old(self).spec_pool(key).sparse
                &&& final(self).pools@[old(self).spec_key_index(key)].dense@ == old(self).spec_pool(
                    key,
                ).dense@.update(old(self).spec_pool(key).spec_index_of(owner), *final(component->0))
            },
    {
        let found = self.id(key);
        match found {
            Some(i) => {
                let pool = vec_index_mut(&mut self.pools, i);
                pool.get_mut(owner)
            },
            None => None,
        }
    }

    /// Removes and returns `owner`'s component of kind `key`, if present;
    /// every other entry in every pool is preserved.
    pub fn remove(&mut self, key: u64, owner: Entity) -> (removed: Option<C>)
        requires
            old(self).wf(),
        ensures
            final(self).wf(),
            removed is Some <==> old(self).spec_has_component(key, owner),
            !old(self).spec_has_component(key, owner) ==> final(self).ids == old(self).ids
                && final(self).pools@ == old(self).pools@,
            old(self).spec_has_component(key, owner) ==> {
                &&& removed == Some(old(self).spec_component(key, owner))
                &&& final(self).ids == old(self).ids
                &&& forall|e: Entity, k: u64|
                    final(self).spec_has_component(k, e) == (old(self).spec_has_component(k, e)
                        && !(k == key && e == owner))
                &&& forall|e: Entity, k: u64|
                    old(self).spec_has_component(k, e) && !(k == key && e == owner) ==> final(self).spec_component(k, e) == old(self).spec_component(k, e)
            },
    {
        let found = self.id(key);
        match found {
            Some(i) => {
                let ghost pre = *self;
                let pool = vec_index_mut(&mut self.pools, i);
                let removed = pool.remove(owner);
                proof {
                    assert(final(self).pools@ == pre.pools@.update(
                        i as int,
                        final(self).pools@[i as int],
                    ));
                    if pre.spec_pool(key).spec_contains(owner) {
                        assert(final(self).wf());
                        lemma_other_pools_equal(pre, *final(self), key);
                    } else {
                        assert(final(self).pools@ =~= pre.pools@);
                    }
                }
                removed
            },
            None => None,
        }
    }

    /// Discards `owner`'s component in every registered pool; every other
    /// entry in every pool survives with its value.
    pub fn destroy(&mut self, owner: Entity)
        requires
            old(self).wf(),
        ensures
            final(self).wf(),
            final(self).ids == old(self).ids,
            final(self).pools@.len() == old(self).pools@.len(),
            forall|p: int|
                0 <= p < old(self).pools@.len() ==> purged(
                    old(self).pools@[p],
                    #[trigger] final(self).pools@[p],
                    owner,
                ),
    {
        let n = self.pools.len();
        let mut p: usize = 0;
        while p < n
            invariant
                p <= n,
                n == self.pools@.len(),
                self.ids == old(self).ids,
                self.pools@.len() == old(self).pools@.len(),
                forall|q: int| 0 <= q < n ==> (#[trigger] self.pools@[q]).wf(),
                forall|i: int, j: int| 0 <= i < j < self.ids@.len() ==> self.ids@[i] != self.ids@[j],
                self.ids@.len() == self.pools@.len(),
                forall|q: int|
                    0 <= q < p ==> purged(old(self).pools@[q], #[trigger] self.pools@[q], owner),
                forall|q: int| p <= q < n ==> self.pools@[q] == old(self).pools@[q],
            decreases n - p,
        {
            let pool = vec_index_mut(&mut self.pools, p);
            let _removed = pool.remove(owner);
            p += 1;
        }
    }

    /// Discards every component in every registered pool; the pools and
    /// their indices survive.
    pub fn clear(&mut self)
        requires
            old(self).wf(),
        ensures
            final(self).wf(),
            final(self).ids == old(self).ids,
            final(self).pools@.len() == old(self).pools@.len(),
            forall|p: int, e: Entity|
                0 <= p < final(self).pools@.len() ==> !(#[trigger] final(self).pools@[p].spec_contains(e)),
            forall|p: int|
                0 <= p < final(self).pools@.len() ==> (#[trigger] final(self).pools@[p]).dense@.len() == 0,
    {
        let n = self.pools.len();
        let mut p: usize = 0;
        while p < n
            invariant
                p <= n,
                n == self.pools@.len(),
                self.ids == old(self).ids,
                self.pools@.len() == old(self).pools@.len(),
                forall|q: int| 0 <= q < n ==> (#[trigger] self.pools@[q]).wf(),
                forall|i: int, j: int| 0 <= i < j < self.ids@.len() ==> self.ids@[i] != self.ids@[j],
                self.ids@.len() == self.pools@.len(),
                forall|q: int, e: Entity|
                    0 <= q < p ==> !(#[trigger] self.pools@[q].spec_contains(e)),
                forall|q: int| 0 <= q < p ==> (#[trigger] self.pools@[q]).dense@.len() == 0,
            decreases n - p,
        {
            let pool = vec_index_mut(&mut self.pools, p);
            pool.clear();
            p += 1;
        }
    }

    /// The dense array of all components of kind `key`, mutably; empty when
    /// the key is unregistered. Writing through it cannot change which
    /// entities own components, only their values.
    pub fn all_mut(&mut self, key: u64) -> (components: &mut [C])
        requires
            old(self).wf(),
        ensures
            final(self).ids == old(self).ids,
            !old(self).spec_has_key(key) ==> components@.len() == 0 && final(self).pools@ == old(self).pools@,
            old(self).spec_has_key(key) ==> {
                &&& components@ == old(self).spec_pool(key).dense@
                &&& final(self).pools@.len() == old(self).pools@.len()
                &&& forall|p: int|
                    0 <= p < old(self).pools@.len() && p != old(self).spec_key_index(key)
                        ==> final(self).pools@[p] == old(self).pools@[p]
                &&& final(self).pools@[old(self).spec_key_index(key)].owners == old(self).spec_pool(key).owners
                &&& final(self).pools@[old(self).spec_key_index(key)].sparse == old(self).spec_pool(key).sparse
                &&& final(self).pools@[old(self).spec_key_index(key)].dense@ == final(components)@
            },
    {
        match self.id(key) {
            Some(i) => {
                let pool = vec_index_mut(&mut self.pools, i);
                pool.all_mut()
            },
            None => &mut [],
        }
    }

    /// The pool registered for `key`, if any.
    fn pool(&self, key: u64) -> (pool: Option<&ComponentPool<C>>)
        requires
            self.wf(),
        ensures
            pool is Some <==> self.spec_has_key(key),
            self.spec_has_key(key) ==> {
                &&& pool->0 == self.spec_pool(key)
                &&& pool->0.wf()
            },
    {
        match self.id(key) {
            Some(i) => Some(&self.pools[i]),
            None => None,
        }
    }
}

} // verus!
