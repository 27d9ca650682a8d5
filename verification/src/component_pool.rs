//! Sparse-set storage for one component type: a dense value array, a parallel
//! dense owner array, and a sparse index keyed by entity id. Insert, lookup
//! and swap-removal are all constant-time; removal does not preserve order.

use vstd::prelude::*;

use crate::entity::Entity;

verus! {

/// Operations every component pool offers regardless of its value type, so
/// that one entity's data can be purged from a whole registry of pools.
pub trait AnyComponentPool {
    /// The component type the pool stores.
    type Item;

    /// The pool's internal arrays are consistent.
    spec fn any_wf(&self) -> bool;

    /// The pool holds a component owned by `owner`.
    spec fn any_contains(&self, owner: Entity) -> bool;

    /// The component owned by `owner`.
    spec fn any_value(&self, owner: Entity) -> Self::Item;

    /// The dense sequence of owners.
    spec fn any_owners(&self) -> Seq<Entity>;

    /// The entities that currently own a component in this pool, densely
    /// packed for bulk iteration.
    fn owners(&self) -> (owners: &Vec<Entity>)
        ensures
            owners@ == self.any_owners(),
    ;

    /// Discards `owner`'s component, if any; all other entries survive
    /// with their values.
    fn destroy(&mut self, owner: Entity)
        requires
            old(self).any_wf(),
        ensures
            final(self).any_wf(),
            forall|e: Entity|
                final(self).any_contains(e) == (old(self).any_contains(e) && e != owner),
            forall|e: Entity|
                old(self).any_contains(e) && e != owner ==> final(self).any_value(e) == old(
                    self,
                ).any_value(e),
    ;

    /// Discards every component in the pool.
    fn clear(&mut self)
        requires
            old(self).any_wf(),
        ensures
            final(self).any_wf(),
            forall|e: Entity| !final(self).any_contains(e),
            final(self).any_owners().len() == 0,
    ;
}

/// `after` is `before` with `owner`'s component discarded: every other entry
/// keeps its owner and value.
pub open spec fn purged<T>(before: ComponentPool<T>, after: ComponentPool<T>, owner: Entity) -> bool {
    &&& forall|e: Entity| after.spec_contains(e) == (before.spec_contains(e) && e != owner)
    &&& forall|e: Entity|
        before.spec_contains(e) && e != owner ==> after.spec_value(e) == before.spec_value(e)
}

/// Sparse-set store of one component type.
pub struct ComponentPool<T> {
    pub dense: Vec<T>,
    pub owners: Vec<Entity>,
    pub sparse: Vec<Option<usize>>,
}

impl<T> ComponentPool<T> {
    /// The dense arrays run in parallel and the sparse index and owner array
    /// point at each other consistently.
    pub open spec fn wf(self) -> bool {
        &&& self.owners@.len() == self.dense@.len()
        &&& forall|i: int|
            0 <= i < self.owners@.len() ==> {
                &&& (#[trigger] self.owners@[i]).0 < self.sparse@.len()
                &&& self.sparse@[self.owners@[i].0 as int] == Some(i as usize)
            }
        &&& forall|e: int|
            0 <= e < self.sparse@.len() && (#[trigger] self.sparse@[e]) is Some ==> {
                &&& self.sparse@[e]->0 < self.owners@.len()
                &&& self.owners@[self.sparse@[e]->0 as int].0 == e
            }
    }

    /// The pool holds a component owned by `owner`.
    pub open spec fn spec_contains(self, owner: Entity) -> bool {
        owner.0 < self.sparse@.len() && self.sparse@[owner.0 as int] is Some
    }

    /// The dense slot holding `owner`'s component.
    pub open spec fn spec_index_of(self, owner: Entity) -> int {
        self.sparse@[owner.0 as int]->0 as int
    }

    /// The component owned by `owner`.
    pub open spec fn spec_value(self, owner: Entity) -> T {
        self.dense@[self.spec_index_of(owner)]
    }

    /// An empty pool.
    pub fn new() -> (pool: Self)
        ensures
            pool.wf(),
            pool.dense@.len() == 0,
            pool.owners@.len() == 0,
            forall|e: Entity| !pool.spec_contains(e),
    {
        Self { dense: Vec::new(), owners: Vec::new(), sparse: Vec::new() }
    }

    /// A pool holding a single component for `owner`.
    pub fn new_with_initial(owner: Entity, component: T) -> (pool: Self)
        requires
            owner.0 < usize::MAX,
        ensures
            pool.wf(),
            pool.dense@ =~= seq![component],
            pool.owners@ =~= seq![owner],
            forall|e: Entity| pool.spec_contains(e) == (e == owner),
            pool.spec_value(owner) == component,
    {
        let mut pool = Self::new();
        let replaced = pool.insert(owner, component);
        pool
    }

    /// Stores `component` for `owner`. When the owner already has one, the
    /// old component is replaced and returned; otherwise the new entry is
    /// appended to the dense arrays.
    pub fn insert(&mut self, owner: Entity, component: T) -> (replaced: Option<T>)
        requires
            old(self).wf(),
            owner.0 < usize::MAX,
        ensures
            final(self).wf(),
            replaced == if old(self).spec_contains(owner) {
                Some(old(self).spec_value(owner))
            } else {
                None::<T>
            },
            forall|e: Entity|
                final(self).spec_contains(e) == (old(self).spec_contains(e) || e == owner),
            final(self).spec_value(owner) == component,
            forall|e: Entity|
                old(self).spec_contains(e) && e != owner ==> final(self).spec_value(e) == old(self).spec_value(e),
            old(self).spec_contains(owner) ==> {
                &&& final(self).owners@ == old(self).owners@
                &&& final(self).dense@ == old(self).dense@.update(old(self).spec_index_of(owner), component)
            },
            !old(self).spec_contains(owner) ==> {
                &&& final(self).owners@ == old(self).owners@.push(owner)
                &&& final(self).dense@ == old(self).dense@.push(component)
            },
    {
        let id = owner.id();
        if self.sparse.len() <= id {
            let ghost pre = self.sparse@;
            while self.sparse.len() < id + 1
                invariant
                    id < usize::MAX,
                    pre.len() <= self.sparse@.len() <= id + 1,
                    forall|i: int| 0 <= i < pre.len() ==> self.sparse@[i] == pre[i],
                    forall|i: int|
                        pre.len() <= i < self.sparse@.len() ==> self.sparse@[i] is None,
                    self.dense == old(self).dense,
                    self.owners == old(self).owners,
                decreases id + 1 - self.sparse.len(),
            {
                self.sparse.push(None);
            }
        }
        let slot = self.sparse[id];
        if let Some(index) = slot {
            let mut c = component;
            self.dense.set_and_swap(index, &mut c);
            Some(c)
        } else {
            self.sparse.set(id, Some(self.dense.len()));
            self.dense.push(component);
            self.owners.push(owner);
            proof {
                assert forall|e: Entity|
                    final(self).spec_contains(e) == (old(self).spec_contains(e) || e
                        == owner) by {}
            }
            None
        }
    }

    /// Whether `owner` has a component in this pool.
    pub fn has(&self, owner: Entity) -> (present: bool)
        ensures
            present == self.spec_contains(owner),
    {
        owner.id() < self.sparse.len() && self.sparse[owner.id()].is_some()
    }

    /// A shared borrow of `owner`'s component, if present.
    pub fn get(&self, owner: Entity) -> (component: Option<&T>)
        requires
            self.wf(),
        ensures
            component is Some <==> self.spec_contains(owner),
            self.spec_contains(owner) ==> component->0 == self.spec_value(owner),
    {
        if owner.id() < self.sparse.len() {
            let slot = self.sparse[owner.id()];
            if let Some(index) = slot {
                Some(&self.dense[index])
            } else {
                None
            }
        } else {
            None
        }
    }

    /// A mutable borrow of `owner`'s component, if present. Writing through
    /// the borrow changes only that owner's value.
    pub fn get_mut(&mut self, owner: Entity) -> (component: Option<&mut T>)
        requires
            old(self).wf(),
        ensures
            component is Some <==> old(self).spec_contains(owner),
            !old(self).spec_contains(owner) ==> *final(self) == *old(self),
            old(self).spec_contains(owner) ==> {
                &&& *component->0 == old(self).spec_value(owner)
                &&& final(self).owners == old(self).owners
                &&& final(self).sparse == old(self).sparse
                &&& final(self).dense@ == old(self).dense@.update(old(self).spec_index_of(owner), *final(component->0))
                &&& final(self).wf()
            },
    {
        if owner.id() < self.sparse.len() {
            let slot = self.sparse[owner.id()];
            if let Some(index) = slot {
                Some(&mut self.dense[index])
            } else {
                None
            }
        } else {
            None
        }
    }

    /// The dense array of all components, for bulk iteration.
    pub fn all(&self) -> (components: &[T])
        ensures
            components@ == self.dense@,
    {
        self.dense.as_slice()
    }

    /// The dense array of all components, mutably. Writing through it cannot
    /// change which entities own components, only their values.
    pub fn all_mut(&mut self) -> (components: &mut [T])
        ensures
            components@ == old(self).dense@,
            final(self).dense@ == final(components)@,
            final(self).owners == old(self).owners,
            final(self).sparse == old(self).sparse,
            final(components)@.len() == old(self).dense@.len() && old(self).wf() ==> final(self).wf(),
    {
        self.dense.as_mut_slice()
    }

    /// Removes and returns `owner`'s component via swap-removal: the last
    /// dense entry moves into the vacated slot, so every other entry keeps
    /// its owner and value while the order may change.
    pub fn remove(&mut self, owner: Entity) -> (removed: Option<T>)
        requires
            old(self).wf(),
        ensures
            final(self).wf(),
            !old(self).spec_contains(owner) ==> removed is None && *final(self) == *old(self),
            old(self).spec_contains(owner) ==> {
                &&& removed == Some(old(self).spec_value(owner))
                &&& forall|e: Entity|
                    final(self).spec_contains(e) == (old(self).spec_contains(e) && e != owner)
                &&& forall|e: Entity|
                    old(self).spec_contains(e) && e != owner ==> final(self).spec_value(e) == old(self).spec_value(e)
                &&& final(self).dense@.len() == old(self).dense@.len() - 1
                &&& final(self).owners@.len() == old(self).owners@.len() - 1
                &&& final(self).sparse@.len() == old(self).sparse@.len()
            },
    {
        if owner.id() >= self.sparse.len() {
            return None;
        }
        let slot = self.sparse[owner.id()];
        if let Some(index) = slot {
            self.sparse.set(owner.id(), None);
            if index == self.dense.len() - 1 {
                let last = self.owners.pop();
                let value = self.dense.pop();
                proof {
                    assert forall|e: Entity|
                        final(self).spec_contains(e) == (old(self).spec_contains(e) && e
                            != owner) by {}
                }
                Some(value.unwrap())
            } else {
                self.owners.swap_remove(index);
                let swapped = self.owners[index].id();
                self.sparse.set(swapped, Some(index));
                let value = self.dense.swap_remove(index);
                proof {
                    assert(final(self).wf());
                }
                Some(value)
            }
        } else {
            None
        }
    }
}

impl<T> AnyComponentPool for ComponentPool<T> {
    type Item = T;

    open spec fn any_wf(&self) -> bool {
        self.wf()
    }

    open spec fn any_contains(&self, owner: Entity) -> bool {
        self.spec_contains(owner)
    }

    open spec fn any_value(&self, owner: Entity) -> T {
        self.spec_value(owner)
    }

    open spec fn any_owners(&self) -> Seq<Entity> {
        self.owners@
    }

    fn owners(&self) -> (owners: &Vec<Entity>) {
        &self.owners
    }

    fn destroy(&mut self, owner: Entity) {
        let _removed = self.remove(owner);
    }

    fn clear(&mut self) {
        let n = self.sparse.len();
        let mut i: usize = 0;
        while i < n
            invariant
                i <= n,
                n == self.sparse@.len(),
                forall|k: int| 0 <= k < i ==> self.sparse@[k] is None,
            decreases n - i,
        {
            self.sparse.set(i, None);
            i += 1;
        }
        self.owners.clear();
        self.dense.clear();
    }
}

} // verus!
