//! Type-indexed singleton store for engine-wide resources, independent of
//! entities: at most one resource per key; insertion replaces and returns the
//! previous value.

use vstd::prelude::*;
use vstd::std_specs::vec::vec_index_mut;

verus! {

/// A store of at most one resource per key. All resources share the value
/// type `R` (typically an enum over the engine's resource kinds); the key
/// tells the kinds apart.
pub struct ResourceManager<R> {
    pub keys: Vec<u64>,
    pub values: Vec<R>,
}

impl<R> ResourceManager<R> {
    /// One value per key, keys distinct.
    pub open spec fn wf(self) -> bool {
        &&& self.keys@.len() == self.values@.len()
        &&& forall|i: int, j: int| 0 <= i < j < self.keys@.len() ==> self.keys@[i] != self.keys@[j]
    }

    /// A resource is stored under `key`.
    pub open spec fn spec_has(self, key: u64) -> bool {
        self.keys@.contains(key)
    }

    /// The slot holding `key`'s resource.
    pub open spec fn spec_index(self, key: u64) -> int {
        self.keys@.index_of(key)
    }

    /// The resource stored under `key`.
    pub open spec fn spec_get(self, key: u64) -> R {
        self.values@[self.spec_index(key)]
    }

    /// A stored key's slot is the unique position holding it.
    proof fn lemma_index(self, key: u64, i: int)
        requires
            self.wf(),
            0 <= i < self.keys@.len(),
            self.keys@[i] == key,
        ensures
            self.spec_has(key),
            self.spec_index(key) == i,
    {
        assert(self.keys@.contains(key));
        let j = self.keys@.index_of(key);
        assert(self.keys@[j] == key);
        if i < j {
            assert(self.keys@[i] != self.keys@[j]);
        } else if j < i {
            assert(self.keys@[j] != self.keys@[i]);
        }
    }

    /// An empty store.
    pub fn new() -> (manager: Self)
        ensures
            manager.wf(),
            manager.keys@.len() == 0,
            forall|key: u64| !manager.spec_has(key),
    {
        Self { keys: Vec::new(), values: Vec::new() }
    }

    /// The slot of `key`, if a resource is stored under it.
    fn index_of(&self, key: u64) -> (slot: Option<usize>)
        requires
            self.wf(),
        ensures
            slot is Some <==> self.spec_has(key),
            slot matches Some(i) ==> self.spec_index(key) == i && i < self.values@.len(),
    {
        let n = self.keys.len();
        let mut i: usize = 0;
        while i < n
            invariant
                i <= n,
                n == self.keys@.len(),
                self.wf(),
                forall|j: int| 0 <= j < i ==> self.keys@[j] != key,
            decreases n - i,
        {
            if self.keys[i] == key {
                proof {
                    self.lemma_index(key, i as int);
                }
                return Some(i);
            }
            i += 1;
        }
        proof {
            assert(!self.keys@.contains(key));
        }
        None
    }

    /// Stores `resource` under `key`, replacing and returning the previous
    /// resource stored under that key, if any. Other keys are untouched.
    pub fn insert(&mut self, key: u64, resource: R) -> (replaced: Option<R>)
        requires
            old(self).wf(),
        ensures
            final(self).wf(),
            replaced == if old(self).spec_has(key) {
                Some(old(self).spec_get(key))
            } else {
                None::<R>
            },
            forall|k: u64| final(self).spec_has(k) == (old(self).spec_has(k) || k == key),
            final(self).spec_get(key) == resource,
            forall|k: u64|
                old(self).spec_has(k) && k != key ==> final(self).spec_get(k) == old(self).spec_get(k),
    {
        let found = self.index_of(key);
        match found {
            Some(i) => {
                let mut r = resource;
                self.values.set_and_swap(i, &mut r);
                proof {
                    assert forall|k: u64|
                        final(self).spec_has(k) == (old(self).spec_has(k) || k == key) by {}
                    assert forall|k: u64|
                        old(self).spec_has(k) && k != key implies final(self).spec_get(k) == old(self).spec_get(k) by {
                        let j = old(self).spec_index(k);
                        assert(old(self).keys@[j] == k);
                        final(self).lemma_index(k, j);
                        assert(j != i);
                    }
                }
                Some(r)
            },
            None => {
                let ghost n = self.keys@.len();
                self.keys.push(key);
                self.values.push(resource);
                proof {
                    assert(final(self).keys@[n as int] == key);
                    assert(final(self).wf());
                    final(self).lemma_index(key, n as int);
                    assert forall|k: u64|
                        final(self).spec_has(k) == (old(self).spec_has(k) || k == key) by {
                        if k != key {
                            if final(self).keys@.contains(k) {
                                let j = choose|j: int|
                                    0 <= j < final(self).keys@.len() && final(self).keys@[j] == k;
                                assert(j < n);
                                assert(old(self).keys@[j] == k);
                                assert(old(self).keys@.contains(k));
                            }
                            if old(self).keys@.contains(k) {
                                let j = choose|j: int|
                                    0 <= j < old(self).keys@.len() && old(self).keys@[j] == k;
                                assert(final(self).keys@[j] == k);
                                assert(final(self).keys@.contains(k));
                            }
                        }
                    }
                    assert forall|k: u64|
                        old(self).spec_has(k) && k != key implies final(self).spec_get(k) == old(self).spec_get(k) by {
                        let j = old(self).spec_index(k);
                        assert(old(self).keys@[j] == k);
                        assert(final(self).keys@[j] == k);
                        final(self).lemma_index(k, j);
                    }
                }
                None
            },
        }
    }

    /// Whether a resource is stored under `key`.
    pub fn has(&self, key: u64) -> (present: bool)
        requires
            self.wf(),
        ensures
            present == self.spec_has(key),
    {
        self.index_of(key).is_some()
    }

    /// A shared borrow of `key`'s resource, if stored.
    pub fn get(&self, key: u64) -> (resource: Option<&R>)
        requires
            self.wf(),
        ensures
            resource is Some <==> self.spec_has(key),
            self.spec_has(key) ==> resource->0 == self.spec_get(key),
    {
        match self.index_of(key) {
            Some(i) => Some(&self.values[i]),
            None => None,
        }
    }

    /// A mutable borrow of `key`'s resource, if stored. Writing through the
    /// borrow changes only that key's value.
    pub fn get_mut(&mut self, key: u64) -> (resource: Option<&mut R>)
        requires
            old(self).wf(),
        ensures
            resource is Some <==> old(self).spec_has(key),
            final(self).keys == old(self).keys,
            !old(self).spec_has(key) ==> final(self).values@ == old(self).values@,
            old(self).spec_has(key) ==> {
                &&& *resource->0 == old(self).spec_get(key)
                &&& final(self).values@ == old(self).values@.update(
                    old(self).spec_index(key),
                    *final(resource->0),
                )
            },
    {
        match self.index_of(key) {
            Some(i) => Some(vec_index_mut(&mut self.values, i)),
            None => None,
        }
    }

    /// Removes and returns `key`'s resource, if stored; the resources stored
    /// under other keys survive with their values.
    pub fn remove(&mut self, key: u64) -> (removed: Option<R>)
        requires
            old(self).wf(),
        ensures
            final(self).wf(),
            removed == if old(self).spec_has(key) {
                Some(old(self).spec_get(key))
            } else {
                None::<R>
            },
            forall|k: u64| final(self).spec_has(k) == (old(self).spec_has(k) && k != key),
            forall|k: u64|
                old(self).spec_has(k) && k != key ==> final(self).spec_get(k) == old(self).spec_get(k),
    {
        let found = self.index_of(key);
        match found {
            Some(i) => {
                let _moved_key = self.keys.swap_remove(i);
                let removed = self.values.swap_remove(i);
                proof {
                    assert(final(self).wf());
                    assert forall|k: u64|
                        final(self).spec_has(k) == (old(self).spec_has(k) && k != key) by {
                        if final(self).keys@.contains(k) {
                            let j = choose|j: int|
                                0 <= j < final(self).keys@.len() && final(self).keys@[j] == k;
                            if j == i {
                                assert(old(self).keys@[old(self).keys@.len() - 1] == k);
                            } else {
                                assert(old(self).keys@[j] == k);
                            }
                            assert(old(self).keys@.contains(k));
                            assert(k != key);
                        }
                        if old(self).spec_has(k) && k != key {
                            let j = old(self).spec_index(k);
                            assert(old(self).keys@[j] == k);
                            assert(j != i);
                            if j == old(self).keys@.len() - 1 {
                                assert(final(self).keys@[i as int] == k);
                            } else {
                                assert(final(self).keys@[j] == k);
                            }
                            assert(final(self).keys@.contains(k));
                        }
                    }
                    assert forall|k: u64|
                        old(self).spec_has(k) && k != key implies final(self).spec_get(k) == old(self).spec_get(k) by {
                        let j = old(self).spec_index(k);
                        assert(old(self).keys@[j] == k);
                        assert(j != i);
                        if j == old(self).keys@.len() - 1 {
                            final(self).lemma_index(k, i as int);
                        } else {
                            final(self).lemma_index(k, j);
                        }
                    }
                }
                Some(removed)
            },
            None => None,
        }
    }

    /// Discards every stored resource.
    pub fn clear(&mut self)
        ensures
            final(self).wf(),
            forall|k: u64| !final(self).spec_has(k),
    {
        self.keys.clear();
        self.values.clear();
    }
}

} // verus!
