//! Per-entity state: the owning entity, its archetype bitset, an optional
//! parent, and a sparse-set of children. The record enforces the local
//! hierarchy rules (never its own parent or child, parent and child sets
//! disjoint); mutating the hierarchy marks the record's archetype dirty.

use vstd::prelude::*;

use crate::archetype::Archetype;
use crate::entity::Entity;

verus! {

/// The state stored for one live entity.
pub struct EntityData {
    pub owner: Entity,
    pub archetype: Archetype,
    pub parent: Option<Entity>,
    pub sparse: Vec<Option<usize>>,
    pub dense: Vec<Entity>,
}

impl EntityData {
    /// `child` is in this record's child set.
    pub open spec fn spec_has_child(self, child: Entity) -> bool {
        child.0 < self.sparse@.len() && self.sparse@[child.0 as int] is Some
    }

    /// The child sparse-set arrays point at each other consistently.
    pub open spec fn children_wf(self) -> bool {
        &&& forall|i: int|
            0 <= i < self.dense@.len() ==> {
                &&& (#[trigger] self.dense@[i]).0 < self.sparse@.len()
                &&& self.sparse@[self.dense@[i].0 as int] == Some(i as usize)
            }
        &&& forall|e: int|
            0 <= e < self.sparse@.len() && (#[trigger] self.sparse@[e]) is Some ==> {
                &&& self.sparse@[e]->0 < self.dense@.len()
                &&& self.dense@[self.sparse@[e]->0 as int].0 == e
            }
    }

    /// Well-formed record: consistent child set, well-formed archetype, and
    /// the local hierarchy rules.
    pub open spec fn wf(self) -> bool {
        &&& self.children_wf()
        &&& self.archetype.wf()
        &&& self.parent != Some(self.owner)
        &&& !self.spec_has_child(self.owner)
        &&& (self.parent matches Some(p) ==> !self.spec_has_child(p))
    }

    /// A fresh record for `owner`: empty archetype, no parent, no children.
    pub fn new(owner: Entity) -> (data: Self)
        ensures
            data.wf(),
            data.owner == owner,
            data.parent is None,
            data.dense@.len() == 0,
            forall|c: Entity| !data.spec_has_child(c),
            data.archetype.wf(),
            data.archetype.count == 0,
            data.archetype.owner == Some(owner),
            !data.archetype.dirty,
            forall|id: int| !data.archetype.spec_has(id),
    {
        Self {
            owner,
            archetype: Archetype::new(Some(owner)),
            parent: None,
            sparse: Vec::new(),
            dense: Vec::new(),
        }
    }

    /// The entity this record belongs to.
    pub fn owner(&self) -> (owner: Entity)
        ensures
            owner == self.owner,
    {
        self.owner
    }

    /// The record's archetype.
    pub fn archetype(&self) -> (archetype: &Archetype)
        ensures
            archetype == self.archetype,
    {
        &self.archetype
    }

    /// Mutable access to the record's archetype.
    pub fn archetype_mut(&mut self) -> (archetype: &mut Archetype)
        ensures
            *archetype == old(self).archetype,
            final(self).archetype == *final(archetype),
            final(self).owner == old(self).owner,
            final(self).parent == old(self).parent,
            final(self).sparse == old(self).sparse,
            final(self).dense == old(self).dense,
    {
        &mut self.archetype
    }

    /// The record's parent entity, if bound.
    pub fn parent(&self) -> (parent: Option<Entity>)
        ensures
            parent == self.parent,
    {
        self.parent
    }

    /// Reparents the record. Rejected when the new parent is the owner
    /// itself or one of its children; on success the archetype is marked
    /// dirty.
    pub fn set_parent(&mut self, value: Option<Entity>) -> (result: Result<(), ()>)
        requires
            old(self).wf(),
        ensures
            final(self).wf(),
            result is Err <==> (value matches Some(v) && (v == old(self).owner || old(
                self,
            ).spec_has_child(v))),
            result is Err ==> *final(self) == *old(self),
            result is Ok ==> {
                &&& final(self).parent == value
                &&& final(self).owner == old(self).owner
                &&& final(self).sparse == old(self).sparse
                &&& final(self).dense == old(self).dense
                &&& final(self).archetype == (Archetype { dirty: true, ..old(self).archetype })
            },
    {
        let rejected = match value {
            Some(v) => v.id() == self.owner.id() || self.has_child(v),
            None => false,
        };
        if rejected {
            Err(())
        } else {
            self.parent = value;
            self.archetype.dirty = true;
            proof {
                crate::archetype::lemma_wf_same_bits(old(self).archetype, final(self).archetype);
            }
            Ok(())
        }
    }

    /// Adds `child` to the child set. Rejected when the child is the owner
    /// itself or the current parent; adding an existing child is accepted
    /// and leaves the set unchanged. On success the archetype is marked
    /// dirty.
    pub fn insert_child(&mut self, child: Entity) -> (result: Result<(), ()>)
        requires
            old(self).wf(),
            child.0 < usize::MAX,
        ensures
            final(self).wf(),
            result is Err <==> (child == old(self).owner || Some(child) == old(self).parent),
            result is Err ==> *final(self) == *old(self),
            result is Ok ==> {
                &&& forall|c: Entity|
                    final(self).spec_has_child(c) == (old(self).spec_has_child(c) || c == child)
                &&& (old(self).spec_has_child(child) ==> final(self).dense == old(self).dense)
                &&& (!old(self).spec_has_child(child) ==> final(self).dense@ == old(
                    self,
                ).dense@.push(child))
                &&& final(self).owner == old(self).owner
                &&& final(self).parent == old(self).parent
                &&& final(self).archetype == (Archetype { dirty: true, ..old(self).archetype })
            },
    {
        if child.id() == self.owner.id() {
            return Err(());
        }
        if let Some(parent) = self.parent {
            if child.id() == parent.id() {
                proof {
                    assert(child == parent);
                }
                return Err(());
            }
        }
        let id = child.id();
        if self.sparse.len() <= id {
            let ghost pre = self.sparse@;
            while self.sparse.len() < id + 1
                invariant
                    id < usize::MAX,
                    pre.len() <= self.sparse@.len() <= id + 1,
                    forall|i: int| 0 <= i < pre.len() ==> self.sparse@[i] == pre[i],
                    forall|i: int|
                        pre.len() <= i < self.sparse@.len() ==> self.sparse@[i] is None,
                    self.dense == old(self).dense,
                    self.owner == old(self).owner,
                    self.parent == old(self).parent,
                    self.archetype == old(self).archetype,
                decreases id + 1 - self.sparse.len(),
            {
                self.sparse.push(None);
            }
        }
        let slot = self.sparse[id];
        if slot.is_none() {
            self.sparse.set(id, Some(self.dense.len()));
            self.dense.push(child);
        }
        self.archetype.dirty = true;
        proof {
            crate::archetype::lemma_wf_same_bits(old(self).archetype, final(self).archetype);
            assert(final(self).owner == old(self).owner);
            assert forall|c: Entity|
                final(self).spec_has_child(c) == (old(self).spec_has_child(c) || c == child) by {}
            assert forall|e: int|
                0 <= e < final(self).sparse@.len() && (#[trigger] final(self).sparse@[e])
                    is Some implies {
                &&& final(self).sparse@[e]->0 < final(self).dense@.len()
                &&& final(self).dense@[final(self).sparse@[e]->0 as int].0 == e
            } by {
                if e != id {
                    assert(e < old(self).sparse@.len() ==> final(self).sparse@[e] == old(
                        self,
                    ).sparse@[e]);
                }
            }
        }
        Ok(())
    }

    /// Whether `child` is in the child set.
    pub fn has_child(&self, child: Entity) -> (present: bool)
        ensures
            present == self.spec_has_child(child),
    {
        child.id() < self.sparse.len() && self.sparse[child.id()].is_some()
    }

    /// The dense array of children, for bulk iteration.
    pub fn children(&self) -> (children: &[Entity])
        ensures
            children@ == self.dense@,
    {
        self.dense.as_slice()
    }

    /// Removes `child` from the child set via swap-removal; absent children
    /// are a no-op. A removal marks the archetype dirty.
    pub fn remove_child(&mut self, child: Entity)
        requires
            old(self).wf(),
        ensures
            final(self).wf(),
            !old(self).spec_has_child(child) ==> *final(self) == *old(self),
            old(self).spec_has_child(child) ==> {
                &&& forall|c: Entity|
                    final(self).spec_has_child(c) == (old(self).spec_has_child(c) && c != child)
                &&& final(self).dense@.len() == old(self).dense@.len() - 1
                &&& final(self).sparse@.len() == old(self).sparse@.len()
                &&& final(self).owner == old(self).owner
                &&& final(self).parent == old(self).parent
                &&& final(self).archetype == (Archetype { dirty: true, ..old(self).archetype })
            },
    {
        if child.id() >= self.sparse.len() {
            return ;
        }
        let slot = self.sparse[child.id()];
        if let Some(index) = slot {
            self.sparse.set(child.id(), None);
            if index == self.dense.len() - 1 {
                let _last = self.dense.pop();
            } else {
                self.dense.swap_remove(index);
                let moved = self.dense[index].id();
                self.sparse.set(moved, Some(index));
            }
            self.archetype.dirty = true;
            proof {
                crate::archetype::lemma_wf_same_bits(old(self).archetype, final(self).archetype);
                assert(final(self).children_wf());
            }
        }
    }

    /// Resets the record for reuse: no parent, no children, archetype
    /// cleared (and marked dirty) without shrinking its capacity.
    pub fn clear(&mut self)
        requires
            old(self).wf(),
        ensures
            final(self).wf(),
            final(self).owner == old(self).owner,
            final(self).parent is None,
            final(self).dense@.len() == 0,
            forall|c: Entity| !final(self).spec_has_child(c),
            forall|id: int| !final(self).archetype.spec_has(id),
            final(self).archetype.count == old(self).archetype.count,
            final(self).archetype.owner == old(self).archetype.owner,
            final(self).archetype.dirty,
    {
        self.parent = None;
        self.archetype.clear();
        self.sparse.clear();
        self.dense.clear();
    }
}

} // verus!
