//! Entity identity: an opaque, copyable wrapper around a non-negative index.

use vstd::prelude::*;

verus! {

/// A game-object identity. Entities compare and hash by their index alone;
/// a destroyed identity may later be reissued for a fresh object.
#[derive(Debug, Eq, PartialEq, Copy, Clone, Hash, Structural)]
pub struct Entity(pub usize);

impl Entity {
    /// Wraps a raw index as an entity identity.
    pub fn new(id: usize) -> (entity: Self)
        ensures
            entity.0 == id,
    {
        Entity(id)
    }

    /// The raw index of this entity.
    pub fn id(self) -> (id: usize)
        ensures
            id == self.0,
    {
        self.0
    }
}

} // verus!
