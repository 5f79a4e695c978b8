use vstd::prelude::*;

verus! {

/// A handle to one storage slot: the positional index of an entity.
#[derive(Clone, Copy, Debug, PartialEq, Eq, Structural)]
pub struct Entity {
    pub(crate) index: usize,
}

impl Entity {
    /// The positional index that this handle names.
    pub closed spec fn index_spec(&self) -> usize {
        self.index
    }

    /// The handle of the entity at `index`.
    pub fn new(index: usize) -> (r: Entity)
        ensures
            r.index_spec() == index,
    {
        Entity { index }
    }

    /// The positional index that this handle names.
    pub fn index(&self) -> (r: usize)
        ensures
            r == self.index_spec(),
    {
        self.index
    }
}

} // verus!
