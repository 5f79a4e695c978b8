use vstd::prelude::*;

use crate::dense::{indices_where, lemma_indices_where};
use crate::entity::Entity;

verus! {

/// The indices whose flag is set.
pub open spec fn flagged(marks: Seq<bool>) -> spec_fn(usize) -> bool {
    |i: usize| (i as int) < marks.len() && marks[i as int]
}

/// A presence-only container: one flag per registered entity, no payload.
pub struct MarkerContainer {
    marks: Vec<bool>,
}

impl MarkerContainer {
    /// The flag of each covered entity index.
    pub closed spec fn marks(&self) -> Seq<bool> {
        self.marks@
    }

    /// The marked entity indices.
    pub open spec fn marked(&self) -> Set<usize> {
        Set::new(flagged(self.marks()))
    }

    /// A container that covers no index.
    pub fn new() -> (r: Self)
        ensures
            r.marks() == Seq::<bool>::empty(),
    {
        MarkerContainer { marks: Vec::new() }
    }

    /// The number of covered indices.
    pub fn len(&self) -> (r: usize)
        ensures
            r == self.marks().len(),
    {
        self.marks.len()
    }

    /// Extends the flags with cleared ones up to and including the entity's index.
    pub fn add_entity(&mut self, entity: Entity)
        ensures
            final(self).marks().len() == if (entity.index_spec() as int) < old(self).marks().len() {
                old(self).marks().len() as int
            } else {
                entity.index_spec() + 1
            },
            forall|i: int|
                0 <= i < final(self).marks().len() ==> #[trigger] final(self).marks()[i] == (i
                    < old(self).marks().len() && old(self).marks()[i]),
            final(self).marked() == old(self).marked(),
    {
        let index = entity.index();
        while self.marks.len() <= index
            invariant
                old(self).marks@.len() <= self.marks@.len() <= if (index as int) < old(
                    self,
                ).marks@.len() {
                    old(self).marks@.len() as int
                } else {
                    index + 1
                },
                forall|i: int|
                    0 <= i < self.marks@.len() ==> #[trigger] self.marks@[i] == (i < old(
                        self,
                    ).marks@.len() && old(self).marks@[i]),
            decreases index + 1 - self.marks@.len(),
        {
            self.marks.push(false);
        }
        assert(self.marked() =~= old(self).marked());
    }

    /// Marks the entity, whose index must be covered.
    pub fn mark(&mut self, entity: Entity)
        requires
            (entity.index_spec() as int) < old(self).marks().len(),
        ensures
            final(self).marks() == old(self).marks().update(entity.index_spec() as int, true),
            final(self).marked() == old(self).marked().insert(entity.index_spec()),
    {
        self.marks.set(entity.index(), true);
        assert(self.marked() =~= old(self).marked().insert(entity.index_spec()));
    }

    /// Whether the entity is marked; an index that is not covered is not marked.
    pub fn is_marked(&self, entity: Entity) -> (r: bool)
        ensures
            r == self.marked().contains(entity.index_spec()),
    {
        let index = entity.index();
        index < self.marks.len() && self.marks[index]
    }

    /// The marked indices, ascending, each once.
    pub fn iter(&self) -> (r: Vec<usize>)
        ensures
            r@ == indices_where(self.marks().len(), flagged(self.marks())),
            r@.no_duplicates(),
            r@.to_set() == self.marked(),
    {
        let mut out: Vec<usize> = Vec::new();
        let mut i: usize = 0;
        while i < self.marks.len()
            invariant
                i <= self.marks@.len(),
                out@ == indices_where(i as nat, flagged(self.marks@)),
            decreases self.marks@.len() - i,
        {
            if self.marks[i] {
                out.push(i);
            }
            i = i + 1;
        }
        proof {
            lemma_indices_where(self.marks@.len(), flagged(self.marks@));
            assert(out@.to_set() =~= self.marked());
        }
        out
    }
}

} // verus!
