use vstd::prelude::*;

use crate::container::{ComponentContainer, Global};
use crate::dense::DenseStorage;
use crate::entity::Entity;

verus! {

/// A hash map from entity index to the position of its value, held opaquely.
#[verifier::external_body]
pub struct PositionMap {
    map: agb_hashmap::HashMap<usize, usize>,
}

/// The key-value pairs that a `PositionMap` holds.
pub uninterp spec fn position_map_contents(m: PositionMap) -> Map<usize, usize>;

impl PositionMap {
    /// Relies on `agb_hashmap::HashMap::new`: a map with no entries.
    #[verifier::external_body]
    fn new() -> (r: PositionMap)
        ensures
            position_map_contents(r).dom() == Set::<usize>::empty(),
    {
        PositionMap { map: agb_hashmap::HashMap::new() }
    }

    /// Relies on `agb_hashmap::HashMap::insert`: the key maps to the value
    /// afterwards, every other entry stays, and the old value comes back.
    #[verifier::external_body]
    fn insert(&mut self, key: usize, value: usize) -> (r: Option<usize>)
        ensures
            position_map_contents(*final(self)) == position_map_contents(*old(self)).insert(key, value),
            r == if position_map_contents(*old(self)).contains_key(key) {
                Some(position_map_contents(*old(self))[key])
            } else {
                None::<usize>
            },
    {
        self.map.insert(key, value)
    }

    /// Relies on `agb_hashmap::HashMap::get`: the value stored under the key,
    /// if any; the lookup hashes and probes without panicking.
    #[verifier::external_body]
    fn get(&self, key: usize) -> (r: Option<usize>)
        ensures
            r == if position_map_contents(*self).contains_key(key) {
                Some(position_map_contents(*self)[key])
            } else {
                None::<usize>
            },
        no_unwind
    {
        self.map.get(&key).copied()
    }
}

/// The value at each key's position.
pub open spec fn values_by_key<C>(positions: Map<usize, usize>, values: Seq<C>) -> Map<usize, C> {
    Map::new(|i: usize| positions.contains_key(i), |i: usize| values[positions[i] as int])
}

/// The entries of a sparse container: each entity's value sits at the position
/// that the map gives for it, and the entity list names the entity at each position.
pub struct SparseTable<C> {
    positions: PositionMap,
    entities: Vec<usize>,
    values: Vec<C>,
}

impl<C> SparseTable<C> {
    /// The position of each entity's value.
    pub closed spec fn positions(&self) -> Map<usize, usize> {
        position_map_contents(self.positions)
    }

    /// The entity at each position, in order of first insertion.
    pub closed spec fn entities(&self) -> Seq<usize> {
        self.entities@
    }

    /// The value at each position.
    pub closed spec fn values(&self) -> Seq<C> {
        self.values@
    }

    /// The stored values, by entity index.
    pub open spec fn components(&self) -> Map<usize, C> {
        values_by_key(self.positions(), self.values())
    }

    /// The map and the entity list are inverse to each other.
    pub open spec fn well_formed(&self) -> bool {
        &&& self.values().len() == self.entities().len()
        &&& forall|k: int|
            0 <= k < self.entities().len() ==> self.positions().contains_key(#[trigger] self.entities()[k])
                && self.positions()[self.entities()[k]] == k
        &&& forall|i: usize| #[trigger]
            self.positions().contains_key(i) ==> (self.positions()[i] as int) < self.entities().len()
                && self.entities()[self.positions()[i] as int] == i
    }

    /// A table with no entries.
    pub fn new() -> (r: Self)
        ensures
            r.well_formed(),
            r.components() == Map::<usize, C>::empty(),
            r.entities() == Seq::<usize>::empty(),
    {
        let r = SparseTable { positions: PositionMap::new(), entities: Vec::new(), values: Vec::new() };
        assert(r.positions().dom() =~= Set::<usize>::empty());
        assert(r.components() =~= Map::<usize, C>::empty());
        r
    }

    /// The entity list holds each stored entity exactly once.
    pub proof fn lemma_entities_exact(&self)
        requires
            self.well_formed(),
        ensures
            self.entities().no_duplicates(),
            forall|i: usize| #[trigger] self.entities().contains(i) <==> self.components().contains_key(i),
    {
        assert forall|i: usize| #[trigger]
            self.entities().contains(i) <==> self.components().contains_key(i) by {
            if self.entities().contains(i) {
                let k = choose|k: int| 0 <= k < self.entities().len() && self.entities()[k] == i;
                assert(self.positions().contains_key(self.entities()[k]));
            }
            if self.positions().contains_key(i) {
                assert(self.entities()[self.positions()[i] as int] == i);
            }
        }
        assert forall|a: int, b: int| 0 <= a < b < self.entities().len() implies self.entities()[a]
            != self.entities()[b] by {
            assert(self.positions()[self.entities()[a]] == a);
            assert(self.positions()[self.entities()[b]] == b);
        }
    }

    /// The number of stored values.
    pub fn len(&self) -> (r: usize)
        ensures
            r == self.entities().len(),
    {
        self.entities.len()
    }

    /// Stores `value` for `index`, appending a new entry when there is none.
    pub fn set(&mut self, index: usize, value: C)
        requires
            old(self).well_formed(),
        ensures
            final(self).well_formed(),
            final(self).components() == old(self).components().insert(index, value),
            final(self).entities() == if old(self).components().contains_key(index) {
                old(self).entities()
            } else {
                old(self).entities().push(index)
            },
    {
        match self.positions.get(index) {
            Some(p) => {
                assert(self.positions().contains_key(index));
                self.values.set(p, value);
                assert(self.components() =~= old(self).components().insert(index, value));
            },
            None => {
                let p = self.values.len();
                self.positions.insert(index, p);
                self.entities.push(index);
                self.values.push(value);
                assert forall|k: int|
                    0 <= k < self.entities().len() implies self.positions().contains_key(
                    #[trigger] self.entities()[k],
                ) && self.positions()[self.entities()[k]] == k by {
                    if k < p {
                        assert(self.entities()[k] == old(self).entities()[k]);
                        assert(old(self).positions().contains_key(old(self).entities()[k]));
                        assert(old(self).entities()[k] != index);
                    }
                }
                assert(self.components() =~= old(self).components().insert(index, value));
            },
        }
    }

    /// The value stored for `index`, if any.
    pub fn get(&self, index: usize) -> (r: Option<&C>)
        requires
            self.well_formed(),
        ensures
            r is Some <==> self.components().contains_key(index),
            r matches Some(v) ==> *v == self.components()[index],
    {
        match self.positions.get(index) {
            Some(p) => {
                assert(self.positions().contains_key(index));
                Some(&self.values[p])
            },
            None => None,
        }
    }

    /// A mutable reference to the value stored for `index`, if any.
    pub fn get_mut(&mut self, index: usize) -> (r: Option<&mut C>)
        requires
            old(self).well_formed(),
        ensures
            final(self).well_formed(),
            final(self).entities() == old(self).entities(),
            r is Some <==> old(self).components().contains_key(index),
            r matches Some(v) ==> *v == old(self).components()[index]
                && final(self).components() == old(self).components().insert(index, *final(v)),
            r is None ==> final(self).components() == old(self).components(),
        no_unwind
    {
        match self.positions.get(index) {
            Some(p) => {
                proof {
                    let m = self.components();
                    assert(self.positions().contains_key(index));
                    assert forall|v: C| #[trigger]
                        values_by_key(self.positions(), self.values().update(p as int, v)) == m.insert(index, v) by {
                        assert(values_by_key(self.positions(), self.values().update(p as int, v)) =~= m.insert(index, v));
                    }
                }
                Some(&mut self.values[p])
            },
            None => None,
        }
    }

    /// The entity indices in order of first insertion.
    pub fn entity_list(&self) -> (r: Vec<usize>)
        ensures
            r@ == self.entities(),
    {
        self.entities.clone()
    }

    /// Calls `f` on every stored value, in order of first insertion.
    pub fn for_each<F: FnMut(usize, &C)>(&self, mut f: F)
        requires
            self.well_formed(),
            forall|i: usize| #[trigger] self.components().contains_key(i) ==> f.requires((i, &self.components()[i])),
        ensures
            forall|i: usize| #[trigger] self.components().contains_key(i) ==> f.ensures(
                (i, &self.components()[i]),
                (),
            ),
    {
        let ghost f0 = f;
        let mut k: usize = 0;
        while k < self.entities.len()
            invariant
                f == f0,
                self.well_formed(),
                k <= self.entities@.len(),
                forall|i: usize| #[trigger] self.components().contains_key(i) ==> f.requires((i, &self.components()[i])),
                forall|j: int| 0 <= j < k ==> f.ensures(
                    (#[trigger] self.entities@[j], &self.values@[j]),
                    (),
                ),
            decreases self.entities@.len() - k,
        {
            assert(self.positions().contains_key(self.entities@[k as int]) && self.components().contains_key(self.entities@[k as int]));
            f(self.entities[k], &self.values[k]);
            k = k + 1;
        }
        assert forall|i: usize| #[trigger] self.components().contains_key(i) implies f.ensures(
            (i, &self.components()[i]),
            (),
        ) by {
            let j = self.positions()[i] as int;
            assert(self.entities@[j] == i);
        }
    }

    /// Calls `f` on every stored value, in order of first insertion, with a mutable reference.
    pub fn for_each_mut<F: FnMut(usize, &mut C)>(&mut self, mut f: F)
        requires
            old(self).well_formed(),
            forall|i: usize, c: &mut C| old(self).components().contains_key(i) && *c == old(self).components()[i] ==> #[trigger] f.requires((i, c)),
        ensures
            final(self).well_formed(),
            final(self).components().dom() == old(self).components().dom(),
            final(self).entities() == old(self).entities(),
            forall|i: usize| #[trigger] old(self).components().contains_key(i) ==> exists|m: &mut C|
                *m == old(self).components()[i] && *final(m) == final(self).components()[i]
                    && f.ensures((i, m), ()),
    {
        let ghost f0 = f;
        let mut k: usize = 0;
        while k < self.entities.len()
            invariant
                f == f0,
                k <= self.entities@.len(),
                self.values@.len() == old(self).values@.len(),
                self.entities == old(self).entities,
                self.positions == old(self).positions,
                old(self).well_formed(),
                forall|i: usize, c: &mut C| old(self).components().contains_key(i) && *c == old(self).components()[i] ==> #[trigger] f.requires((i, c)),
                forall|p: int| k <= p < self.values@.len() ==> #[trigger] self.values@[p] == old(self).values@[p],
                forall|i: usize| #[trigger] old(self).components().contains_key(i) && (old(
                    self,
                ).positions()[i] as int) < k ==> exists|q: &mut C|
                    *q == old(self).components()[i] && *final(q) == self.values@[old(self).positions()[i] as int]
                        && f.ensures((i, q), ()),
            decreases self.entities@.len() - k,
        {
            let e = self.entities[k];
            let ghost before = self.values@;
            let ghost v0 = self.values@[k as int];
            let slot = &mut self.values[k];
            let ghost c0 = *slot;
            f(e, slot);
            assert(exists|q: &mut C| *q == c0 && *final(q) == *slot && f.ensures((e, q), ()));
            let ghost after_v = *slot;
            assert(self.values@[k as int] == after_v);
            assert(c0 == old(self).values@[k as int]);
            assert forall|p: int| 0 <= p < self.values@.len() && p != k as int implies #[trigger] self.values@[p] == before[p] by {}
            k = k + 1;
            assert forall|i: usize| #[trigger] old(self).components().contains_key(i) && (old(
                self,
            ).positions()[i] as int) < k implies exists|q: &mut C|
                *q == old(self).components()[i] && *final(q) == self.values@[old(self).positions()[i] as int]
                    && f.ensures((i, q), ()) by {
                let p = old(self).positions()[i] as int;
                if p < k - 1 {
                    assert(self.values@[p] == before[p]);
                } else {
                    assert(old(self).entities@[p] == i);
                    assert(self.values@[p] == after_v);
                    assert(e == i);
                }
            }
        }
        assert(self.components().dom() =~= old(self).components().dom());
        assert forall|i: usize| #[trigger] old(self).components().contains_key(i) implies exists|m: &mut C|
            *m == old(self).components()[i] && *final(m) == self.components()[i] && f.ensures((i, m), ()) by {
            let p = self.positions()[i] as int;
            assert(self.components()[i] == self.values@[p]);
        }
    }
}

/// A sparse mapped container: values only for the entities that hold one,
/// found through a hash map from entity index to position.
pub struct HashComponentContainer<C, A = Global> {
    table: SparseTable<C>,
    allocator: A,
}

impl<C> HashComponentContainer<C> {
    /// An empty container on the default allocation handle.
    pub fn new() -> (r: Self)
        ensures
            r.components() == Map::<usize, C>::empty(),
    {
        Self::new_in(Global)
    }
}

impl<C> Default for HashComponentContainer<C> {
    /// An empty container on the default allocation handle.
    fn default() -> (r: Self)
        ensures
            r.components() == Map::<usize, C>::empty(),
    {
        Self::new()
    }
}

impl<C, A> HashComponentContainer<C, A> {
    /// Every container keeps its table well formed.
    #[verifier::type_invariant]
    spec fn table_well_formed(&self) -> bool {
        self.table.well_formed()
    }

    /// The table behind the container.
    pub closed spec fn table(&self) -> SparseTable<C> {
        self.table
    }

    /// The allocation handle that the container was made with.
    pub closed spec fn allocator_spec(&self) -> A {
        self.allocator
    }

    /// An empty container that records the allocation handle `allocator`.
    pub fn new_in(allocator: A) -> (r: Self)
        ensures
            r.components() == Map::<usize, C>::empty(),
            r.table().entities() == Seq::<usize>::empty(),
            r.allocator_spec() == allocator,
    {
        HashComponentContainer { table: SparseTable::new(), allocator }
    }

    /// The allocation handle that the container was made with.
    pub fn allocator(&self) -> (r: &A)
        ensures
            *r == self.allocator_spec(),
    {
        &self.allocator
    }

    /// Takes the table out, leaving an empty one in its place.
    fn take_table(&mut self) -> (r: SparseTable<C>)
        ensures
            r == old(self).table(),
            r.well_formed(),
            final(self).allocator_spec() == old(self).allocator_spec(),
    {
        proof {
            use_type_invariant(&*self);
        }
        let mut t = SparseTable::new();
        std::mem::swap(&mut self.table, &mut t);
        t
    }

    /// Calls `f` on every stored value, in order of first insertion.
    pub fn for_each<F: FnMut(usize, &C)>(&self, f: F)
        requires
            forall|i: usize| #[trigger] self.components().contains_key(i) ==> f.requires((i, &self.components()[i])),
        ensures
            forall|i: usize| #[trigger] self.components().contains_key(i) ==> f.ensures(
                (i, &self.components()[i]),
                (),
            ),
    {
        proof {
            use_type_invariant(self);
        }
        self.table.for_each(f)
    }

    /// Calls `f` on every stored value, in order of first insertion, with a mutable reference.
    pub fn for_each_mut<F: FnMut(usize, &mut C)>(&mut self, f: F)
        requires
            forall|i: usize, c: &mut C| old(self).components().contains_key(i) && *c == old(self).components()[i] ==> #[trigger] f.requires((i, c)),
        ensures
            final(self).components().dom() == old(self).components().dom(),
            final(self).table().entities() == old(self).table().entities(),
            forall|i: usize| #[trigger] old(self).components().contains_key(i) ==> exists|m: &mut C|
                *m == old(self).components()[i] && *final(m) == final(self).components()[i]
                    && f.ensures((i, m), ()),
    {
        let mut t = self.take_table();
        t.for_each_mut(f);
        self.table = t;
    }
}

impl<C, A> ComponentContainer<C> for HashComponentContainer<C, A> {
    open spec fn components(&self) -> Map<usize, C> {
        self.table().components()
    }

    open spec fn covers(&self, index: usize) -> bool {
        true
    }

    open spec fn well_formed(&self) -> bool {
        self.table().well_formed()
    }

    open spec fn is_dense(&self) -> bool {
        false
    }

    open spec fn size(&self) -> nat {
        self.table().entities().len()
    }

    open spec fn scan_order(&self) -> Seq<usize> {
        self.table().entities()
    }

    proof fn lemma_scan_order(&self) {
        self.table().lemma_entities_exact();
    }

    fn dense(&self) -> (r: Option<&DenseStorage<C>>) {
        proof {
            use_type_invariant(self);
        }
        None
    }

    fn add_entity(&mut self, entity: Entity) {
    }

    fn has_slot(&self, index: usize) -> (r: bool) {
        true
    }

    fn set(&mut self, entity: Entity, component: C) {
        let mut t = self.take_table();
        t.set(entity.index(), component);
        self.table = t;
    }

    fn get(&self, entity: Entity) -> (r: Option<&C>) {
        self.get_index(entity.index())
    }

    fn get_index(&self, index: usize) -> (r: Option<&C>) {
        proof {
            use_type_invariant(self);
        }
        self.table.get(index)
    }

    fn get_mut(&mut self, entity: Entity) -> (r: Option<&mut C>) {
        self.get_index_mut(entity.index())
    }

    fn get_index_mut(&mut self, index: usize) -> (r: Option<&mut C>) {
        proof {
            use_type_invariant(&*self);
        }
        self.table.get_mut(index)
    }

    fn len(&self) -> (r: usize) {
        self.table.len()
    }

    fn count(&self) -> (r: usize) {
        proof {
            use_type_invariant(self);
            self.table().lemma_entities_exact();
            self.table().entities().unique_seq_to_set();
            assert(self.table().entities().to_set() =~= self.components().dom());
        }
        self.table.len()
    }

    fn scan_indices(&self) -> (r: Vec<usize>) {
        proof {
            use_type_invariant(self);
        }
        self.table.entity_list()
    }

    fn for_each<F: FnMut(usize, &C)>(&self, f: F) {
        HashComponentContainer::for_each(self, f)
    }
}

} // verus!
