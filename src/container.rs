use vstd::prelude::*;

use crate::dense::{indices_where, lemma_indices_where, lemma_slot_map_update, occupied, DenseStorage};
use crate::entity::Entity;

verus! {

/// The default allocation handle: storage comes from the program's global allocator.
#[derive(Clone, Copy, Debug)]
pub struct Global;

/// Membership in the key set of a map.
pub open spec fn in_domain<C>(m: Map<usize, C>) -> spec_fn(usize) -> bool {
    |i: usize| m.contains_key(i)
}

/// The uniform capability of every component container: one optional value of
/// kind `C` per entity index.
pub trait ComponentContainer<C>: Sized {
    /// The stored values, by entity index.
    spec fn components(&self) -> Map<usize, C>;

    /// Whether the container has a slot for `index`, so that a `set` on it is valid.
    spec fn covers(&self, index: usize) -> bool;

    /// The container's internal invariant, which every value of it keeps.
    spec fn well_formed(&self) -> bool;

    /// What `len` reports: the backing length of a dense container, the number
    /// of entries of a mapped one.
    spec fn size(&self) -> nat;

    /// The entity indices in the order of a full scan.
    spec fn scan_order(&self) -> Seq<usize>;

    /// Whether the container is laid out densely, by position.
    spec fn is_dense(&self) -> bool;

    /// A full scan visits exactly the entities that hold a value, each once; a
    /// dense container scans them by ascending index, all below its length.
    proof fn lemma_scan_order(&self)
        requires
            self.well_formed(),
        ensures
            self.scan_order().no_duplicates(),
            forall|i: usize| #[trigger]
                self.scan_order().contains(i) <==> self.components().contains_key(i),
            self.is_dense() ==> self.size() <= usize::MAX,
            self.is_dense() ==> forall|i: usize| #[trigger]
                self.components().contains_key(i) ==> (i as int) < self.size(),
            self.is_dense() ==> self.scan_order() == indices_where(
                self.size(),
                in_domain(self.components()),
            ),
    ;

    /// The dense positional storage behind the container, when it has one.
    fn dense(&self) -> (r: Option<&DenseStorage<C>>)
        ensures
            self.well_formed(),
            r is Some <==> self.is_dense(),
            r matches Some(d) ==> {
                &&& d.well_formed()
                &&& d.components() == self.components()
                &&& d.slots().len() == self.size()
                &&& self.scan_order() == indices_where(d.slots().len(), occupied(d.slots()))
            },
    ;

    /// Registers a new entity: makes sure that the container has a slot for it.
    fn add_entity(&mut self, entity: Entity)
        requires
            entity.index_spec() < usize::MAX,
        ensures
            final(self).components() == old(self).components(),
            final(self).covers(entity.index_spec()),
            forall|i: usize| old(self).covers(i) ==> #[trigger] final(self).covers(i),
    ;

    /// Whether the container has a slot for `index`.
    fn has_slot(&self, index: usize) -> (r: bool)
        ensures
            r == self.covers(index),
    ;

    /// Stores `component` for `entity`, replacing any earlier value.
    fn set(&mut self, entity: Entity, component: C)
        requires
            old(self).covers(entity.index_spec()),
        ensures
            final(self).components() == old(self).components().insert(entity.index_spec(), component),
            forall|i: usize| #[trigger] final(self).covers(i) == old(self).covers(i),
            final(self).is_dense() == old(self).is_dense(),
            old(self).is_dense() ==> final(self).size() == old(self).size(),
    ;

    /// The value stored for `entity`, if any.
    fn get(&self, entity: Entity) -> (r: Option<&C>)
        ensures
            r is Some <==> self.components().contains_key(entity.index_spec()),
            r matches Some(v) ==> *v == self.components()[entity.index_spec()],
    ;

    /// The value stored for the entity at `index`, if any.
    fn get_index(&self, index: usize) -> (r: Option<&C>)
        ensures
            r is Some <==> self.components().contains_key(index),
            r matches Some(v) ==> *v == self.components()[index],
    ;

    /// A mutable reference to the value stored for `entity`, if any.
    fn get_mut(&mut self, entity: Entity) -> (r: Option<&mut C>)
        ensures
            r is Some <==> old(self).components().contains_key(entity.index_spec()),
            r matches Some(v) ==> *v == old(self).components()[entity.index_spec()]
                && final(self).components() == old(self).components().insert(
                entity.index_spec(),
                *final(v),
            ),
            r is None ==> final(self).components() == old(self).components(),
            forall|i: usize| #[trigger] final(self).covers(i) == old(self).covers(i),
    ;

    /// A mutable reference to the value stored for the entity at `index`, if any.
    fn get_index_mut(&mut self, index: usize) -> (r: Option<&mut C>)
        ensures
            r is Some <==> old(self).components().contains_key(index),
            r matches Some(v) ==> *v == old(self).components()[index]
                && final(self).components() == old(self).components().insert(index, *final(v)),
            r is None ==> final(self).components() == old(self).components(),
            forall|i: usize| #[trigger] final(self).covers(i) == old(self).covers(i),
    ;

    /// The backing length of a dense container, the number of entries of a mapped one.
    fn len(&self) -> (r: usize)
        ensures
            r == self.size(),
    ;

    /// The number of entities that hold a value.
    fn count(&self) -> (r: usize)
        ensures
            r == self.components().dom().len(),
    ;

    /// Whether `len` is zero.
    fn is_empty(&self) -> (r: bool)
        ensures
            r == (self.size() == 0),
    {
        self.len() == 0
    }

    /// The entity indices in the order of a full scan.
    fn scan_indices(&self) -> (r: Vec<usize>)
        ensures
            self.well_formed(),
            r@ == self.scan_order(),
    ;

    /// Calls `f` on every stored value, in the order of a full scan.
    fn for_each<F: FnMut(usize, &C)>(&self, f: F)
        requires
            forall|i: usize| #[trigger] self.components().contains_key(i) ==> f.requires((i, &self.components()[i])),
        ensures
            forall|i: usize| #[trigger] self.components().contains_key(i) ==> f.ensures(
                (i, &self.components()[i]),
                (),
            ),
    ;
}

/// A dense positional container: one slot per registered entity, plus a list
/// over the occupied slots from the most recently set to the least recently set.
pub struct VecComponentContainer<C, A = Global> {
    storage: DenseStorage<C>,
    allocator: A,
}

impl<C> VecComponentContainer<C> {
    /// An empty container on the default allocation handle.
    pub fn new() -> (r: Self)
        ensures
            r.storage().slots().len() == 0,
            r.storage().recency().len() == 0,
    {
        Self::new_in(Global)
    }
}

impl<C> Default for VecComponentContainer<C> {
    /// An empty container on the default allocation handle.
    fn default() -> (r: Self)
        ensures
            r.storage().slots().len() == 0,
            r.storage().recency().len() == 0,
    {
        Self::new()
    }
}

impl<C, A> VecComponentContainer<C, A> {
    /// Every container keeps its storage well formed.
    #[verifier::type_invariant]
    spec fn storage_well_formed(&self) -> bool {
        self.storage.well_formed()
    }

    /// The dense storage behind the container.
    pub closed spec fn storage(&self) -> DenseStorage<C> {
        self.storage
    }

    /// An empty container that records the allocation handle `allocator`.
    pub fn new_in(allocator: A) -> (r: Self)
        ensures
            r.storage().slots().len() == 0,
            r.storage().recency().len() == 0,
            r.allocator_spec() == allocator,
    {
        VecComponentContainer { storage: DenseStorage::new(), allocator }
    }

    /// The allocation handle that the container was made with.
    pub closed spec fn allocator_spec(&self) -> A {
        self.allocator
    }

    /// The allocation handle that the container was made with.
    pub fn allocator(&self) -> (r: &A)
        ensures
            *r == self.allocator_spec(),
    {
        &self.allocator
    }

    /// A shared reference to the dense storage, which is well formed.
    pub fn dense_storage(&self) -> (r: &DenseStorage<C>)
        ensures
            *r == self.storage(),
            r.well_formed(),
    {
        proof {
            use_type_invariant(self);
        }
        &self.storage
    }

    /// Takes the storage out, leaving an empty one in its place.
    fn take_storage(&mut self) -> (r: DenseStorage<C>)
        ensures
            r == old(self).storage(),
            r.well_formed(),
            final(self).allocator_spec() == old(self).allocator_spec(),
    {
        proof {
            use_type_invariant(&*self);
        }
        let mut s = DenseStorage::new();
        std::mem::swap(&mut self.storage, &mut s);
        s
    }

    /// Extends the slots with empty ones up to and including the entity's index.
    pub fn add_entity(&mut self, entity: Entity)
        requires
            entity.index_spec() < usize::MAX,
        ensures
            final(self).storage().slots().len() == if (entity.index_spec() as int) < old(
                self,
            ).storage().slots().len() {
                old(self).storage().slots().len() as int
            } else {
                entity.index_spec() + 1
            },
            final(self).components() == old(self).components(),
            final(self).storage().recency() == old(self).storage().recency(),
            final(self).allocator_spec() == old(self).allocator_spec(),
    {
        let mut s = self.take_storage();
        s.grow_to_cover(entity.index());
        self.storage = s;
    }

    /// Stores `component` for `entity` and moves the entity to the front of the
    /// recency list, out of its old place if it held a value already.
    pub fn set(&mut self, entity: Entity, component: C)
        requires
            (entity.index_spec() as int) < old(self).storage().slots().len(),
        ensures
            final(self).storage().slots() == old(self).storage().slots().update(
                entity.index_spec() as int,
                Some(component),
            ),
            final(self).components() == old(self).components().insert(entity.index_spec(), component),
            final(self).storage().recency() == seq![entity.index_spec()] + old(
                self,
            ).storage().recency().remove_value(entity.index_spec()),
            final(self).allocator_spec() == old(self).allocator_spec(),
    {
        let mut s = self.take_storage();
        s.set(entity.index(), component);
        self.storage = s;
    }

    /// Calls `f` on each occupied slot, by ascending index.
    pub fn for_each<F: FnMut(usize, &C)>(&self, f: F)
        requires
            forall|i: usize| #[trigger] self.components().contains_key(i) ==> f.requires((i, &self.components()[i])),
        ensures
            forall|i: usize| #[trigger] self.components().contains_key(i) ==> f.ensures(
                (i, &self.components()[i]),
                (),
            ),
    {
        self.storage.for_each(f)
    }

    /// Calls `f` on each occupied slot, by ascending index, with a mutable reference.
    pub fn for_each_mut<F: FnMut(usize, &mut C)>(&mut self, f: F)
        requires
            forall|i: usize, c: &mut C| old(self).components().contains_key(i) && *c == old(self).components()[i] ==> #[trigger] f.requires((i, c)),
        ensures
            final(self).storage().slots().len() == old(self).storage().slots().len(),
            final(self).components().dom() == old(self).components().dom(),
            final(self).storage().recency() == old(self).storage().recency(),
            forall|i: usize| #[trigger] old(self).components().contains_key(i) ==> exists|m: &mut C|
                *m == old(self).components()[i] && *final(m) == final(self).components()[i]
                    && f.ensures((i, m), ()),
    {
        let mut s = self.take_storage();
        s.for_each_mut(f);
        self.storage = s;
    }

    /// Calls `f` on each occupied slot, most recently set first, at a cost that
    /// follows the number of occupied slots, not the number of slots.
    pub fn for_each_sparse<F: FnMut(usize, &C)>(&self, f: F)
        requires
            forall|i: usize| #[trigger] self.components().contains_key(i) ==> f.requires((i, &self.components()[i])),
        ensures
            forall|i: usize| #[trigger] self.components().contains_key(i) ==> f.ensures(
                (i, &self.components()[i]),
                (),
            ),
    {
        proof {
            use_type_invariant(self);
        }
        self.storage.for_each_sparse(f)
    }

    /// Like `for_each_sparse`, with a mutable reference to each value.
    pub fn for_each_sparse_mut<F: FnMut(usize, &mut C)>(&mut self, f: F)
        requires
            forall|i: usize, c: &mut C| old(self).components().contains_key(i) && *c == old(self).components()[i] ==> #[trigger] f.requires((i, c)),
        ensures
            final(self).storage().slots().len() == old(self).storage().slots().len(),
            final(self).components().dom() == old(self).components().dom(),
            final(self).storage().recency() == old(self).storage().recency(),
            forall|i: usize| #[trigger] old(self).components().contains_key(i) ==> exists|m: &mut C|
                *m == old(self).components()[i] && *final(m) == final(self).components()[i]
                    && f.ensures((i, m), ()),
    {
        let mut s = self.take_storage();
        s.for_each_sparse_mut(f);
        self.storage = s;
    }

    /// Calls `f` on each index that holds a value here and in `other`, ascending,
    /// with a mutable reference to the value here.
    pub fn join_for_each_mut<T2, F: FnMut(usize, &mut C, &T2)>(&mut self, other: &DenseStorage<T2>, f: F)
        requires
            old(self).storage().slots().len() == other.slots().len(),
            forall|i: usize, a: &mut C, b: &T2| old(self).components().contains_key(i) && other.components().contains_key(i) && *a == old(self).components()[i] && *b == other.components()[i] ==> #[trigger] f.requires((i, a, b)),
        ensures
            final(self).storage().slots().len() == old(self).storage().slots().len(),
            final(self).components().dom() == old(self).components().dom(),
            final(self).storage().recency() == old(self).storage().recency(),
            forall|i: usize| #[trigger] old(self).components().contains_key(i) ==> if other.components().contains_key(i) {
                exists|m: &mut C|
                    *m == old(self).components()[i] && *final(m) == final(self).components()[i]
                        && f.ensures((i, m, &other.components()[i]), ())
            } else {
                final(self).components()[i] == old(self).components()[i]
            },
    {
        let mut s = self.take_storage();
        s.join_for_each_mut(other, f);
        self.storage = s;
    }

    /// Calls `f` on each index that holds a value here and in both others,
    /// ascending, with a mutable reference to the value here.
    pub fn join3_for_each_mut<T2, T3, F: FnMut(usize, &mut C, &T2, &T3)>(
        &mut self,
        second: &DenseStorage<T2>,
        third: &DenseStorage<T3>,
        f: F,
    )
        requires
            old(self).storage().slots().len() == second.slots().len(),
            old(self).storage().slots().len() == third.slots().len(),
            forall|i: usize, a: &mut C, b: &T2, c: &T3| old(self).components().contains_key(i) && second.components().contains_key(i) && third.components().contains_key(i) && *a == old(self).components()[i] && *b == second.components()[i] && *c == third.components()[i] ==> #[trigger] f.requires((i, a, b, c)),
        ensures
            final(self).storage().slots().len() == old(self).storage().slots().len(),
            final(self).components().dom() == old(self).components().dom(),
            final(self).storage().recency() == old(self).storage().recency(),
            forall|i: usize| #[trigger] old(self).components().contains_key(i) ==> if second.components().contains_key(i) && third.components().contains_key(i) {
                exists|m: &mut C|
                    *m == old(self).components()[i] && *final(m) == final(self).components()[i]
                        && f.ensures((i, m, &second.components()[i], &third.components()[i]), ())
            } else {
                final(self).components()[i] == old(self).components()[i]
            },
    {
        let mut s = self.take_storage();
        s.join3_for_each_mut(second, third, f);
        self.storage = s;
    }

    /// Calls `f` on each listed index that holds a value here and in `other`,
    /// in list order, with a mutable reference to the value here.
    pub fn for_each_listed_mut<T2, F: FnMut(usize, &mut C, &T2)>(
        &mut self,
        order: &Vec<usize>,
        other: &DenseStorage<T2>,
        f: F,
    )
        requires
            order@.no_duplicates(),
            forall|i: usize, a: &mut C, b: &T2| order@.contains(i) && old(self).components().contains_key(i) && other.components().contains_key(i) && *a == old(self).components()[i] && *b == other.components()[i] ==> #[trigger] f.requires((i, a, b)),
        ensures
            final(self).storage().slots().len() == old(self).storage().slots().len(),
            final(self).components().dom() == old(self).components().dom(),
            final(self).storage().recency() == old(self).storage().recency(),
            forall|i: usize| #[trigger] old(self).components().contains_key(i) ==> if order@.contains(i) && other.components().contains_key(i) {
                exists|m: &mut C|
                    *m == old(self).components()[i] && *final(m) == final(self).components()[i]
                        && f.ensures((i, m, &other.components()[i]), ())
            } else {
                final(self).components()[i] == old(self).components()[i]
            },
    {
        let mut s = self.take_storage();
        s.for_each_listed_mut(order, other, f);
        self.storage = s;
    }

    /// Calls `f` on each listed index that holds a value here and in both
    /// others, in list order, with a mutable reference to the value here.
    pub fn for_each_listed3_mut<T2, T3, F: FnMut(usize, &mut C, &T2, &T3)>(
        &mut self,
        order: &Vec<usize>,
        second: &DenseStorage<T2>,
        third: &DenseStorage<T3>,
        f: F,
    )
        requires
            order@.no_duplicates(),
            forall|i: usize, a: &mut C, b: &T2, c: &T3| order@.contains(i) && old(self).components().contains_key(i) && second.components().contains_key(i) && third.components().contains_key(i) && *a == old(self).components()[i] && *b == second.components()[i] && *c == third.components()[i] ==> #[trigger] f.requires((i, a, b, c)),
        ensures
            final(self).storage().slots().len() == old(self).storage().slots().len(),
            final(self).components().dom() == old(self).components().dom(),
            final(self).storage().recency() == old(self).storage().recency(),
            forall|i: usize| #[trigger] old(self).components().contains_key(i) ==> if order@.contains(i) && second.components().contains_key(i) && third.components().contains_key(i) {
                exists|m: &mut C|
                    *m == old(self).components()[i] && *final(m) == final(self).components()[i]
                        && f.ensures((i, m, &second.components()[i], &third.components()[i]), ())
            } else {
                final(self).components()[i] == old(self).components()[i]
            },
    {
        let mut s = self.take_storage();
        s.for_each_listed3_mut(order, second, third, f);
        self.storage = s;
    }

    /// The occupied indices in the order of `for_each_sparse`: most recently set first.
    pub fn sparse_indices(&self) -> (r: Vec<usize>)
        ensures
            r@ == self.storage().recency(),
    {
        proof {
            use_type_invariant(self);
        }
        self.storage.sparse_indices()
    }
}

impl<C, A> ComponentContainer<C> for VecComponentContainer<C, A> {
    open spec fn components(&self) -> Map<usize, C> {
        self.storage().components()
    }

    open spec fn covers(&self, index: usize) -> bool {
        (index as int) < self.storage().slots().len()
    }

    open spec fn well_formed(&self) -> bool {
        self.storage().well_formed()
    }

    open spec fn size(&self) -> nat {
        self.storage().slots().len()
    }

    open spec fn scan_order(&self) -> Seq<usize> {
        indices_where(self.storage().slots().len(), occupied(self.storage().slots()))
    }

    open spec fn is_dense(&self) -> bool {
        true
    }

    proof fn lemma_scan_order(&self) {
        self.storage().lemma_recency_exact();
        lemma_indices_where(self.storage().slots().len(), occupied(self.storage().slots()));
        assert(occupied(self.storage().slots()) =~= in_domain(self.components()));
    }

    fn dense(&self) -> (r: Option<&DenseStorage<C>>) {
        Some(self.dense_storage())
    }

    fn add_entity(&mut self, entity: Entity) {
        VecComponentContainer::add_entity(self, entity)
    }

    fn has_slot(&self, index: usize) -> (r: bool) {
        index < self.storage.len()
    }

    fn set(&mut self, entity: Entity, component: C) {
        VecComponentContainer::set(self, entity, component)
    }

    fn get(&self, entity: Entity) -> (r: Option<&C>) {
        self.storage.get(entity.index())
    }

    fn get_index(&self, index: usize) -> (r: Option<&C>) {
        self.storage.get(index)
    }

    fn get_mut(&mut self, entity: Entity) -> (r: Option<&mut C>) {
        self.get_index_mut(entity.index())
    }

    fn get_index_mut(&mut self, index: usize) -> (r: Option<&mut C>) {
        proof {
            use_type_invariant(&*self);
            if (index as int) < self.storage().slots().len() {
                lemma_slot_map_update(self.storage().slots(), index);
            }
        }
        self.storage.get_mut(index)
    }

    fn len(&self) -> (r: usize) {
        self.storage.len()
    }

    fn count(&self) -> (r: usize) {
        proof {
            use_type_invariant(self);
            self.storage().lemma_recency_exact();
        }
        self.storage.count()
    }

    fn scan_indices(&self) -> (r: Vec<usize>) {
        self.dense_storage().dense_indices()
    }

    fn for_each<F: FnMut(usize, &C)>(&self, f: F) {
        self.storage.for_each(f)
    }
}

} // verus!
