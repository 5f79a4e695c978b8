use vstd::prelude::*;

use crate::container::ComponentContainer;
use crate::entity::Entity;
use crate::query::Query;

verus! {

/// The fixed set of containers of one application, one per component kind.
/// Applications implement it for their own set. Its specification items are
/// never run.
pub trait WorldContainer: Sized {
    /// Every container of the set has a slot for `index`.
    spec fn covers(&self, index: usize) -> bool;

    /// No container of the set holds a value.
    spec fn holds_nothing(&self) -> bool;

    /// The number of entities registered with the set.
    spec fn registered(&self) -> usize;

    /// Every dense container of the set has exactly `registered()` slots.
    spec fn aligned(&self) -> bool;

    /// Every container of the set holds the same values as the one of `other`.
    spec fn same_values(&self, other: &Self) -> bool;

    /// Every container of the set but the one of kind number `kind` is the
    /// same as the one of `other`.
    spec fn same_except(&self, other: &Self, kind: u64) -> bool;

    /// One empty container per component kind.
    fn new() -> (r: Self)
        ensures
            r.holds_nothing(),
            r.aligned(),
            r.registered() == 0,
    ;

    /// Registers `entity` with every container.
    fn add_entity(&mut self, entity: Entity)
        requires
            entity.index_spec() < usize::MAX,
        ensures
            final(self).covers(entity.index_spec()),
            forall|i: usize| old(self).covers(i) ==> #[trigger] final(self).covers(i),
            old(self).holds_nothing() ==> final(self).holds_nothing(),
            final(self).same_values(&*old(self)),
            old(self).aligned() && entity.index_spec() == old(self).registered() ==> final(self).aligned()
                && final(self).registered() == entity.index_spec() + 1,
    ;
}

/// Access to the container of component kind `C` inside a set of containers.
/// Applications implement it once per kind; the kind picks the container at
/// compile time. Its specification and proof items are never run.
pub trait GetComponentContainer<C>: WorldContainer {
    /// The concrete container that holds kind `C`.
    type Container: ComponentContainer<C>;

    /// The container of kind `C` in this set: the value that
    /// `get_components` refers to.
    spec fn container_spec(&self) -> Self::Container;

    /// The number of kind `C` within the set; distinct kinds have distinct numbers.
    spec fn kind_id() -> u64;

    /// What the set-level facts say of the container of kind `C`.
    proof fn lemma_kind(&self)
        ensures
            forall|i: usize| self.covers(i) ==> #[trigger] self.container_spec().covers(i),
            self.holds_nothing() ==> self.container_spec().components().dom() == Set::<usize>::empty(),
            self.aligned() && self.container_spec().is_dense() ==> self.container_spec().size()
                == self.registered(),
    ;

    /// Sets with the same values hold the same values of kind `C`.
    proof fn lemma_same_values(a: &Self, b: &Self)
        requires
            a.same_values(b),
        ensures
            a.container_spec().components() == b.container_spec().components(),
    ;

    /// Sets that differ at most in another kind's container hold the same
    /// container of kind `C`.
    proof fn lemma_same_except(a: &Self, b: &Self, kind: u64)
        requires
            a.same_except(b, kind),
            kind != Self::kind_id(),
        ensures
            a.container_spec() == b.container_spec(),
    ;

    /// A shared reference to the container of kind `C`.
    fn get_components(&self) -> (r: &Self::Container)
        ensures
            *r == self.container_spec(),
    ;

    /// A mutable reference to the container of kind `C`; the other containers stay.
    fn get_components_mut(&mut self) -> (r: &mut Self::Container)
        ensures
            *r == old(self).container_spec(),
            final(self).container_spec() == *final(r),
            final(self).same_except(&*old(self), Self::kind_id()),
            final(self).registered() == old(self).registered(),
            old(self).holds_nothing() && final(r).components() == old(self).container_spec().components()
                ==> final(self).holds_nothing(),
            (forall|i: usize| old(self).container_spec().covers(i) ==> #[trigger] final(r).covers(i))
                ==> (forall|i: usize| old(self).covers(i) ==> #[trigger] final(self).covers(i)),
            (final(r).is_dense() == (*r).is_dense() && (final(r).is_dense() ==> final(r).size()
                == (*r).size())) ==> (old(self).aligned() ==> final(self).aligned()),
    ;
}

/// The registry: owns the containers of every component kind and hands out
/// entity indices from zero upward, never reusing one.
pub struct World<WC: WorldContainer> {
    last_entity: usize,
    containers: WC,
}

impl<WC: WorldContainer> World<WC> {
    /// The index that the next `spawn` hands out; also the number of entities so far.
    pub closed spec fn next_index(&self) -> usize {
        self.last_entity
    }

    /// The set of containers.
    pub closed spec fn containers(&self) -> WC {
        self.containers
    }

    /// The container of kind `C`.
    pub open spec fn container_of<C>(&self) -> <WC as GetComponentContainer<C>>::Container
        where WC: GetComponentContainer<C>,
    {
        GetComponentContainer::<C>::container_spec(&self.containers())
    }

    /// The values of kind `C`, by entity index.
    pub open spec fn components<C>(&self) -> Map<usize, C>
        where WC: GetComponentContainer<C>,
    {
        self.container_of::<C>().components()
    }

    /// The number of kind `C`.
    pub open spec fn kind_of<C>() -> u64
        where WC: GetComponentContainer<C>,
    {
        <WC as GetComponentContainer<C>>::kind_id()
    }

    /// Every spawned entity has a slot in every container, and every dense
    /// container has exactly one slot per spawned entity.
    pub closed spec fn well_formed(&self) -> bool {
        &&& self.containers.aligned()
        &&& self.containers.registered() == self.last_entity
        &&& forall|i: usize| i < self.last_entity ==> #[trigger] self.containers.covers(i)
    }

    /// In a well-formed registry the container of kind `C` has a slot for
    /// every spawned entity and, when dense, exactly one per spawned entity.
    pub proof fn lemma_container<C>(&self)
        where WC: GetComponentContainer<C>,
        requires
            self.well_formed(),
        ensures
            forall|i: usize| i < self.next_index() ==> #[trigger] self.container_of::<C>().covers(i),
            self.container_of::<C>().is_dense() ==> self.container_of::<C>().size() == self.next_index(),
            self.containers().holds_nothing() ==> self.components::<C>().dom() == Set::<usize>::empty(),
    {
        self.containers.lemma_kind();
    }

    /// Spawning keeps every stored value: after `spawn`, kind `C` holds what it held.
    pub proof fn lemma_spawn_keeps<C>(before: &Self, after: &Self)
        where WC: GetComponentContainer<C>,
        requires
            after.containers().same_values(&before.containers()),
        ensures
            after.components::<C>() == before.components::<C>(),
    {
        WC::lemma_same_values(&after.containers, &before.containers);
    }

    /// Storing or changing values of one kind leaves the container of every
    /// other kind as it was.
    pub proof fn lemma_other_kind_kept<C, D>(before: &Self, after: &Self)
        where WC: GetComponentContainer<C> + GetComponentContainer<D>,
        requires
            after.containers().same_except(&before.containers(), Self::kind_of::<C>()),
            Self::kind_of::<C>() != Self::kind_of::<D>(),
        ensures
            after.container_of::<D>() == before.container_of::<D>(),
    {
        <WC as GetComponentContainer<D>>::lemma_same_except(
            &after.containers,
            &before.containers,
            Self::kind_of::<C>(),
        );
    }

    /// A registry with no entities and one empty container per kind.
    pub fn new() -> (r: Self)
        ensures
            r.well_formed(),
            r.next_index() == 0,
            r.containers().holds_nothing(),
    {
        World { last_entity: 0, containers: WC::new() }
    }

    /// Allocates the next entity index and registers it with every container;
    /// every stored value stays.
    pub fn spawn(&mut self) -> (r: Entity)
        requires
            old(self).next_index() < usize::MAX,
        ensures
            r.index_spec() == old(self).next_index(),
            final(self).next_index() == old(self).next_index() + 1,
            old(self).well_formed() ==> final(self).well_formed(),
            final(self).containers().covers(r.index_spec()),
            forall|i: usize| old(self).containers().covers(i) ==> #[trigger] final(self).containers().covers(i),
            old(self).containers().holds_nothing() ==> final(self).containers().holds_nothing(),
            final(self).containers().same_values(&old(self).containers()),
    {
        let entity = Entity::new(self.last_entity);
        self.last_entity = self.last_entity + 1;
        self.containers.add_entity(entity);
        entity
    }

    /// Stores `component` for `entity` in the container of kind `C`, whose
    /// slot for the entity must exist: an entity that this registry spawned.
    /// Every other container stays as it was.
    pub fn add<C>(&mut self, entity: Entity, component: C)
        where WC: GetComponentContainer<C>,
        requires
            old(self).container_of::<C>().covers(entity.index_spec()),
        ensures
            final(self).next_index() == old(self).next_index(),
            final(self).components::<C>() == old(self).components::<C>().insert(
                entity.index_spec(),
                component,
            ),
            forall|i: usize| #[trigger] final(self).container_of::<C>().covers(i) == old(
                self,
            ).container_of::<C>().covers(i),
            final(self).containers().same_except(&old(self).containers(), Self::kind_of::<C>()),
            old(self).well_formed() ==> final(self).well_formed(),
            forall|i: usize| old(self).containers().covers(i) ==> #[trigger] final(self).containers().covers(i),
    {
        let c = self.containers.get_components_mut();
        c.set(entity, component);
    }

    /// Calls `f` once per entity that holds every kind of the query `Q`, and
    /// on nothing else.
    pub fn for_each<'a, Q: Query<'a, WC, I>, I, F: FnMut(usize, I)>(&'a self, f: F)
        requires
            self.well_formed(),
            forall|i: usize, item: I| #[trigger] Q::matched(self, i, item) ==> f.requires((i, item)),
        ensures
            forall|i: usize, item: I| #[trigger] Q::matched(self, i, item) ==> f.ensures((i, item), ()),
    {
        Q::for_each(self, f)
    }

    /// Like `for_each`, always scanning the container with the fewest entries
    /// and probing the others.
    pub fn for_each_sparse<'a, Q: Query<'a, WC, I>, I, F: FnMut(usize, I)>(&'a self, f: F)
        requires
            self.well_formed(),
            forall|i: usize, item: I| #[trigger] Q::matched(self, i, item) ==> f.requires((i, item)),
        ensures
            forall|i: usize, item: I| #[trigger] Q::matched(self, i, item) ==> f.ensures((i, item), ()),
    {
        Q::for_each_sparse(self, f)
    }

    /// The container of kind `C`.
    pub fn get<C>(&self) -> (r: &<WC as GetComponentContainer<C>>::Container)
        where WC: GetComponentContainer<C>,
        ensures
            *r == self.container_of::<C>(),
    {
        self.containers.get_components()
    }

    /// The container of kind `C`, for changes; every other container stays.
    pub fn get_mut<C>(&mut self) -> (r: &mut <WC as GetComponentContainer<C>>::Container)
        where WC: GetComponentContainer<C>,
        ensures
            *r == old(self).container_of::<C>(),
            final(self).container_of::<C>() == *final(r),
            final(self).next_index() == old(self).next_index(),
            final(self).containers().same_except(&old(self).containers(), Self::kind_of::<C>()),
            (forall|i: usize| old(self).container_of::<C>().covers(i) ==> #[trigger] final(r).covers(i))
                && final(r).is_dense() == (*r).is_dense() && (final(r).is_dense() ==> final(r).size()
                == (*r).size()) ==> (old(self).well_formed() ==> final(self).well_formed()),
    {
        self.containers.get_components_mut()
    }
}

impl<WC: WorldContainer> Default for World<WC> {
    /// A registry with no entities and one empty container per kind.
    fn default() -> (r: Self)
        ensures
            r.well_formed(),
            r.next_index() == 0,
            r.containers().holds_nothing(),
    {
        Self::new()
    }
}

} // verus!
