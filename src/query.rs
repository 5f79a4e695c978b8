use vstd::prelude::*;

use crate::container::{in_domain, ComponentContainer};
use crate::dense::{indices_where, lemma_indices_where, occupied};
use crate::entity::Entity;
use crate::laws::{lemma_probe_exact2, lemma_probe_exact3};
use crate::world::{GetComponentContainer, World, WorldContainer};
use crate::dense::{all_present, both_present};
use crate::zip::{ZippedQuery2, ZippedQuery3};

verus! {

broadcast use vstd::seq_lib::group_seq_properties;

/// Membership in both key sets.
pub open spec fn in_both<C1, C2>(m1: Map<usize, C1>, m2: Map<usize, C2>) -> spec_fn(usize) -> bool {
    |i: usize| m1.contains_key(i) && m2.contains_key(i)
}

/// Membership in all three key sets.
pub open spec fn in_all<C1, C2, C3>(
    m1: Map<usize, C1>,
    m2: Map<usize, C2>,
    m3: Map<usize, C3>,
) -> spec_fn(usize) -> bool {
    |i: usize| m1.contains_key(i) && m2.contains_key(i) && m3.contains_key(i)
}

/// The fallback join of two containers: the scan of the first, kept where the
/// second holds a value.
pub open spec fn probe_order2<C1, C2, K1: ComponentContainer<C1>, K2: ComponentContainer<C2>>(
    a: K1,
    b: K2,
) -> Seq<usize> {
    a.scan_order().filter(in_domain(b.components()))
}

/// The fallback join of three containers: the scan of the first, kept where
/// the other two hold a value.
pub open spec fn probe_order3<
    C1,
    C2,
    C3,
    K1: ComponentContainer<C1>,
    K2: ComponentContainer<C2>,
    K3: ComponentContainer<C3>,
>(a: K1, b: K2, c: K3) -> Seq<usize> {
    a.scan_order().filter(in_both(b.components(), c.components()))
}

/// The fallback join of two containers, scanning the one with fewer entries.
pub open spec fn fallback_order2<C1, C2, K1: ComponentContainer<C1>, K2: ComponentContainer<C2>>(
    a: K1,
    b: K2,
) -> Seq<usize> {
    if a.components().dom().len() <= b.components().dom().len() {
        probe_order2(a, b)
    } else {
        probe_order2(b, a)
    }
}

/// The fallback join of three containers, scanning the one with the fewest entries.
pub open spec fn fallback_order3<
    C1,
    C2,
    C3,
    K1: ComponentContainer<C1>,
    K2: ComponentContainer<C2>,
    K3: ComponentContainer<C3>,
>(a: K1, b: K2, c: K3) -> Seq<usize> {
    let na = a.components().dom().len();
    let nb = b.components().dom().len();
    let nc = c.components().dom().len();
    if na <= nb && na <= nc {
        probe_order3(a, b, c)
    } else if nb <= nc {
        probe_order3(b, a, c)
    } else {
        probe_order3(c, a, b)
    }
}

/// The aligned join of two dense containers: the common indices, ascending.
pub open spec fn aligned_order2<C1, C2, K1: ComponentContainer<C1>, K2: ComponentContainer<C2>>(
    a: K1,
    b: K2,
) -> Seq<usize> {
    indices_where(a.size(), in_both(a.components(), b.components()))
}

/// The aligned join of three dense containers: the common indices, ascending.
pub open spec fn aligned_order3<
    C1,
    C2,
    C3,
    K1: ComponentContainer<C1>,
    K2: ComponentContainer<C2>,
    K3: ComponentContainer<C3>,
>(a: K1, b: K2, c: K3) -> Seq<usize> {
    indices_where(a.size(), in_all(a.components(), b.components(), c.components()))
}

/// Whether two containers take the aligned path: both dense, of one length.
pub open spec fn aligned2<C1, C2, K1: ComponentContainer<C1>, K2: ComponentContainer<C2>>(
    a: K1,
    b: K2,
) -> bool {
    a.is_dense() && b.is_dense() && a.size() == b.size()
}

/// Whether three containers take the aligned path: all dense, of one length.
pub open spec fn aligned3<
    C1,
    C2,
    C3,
    K1: ComponentContainer<C1>,
    K2: ComponentContainer<C2>,
    K3: ComponentContainer<C3>,
>(a: K1, b: K2, c: K3) -> bool {
    a.is_dense() && b.is_dense() && c.is_dense() && a.size() == b.size() && a.size() == c.size()
}

/// Whether a container's reported size stays clear of the top of the index range.
pub fn validate_container<C, K: ComponentContainer<C>>(container: &K, _name: &str) -> (r: bool)
    ensures
        r == (container.size() < usize::MAX / 2),
{
    container.len() < usize::MAX / 2
}

/// Whether `entity_index` lies below `max_entities`.
pub fn is_valid_entity_index(entity_index: usize, max_entities: usize) -> (r: bool)
    ensures
        r == (entity_index < max_entities),
{
    entity_index < max_entities
}

/// The entity at `entity_index`, refusing the one index that no registry can hand out.
pub fn safe_entity_new(entity_index: usize) -> (r: Option<Entity>)
    ensures
        r is None <==> entity_index == usize::MAX,
        r matches Some(e) ==> e.index_spec() == entity_index,
{
    if entity_index == usize::MAX {
        None
    } else {
        Some(Entity::new(entity_index))
    }
}

/// The fallback join of two containers: scan the first, probe the second.
pub fn probe_join2<C1, C2, K1: ComponentContainer<C1>, K2: ComponentContainer<C2>>(
    a: &K1,
    b: &K2,
) -> (r: Vec<usize>)
    ensures
        r@ == probe_order2(*a, *b),
        r@.no_duplicates(),
        forall|i: usize| #[trigger]
            r@.contains(i) <==> (a.components().contains_key(i) && b.components().contains_key(i)),
{
    let order = a.scan_indices();
    proof {
        lemma_probe_exact2(*a, *b);
    }
    let ghost pred = in_domain(b.components());
    let mut out: Vec<usize> = Vec::new();
    let mut k: usize = 0;
    while k < order.len()
        invariant
            pred == in_domain(b.components()),
            k <= order@.len(),
            out@ == order@.subrange(0, k as int).filter(pred),
        decreases order@.len() - k,
    {
        let i = order[k];
        proof {
            assert(order@.subrange(0, k + 1) == order@.subrange(0, k as int).push(i));
            order@.subrange(0, k as int).lemma_filter_push(i, pred);
        }
        if b.get_index(i).is_some() {
            out.push(i);
        }
        k = k + 1;
    }
    assert(order@.subrange(0, k as int) == order@);
    out
}

/// The fallback join of three containers: scan the first, probe the other two.
pub fn probe_join3<
    C1,
    C2,
    C3,
    K1: ComponentContainer<C1>,
    K2: ComponentContainer<C2>,
    K3: ComponentContainer<C3>,
>(a: &K1, b: &K2, c: &K3) -> (r: Vec<usize>)
    ensures
        r@ == probe_order3(*a, *b, *c),
        r@.no_duplicates(),
        forall|i: usize| #[trigger]
            r@.contains(i) <==> (a.components().contains_key(i) && b.components().contains_key(i)
                && c.components().contains_key(i)),
{
    let order = a.scan_indices();
    proof {
        lemma_probe_exact3(*a, *b, *c);
    }
    let ghost pred = in_both(b.components(), c.components());
    let mut out: Vec<usize> = Vec::new();
    let mut k: usize = 0;
    while k < order.len()
        invariant
            pred == in_both(b.components(), c.components()),
            k <= order@.len(),
            out@ == order@.subrange(0, k as int).filter(pred),
        decreases order@.len() - k,
    {
        let i = order[k];
        proof {
            assert(order@.subrange(0, k + 1) == order@.subrange(0, k as int).push(i));
            order@.subrange(0, k as int).lemma_filter_push(i, pred);
        }
        if b.get_index(i).is_some() && c.get_index(i).is_some() {
            out.push(i);
        }
        k = k + 1;
    }
    assert(order@.subrange(0, k as int) == order@);
    out
}

/// The fallback join of two containers: scan the one with fewer entries and
/// probe the other.
pub fn fallback_join2<C1, C2, K1: ComponentContainer<C1>, K2: ComponentContainer<C2>>(
    a: &K1,
    b: &K2,
) -> (r: Vec<usize>)
    ensures
        r@ == fallback_order2(*a, *b),
        r@.no_duplicates(),
        forall|i: usize| #[trigger]
            r@.contains(i) <==> (a.components().contains_key(i) && b.components().contains_key(i)),
{
    if a.count() <= b.count() {
        probe_join2(a, b)
    } else {
        probe_join2(b, a)
    }
}

/// The fallback join of three containers: scan the one with the fewest
/// entries and probe the other two.
pub fn fallback_join3<
    C1,
    C2,
    C3,
    K1: ComponentContainer<C1>,
    K2: ComponentContainer<C2>,
    K3: ComponentContainer<C3>,
>(a: &K1, b: &K2, c: &K3) -> (r: Vec<usize>)
    ensures
        r@ == fallback_order3(*a, *b, *c),
        r@.no_duplicates(),
        forall|i: usize| #[trigger]
            r@.contains(i) <==> (a.components().contains_key(i) && b.components().contains_key(i)
                && c.components().contains_key(i)),
{
    let na = a.count();
    let nb = b.count();
    let nc = c.count();
    if na <= nb && na <= nc {
        probe_join3(a, b, c)
    } else if nb <= nc {
        probe_join3(b, a, c)
    } else {
        probe_join3(c, a, b)
    }
}

/// The indices of a two-way join: by the aligned scan when both containers
/// are dense and of one length, else by scanning the one with fewer entries
/// and probing the other.
pub fn join2<C1, C2, K1: ComponentContainer<C1>, K2: ComponentContainer<C2>>(
    a: &K1,
    b: &K2,
) -> (r: Vec<usize>)
    requires
        a.is_dense() && b.is_dense() ==> a.size() == b.size(),
    ensures
        r@ == if aligned2(*a, *b) {
            aligned_order2(*a, *b)
        } else {
            fallback_order2(*a, *b)
        },
        r@.no_duplicates(),
        forall|i: usize| #[trigger] r@.contains(i) <==> in_both(a.components(), b.components())(i),
{
    if let Some(da) = a.dense() {
        if let Some(db) = b.dense() {
            if da.len() == db.len() {
                let z = ZippedQuery2::new(da, db);
                let r = z.indices();
                proof {
                    da.lemma_recency_exact();
                    lemma_indices_where(da.slots().len(), both_present(da.slots(), db.slots()));
                }
                assert(both_present(da.slots(), db.slots()) =~= in_both(a.components(), b.components()));
                return r;
            }
        }
    }
    fallback_join2(a, b)
}

/// The indices of a three-way join: by the aligned scan when all containers
/// are dense and of one length, else by scanning the one with the fewest
/// entries and probing the others.
pub fn join3<
    C1,
    C2,
    C3,
    K1: ComponentContainer<C1>,
    K2: ComponentContainer<C2>,
    K3: ComponentContainer<C3>,
>(a: &K1, b: &K2, c: &K3) -> (r: Vec<usize>)
    requires
        a.is_dense() && b.is_dense() ==> a.size() == b.size(),
        a.is_dense() && c.is_dense() ==> a.size() == c.size(),
    ensures
        r@ == if aligned3(*a, *b, *c) {
            aligned_order3(*a, *b, *c)
        } else {
            fallback_order3(*a, *b, *c)
        },
        r@.no_duplicates(),
        forall|i: usize| #[trigger] r@.contains(i) <==> in_all(a.components(), b.components(), c.components())(i),
{
    if let Some(da) = a.dense() {
        if let Some(db) = b.dense() {
            if let Some(dc) = c.dense() {
                if da.len() == db.len() && da.len() == dc.len() {
                    let z = ZippedQuery3::new(da, db, dc);
                    let r = z.indices();
                    proof {
                        da.lemma_recency_exact();
                        lemma_indices_where(da.slots().len(), all_present(da.slots(), db.slots(), dc.slots()));
                    }
                    assert(all_present(da.slots(), db.slots(), dc.slots()) =~= in_all(
                        a.components(),
                        b.components(),
                        c.components(),
                    ));
                    return r;
                }
            }
        }
    }
    fallback_join3(a, b, c)
}

/// Calls `f` once per entity that holds a value in both containers, choosing
/// the path as `join2` does.
pub fn for_each2<C1, C2, K1: ComponentContainer<C1>, K2: ComponentContainer<C2>, F: FnMut(usize, &C1, &C2)>(
    a: &K1,
    b: &K2,
    mut f: F,
)
    requires
        a.is_dense() && b.is_dense() ==> a.size() == b.size(),
        forall|i: usize| #[trigger] in_both(a.components(), b.components())(i) ==> f.requires((i, &a.components()[i], &b.components()[i])),
    ensures
        forall|i: usize| #[trigger] in_both(a.components(), b.components())(i) ==> f.ensures(
            (i, &a.components()[i], &b.components()[i]),
            (),
        ),
{
    if let Some(da) = a.dense() {
        if let Some(db) = b.dense() {
            if da.len() == db.len() {
                assert(both_present(da.slots(), db.slots()) =~= in_both(a.components(), b.components()));
                ZippedQuery2::new(da, db).for_each(f);
                return;
            }
        }
    }
    let ghost f0 = f;
    let order = fallback_join2(a, b);
    let mut k: usize = 0;
    while k < order.len()
        invariant
            f == f0,
            k <= order@.len(),
            forall|i: usize| #[trigger]
                order@.contains(i) <==> (a.components().contains_key(i) && b.components().contains_key(i)),
            forall|i: usize| #[trigger] in_both(a.components(), b.components())(i) ==> f.requires((i, &a.components()[i], &b.components()[i])),
            forall|j: int| 0 <= j < k ==> f.ensures(
                (#[trigger] order@[j], &a.components()[order@[j]], &b.components()[order@[j]]),
                (),
            ),
        decreases order@.len() - k,
    {
        let i = order[k];
        assert(order@.contains(i));
        if let Some(x) = a.get_index(i) {
            if let Some(y) = b.get_index(i) {
                assert(in_both(a.components(), b.components())(i));
                f(i, x, y);
            }
        }
        k = k + 1;
    }
    assert forall|i: usize| #[trigger] in_both(a.components(), b.components())(i) implies f.ensures(
        (i, &a.components()[i], &b.components()[i]),
        (),
    ) by {
        assert(order@.contains(i));
        let j = choose|j: int| 0 <= j < order@.len() && order@[j] == i;
    }
}

/// Calls `f` once per entity that holds a value in all three containers,
/// choosing the path as `join3` does.
pub fn for_each3<
    C1,
    C2,
    C3,
    K1: ComponentContainer<C1>,
    K2: ComponentContainer<C2>,
    K3: ComponentContainer<C3>,
    F: FnMut(usize, &C1, &C2, &C3),
>(a: &K1, b: &K2, c: &K3, mut f: F)
    requires
        a.is_dense() && b.is_dense() ==> a.size() == b.size(),
        a.is_dense() && c.is_dense() ==> a.size() == c.size(),
        forall|i: usize| #[trigger] in_all(a.components(), b.components(), c.components())(i) ==> f.requires((i, &a.components()[i], &b.components()[i], &c.components()[i])),
    ensures
        forall|i: usize| #[trigger] in_all(a.components(), b.components(), c.components())(i)
            ==> f.ensures((i, &a.components()[i], &b.components()[i], &c.components()[i]), ()),
{
    if let Some(da) = a.dense() {
        if let Some(db) = b.dense() {
            if let Some(dc) = c.dense() {
                if da.len() == db.len() && da.len() == dc.len() {
                    assert(all_present(da.slots(), db.slots(), dc.slots()) =~= in_all(
                        a.components(),
                        b.components(),
                        c.components(),
                    ));
                    ZippedQuery3::new(da, db, dc).for_each(f);
                    return;
                }
            }
        }
    }
    let ghost f0 = f;
    let order = fallback_join3(a, b, c);
    let mut k: usize = 0;
    while k < order.len()
        invariant
            f == f0,
            k <= order@.len(),
            forall|i: usize| #[trigger]
                order@.contains(i) <==> (a.components().contains_key(i) && b.components().contains_key(i)
                    && c.components().contains_key(i)),
            forall|i: usize| #[trigger] in_all(a.components(), b.components(), c.components())(i) ==> f.requires((i, &a.components()[i], &b.components()[i], &c.components()[i])),
            forall|j: int| 0 <= j < k ==> f.ensures(
                (#[trigger] order@[j], &a.components()[order@[j]], &b.components()[order@[j]], &c.components()[order@[j]]),
                (),
            ),
        decreases order@.len() - k,
    {
        let i = order[k];
        assert(order@.contains(i));
        if let Some(x) = a.get_index(i) {
            if let Some(y) = b.get_index(i) {
                if let Some(z) = c.get_index(i) {
                    assert(in_all(a.components(), b.components(), c.components())(i));
                    f(i, x, y, z);
                }
            }
        }
        k = k + 1;
    }
    assert forall|i: usize| #[trigger] in_all(a.components(), b.components(), c.components())(i)
        implies f.ensures((i, &a.components()[i], &b.components()[i], &c.components()[i]), ()) by {
        assert(order@.contains(i));
        let j = choose|j: int| 0 <= j < order@.len() && order@[j] == i;
    }
}

/// A tuple of one to three component kinds, read together from a registry:
/// the callback runs once per entity that holds every kind.
/// `Item` is what the callback receives for one entity: a reference to each component.
pub trait Query<'a, WC: WorldContainer, Item> {
    /// Every kind's container holds a value at `i`, and `item` refers to those values.
    spec fn matched(world: &World<WC>, i: usize, item: Item) -> bool;

    /// Calls `f` once per matching entity, and on nothing else, choosing the
    /// aligned path when every container is dense and the fallback path otherwise.
    fn for_each<F: FnMut(usize, Item)>(world: &'a World<WC>, f: F)
        requires
            world.well_formed(),
            forall|i: usize, item: Item| #[trigger] Self::matched(world, i, item) ==> f.requires((i, item)),
        ensures
            forall|i: usize, item: Item| #[trigger] Self::matched(world, i, item) ==> f.ensures((i, item), ()),
    ;

    /// Calls `f` once per matching entity, and on nothing else, always by
    /// scanning the container with the fewest entries and probing the others.
    fn for_each_sparse<F: FnMut(usize, Item)>(world: &'a World<WC>, f: F)
        requires
            world.well_formed(),
            forall|i: usize, item: Item| #[trigger] Self::matched(world, i, item) ==> f.requires((i, item)),
        ensures
            forall|i: usize, item: Item| #[trigger] Self::matched(world, i, item) ==> f.ensures((i, item), ()),
    ;
}

/// Calls `f` on each listed index that holds a value in `a`.
fn visit1<'a, A: 'a, K: ComponentContainer<A>, F: FnMut(usize, &'a A)>(a: &'a K, order: &Vec<usize>, mut f: F)
    requires
        forall|i: usize| #[trigger] a.components().contains_key(i) ==> order@.contains(i),
        forall|i: usize| #[trigger] a.components().contains_key(i) ==> f.requires((i, &a.components()[i])),
    ensures
        forall|i: usize| #[trigger] a.components().contains_key(i) ==> f.ensures((i, &a.components()[i]), ()),
{
    let ghost f0 = f;
    let mut k: usize = 0;
    while k < order.len()
        invariant
            f == f0,
            k <= order@.len(),
            forall|i: usize| #[trigger] a.components().contains_key(i) ==> f.requires((i, &a.components()[i])),
            forall|j: int| 0 <= j < k && a.components().contains_key(#[trigger] order@[j])
                ==> f.ensures((order@[j], &a.components()[order@[j]]), ()),
        decreases order@.len() - k,
    {
        let i = order[k];
        if let Some(x) = a.get_index(i) {
            f(i, x);
        }
        k = k + 1;
    }
    assert forall|i: usize| #[trigger] a.components().contains_key(i) implies f.ensures((i, &a.components()[i]), ()) by {
        assert(order@.contains(i));
        let j = choose|j: int| 0 <= j < order@.len() && order@[j] == i;
    }
}

/// Calls `f` on each listed index that holds a value in `a` and in `b`.
fn visit2<'a, A: 'a, B: 'a, KA: ComponentContainer<A>, KB: ComponentContainer<B>, F: FnMut(usize, (&'a A, &'a B))>(
    a: &'a KA,
    b: &'a KB,
    order: &Vec<usize>,
    mut f: F,
)
    requires
        forall|i: usize| #[trigger] in_both(a.components(), b.components())(i) ==> order@.contains(i),
        forall|i: usize| #[trigger] in_both(a.components(), b.components())(i) ==> f.requires(
            (i, (&a.components()[i], &b.components()[i])),
        ),
    ensures
        forall|i: usize| #[trigger] in_both(a.components(), b.components())(i) ==> f.ensures(
            (i, (&a.components()[i], &b.components()[i])),
            (),
        ),
{
    let ghost f0 = f;
    let mut k: usize = 0;
    while k < order.len()
        invariant
            f == f0,
            k <= order@.len(),
            forall|i: usize| #[trigger] in_both(a.components(), b.components())(i) ==> f.requires(
                (i, (&a.components()[i], &b.components()[i])),
            ),
            forall|j: int| 0 <= j < k && in_both(a.components(), b.components())(#[trigger] order@[j])
                ==> f.ensures((order@[j], (&a.components()[order@[j]], &b.components()[order@[j]])), ()),
        decreases order@.len() - k,
    {
        let i = order[k];
        if let Some(x) = a.get_index(i) {
            if let Some(y) = b.get_index(i) {
                assert(in_both(a.components(), b.components())(i));
                f(i, (x, y));
            }
        }
        k = k + 1;
    }
    assert forall|i: usize| #[trigger] in_both(a.components(), b.components())(i) implies f.ensures(
        (i, (&a.components()[i], &b.components()[i])),
        (),
    ) by {
        assert(order@.contains(i));
        let j = choose|j: int| 0 <= j < order@.len() && order@[j] == i;
    }
}

/// Calls `f` on each listed index that holds a value in all three containers.
fn visit3<
    'a,
    A: 'a,
    B: 'a,
    C: 'a,
    KA: ComponentContainer<A>,
    KB: ComponentContainer<B>,
    KC: ComponentContainer<C>,
    F: FnMut(usize, (&'a A, &'a B, &'a C)),
>(a: &'a KA, b: &'a KB, c: &'a KC, order: &Vec<usize>, mut f: F)
    requires
        forall|i: usize| #[trigger] in_all(a.components(), b.components(), c.components())(i) ==> order@.contains(i),
        forall|i: usize| #[trigger] in_all(a.components(), b.components(), c.components())(i) ==> f.requires(
            (i, (&a.components()[i], &b.components()[i], &c.components()[i])),
        ),
    ensures
        forall|i: usize| #[trigger] in_all(a.components(), b.components(), c.components())(i) ==> f.ensures(
            (i, (&a.components()[i], &b.components()[i], &c.components()[i])),
            (),
        ),
{
    let ghost f0 = f;
    let mut k: usize = 0;
    while k < order.len()
        invariant
            f == f0,
            k <= order@.len(),
            forall|i: usize| #[trigger] in_all(a.components(), b.components(), c.components())(i) ==> f.requires(
                (i, (&a.components()[i], &b.components()[i], &c.components()[i])),
            ),
            forall|j: int| 0 <= j < k && in_all(a.components(), b.components(), c.components())(#[trigger] order@[j])
                ==> f.ensures((order@[j], (&a.components()[order@[j]], &b.components()[order@[j]], &c.components()[order@[j]])), ()),
        decreases order@.len() - k,
    {
        let i = order[k];
        if let Some(x) = a.get_index(i) {
            if let Some(y) = b.get_index(i) {
                if let Some(z) = c.get_index(i) {
                    assert(in_all(a.components(), b.components(), c.components())(i));
                    f(i, (x, y, z));
                }
            }
        }
        k = k + 1;
    }
    assert forall|i: usize| #[trigger] in_all(a.components(), b.components(), c.components())(i) implies f.ensures(
        (i, (&a.components()[i], &b.components()[i], &c.components()[i])),
        (),
    ) by {
        assert(order@.contains(i));
        let j = choose|j: int| 0 <= j < order@.len() && order@[j] == i;
    }
}

impl<'a, A: 'a, WC: WorldContainer + GetComponentContainer<A>> Query<'a, WC, &'a A> for &'a A {
    open spec fn matched(world: &World<WC>, i: usize, item: &'a A) -> bool {
        &&& world.components::<A>().contains_key(i)
        &&& *item == world.components::<A>()[i]
    }

    fn for_each<F: FnMut(usize, &'a A)>(world: &'a World<WC>, f: F) {
        let a = world.get::<A>();
        let order = a.scan_indices();
        proof {
            a.lemma_scan_order();
            assert forall|i: usize| #[trigger] a.components().contains_key(i) implies f.requires(
                (i, &a.components()[i]),
            ) by {
                assert(Self::matched(world, i, &a.components()[i]));
            }
        }
        visit1(a, &order, f);
        assert forall|i: usize, item: &'a A| #[trigger] Self::matched(world, i, item) implies f.ensures(
            (i, item),
            (),
        ) by {
            assert(a.components().contains_key(i));
            assert(item == &a.components()[i]);
        }
    }

    fn for_each_sparse<F: FnMut(usize, &'a A)>(world: &'a World<WC>, f: F) {
        Self::for_each(world, f)
    }
}

impl<'a, A: 'a, B: 'a, WC: WorldContainer + GetComponentContainer<A> + GetComponentContainer<B>> Query<'a, WC, (&'a A, &'a B)> for (&'a A, &'a B) {
    open spec fn matched(world: &World<WC>, i: usize, item: (&'a A, &'a B)) -> bool {
        &&& world.components::<A>().contains_key(i)
        &&& world.components::<B>().contains_key(i)
        &&& *item.0 == world.components::<A>()[i]
        &&& *item.1 == world.components::<B>()[i]
    }

    fn for_each<F: FnMut(usize, (&'a A, &'a B))>(world: &'a World<WC>, f: F) {
        let a = world.get::<A>();
        let b = world.get::<B>();
        proof {
            world.lemma_container::<A>();
            world.lemma_container::<B>();
        }
        let order = join2(a, b);
        proof {
            assert forall|i: usize| #[trigger] in_both(a.components(), b.components())(i) implies f.requires(
                (i, (&a.components()[i], &b.components()[i])),
            ) by {
                assert(Self::matched(world, i, (&a.components()[i], &b.components()[i])));
            }
        }
        visit2(a, b, &order, f);
        assert forall|i: usize, item: (&'a A, &'a B)| #[trigger] Self::matched(world, i, item) implies f.ensures(
            (i, item),
            (),
        ) by {
            assert(in_both(a.components(), b.components())(i));
            assert(item == (&a.components()[i], &b.components()[i]));
        }
    }

    fn for_each_sparse<F: FnMut(usize, (&'a A, &'a B))>(world: &'a World<WC>, f: F) {
        let a = world.get::<A>();
        let b = world.get::<B>();
        let order = fallback_join2(a, b);
        proof {
            assert forall|i: usize| #[trigger] in_both(a.components(), b.components())(i) implies f.requires(
                (i, (&a.components()[i], &b.components()[i])),
            ) by {
                assert(Self::matched(world, i, (&a.components()[i], &b.components()[i])));
            }
        }
        visit2(a, b, &order, f);
        assert forall|i: usize, item: (&'a A, &'a B)| #[trigger] Self::matched(world, i, item) implies f.ensures(
            (i, item),
            (),
        ) by {
            assert(in_both(a.components(), b.components())(i));
            assert(item == (&a.components()[i], &b.components()[i]));
        }
    }
}

impl<
    'a,
    A: 'a,
    B: 'a,
    C: 'a,
    WC: WorldContainer + GetComponentContainer<A> + GetComponentContainer<B> + GetComponentContainer<C>,
> Query<'a, WC, (&'a A, &'a B, &'a C)> for (&'a A, &'a B, &'a C) {
    open spec fn matched(world: &World<WC>, i: usize, item: (&'a A, &'a B, &'a C)) -> bool {
        &&& world.components::<A>().contains_key(i)
        &&& world.components::<B>().contains_key(i)
        &&& world.components::<C>().contains_key(i)
        &&& *item.0 == world.components::<A>()[i]
        &&& *item.1 == world.components::<B>()[i]
        &&& *item.2 == world.components::<C>()[i]
    }

    fn for_each<F: FnMut(usize, (&'a A, &'a B, &'a C))>(world: &'a World<WC>, f: F) {
        let a = world.get::<A>();
        let b = world.get::<B>();
        let c = world.get::<C>();
        proof {
            world.lemma_container::<A>();
            world.lemma_container::<B>();
            world.lemma_container::<C>();
        }
        let order = join3(a, b, c);
        proof {
            assert forall|i: usize| #[trigger] in_all(a.components(), b.components(), c.components())(i) implies f.requires(
                (i, (&a.components()[i], &b.components()[i], &c.components()[i])),
            ) by {
                assert(Self::matched(world, i, (&a.components()[i], &b.components()[i], &c.components()[i])));
            }
        }
        visit3(a, b, c, &order, f);
        assert forall|i: usize, item: (&'a A, &'a B, &'a C)| #[trigger] Self::matched(world, i, item) implies f.ensures(
            (i, item),
            (),
        ) by {
            assert(in_all(a.components(), b.components(), c.components())(i));
            assert(item == (&a.components()[i], &b.components()[i], &c.components()[i]));
        }
    }

    fn for_each_sparse<F: FnMut(usize, (&'a A, &'a B, &'a C))>(world: &'a World<WC>, f: F) {
        let a = world.get::<A>();
        let b = world.get::<B>();
        let c = world.get::<C>();
        let order = fallback_join3(a, b, c);
        proof {
            assert forall|i: usize| #[trigger] in_all(a.components(), b.components(), c.components())(i) implies f.requires(
                (i, (&a.components()[i], &b.components()[i], &c.components()[i])),
            ) by {
                assert(Self::matched(world, i, (&a.components()[i], &b.components()[i], &c.components()[i])));
            }
        }
        visit3(a, b, c, &order, f);
        assert forall|i: usize, item: (&'a A, &'a B, &'a C)| #[trigger] Self::matched(world, i, item) implies f.ensures(
            (i, item),
            (),
        ) by {
            assert(in_all(a.components(), b.components(), c.components())(i));
            assert(item == (&a.components()[i], &b.components()[i], &c.components()[i]));
        }
    }
}

/// Each entry is smaller than the next.
pub open spec fn strictly_increasing(s: Seq<usize>) -> bool {
    forall|k1: int, k2: int| 0 <= k1 < k2 < s.len() ==> #[trigger] s[k1] < #[trigger] s[k2]
}

/// The merge join of two ascending index sequences: the indices in both, ascending.
pub fn merge_join(a: &Vec<usize>, b: &Vec<usize>) -> (r: Vec<usize>)
    requires
        strictly_increasing(a@),
        strictly_increasing(b@),
    ensures
        strictly_increasing(r@),
        forall|x: usize| #[trigger] r@.contains(x) <==> (a@.contains(x) && b@.contains(x)),
{
    let mut out: Vec<usize> = Vec::new();
    let mut i: usize = 0;
    let mut j: usize = 0;
    while i < a.len() && j < b.len()
        invariant
            strictly_increasing(a@),
            strictly_increasing(b@),
            strictly_increasing(out@),
            i <= a@.len(),
            j <= b@.len(),
            forall|x: usize| #[trigger]
                out@.contains(x) <==> (a@.subrange(0, i as int).contains(x) && b@.subrange(
                    0,
                    j as int,
                ).contains(x)),
            forall|k: int| 0 <= k < i ==> j < b@.len() ==> #[trigger] a@[k] < b@[j as int],
            forall|l: int| 0 <= l < j ==> i < a@.len() ==> #[trigger] b@[l] < a@[i as int],
            forall|k: int| 0 <= k < out@.len() ==> i < a@.len() ==> #[trigger] out@[k] < a@[i as int],
        decreases a@.len() + b@.len() - i - j,
    {
        let x = a[i];
        let y = b[j];
        let ghost sa = a@.subrange(0, i as int);
        let ghost sb = b@.subrange(0, j as int);
        if x < y {
            i = i + 1;
            proof {
                assert(a@.subrange(0, i as int) == sa.push(x));
                assert forall|z: usize| #[trigger]
                    out@.contains(z) <==> (a@.subrange(0, i as int).contains(z) && sb.contains(z)) by {
                    if z == x && sb.contains(z) {
                        let l = choose|l: int| 0 <= l < sb.len() && sb[l] == z;
                        assert(b@[l] < a@[i - 1]);
                    }
                    if a@.subrange(0, i as int).contains(z) && z != x {
                        let k = choose|k: int| 0 <= k < i && a@.subrange(0, i as int)[k] == z;
                        assert(sa[k] == z);
                    }
                }
            }
        } else if y < x {
            j = j + 1;
            proof {
                assert(b@.subrange(0, j as int) == sb.push(y));
                assert forall|z: usize| #[trigger]
                    out@.contains(z) <==> (sa.contains(z) && b@.subrange(0, j as int).contains(z)) by {
                    if z == y && sa.contains(z) {
                        let k = choose|k: int| 0 <= k < sa.len() && sa[k] == z;
                        assert(a@[k] < b@[j - 1]);
                    }
                    if b@.subrange(0, j as int).contains(z) && z != y {
                        let l = choose|l: int| 0 <= l < j && b@.subrange(0, j as int)[l] == z;
                        assert(sb[l] == z);
                    }
                }
            }
        } else {
            let ghost before = out@;
            out.push(x);
            i = i + 1;
            j = j + 1;
            proof {
                assert(a@.subrange(0, i as int) == sa.push(x));
                assert(b@.subrange(0, j as int) == sb.push(y));
                assert forall|z: usize| #[trigger]
                    out@.contains(z) <==> (a@.subrange(0, i as int).contains(z) && b@.subrange(
                        0,
                        j as int,
                    ).contains(z)) by {
                    if z == x {
                        assert(out@[out@.len() - 1] == z);
                        assert(a@.subrange(0, i as int)[i - 1] == z);
                        assert(b@.subrange(0, j as int)[j - 1] == z);
                    } else {
                        if out@.contains(z) {
                            let k = choose|k: int| 0 <= k < out@.len() && out@[k] == z;
                            assert(before[k] == z);
                            assert(before.contains(z));
                        }
                        if a@.subrange(0, i as int).contains(z) && b@.subrange(0, j as int).contains(z) {
                            let k = choose|k: int| 0 <= k < i && a@.subrange(0, i as int)[k] == z;
                            let l = choose|l: int| 0 <= l < j && b@.subrange(0, j as int)[l] == z;
                            assert(sa[k] == z);
                            assert(sb[l] == z);
                            assert(before.contains(z));
                            let m = choose|m: int| 0 <= m < before.len() && before[m] == z;
                            assert(out@[m] == z);
                        }
                    }
                }
            }
        }
    }
    proof {
        assert forall|x: usize| #[trigger] out@.contains(x) implies (a@.contains(x) && b@.contains(x)) by {
            let k = choose|k: int| 0 <= k < i && a@.subrange(0, i as int)[k] == x;
            let l = choose|l: int| 0 <= l < j && b@.subrange(0, j as int)[l] == x;
            assert(a@[k] == x);
            assert(b@[l] == x);
        }
        assert forall|x: usize| a@.contains(x) && b@.contains(x) implies #[trigger] out@.contains(x) by {
            let k = choose|k: int| 0 <= k < a@.len() && a@[k] == x;
            let l = choose|l: int| 0 <= l < b@.len() && b@[l] == x;
            if k < i && l < j {
                assert(a@.subrange(0, i as int)[k] == x);
                assert(b@.subrange(0, j as int)[l] == x);
            } else if k >= i {
                assert(j == b@.len());
                if i < a@.len() {
                    assert(b@[l] < a@[i as int]);
                    assert(a@[i as int] <= a@[k]);
                }
            } else {
                assert(i == a@.len());
                assert(a@[k] < b@[j as int]);
                assert(b@[j as int] <= b@[l]);
            }
        }
    }
    out
}

} // verus!
