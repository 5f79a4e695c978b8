use vstd::prelude::*;

use crate::container::{ComponentContainer, VecComponentContainer};
use crate::dense::{all_present, both_present, indices_where, lemma_filter_exact, occupied, DenseStorage};

verus! {

broadcast use vstd::seq_lib::group_seq_properties;

/// A position-aligned join of two dense containers of equal length.
pub struct ZippedQuery2<'a, T1, T2> {
    container1: &'a DenseStorage<T1>,
    container2: &'a DenseStorage<T2>,
    len: usize,
}

impl<'a, T1, T2> ZippedQuery2<'a, T1, T2> {
    /// The first operand.
    pub closed spec fn first(&self) -> DenseStorage<T1> {
        *self.container1
    }

    /// The second operand.
    pub closed spec fn second(&self) -> DenseStorage<T2> {
        *self.container2
    }

    /// The indices that hold a value in both operands, ascending.
    pub open spec fn matches(&self) -> Seq<usize> {
        indices_where(self.first().slots().len(), both_present(self.first().slots(), self.second().slots()))
    }

    /// The matches in the order of the shorter recency list (the first
    /// operand's on a tie).
    pub open spec fn sparse_matches(&self) -> Seq<usize> {
        if self.first().recency().len() <= self.second().recency().len() {
            self.first().recency().filter(occupied(self.second().slots()))
        } else {
            self.second().recency().filter(occupied(self.first().slots()))
        }
    }

    /// Both operands are well formed and of equal length.
    pub closed spec fn well_formed(&self) -> bool {
        &&& self.container1.well_formed()
        &&& self.container2.well_formed()
        &&& self.len == self.container1.slots().len()
        &&& self.len == self.container2.slots().len()
    }

    /// The join of two well-formed dense storages of equal length.
    pub fn new(container1: &'a DenseStorage<T1>, container2: &'a DenseStorage<T2>) -> (r: Self)
        requires
            container1.well_formed(),
            container2.well_formed(),
            container1.slots().len() == container2.slots().len(),
        ensures
            r.well_formed(),
            r.first() == *container1,
            r.second() == *container2,
    {
        let len = container1.len();
        ZippedQuery2 { container1, container2, len }
    }

    /// The indices that hold a value in both operands, ascending.
    pub fn indices(&self) -> (r: Vec<usize>)
        requires
            self.well_formed(),
        ensures
            r@ == self.matches(),
    {
        let mut out: Vec<usize> = Vec::new();
        let mut i: usize = 0;
        while i < self.len
            invariant
                self.well_formed(),
                i <= self.len,
                out@ == indices_where(i as nat, both_present(self.first().slots(), self.second().slots())),
            decreases self.len - i,
        {
            if self.container1.get(i).is_some() && self.container2.get(i).is_some() {
                out.push(i);
            }
            i = i + 1;
        }
        out
    }

    /// Calls `f` on every index that holds a value in both operands, ascending.
    pub fn for_each<F: FnMut(usize, &'a T1, &'a T2)>(self, mut f: F)
        requires
            self.well_formed(),
            forall|i: usize| #[trigger] both_present(self.first().slots(), self.second().slots())(i) ==> f.requires((i, &self.first().components()[i], &self.second().components()[i])),
        ensures
            forall|i: usize| #[trigger] both_present(self.first().slots(), self.second().slots())(i)
                ==> f.ensures((i, &self.first().components()[i], &self.second().components()[i]), ()),
    {
        let ghost f0 = f;
        let mut i: usize = 0;
        while i < self.len
            invariant
                f == f0,
                self.well_formed(),
                i <= self.len,
                forall|i: usize| #[trigger] both_present(self.first().slots(), self.second().slots())(i) ==> f.requires((i, &self.first().components()[i], &self.second().components()[i])),
                forall|j: usize| j < i && #[trigger] both_present(self.first().slots(), self.second().slots())(j)
                    ==> f.ensures((j, &self.first().components()[j], &self.second().components()[j]), ()),
            decreases self.len - i,
        {
            if let Some(a) = self.container1.get(i) {
                if let Some(b) = self.container2.get(i) {
                    assert(both_present(self.first().slots(), self.second().slots())(i));
                    f(i, a, b);
                }
            }
            i = i + 1;
        }
    }

    /// The matches along the shorter recency list.
    pub fn sparse_indices(&self) -> (r: Vec<usize>)
        requires
            self.well_formed(),
        ensures
            r@ == self.sparse_matches(),
            r@.no_duplicates(),
            forall|i: usize| #[trigger] r@.contains(i) <==> both_present(self.first().slots(), self.second().slots())(i),
    {
        proof {
            self.first().lemma_recency_exact();
            self.second().lemma_recency_exact();
            lemma_filter_exact(self.first().recency(), occupied(self.second().slots()));
            lemma_filter_exact(self.second().recency(), occupied(self.first().slots()));
        }
        if self.container1.count() <= self.container2.count() {
            self.container1.recency_filtered(self.container2)
        } else {
            self.container2.recency_filtered(self.container1)
        }
    }

    /// Calls `f` on every match, walking the shorter recency list.
    pub fn for_each_sparse<F: FnMut(usize, &'a T1, &'a T2)>(self, mut f: F)
        requires
            self.well_formed(),
            forall|i: usize| #[trigger] both_present(self.first().slots(), self.second().slots())(i) ==> f.requires((i, &self.first().components()[i], &self.second().components()[i])),
        ensures
            forall|i: usize| #[trigger] both_present(self.first().slots(), self.second().slots())(i)
                ==> f.ensures((i, &self.first().components()[i], &self.second().components()[i]), ()),
    {
        let ghost f0 = f;
        let order = self.sparse_indices();
        let mut k: usize = 0;
        while k < order.len()
            invariant
                f == f0,
                self.well_formed(),
                k <= order@.len(),
                forall|i: usize| #[trigger] order@.contains(i) <==> both_present(self.first().slots(), self.second().slots())(i),
                forall|i: usize| #[trigger] both_present(self.first().slots(), self.second().slots())(i) ==> f.requires((i, &self.first().components()[i], &self.second().components()[i])),
                forall|j: int| 0 <= j < k ==> f.ensures(
                    (#[trigger] order@[j], &self.first().components()[order@[j]], &self.second().components()[order@[j]]),
                    (),
                ),
            decreases order@.len() - k,
        {
            let i = order[k];
            assert(order@.contains(i));
            if let Some(a) = self.container1.get(i) {
                if let Some(b) = self.container2.get(i) {
                    f(i, a, b);
                }
            }
            k = k + 1;
        }
        assert forall|i: usize| #[trigger] both_present(self.first().slots(), self.second().slots())(i)
            implies f.ensures((i, &self.first().components()[i], &self.second().components()[i]), ()) by {
            assert(order@.contains(i));
            let j = choose|j: int| 0 <= j < order@.len() && order@[j] == i;
        }
    }
}

/// A position-aligned join of three dense containers of equal length.
pub struct ZippedQuery3<'a, T1, T2, T3> {
    container1: &'a DenseStorage<T1>,
    container2: &'a DenseStorage<T2>,
    container3: &'a DenseStorage<T3>,
    len: usize,
}

impl<'a, T1, T2, T3> ZippedQuery3<'a, T1, T2, T3> {
    /// The first operand.
    pub closed spec fn first(&self) -> DenseStorage<T1> {
        *self.container1
    }

    /// The second operand.
    pub closed spec fn second(&self) -> DenseStorage<T2> {
        *self.container2
    }

    /// The third operand.
    pub closed spec fn third(&self) -> DenseStorage<T3> {
        *self.container3
    }

    /// The indices that hold a value in all three operands, ascending.
    pub open spec fn matches(&self) -> Seq<usize> {
        indices_where(
            self.first().slots().len(),
            all_present(self.first().slots(), self.second().slots(), self.third().slots()),
        )
    }

    /// The matches in the order of the shortest recency list (the earlier
    /// operand's on a tie).
    pub open spec fn sparse_matches(&self) -> Seq<usize> {
        let n1 = self.first().recency().len();
        let n2 = self.second().recency().len();
        let n3 = self.third().recency().len();
        if n1 <= n2 && n1 <= n3 {
            self.first().recency().filter(both_present(self.second().slots(), self.third().slots()))
        } else if n2 <= n3 {
            self.second().recency().filter(both_present(self.first().slots(), self.third().slots()))
        } else {
            self.third().recency().filter(both_present(self.first().slots(), self.second().slots()))
        }
    }

    /// All operands are well formed and of equal length.
    pub closed spec fn well_formed(&self) -> bool {
        &&& self.container1.well_formed()
        &&& self.container2.well_formed()
        &&& self.container3.well_formed()
        &&& self.len == self.container1.slots().len()
        &&& self.len == self.container2.slots().len()
        &&& self.len == self.container3.slots().len()
    }

    /// The join of three well-formed dense storages of equal length.
    pub fn new(
        container1: &'a DenseStorage<T1>,
        container2: &'a DenseStorage<T2>,
        container3: &'a DenseStorage<T3>,
    ) -> (r: Self)
        requires
            container1.well_formed(),
            container2.well_formed(),
            container3.well_formed(),
            container1.slots().len() == container2.slots().len(),
            container1.slots().len() == container3.slots().len(),
        ensures
            r.well_formed(),
            r.first() == *container1,
            r.second() == *container2,
            r.third() == *container3,
    {
        let len = container1.len();
        ZippedQuery3 { container1, container2, container3, len }
    }

    /// The indices that hold a value in all three operands, ascending.
    pub fn indices(&self) -> (r: Vec<usize>)
        requires
            self.well_formed(),
        ensures
            r@ == self.matches(),
    {
        let mut out: Vec<usize> = Vec::new();
        let mut i: usize = 0;
        while i < self.len
            invariant
                self.well_formed(),
                i <= self.len,
                out@ == indices_where(
                    i as nat,
                    all_present(self.first().slots(), self.second().slots(), self.third().slots()),
                ),
            decreases self.len - i,
        {
            if self.container1.get(i).is_some() && self.container2.get(i).is_some()
                && self.container3.get(i).is_some() {
                out.push(i);
            }
            i = i + 1;
        }
        out
    }

    /// Calls `f` on every index that holds a value in all three operands, ascending.
    pub fn for_each<F: FnMut(usize, &'a T1, &'a T2, &'a T3)>(self, mut f: F)
        requires
            self.well_formed(),
            forall|i: usize| #[trigger] all_present(self.first().slots(), self.second().slots(), self.third().slots())(i) ==> f.requires((i, &self.first().components()[i], &self.second().components()[i], &self.third().components()[i])),
        ensures
            forall|i: usize| #[trigger] all_present(self.first().slots(), self.second().slots(), self.third().slots())(i)
                ==> f.ensures((i, &self.first().components()[i], &self.second().components()[i], &self.third().components()[i]), ()),
    {
        let ghost f0 = f;
        let mut i: usize = 0;
        while i < self.len
            invariant
                f == f0,
                self.well_formed(),
                i <= self.len,
                forall|i: usize| #[trigger] all_present(self.first().slots(), self.second().slots(), self.third().slots())(i) ==> f.requires((i, &self.first().components()[i], &self.second().components()[i], &self.third().components()[i])),
                forall|j: usize| j < i && #[trigger] all_present(self.first().slots(), self.second().slots(), self.third().slots())(j)
                    ==> f.ensures((j, &self.first().components()[j], &self.second().components()[j], &self.third().components()[j]), ()),
            decreases self.len - i,
        {
            if let Some(a) = self.container1.get(i) {
                if let Some(b) = self.container2.get(i) {
                    if let Some(c) = self.container3.get(i) {
                        assert(all_present(self.first().slots(), self.second().slots(), self.third().slots())(i));
                        f(i, a, b, c);
                    }
                }
            }
            i = i + 1;
        }
    }

    /// The matches along the shortest recency list.
    pub fn sparse_indices(&self) -> (r: Vec<usize>)
        requires
            self.well_formed(),
        ensures
            r@ == self.sparse_matches(),
            r@.no_duplicates(),
            forall|i: usize| #[trigger] r@.contains(i) <==> all_present(
                self.first().slots(),
                self.second().slots(),
                self.third().slots(),
            )(i),
    {
        proof {
            self.first().lemma_recency_exact();
            self.second().lemma_recency_exact();
            self.third().lemma_recency_exact();
            lemma_filter_exact(self.first().recency(), both_present(self.second().slots(), self.third().slots()));
            lemma_filter_exact(self.second().recency(), both_present(self.first().slots(), self.third().slots()));
            lemma_filter_exact(self.third().recency(), both_present(self.first().slots(), self.second().slots()));
        }
        let n1 = self.container1.count();
        let n2 = self.container2.count();
        let n3 = self.container3.count();
        if n1 <= n2 && n1 <= n3 {
            self.container1.recency_filtered2(self.container2, self.container3)
        } else if n2 <= n3 {
            self.container2.recency_filtered2(self.container1, self.container3)
        } else {
            self.container3.recency_filtered2(self.container1, self.container2)
        }
    }

    /// Calls `f` on every match, walking the shortest recency list.
    pub fn for_each_sparse<F: FnMut(usize, &'a T1, &'a T2, &'a T3)>(self, mut f: F)
        requires
            self.well_formed(),
            forall|i: usize| #[trigger] all_present(self.first().slots(), self.second().slots(), self.third().slots())(i) ==> f.requires((i, &self.first().components()[i], &self.second().components()[i], &self.third().components()[i])),
        ensures
            forall|i: usize| #[trigger] all_present(self.first().slots(), self.second().slots(), self.third().slots())(i)
                ==> f.ensures((i, &self.first().components()[i], &self.second().components()[i], &self.third().components()[i]), ()),
    {
        let ghost f0 = f;
        let order = self.sparse_indices();
        let mut k: usize = 0;
        while k < order.len()
            invariant
                f == f0,
                self.well_formed(),
                k <= order@.len(),
                forall|i: usize| #[trigger] order@.contains(i) <==> all_present(
                    self.first().slots(),
                    self.second().slots(),
                    self.third().slots(),
                )(i),
                forall|i: usize| #[trigger] all_present(self.first().slots(), self.second().slots(), self.third().slots())(i) ==> f.requires((i, &self.first().components()[i], &self.second().components()[i], &self.third().components()[i])),
                forall|j: int| 0 <= j < k ==> f.ensures(
                    (#[trigger] order@[j], &self.first().components()[order@[j]], &self.second().components()[order@[j]], &self.third().components()[order@[j]]),
                    (),
                ),
            decreases order@.len() - k,
        {
            let i = order[k];
            assert(order@.contains(i));
            if let Some(a) = self.container1.get(i) {
                if let Some(b) = self.container2.get(i) {
                    if let Some(c) = self.container3.get(i) {
                        f(i, a, b, c);
                    }
                }
            }
            k = k + 1;
        }
        assert forall|i: usize| #[trigger] all_present(self.first().slots(), self.second().slots(), self.third().slots())(i)
            implies f.ensures((i, &self.first().components()[i], &self.second().components()[i], &self.third().components()[i]), ()) by {
            assert(order@.contains(i));
            let j = choose|j: int| 0 <= j < order@.len() && order@[j] == i;
        }
    }
}

/// The position-aligned join of two dense containers of equal length.
pub fn zip<'a, T1, T2, A1, A2>(
    container1: &'a VecComponentContainer<T1, A1>,
    container2: &'a VecComponentContainer<T2, A2>,
) -> (r: ZippedQuery2<'a, T1, T2>)
    requires
        container1.storage().slots().len() == container2.storage().slots().len(),
    ensures
        r.well_formed(),
        r.first() == container1.storage(),
        r.second() == container2.storage(),
{
    ZippedQuery2::new(container1.dense_storage(), container2.dense_storage())
}

/// The position-aligned join of three dense containers of equal length.
pub fn zip3<'a, T1, T2, T3, A1, A2, A3>(
    container1: &'a VecComponentContainer<T1, A1>,
    container2: &'a VecComponentContainer<T2, A2>,
    container3: &'a VecComponentContainer<T3, A3>,
) -> (r: ZippedQuery3<'a, T1, T2, T3>)
    requires
        container1.storage().slots().len() == container2.storage().slots().len(),
        container1.storage().slots().len() == container3.storage().slots().len(),
    ensures
        r.well_formed(),
        r.first() == container1.storage(),
        r.second() == container2.storage(),
        r.third() == container3.storage(),
{
    ZippedQuery3::new(container1.dense_storage(), container2.dense_storage(), container3.dense_storage())
}

/// A position-aligned join of two dense containers of equal length that
/// changes the values of the first.
pub struct ZippedQueryMut2<'a, T1, T2, A1> {
    /// The container whose values change.
    pub container1: &'a mut VecComponentContainer<T1, A1>,
    /// The storage that is read.
    pub container2: &'a DenseStorage<T2>,
}

impl<'a, T1, T2, A1> ZippedQueryMut2<'a, T1, T2, A1> {
    /// Both operands are well formed and have one length.
    pub open spec fn well_formed(&self) -> bool {
        &&& self.container2.well_formed()
        &&& self.container1.storage().slots().len() == self.container2.slots().len()
    }

    /// Calls `f` on every index that holds a value in both operands, ascending,
    /// with a mutable reference to the first operand's value.
    pub fn for_each_mut<F: FnMut(usize, &mut T1, &T2)>(self, f: F)
        requires
            self.well_formed(),
            forall|i: usize, a: &mut T1, b: &T2| self.container1.components().contains_key(i) && self.container2.components().contains_key(i) && *a == self.container1.components()[i] && *b == self.container2.components()[i] ==> #[trigger] f.requires((i, a, b)),
        ensures
            final(self.container1).storage().slots().len() == old(self.container1).storage().slots().len(),
            final(self.container1).components().dom() == old(self.container1).components().dom(),
            final(self.container1).storage().recency() == old(self.container1).storage().recency(),
            forall|i: usize| #[trigger] old(self.container1).components().contains_key(i) ==> if self.container2.components().contains_key(i) {
                exists|m: &mut T1|
                    *m == old(self.container1).components()[i] && *final(m) == final(self.container1).components()[i]
                        && f.ensures((i, m, &self.container2.components()[i]), ())
            } else {
                final(self.container1).components()[i] == old(self.container1).components()[i]
            },
    {
        self.container1.join_for_each_mut(self.container2, f)
    }

    /// Calls `f` on every match along the shorter recency list, with a
    /// mutable reference to the first operand's value.
    pub fn for_each_sparse_mut<F: FnMut(usize, &mut T1, &T2)>(self, f: F)
        requires
            self.well_formed(),
            forall|i: usize, a: &mut T1, b: &T2| self.container1.components().contains_key(i) && self.container2.components().contains_key(i) && *a == self.container1.components()[i] && *b == self.container2.components()[i] ==> #[trigger] f.requires((i, a, b)),
        ensures
            final(self.container1).storage().slots().len() == old(self.container1).storage().slots().len(),
            final(self.container1).components().dom() == old(self.container1).components().dom(),
            final(self.container1).storage().recency() == old(self.container1).storage().recency(),
            forall|i: usize| #[trigger] old(self.container1).components().contains_key(i) ==> if self.container2.components().contains_key(i) {
                exists|m: &mut T1|
                    *m == old(self.container1).components()[i] && *final(m) == final(self.container1).components()[i]
                        && f.ensures((i, m, &self.container2.components()[i]), ())
            } else {
                final(self.container1).components()[i] == old(self.container1).components()[i]
            },
    {
        let order = ZippedQuery2::new(self.container1.dense_storage(), self.container2).sparse_indices();
        self.container1.for_each_listed_mut(&order, self.container2, f)
    }
}

/// A position-aligned join of three dense containers of equal length that
/// changes the values of the first.
pub struct ZippedQueryMut3<'a, T1, T2, T3, A1> {
    /// The container whose values change.
    pub container1: &'a mut VecComponentContainer<T1, A1>,
    /// The second storage, which is read.
    pub container2: &'a DenseStorage<T2>,
    /// The third storage, which is read.
    pub container3: &'a DenseStorage<T3>,
}

impl<'a, T1, T2, T3, A1> ZippedQueryMut3<'a, T1, T2, T3, A1> {
    /// All operands are well formed and have one length.
    pub open spec fn well_formed(&self) -> bool {
        &&& self.container2.well_formed()
        &&& self.container3.well_formed()
        &&& self.container1.storage().slots().len() == self.container2.slots().len()
        &&& self.container1.storage().slots().len() == self.container3.slots().len()
    }

    /// Calls `f` on every index that holds a value in all operands, ascending,
    /// with a mutable reference to the first operand's value.
    pub fn for_each_mut<F: FnMut(usize, &mut T1, &T2, &T3)>(self, f: F)
        requires
            self.well_formed(),
            forall|i: usize, a: &mut T1, b: &T2, c: &T3| self.container1.components().contains_key(i) && self.container2.components().contains_key(i) && self.container3.components().contains_key(i) && *a == self.container1.components()[i] && *b == self.container2.components()[i] && *c == self.container3.components()[i] ==> #[trigger] f.requires((i, a, b, c)),
        ensures
            final(self.container1).storage().slots().len() == old(self.container1).storage().slots().len(),
            final(self.container1).components().dom() == old(self.container1).components().dom(),
            final(self.container1).storage().recency() == old(self.container1).storage().recency(),
            forall|i: usize| #[trigger] old(self.container1).components().contains_key(i) ==> if self.container2.components().contains_key(i) && self.container3.components().contains_key(i) {
                exists|m: &mut T1|
                    *m == old(self.container1).components()[i] && *final(m) == final(self.container1).components()[i]
                        && f.ensures((i, m, &self.container2.components()[i], &self.container3.components()[i]), ())
            } else {
                final(self.container1).components()[i] == old(self.container1).components()[i]
            },
    {
        self.container1.join3_for_each_mut(self.container2, self.container3, f)
    }

    /// Calls `f` on every match along the shortest recency list, with a
    /// mutable reference to the first operand's value.
    pub fn for_each_sparse_mut<F: FnMut(usize, &mut T1, &T2, &T3)>(self, f: F)
        requires
            self.well_formed(),
            forall|i: usize, a: &mut T1, b: &T2, c: &T3| self.container1.components().contains_key(i) && self.container2.components().contains_key(i) && self.container3.components().contains_key(i) && *a == self.container1.components()[i] && *b == self.container2.components()[i] && *c == self.container3.components()[i] ==> #[trigger] f.requires((i, a, b, c)),
        ensures
            final(self.container1).storage().slots().len() == old(self.container1).storage().slots().len(),
            final(self.container1).components().dom() == old(self.container1).components().dom(),
            final(self.container1).storage().recency() == old(self.container1).storage().recency(),
            forall|i: usize| #[trigger] old(self.container1).components().contains_key(i) ==> if self.container2.components().contains_key(i) && self.container3.components().contains_key(i) {
                exists|m: &mut T1|
                    *m == old(self.container1).components()[i] && *final(m) == final(self.container1).components()[i]
                        && f.ensures((i, m, &self.container2.components()[i], &self.container3.components()[i]), ())
            } else {
                final(self.container1).components()[i] == old(self.container1).components()[i]
            },
    {
        let order = ZippedQuery3::new(self.container1.dense_storage(), self.container2, self.container3)
            .sparse_indices();
        self.container1.for_each_listed3_mut(&order, self.container2, self.container3, f)
    }
}

/// The position-aligned join of two dense containers of equal length, with
/// the values of the first open to change.
pub fn zip_mut<'a, T1, T2, A1, A2>(
    container1: &'a mut VecComponentContainer<T1, A1>,
    container2: &'a VecComponentContainer<T2, A2>,
) -> (r: ZippedQueryMut2<'a, T1, T2, A1>)
    requires
        old(container1).storage().slots().len() == container2.storage().slots().len(),
    ensures
        r.well_formed(),
        *r.container1 == *old(container1),
        *final(container1) == *final(r.container1),
        *r.container2 == container2.storage(),
{
    ZippedQueryMut2 { container1, container2: container2.dense_storage() }
}

/// The position-aligned join of three dense containers of equal length, with
/// the values of the first open to change.
pub fn zip3_mut<'a, T1, T2, T3, A1, A2, A3>(
    container1: &'a mut VecComponentContainer<T1, A1>,
    container2: &'a VecComponentContainer<T2, A2>,
    container3: &'a VecComponentContainer<T3, A3>,
) -> (r: ZippedQueryMut3<'a, T1, T2, T3, A1>)
    requires
        old(container1).storage().slots().len() == container2.storage().slots().len(),
        old(container1).storage().slots().len() == container3.storage().slots().len(),
    ensures
        r.well_formed(),
        *r.container1 == *old(container1),
        *final(container1) == *final(r.container1),
        *r.container2 == container2.storage(),
        *r.container3 == container3.storage(),
{
    ZippedQueryMut3 {
        container1,
        container2: container2.dense_storage(),
        container3: container3.dense_storage(),
    }
}

} // verus!
