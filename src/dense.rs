use vstd::prelude::*;

verus! {

broadcast use {vstd::seq_lib::group_seq_properties, vstd::seq_lib::group_filter_ensures};

/// The indices `i < n` for which `p(i)` holds, in ascending order.
pub open spec fn indices_where(n: nat, p: spec_fn(usize) -> bool) -> Seq<usize>
    decreases n,
{
    if n == 0 {
        Seq::empty()
    } else {
        let rest = indices_where((n - 1) as nat, p);
        if p((n - 1) as usize) {
            rest.push((n - 1) as usize)
        } else {
            rest
        }
    }
}

/// `indices_where` holds each index below `n` that satisfies `p`, exactly once, ascending.
pub proof fn lemma_indices_where(n: nat, p: spec_fn(usize) -> bool)
    requires
        n <= usize::MAX + 1,
    ensures
        forall|i: usize| #[trigger]
            indices_where(n, p).contains(i) <==> (i < n && p(i)),
        forall|k: int|
            0 <= k < indices_where(n, p).len() ==> (#[trigger] indices_where(n, p)[k] as nat) < n,
        forall|k1: int, k2: int|
            0 <= k1 < k2 < indices_where(n, p).len() ==> #[trigger] indices_where(n, p)[k1]
                < #[trigger] indices_where(n, p)[k2],
        indices_where(n, p).no_duplicates(),
    decreases n,
{
    if n > 0 {
        let m = (n - 1) as nat;
        lemma_indices_where(m, p);
        let rest = indices_where(m, p);
        let all = indices_where(n, p);
        if p(m as usize) {
            assert(all == rest.push(m as usize));
            assert forall|i: usize| #[trigger] all.contains(i) <==> (i < n && p(i)) by {
                if i == m as usize {
                    assert(all[all.len() - 1] == i);
                    assert(all.contains(i));
                } else if all.contains(i) {
                    let k = choose|k: int| 0 <= k < all.len() && all[k] == i;
                    assert(rest[k] == i);
                    assert(rest.contains(i));
                } else if i < n && p(i) {
                    assert(rest.contains(i));
                    let k = choose|k: int| 0 <= k < rest.len() && rest[k] == i;
                    assert(all[k] == i);
                }
            }
        } else {
            assert(all == rest);
        }
    }
}

/// The presence of a value in each slot of a dense sequence.
pub open spec fn occupied<C>(slots: Seq<Option<C>>) -> spec_fn(usize) -> bool {
    |i: usize| (i as int) < slots.len() && slots[i as int] is Some
}

/// Both dense sequences hold a value at the index.
pub open spec fn both_present<T1, T2>(s1: Seq<Option<T1>>, s2: Seq<Option<T2>>) -> spec_fn(usize) -> bool {
    |i: usize| occupied(s1)(i) && occupied(s2)(i)
}

/// All three dense sequences hold a value at the index.
pub open spec fn all_present<T1, T2, T3>(
    s1: Seq<Option<T1>>,
    s2: Seq<Option<T2>>,
    s3: Seq<Option<T3>>,
) -> spec_fn(usize) -> bool {
    |i: usize| occupied(s1)(i) && occupied(s2)(i) && occupied(s3)(i)
}

/// The values of a dense sequence of slots, keyed by position.
pub open spec fn slot_map<C>(slots: Seq<Option<C>>) -> Map<usize, C> {
    Map::new(|i: usize| occupied(slots)(i), |i: usize| slots[i as int]->Some_0)
}

/// Removing the first occurrence of `x` from a sequence without repeats
/// shifts the entries after it, found at `cut`, down by one.
pub proof fn lemma_remove_value_shape(s: Seq<usize>, x: usize) -> (cut: int)
    requires
        s.no_duplicates(),
    ensures
        0 <= cut <= s.len(),
        s.contains(x) ==> cut < s.len() && s[cut] == x,
        !s.contains(x) ==> cut == s.len(),
        s.remove_value(x).len() == if s.contains(x) {
            s.len() - 1
        } else {
            s.len() as int
        },
        forall|k: int|
            0 <= k < s.remove_value(x).len() ==> #[trigger] s.remove_value(x)[k] == s[if k < cut {
                k
            } else {
                k + 1
            }],
        forall|k: int| 0 <= k < s.remove_value(x).len() ==> #[trigger] s.remove_value(x)[k] != x,
{
    s.index_of_first_ensures(x);
    if s.contains(x) {
        let c = choose|c: int| 0 <= c < s.len() && s[c] == x;
        assert(s.index_of_first(x) == Some(c)) by {
            if let Some(q) = s.index_of_first(x) {
                assert(s[q] == x);
            }
        }
        assert forall|k: int| 0 <= k < s.remove_value(x).len() implies #[trigger] s.remove_value(x)[k] != x by {
            if k >= c {
                assert(s[k + 1] != s[c]);
            }
        }
        c
    } else {
        assert(s.index_of_first(x) is None) by {
            if let Some(q) = s.index_of_first(x) {
                assert(s[q] == x);
            }
        }
        assert forall|k: int| 0 <= k < s.remove_value(x).len() implies #[trigger] s.remove_value(x)[k] != x by {
            assert(s.contains(s[k]));
        }
        s.len() as int
    }
}

/// A sequence without repeats whose entries all lie below `n` has at most `n` entries.
pub proof fn lemma_distinct_below(s: Seq<usize>, n: nat)
    requires
        s.no_duplicates(),
        forall|k: int| 0 <= k < s.len() ==> (#[trigger] s[k] as nat) < n,
    ensures
        s.len() <= n,
    decreases n,
{
    if n == 0 {
        if s.len() > 0 {
            assert((s[0] as nat) < 0);
        }
    } else {
        let m = (n - 1) as nat;
        let t = s.remove_value(m as usize);
        let cut = lemma_remove_value_shape(s, m as usize);
        assert forall|k: int| 0 <= k < t.len() implies (#[trigger] t[k] as nat) < m by {
            let j = if k < cut { k } else { k + 1 };
            assert(t[k] == s[j]);
        }
        assert(t.no_duplicates()) by {
            assert forall|a: int, b: int| 0 <= a < b < t.len() implies t[a] != t[b] by {
                let ja = if a < cut { a } else { a + 1 };
                let jb = if b < cut { b } else { b + 1 };
                assert(t[a] == s[ja]);
                assert(t[b] == s[jb]);
            }
        }
        lemma_distinct_below(t, m);
    }
}

/// Filtering a sequence without repeats keeps it without repeats, and keeps
/// exactly the entries that satisfy the predicate.
pub proof fn lemma_filter_exact(s: Seq<usize>, p: spec_fn(usize) -> bool)
    requires
        s.no_duplicates(),
    ensures
        s.filter(p).no_duplicates(),
        forall|x: usize| #[trigger] s.filter(p).contains(x) <==> (s.contains(x) && p(x)),
    decreases s.len(),
{
    reveal(Seq::filter);
    assert forall|x: usize| #[trigger] s.filter(p).contains(x) <==> (s.contains(x) && p(x)) by {
        if s.filter(p).contains(x) {
            s.lemma_filter_contains_rev(p, x);
            let k = choose|k: int| 0 <= k < s.filter(p).len() && s.filter(p)[k] == x;
            s.lemma_filter_pred(p, k);
        }
        if s.contains(x) && p(x) {
            let k = choose|k: int| 0 <= k < s.len() && s[k] == x;
            s.lemma_filter_contains(p, k);
        }
    }
    if s.len() > 0 {
        let rest = s.drop_last();
        assert forall|a: int, b: int| 0 <= a < b < rest.len() implies rest[a] != rest[b] by {
            assert(rest[a] == s[a] && rest[b] == s[b]);
        }
        lemma_filter_exact(rest, p);
        if p(s.last()) {
            let f = rest.filter(p);
            assert(!f.contains(s.last())) by {
                if f.contains(s.last()) {
                    rest.lemma_filter_contains_rev(p, s.last());
                    let j = choose|j: int| 0 <= j < rest.len() && rest[j] == s.last();
                    assert(s[j] == s[s.len() - 1]);
                }
            }
            assert forall|a: int, b: int| 0 <= a < b < f.push(s.last()).len() implies f.push(s.last())[a]
                != f.push(s.last())[b] by {
                if b == f.len() {
                    assert(f.contains(f[a]));
                }
            }
        }
    }
}

/// Writing a value into an occupied slot puts it into the slot map.
pub proof fn lemma_slot_map_update<C>(slots: Seq<Option<C>>, index: usize)
    requires
        (index as int) < slots.len(),
    ensures
        forall|v: C| #[trigger]
            slot_map(slots.update(index as int, Some(v))) == slot_map(slots).insert(index, v),
{
    assert forall|v: C| #[trigger]
        slot_map(slots.update(index as int, Some(v))) == slot_map(slots).insert(index, v) by {
        assert(slot_map(slots.update(index as int, Some(v))) =~= slot_map(slots).insert(index, v));
    }
}

/// The two neighbours of one occupied slot in the recency list.
#[derive(Clone, Copy)]
pub struct Link {
    next: Option<usize>,
    prev: Option<usize>,
}

/// The links that position `k` of `order` must carry.
pub open spec fn link_at(order: Seq<usize>, k: int) -> (Option<usize>, Option<usize>) {
    (
        if k + 1 < order.len() {
            Some(order[k + 1])
        } else {
            None
        },
        if k > 0 {
            Some(order[k - 1])
        } else {
            None
        },
    )
}

/// The first entry of `order`, if any.
pub open spec fn first_of(order: Seq<usize>) -> Option<usize> {
    if order.len() == 0 {
        None
    } else {
        Some(order[0])
    }
}

/// A dense positional sequence of optional values, with an index-linked list
/// over the occupied slots that starts at the most recently set one.
pub struct DenseStorage<C> {
    slots: Vec<Option<C>>,
    links: Vec<Link>,
    head: Option<usize>,
    order: Ghost<Seq<usize>>,
    active: usize,
}

impl<C> DenseStorage<C> {
    /// The slots, one per covered entity index.
    pub closed spec fn slots(&self) -> Seq<Option<C>> {
        self.slots@
    }

    /// The occupied indices from the most recently set to the least recently set.
    pub closed spec fn recency(&self) -> Seq<usize> {
        self.order@
    }

    /// The stored values by entity index.
    pub open spec fn components(&self) -> Map<usize, C> {
        slot_map(self.slots())
    }

    closed spec fn list_ok(links: Seq<Link>, head: Option<usize>, order: Seq<usize>, n: nat) -> bool {
        &&& order.no_duplicates()
        &&& forall|k: int| 0 <= k < order.len() ==> (#[trigger] order[k] as nat) < n
        &&& head == first_of(order)
        &&& forall|k: int|
            0 <= k < order.len() ==> ((#[trigger] links[order[k] as int]).next, links[order[k] as int].prev)
                == link_at(order, k)
    }

    /// The list links exactly the occupied slots, in recency order, without a cycle.
    pub closed spec fn well_formed(&self) -> bool {
        &&& self.links@.len() == self.slots@.len()
        &&& self.slots@.len() <= usize::MAX
        &&& self.active == self.order@.len()
        &&& Self::list_ok(self.links@, self.head, self.order@, self.slots@.len())
        &&& forall|i: usize| #[trigger] self.order@.contains(i) <==> occupied(self.slots@)(i)
    }

    /// The recency list of a well-formed storage holds each occupied index exactly once.
    pub proof fn lemma_recency_exact(&self)
        requires
            self.well_formed(),
        ensures
            self.slots().len() <= usize::MAX,
            self.recency().no_duplicates(),
            forall|i: usize| #[trigger]
                self.recency().contains(i) <==> self.components().contains_key(i),
            self.recency().len() == self.components().dom().len(),
            self.recency().to_set() == self.components().dom(),
    {
        assert(self.recency().to_set() =~= self.components().dom());
        self.recency().unique_seq_to_set();
    }

    /// An empty storage that covers no index.
    pub fn new() -> (r: Self)
        ensures
            r.well_formed(),
            r.slots() == Seq::<Option<C>>::empty(),
            r.recency() == Seq::<usize>::empty(),
    {
        DenseStorage { slots: Vec::new(), links: Vec::new(), head: None, order: Ghost(Seq::empty()), active: 0 }
    }

    /// The number of slots.
    pub fn len(&self) -> (r: usize)
        ensures
            r == self.slots().len(),
    {
        self.slots.len()
    }

    /// The number of occupied slots, kept as the list grows.
    pub fn count(&self) -> (r: usize)
        requires
            self.well_formed(),
        ensures
            r == self.recency().len(),
    {
        self.active
    }

    /// Extends the slots with empty ones up to and including `index`.
    pub fn grow_to_cover(&mut self, index: usize)
        requires
            old(self).well_formed(),
            index < usize::MAX,
        ensures
            final(self).well_formed(),
            final(self).slots().len() == if index < old(self).slots().len() {
                old(self).slots().len() as int
            } else {
                index + 1
            },
            forall|i: int|
                0 <= i < final(self).slots().len() ==> #[trigger] final(self).slots()[i] == if i
                    < old(self).slots().len() {
                    old(self).slots()[i]
                } else {
                    None
                },
            final(self).recency() == old(self).recency(),
            final(self).components() == old(self).components(),
    {
        while self.slots.len() <= index
            invariant
                self.links@.len() == self.slots@.len(),
                index < usize::MAX,
                old(self).slots@.len() <= self.slots@.len() <= if index < old(self).slots().len() {
                    old(self).slots().len() as int
                } else {
                    index + 1
                },
                forall|i: int|
                    0 <= i < self.slots@.len() ==> #[trigger] self.slots@[i] == if i < old(
                        self,
                    ).slots().len() {
                        old(self).slots()[i]
                    } else {
                        None
                    },
                forall|i: int| 0 <= i < old(self).links@.len() ==> #[trigger] self.links@[i] == old(self).links@[i],
                self.head == old(self).head,
                self.order == old(self).order,
                self.active == old(self).active,
                old(self).well_formed(),
            decreases index + 1 - self.slots@.len(),
        {
            self.slots.push(None);
            self.links.push(Link { next: None, prev: None });
        }
        assert(forall|i: usize| #[trigger] occupied(self.slots@)(i) == occupied(old(self).slots@)(i));
        assert(self.components() =~= old(self).components());
    }

    /// The value at `index`, if that slot exists and is occupied.
    pub fn get(&self, index: usize) -> (r: Option<&C>)
        ensures
            r is Some <==> self.components().contains_key(index),
            r matches Some(v) ==> *v == self.components()[index],
    {
        if index < self.slots.len() {
            self.slots[index].as_ref()
        } else {
            None
        }
    }

    /// A mutable reference to the value at `index`, if that slot exists and is occupied.
    pub fn get_mut(&mut self, index: usize) -> (r: Option<&mut C>)
        requires
            old(self).well_formed(),
        ensures
            r is Some <==> old(self).components().contains_key(index),
            r matches Some(v) ==> *v == old(self).components()[index] && final(self).slots()
                == old(self).slots().update(index as int, Some(*final(v))),
            r is None ==> final(self).slots() == old(self).slots(),
            final(self).recency() == old(self).recency(),
            final(self).well_formed(),
        no_unwind
    {
        if index < self.slots.len() {
            let ghost before = self.slots@;
            match &mut self.slots[index] {
                Some(c) => {
                    proof {
                        assert(forall|i: usize| #[trigger] occupied(after_borrow(self.slots)@)(i) == occupied(before)(i));
                    }
                    Some(c)
                },
                None => None,
            }
        } else {
            None
        }
    }

    /// Removes `index` from the recency list; its slot must be occupied.
    fn unlink(&mut self, index: usize)
        requires
            old(self).well_formed(),
            occupied(old(self).slots@)(index),
        ensures
            final(self).slots@ == old(self).slots@,
            final(self).links@.len() == old(self).links@.len(),
            final(self).order@ == old(self).order@.remove_value(index),
            final(self).active == old(self).active,
            Self::list_ok(final(self).links@, final(self).head, final(self).order@, final(self).slots@.len()),
            !final(self).order@.contains(index),
            forall|i: usize| i != index ==> (#[trigger] final(self).order@.contains(i) <==> old(self).order@.contains(i)),
    {
        let ghost order = self.order@;
        let ghost n = self.slots@.len();
        assert(order.contains(index));
        let ghost p = choose|p: int| 0 <= p < order.len() && order[p] == index;
        proof {
            order.index_of_first_ensures(index);
            assert(order.index_of_first(index) == Some(p)) by {
                if let Some(q) = order.index_of_first(index) {
                    assert(order[q] == index);
                }
            }
        }
        let l = self.links[index];
        assert((l.next, l.prev) == link_at(order, p));
        match l.prev {
            Some(pv) => {
                let mut lp = self.links[pv];
                lp.next = l.next;
                self.links.set(pv, lp);
            },
            None => {
                self.head = l.next;
            },
        }
        match l.next {
            Some(nx) => {
                let mut ln = self.links[nx];
                ln.prev = l.prev;
                self.links.set(nx, ln);
            },
            None => {},
        }
        let ghost new_order = order.remove(p);
        self.order = Ghost(new_order);
        proof {
            assert(new_order == order.remove_value(index));
            assert forall|k: int| 0 <= k < new_order.len() implies ((#[trigger] self.links@[new_order[k] as int]).next,
                self.links@[new_order[k] as int].prev) == link_at(new_order, k) by {
                if k < p {
                    assert(new_order[k] == order[k]);
                    if k + 1 < p {
                        assert(new_order[k + 1] == order[k + 1]);
                    }
                    if k > 0 {
                        assert(new_order[k - 1] == order[k - 1]);
                    }
                    assert(order[k] != order[p]);
                    if k + 1 < order.len() && k + 1 != p {
                        assert(order[k] != order[k + 1]);
                    }
                    assert(order[k] != order[p + 1] || p + 1 >= order.len());
                } else {
                    assert(new_order[k] == order[k + 1]);
                    if k + 1 < new_order.len() {
                        assert(new_order[k + 1] == order[k + 2]);
                    }
                    if k > p {
                        assert(new_order[k - 1] == order[k]);
                    } else if k > 0 {
                        assert(new_order[k - 1] == order[k - 1]);
                    }
                    assert(order[k + 1] != order[p]);
                    assert(p == 0 || order[k + 1] != order[p - 1]);
                }
            }
            assert forall|i: usize| i != index implies (#[trigger] new_order.contains(i) <==> order.contains(i)) by {
                if order.contains(i) {
                    let k = choose|k: int| 0 <= k < order.len() && order[k] == i;
                    if k < p {
                        assert(new_order[k] == i);
                    } else {
                        assert(k != p);
                        assert(new_order[k - 1] == i);
                    }
                }
                if new_order.contains(i) {
                    let k = choose|k: int| 0 <= k < new_order.len() && new_order[k] == i;
                    if k < p {
                        assert(order[k] == i);
                    } else {
                        assert(order[k + 1] == i);
                    }
                }
            }
            assert(!new_order.contains(index)) by {
                if new_order.contains(index) {
                    let k = choose|k: int| 0 <= k < new_order.len() && new_order[k] == index;
                    if k < p {
                        assert(order[k] == index);
                    } else {
                        assert(order[k + 1] == index);
                    }
                }
            }
            assert forall|k: int| 0 <= k < new_order.len() implies (#[trigger] new_order[k] as nat) < n by {
                if k < p {
                    assert(new_order[k] == order[k]);
                } else {
                    assert(new_order[k] == order[k + 1]);
                }
            }
            assert(new_order.no_duplicates()) by {
                assert forall|a: int, b: int| 0 <= a < b < new_order.len() implies new_order[a] != new_order[b] by {
                    let oa = if a < p { a } else { a + 1 };
                    let ob = if b < p { b } else { b + 1 };
                    assert(new_order[a] == order[oa]);
                    assert(new_order[b] == order[ob]);
                }
            }
            if p == 0 {
                if new_order.len() > 0 {
                    assert(new_order[0] == order[1]);
                }
            } else {
                assert(new_order[0] == order[0]);
            }
        }
    }

    /// Puts `index`, which is not in the recency list, at its front.
    fn push_front(&mut self, index: usize)
        requires
            Self::list_ok(old(self).links@, old(self).head, old(self).order@, old(self).slots@.len()),
            old(self).links@.len() == old(self).slots@.len(),
            !old(self).order@.contains(index),
            index < old(self).slots@.len(),
        ensures
            final(self).slots@ == old(self).slots@,
            final(self).links@.len() == old(self).links@.len(),
            final(self).order@ == seq![index] + old(self).order@,
            final(self).active == old(self).active,
            Self::list_ok(final(self).links@, final(self).head, final(self).order@, final(self).slots@.len()),
    {
        let ghost order = self.order@;
        let ghost n = self.slots@.len();
        let old_head = self.head;
        self.links.set(index, Link { next: old_head, prev: None });
        match old_head {
            Some(h) => {
                assert(order[0] == h);
                let mut lh = self.links[h];
                lh.prev = Some(index);
                self.links.set(h, lh);
            },
            None => {},
        }
        self.head = Some(index);
        let ghost new_order = seq![index] + order;
        self.order = Ghost(new_order);
        proof {
            assert forall|k: int| 0 <= k < new_order.len() implies ((#[trigger] self.links@[new_order[k] as int]).next,
                self.links@[new_order[k] as int].prev) == link_at(new_order, k) by {
                if k == 0 {
                    assert(new_order[0] == index);
                    if order.len() > 0 {
                        assert(new_order[1] == order[0]);
                        assert(order[0] != index);
                    }
                } else {
                    assert(new_order[k] == order[k - 1]);
                    assert(order[k - 1] != index);
                    if k + 1 < new_order.len() {
                        assert(new_order[k + 1] == order[k]);
                    }
                    if k > 1 {
                        assert(new_order[k - 1] == order[k - 2]);
                        assert(order[k - 1] != order[0]);
                    }
                }
            }
            assert forall|k: int| 0 <= k < new_order.len() implies (#[trigger] new_order[k] as nat) < n by {
                if k > 0 {
                    assert(new_order[k] == order[k - 1]);
                }
            }
            assert(new_order.no_duplicates()) by {
                assert forall|a: int, b: int| 0 <= a < b < new_order.len() implies new_order[a] != new_order[b] by {
                    assert(new_order[b] == order[b - 1]);
                    if a > 0 {
                        assert(new_order[a] == order[a - 1]);
                    } else {
                        assert(order.contains(order[b - 1]));
                    }
                }
            }
        }
    }

    /// Stores `value` at `index` and moves `index` to the front of the recency
    /// list, out of its old place if it was already there.
    pub fn set(&mut self, index: usize, value: C)
        requires
            old(self).well_formed(),
            index < old(self).slots().len(),
        ensures
            final(self).well_formed(),
            final(self).slots() == old(self).slots().update(index as int, Some(value)),
            final(self).components() == old(self).components().insert(index, value),
            final(self).recency() == seq![index] + old(self).recency().remove_value(index),
    {
        let ghost old_order = self.order@;
        if self.slots[index].is_some() {
            self.unlink(index);
        } else {
            proof {
                old_order.index_of_first_ensures(index);
                assert(!old_order.contains(index));
                assert(old_order.index_of_first(index) is None) by {
                    if let Some(q) = old_order.index_of_first(index) {
                        assert(old_order[q] == index);
                    }
                }
            }
        }
        let ghost mid = self.order@;
        let was_present = self.slots[index].is_some();
        self.push_front(index);
        if was_present {
            proof {
                old_order.index_of_first_ensures(index);
                let c = choose|c: int| 0 <= c < old_order.len() && old_order[c] == index;
                assert(old_order.index_of_first(index) == Some(c)) by {
                    if let Some(q) = old_order.index_of_first(index) {
                        assert(old_order[q] == index);
                    }
                }
            }
            self.active = self.active - 1;
        }
        proof {
            lemma_distinct_below(self.order@, self.slots@.len());
        }
        self.active = self.active + 1;
        self.slots.set(index, Some(value));
        proof {
            let order = self.order@;
            assert forall|i: usize| #[trigger] order.contains(i) <==> occupied(self.slots@)(i) by {
                if i == index {
                    assert(order[0] == index);
                } else {
                    if order.contains(i) {
                        let k = choose|k: int| 0 <= k < order.len() && order[k] == i;
                        assert(mid[k - 1] == i);
                    }
                    if mid.contains(i) {
                        let k = choose|k: int| 0 <= k < mid.len() && mid[k] == i;
                        assert(order[k + 1] == i);
                    }
                }
            }
            assert(self.components() =~= old(self).components().insert(index, value));
        }
    }

    /// The occupied indices, ascending.
    pub fn dense_indices(&self) -> (r: Vec<usize>)
        ensures
            r@ == indices_where(self.slots().len(), occupied(self.slots())),
    {
        let mut out: Vec<usize> = Vec::new();
        let mut i: usize = 0;
        while i < self.slots.len()
            invariant
                i <= self.slots@.len(),
                out@ == indices_where(i as nat, occupied(self.slots@)),
            decreases self.slots@.len() - i,
        {
            if self.slots[i].is_some() {
                out.push(i);
            }
            i = i + 1;
        }
        out
    }

    /// The occupied indices in the order of the recency list: most recently set first.
    pub fn sparse_indices(&self) -> (r: Vec<usize>)
        requires
            self.well_formed(),
        ensures
            r@ == self.recency(),
    {
        let mut out: Vec<usize> = Vec::new();
        let mut cur = self.head;
        let ghost order = self.order@;
        while cur.is_some()
            invariant
                self.well_formed(),
                order == self.order@,
                out@.len() <= order.len(),
                out@ == order.subrange(0, out@.len() as int),
                cur == if out@.len() < order.len() {
                    Some(order[out@.len() as int])
                } else {
                    None::<usize>
                },
            decreases order.len() - out@.len(),
        {
            let i = cur.unwrap();
            let ghost k = out@.len() as int;
            assert((self.links@[order[k] as int].next, self.links@[order[k] as int].prev) == link_at(order, k));
            out.push(i);
            cur = self.links[i].next;
            assert(out@ =~= order.subrange(0, out@.len() as int));
        }
        assert(out@ =~= order);
        out
    }

    /// Calls `f` on each occupied slot, by ascending index.
    pub fn for_each<F: FnMut(usize, &C)>(&self, mut f: F)
        requires
            forall|i: usize| #[trigger] self.components().contains_key(i) ==> f.requires((i, &self.components()[i])),
        ensures
            forall|i: usize| #[trigger] self.components().contains_key(i) ==> f.ensures(
                (i, &self.components()[i]),
                (),
            ),
    {
        let ghost f0 = f;
        let mut i: usize = 0;
        while i < self.slots.len()
            invariant
                f == f0,
                forall|i: usize| #[trigger] self.components().contains_key(i) ==> f.requires((i, &self.components()[i])),
                i <= self.slots@.len(),
                forall|j: usize| j < i && #[trigger] self.components().contains_key(j) ==> f.ensures(
                    (j, &self.components()[j]),
                    (),
                ),
            decreases self.slots@.len() - i,
        {
            if let Some(c) = &self.slots[i] {
                assert(self.components().contains_key(i));
                f(i, c);
            }
            i = i + 1;
        }
    }

    /// Calls `f` on each occupied slot, by ascending index, with a mutable reference.
    pub fn for_each_mut<F: FnMut(usize, &mut C)>(&mut self, mut f: F)
        requires
            old(self).well_formed(),
            forall|i: usize, c: &mut C| old(self).components().contains_key(i) && *c == old(self).components()[i] ==> #[trigger] f.requires((i, c)),
        ensures
            final(self).well_formed(),
            final(self).slots().len() == old(self).slots().len(),
            final(self).components().dom() == old(self).components().dom(),
            final(self).recency() == old(self).recency(),
            forall|i: usize| #[trigger] old(self).components().contains_key(i) ==> exists|m: &mut C|
                *m == old(self).components()[i] && *final(m) == final(self).components()[i]
                    && f.ensures((i, m), ()),
    {
        let ghost f0 = f;
        let mut i: usize = 0;
        while i < self.slots.len()
            invariant
                f == f0,
                i <= self.slots@.len(),
                forall|i: usize, c: &mut C| old(self).components().contains_key(i) && *c == old(self).components()[i] ==> #[trigger] f.requires((i, c)),
                self.slots@.len() == old(self).slots@.len(),
                forall|j: usize| #[trigger] occupied(self.slots@)(j) == occupied(old(self).slots@)(j),
                forall|j: int| i <= j < self.slots@.len() ==> #[trigger] self.slots@[j] == old(self).slots@[j],
                forall|j: usize| j < i && #[trigger] old(self).components().contains_key(j) ==> exists|m: &mut C|
                    *m == old(self).components()[j] && *final(m) == slot_map(self.slots@)[j]
                        && f.ensures((j, m), ()),
                self.links == old(self).links,
                self.head == old(self).head,
                self.order == old(self).order,
                self.active == old(self).active,
                old(self).well_formed(),
            decreases self.slots@.len() - i,
        {
            let ghost before = self.slots@;
            match &mut self.slots[i] {
                Some(c) => {
                    let ghost c0 = *c;
                    f(i, c);
                    assert(exists|m: &mut C| *m == c0 && *final(m) == *c && f.ensures((i, m), ()));
                },
                None => {},
            }
            assert forall|j: int| 0 <= j < self.slots@.len() && j != i as int implies #[trigger] self.slots@[j] == before[j] by {}
            assert forall|j: usize| #[trigger] occupied(self.slots@)(j) == occupied(before)(j) by {
                if (j as int) < self.slots@.len() && j != i {
                    assert(self.slots@[j as int] == before[j as int]);
                }
            }
            i = i + 1;
        }
        assert(self.components().dom() =~= old(self).components().dom());
    }

    /// Calls `f` on each occupied slot along the recency list: most recently set first.
    pub fn for_each_sparse<F: FnMut(usize, &C)>(&self, mut f: F)
        requires
            self.well_formed(),
            forall|i: usize| #[trigger] self.components().contains_key(i) ==> f.requires((i, &self.components()[i])),
        ensures
            forall|i: usize| #[trigger] self.components().contains_key(i) ==> f.ensures(
                (i, &self.components()[i]),
                (),
            ),
    {
        let ghost f0 = f;
        let mut cur = self.head;
        let ghost order = self.order@;
        let ghost mut k: int = 0;
        while cur.is_some()
            invariant
                f == f0,
                self.well_formed(),
                order == self.order@,
                0 <= k <= order.len(),
                cur == if k < order.len() {
                    Some(order[k])
                } else {
                    None::<usize>
                },
                forall|i: usize| #[trigger] self.components().contains_key(i) ==> f.requires((i, &self.components()[i])),
                forall|j: int| 0 <= j < k ==> f.ensures(
                    (#[trigger] order[j], &self.components()[order[j]]),
                    (),
                ),
            decreases order.len() - k,
        {
            let i = cur.unwrap();
            assert((self.links@[order[k] as int].next, self.links@[order[k] as int].prev) == link_at(order, k));
            assert(order.contains(i));
            if let Some(c) = &self.slots[i] {
                assert(self.components().contains_key(i));
                f(i, c);
            }
            cur = self.links[i].next;
            proof {
                k = k + 1;
            }
        }
        assert forall|i: usize| #[trigger] self.components().contains_key(i) implies f.ensures(
            (i, &self.components()[i]),
            (),
        ) by {
            assert(order.contains(i));
            let j = choose|j: int| 0 <= j < order.len() && order[j] == i;
        }
    }

    /// Calls `f` along the recency list with a mutable reference to each value.
    pub fn for_each_sparse_mut<F: FnMut(usize, &mut C)>(&mut self, f: F)
        requires
            old(self).well_formed(),
            forall|i: usize, c: &mut C| old(self).components().contains_key(i) && *c == old(self).components()[i] ==> #[trigger] f.requires((i, c)),
        ensures
            final(self).well_formed(),
            final(self).slots().len() == old(self).slots().len(),
            final(self).components().dom() == old(self).components().dom(),
            final(self).recency() == old(self).recency(),
            forall|i: usize| #[trigger] old(self).components().contains_key(i) ==> exists|m: &mut C|
                *m == old(self).components()[i] && *final(m) == final(self).components()[i]
                    && f.ensures((i, m), ()),
    {
        let order = self.sparse_indices();
        proof {
            self.lemma_recency_exact();
        }
        self.for_each_listed1_mut(&order, f);
    }

    /// Calls `f` on each index that holds a value here and in `other`,
    /// ascending, with a mutable reference to the value here.
    pub fn join_for_each_mut<T2, F: FnMut(usize, &mut C, &T2)>(&mut self, other: &DenseStorage<T2>, f: F)
        requires
            old(self).well_formed(),
            forall|i: usize, a: &mut C, b: &T2| old(self).components().contains_key(i) && other.components().contains_key(i) && *a == old(self).components()[i] && *b == other.components()[i] ==> #[trigger] f.requires((i, a, b)),
        ensures
            final(self).well_formed(),
            final(self).slots().len() == old(self).slots().len(),
            final(self).components().dom() == old(self).components().dom(),
            final(self).recency() == old(self).recency(),
            forall|i: usize| #[trigger] old(self).components().contains_key(i) ==> if other.components().contains_key(i) {
                exists|m: &mut C|
                    *m == old(self).components()[i] && *final(m) == final(self).components()[i]
                        && f.ensures((i, m, &other.components()[i]), ())
            } else {
                final(self).components()[i] == old(self).components()[i]
            },
    {
        let order = self.dense_indices();
        proof {
            self.lemma_recency_exact();
            lemma_indices_where(self.slots@.len(), occupied(self.slots@));
        }
        self.for_each_listed_mut(&order, other, f);
    }

    /// Calls `f` on each index that holds a value here and in both others,
    /// ascending, with a mutable reference to the value here.
    pub fn join3_for_each_mut<T2, T3, F: FnMut(usize, &mut C, &T2, &T3)>(
        &mut self,
        second: &DenseStorage<T2>,
        third: &DenseStorage<T3>,
        f: F,
    )
        requires
            old(self).well_formed(),
            forall|i: usize, a: &mut C, b: &T2, c: &T3| old(self).components().contains_key(i) && second.components().contains_key(i) && third.components().contains_key(i) && *a == old(self).components()[i] && *b == second.components()[i] && *c == third.components()[i] ==> #[trigger] f.requires((i, a, b, c)),
        ensures
            final(self).well_formed(),
            final(self).slots().len() == old(self).slots().len(),
            final(self).components().dom() == old(self).components().dom(),
            final(self).recency() == old(self).recency(),
            forall|i: usize| #[trigger] old(self).components().contains_key(i) ==> if second.components().contains_key(i)
                && third.components().contains_key(i) {
                exists|m: &mut C|
                    *m == old(self).components()[i] && *final(m) == final(self).components()[i]
                        && f.ensures((i, m, &second.components()[i], &third.components()[i]), ())
            } else {
                final(self).components()[i] == old(self).components()[i]
            },
    {
        let order = self.dense_indices();
        proof {
            self.lemma_recency_exact();
            lemma_indices_where(self.slots@.len(), occupied(self.slots@));
        }
        self.for_each_listed3_mut(&order, second, third, f);
    }

    /// Calls `f` on each listed index that holds a value, in list order, with a
    /// mutable reference to the value.
    fn for_each_listed1_mut<F: FnMut(usize, &mut C)>(
        &mut self,
        order: &Vec<usize>,
        mut f: F,
    )
        requires
            old(self).well_formed(),
            order@.no_duplicates(),
            forall|i: usize, a: &mut C| old(self).components().contains_key(i) && *a == old(self).components()[i] ==> #[trigger] f.requires((i, a)),
        ensures
            final(self).well_formed(),
            final(self).slots().len() == old(self).slots().len(),
            final(self).components().dom() == old(self).components().dom(),
            final(self).recency() == old(self).recency(),
            forall|i: usize| #[trigger] old(self).components().contains_key(i) ==> if order@.contains(i) {
                exists|m: &mut C|
                    *m == old(self).components()[i] && *final(m) == final(self).components()[i]
                        && f.ensures((i, m), ())
            } else {
                final(self).components()[i] == old(self).components()[i]
            },
    {
        let ghost f0 = f;
        let mut k: usize = 0;
        while k < order.len()
            invariant
                f == f0,
                k <= order@.len(),
                order@.no_duplicates(),
                forall|i: usize, a: &mut C| old(self).components().contains_key(i) && *a == old(self).components()[i] ==> #[trigger] f.requires((i, a)),
                self.slots@.len() == old(self).slots@.len(),
                forall|j: usize| #[trigger] occupied(self.slots@)(j) == occupied(old(self).slots@)(j),
                forall|j: usize|
                    #[trigger] old(self).components().contains_key(j) ==> if order@.subrange(0, k as int).contains(j) {
                        exists|m: &mut C|
                            *m == old(self).components()[j] && *final(m) == slot_map(self.slots@)[j]
                                && f.ensures((j, m), ())
                    } else {
                        slot_map(self.slots@)[j] == old(self).components()[j]
                    },
                self.links == old(self).links,
                self.head == old(self).head,
                self.order == old(self).order,
                self.active == old(self).active,
                old(self).well_formed(),
            decreases order@.len() - k,
        {
            let i = order[k];
            let ghost before = self.slots@;
            proof {
                assert(order@.subrange(0, k + 1) == order@.subrange(0, k as int).push(i));
                assert(!order@.subrange(0, k as int).contains(i)) by {
                    if order@.subrange(0, k as int).contains(i) {
                        let q = choose|q: int| 0 <= q < k && order@.subrange(0, k as int)[q] == i;
                        assert(order@[q] == order@[k as int]);
                    }
                }
                if old(self).components().contains_key(i) {
                    assert(slot_map(before)[i] == old(self).components()[i]);
                }
            }
            assert(old(self).components().contains_key(i) <==> occupied(before)(i));
            let ghost mut called = false;
            let ghost mut after_v: Option<C> = None;
            if i < self.slots.len() {
                    match &mut self.slots[i] {
                        Some(a) => {
                            let ghost a0 = *a;
                            proof {
                                assert(occupied(before)(i));
                                assert(old(self).components().contains_key(i));
                                assert(a0 == old(self).components()[i]);
                            }
                            f(i, a);
                            assert(exists|m: &mut C| *m == a0 && *final(m) == *a && f.ensures((i, m), ()));
                            proof {
                                called = true;
                                after_v = Some(*a);
                            }
                        },
                        None => {},
                    }
            }
            assert(called <==> (old(self).components().contains_key(i)));
            assert(called ==> exists|m: &mut C|
                *m == old(self).components()[i] && *final(m) == after_v->Some_0
                    && f.ensures((i, m), ()));
            assert forall|j: int| 0 <= j < self.slots@.len() && j != i as int implies #[trigger] self.slots@[j] == before[j] by {}
            assert forall|j: usize| #[trigger] occupied(self.slots@)(j) == occupied(before)(j) by {
                if (j as int) < self.slots@.len() && j != i {
                    assert(self.slots@[j as int] == before[j as int]);
                }
            }
            assert forall|j: usize| #[trigger] old(self).components().contains_key(j) implies if order@.subrange(0, k + 1).contains(j) {
                exists|m: &mut C|
                    *m == old(self).components()[j] && *final(m) == slot_map(self.slots@)[j]
                        && f.ensures((j, m), ())
            } else {
                slot_map(self.slots@)[j] == old(self).components()[j]
            } by {
                if j != i {
                    assert(self.slots@[j as int] == before[j as int]);
                    assert(slot_map(self.slots@)[j] == slot_map(before)[j]);
                    assert(order@.subrange(0, k + 1).contains(j) == order@.subrange(0, k as int).contains(j));
                } else {
                    assert(order@.subrange(0, k + 1).contains(j));
                    if called {
                        assert(self.slots@[i as int] == Some(after_v->Some_0));
                        assert(slot_map(self.slots@)[j] == after_v->Some_0);
                    } else {
                        assert(self.slots@[i as int] == before[i as int]);
                    }
                }
            }
            k = k + 1;
        }
        assert(order@.subrange(0, k as int) == order@);
        assert(self.components().dom() =~= old(self).components().dom());
    }

    /// Calls `f` on each listed index that holds a value here and in `other`,
    /// in list order, with a mutable reference to the value here.
    pub fn for_each_listed_mut<T2, F: FnMut(usize, &mut C, &T2)>(
        &mut self,
        order: &Vec<usize>,
        other: &DenseStorage<T2>,
        mut f: F,
    )
        requires
            old(self).well_formed(),
            order@.no_duplicates(),
            forall|i: usize, a: &mut C, b: &T2| order@.contains(i) && old(self).components().contains_key(i) && other.components().contains_key(i) && *a == old(self).components()[i] && *b == other.components()[i] ==> #[trigger] f.requires((i, a, b)),
        ensures
            final(self).well_formed(),
            final(self).slots().len() == old(self).slots().len(),
            final(self).components().dom() == old(self).components().dom(),
            final(self).recency() == old(self).recency(),
            forall|i: usize| #[trigger] old(self).components().contains_key(i) ==> if order@.contains(i) && other.components().contains_key(i) {
                exists|m: &mut C|
                    *m == old(self).components()[i] && *final(m) == final(self).components()[i]
                        && f.ensures((i, m, &other.components()[i]), ())
            } else {
                final(self).components()[i] == old(self).components()[i]
            },
    {
        let ghost f0 = f;
        let mut k: usize = 0;
        while k < order.len()
            invariant
                f == f0,
                k <= order@.len(),
                order@.no_duplicates(),
                forall|i: usize, a: &mut C, b: &T2| order@.contains(i) && old(self).components().contains_key(i) && other.components().contains_key(i) && *a == old(self).components()[i] && *b == other.components()[i] ==> #[trigger] f.requires((i, a, b)),
                self.slots@.len() == old(self).slots@.len(),
                forall|j: usize| #[trigger] occupied(self.slots@)(j) == occupied(old(self).slots@)(j),
                forall|j: usize|
                    #[trigger] old(self).components().contains_key(j) ==> if order@.subrange(0, k as int).contains(j) && other.components().contains_key(j) {
                        exists|m: &mut C|
                            *m == old(self).components()[j] && *final(m) == slot_map(self.slots@)[j]
                                && f.ensures((j, m, &other.components()[j]), ())
                    } else {
                        slot_map(self.slots@)[j] == old(self).components()[j]
                    },
                self.links == old(self).links,
                self.head == old(self).head,
                self.order == old(self).order,
                self.active == old(self).active,
                old(self).well_formed(),
            decreases order@.len() - k,
        {
            let i = order[k];
            let ghost before = self.slots@;
            proof {
                assert(order@.subrange(0, k + 1) == order@.subrange(0, k as int).push(i));
                assert(!order@.subrange(0, k as int).contains(i)) by {
                    if order@.subrange(0, k as int).contains(i) {
                        let q = choose|q: int| 0 <= q < k && order@.subrange(0, k as int)[q] == i;
                        assert(order@[q] == order@[k as int]);
                    }
                }
                if old(self).components().contains_key(i) {
                    assert(slot_map(before)[i] == old(self).components()[i]);
                }
            }
            assert(old(self).components().contains_key(i) <==> occupied(before)(i));
            let ghost mut called = false;
            let ghost mut after_v: Option<C> = None;
            if i < self.slots.len() {
                if let Some(b) = other.get(i) {
                    match &mut self.slots[i] {
                        Some(a) => {
                            let ghost a0 = *a;
                            proof {
                                assert(occupied(before)(i));
                                assert(old(self).components().contains_key(i));
                                assert(a0 == old(self).components()[i]);
                            }
                            f(i, a, b);
                            assert(exists|m: &mut C| *m == a0 && *final(m) == *a && f.ensures((i, m, b), ()));
                            proof {
                                called = true;
                                after_v = Some(*a);
                            }
                        },
                        None => {},
                    }
                }
            }
            assert forall|j: int| 0 <= j < self.slots@.len() && j != i as int implies #[trigger] self.slots@[j] == before[j] by {}
            assert forall|j: usize| #[trigger] occupied(self.slots@)(j) == occupied(before)(j) by {
                if (j as int) < self.slots@.len() && j != i {
                    assert(self.slots@[j as int] == before[j as int]);
                }
            }
            assert forall|j: usize| #[trigger] old(self).components().contains_key(j) implies if order@.subrange(0, k + 1).contains(j) && other.components().contains_key(j) {
                exists|m: &mut C|
                    *m == old(self).components()[j] && *final(m) == slot_map(self.slots@)[j]
                        && f.ensures((j, m, &other.components()[j]), ())
            } else {
                slot_map(self.slots@)[j] == old(self).components()[j]
            } by {
                if j != i {
                    assert(self.slots@[j as int] == before[j as int]);
                    assert(slot_map(self.slots@)[j] == slot_map(before)[j]);
                    assert(order@.subrange(0, k + 1).contains(j) == order@.subrange(0, k as int).contains(j));
                } else {
                    assert(order@.subrange(0, k + 1).contains(j));
                    if called {
                        assert(self.slots@[i as int] == Some(after_v->Some_0));
                        assert(slot_map(self.slots@)[j] == after_v->Some_0);
                    } else {
                        assert(self.slots@[i as int] == before[i as int]);
                    }
                }
            }
            k = k + 1;
        }
        assert(order@.subrange(0, k as int) == order@);
        assert(self.components().dom() =~= old(self).components().dom());
    }

    /// Calls `f` on each listed index that holds a value here and in both
    /// others, in list order, with a mutable reference to the value here.
    pub fn for_each_listed3_mut<T2, T3, F: FnMut(usize, &mut C, &T2, &T3)>(
        &mut self,
        order: &Vec<usize>,
        second: &DenseStorage<T2>,
        third: &DenseStorage<T3>,
        mut f: F,
    )
        requires
            old(self).well_formed(),
            order@.no_duplicates(),
            forall|i: usize, a: &mut C, b: &T2, c: &T3| order@.contains(i) && old(self).components().contains_key(i) && second.components().contains_key(i) && third.components().contains_key(i) && *a == old(self).components()[i] && *b == second.components()[i] && *c == third.components()[i] ==> #[trigger] f.requires((i, a, b, c)),
        ensures
            final(self).well_formed(),
            final(self).slots().len() == old(self).slots().len(),
            final(self).components().dom() == old(self).components().dom(),
            final(self).recency() == old(self).recency(),
            forall|i: usize| #[trigger] old(self).components().contains_key(i) ==> if order@.contains(i) && second.components().contains_key(i) && third.components().contains_key(i) {
                exists|m: &mut C|
                    *m == old(self).components()[i] && *final(m) == final(self).components()[i]
                        && f.ensures((i, m, &second.components()[i], &third.components()[i]), ())
            } else {
                final(self).components()[i] == old(self).components()[i]
            },
    {
        let ghost f0 = f;
        let mut k: usize = 0;
        while k < order.len()
            invariant
                f == f0,
                k <= order@.len(),
                order@.no_duplicates(),
                forall|i: usize, a: &mut C, b: &T2, c: &T3| order@.contains(i) && old(self).components().contains_key(i) && second.components().contains_key(i) && third.components().contains_key(i) && *a == old(self).components()[i] && *b == second.components()[i] && *c == third.components()[i] ==> #[trigger] f.requires((i, a, b, c)),
                self.slots@.len() == old(self).slots@.len(),
                forall|j: usize| #[trigger] occupied(self.slots@)(j) == occupied(old(self).slots@)(j),
                forall|j: usize|
                    #[trigger] old(self).components().contains_key(j) ==> if order@.subrange(0, k as int).contains(j) && second.components().contains_key(j) && third.components().contains_key(j) {
                        exists|m: &mut C|
                            *m == old(self).components()[j] && *final(m) == slot_map(self.slots@)[j]
                                && f.ensures((j, m, &second.components()[j], &third.components()[j]), ())
                    } else {
                        slot_map(self.slots@)[j] == old(self).components()[j]
                    },
                self.links == old(self).links,
                self.head == old(self).head,
                self.order == old(self).order,
                self.active == old(self).active,
                old(self).well_formed(),
            decreases order@.len() - k,
        {
            let i = order[k];
            let ghost before = self.slots@;
            proof {
                assert(order@.subrange(0, k + 1) == order@.subrange(0, k as int).push(i));
                assert(!order@.subrange(0, k as int).contains(i)) by {
                    if order@.subrange(0, k as int).contains(i) {
                        let q = choose|q: int| 0 <= q < k && order@.subrange(0, k as int)[q] == i;
                        assert(order@[q] == order@[k as int]);
                    }
                }
                if old(self).components().contains_key(i) {
                    assert(slot_map(before)[i] == old(self).components()[i]);
                }
            }
            assert(old(self).components().contains_key(i) <==> occupied(before)(i));
            let ghost mut called = false;
            let ghost mut after_v: Option<C> = None;
            if i < self.slots.len() {
                if let Some(b) = second.get(i) {
                if let Some(c) = third.get(i) {
                    match &mut self.slots[i] {
                        Some(a) => {
                            let ghost a0 = *a;
                            proof {
                                assert(occupied(before)(i));
                                assert(old(self).components().contains_key(i));
                                assert(a0 == old(self).components()[i]);
                            }
                            f(i, a, b, c);
                            assert(exists|m: &mut C| *m == a0 && *final(m) == *a && f.ensures((i, m, b, c), ()));
                            proof {
                                called = true;
                                after_v = Some(*a);
                            }
                        },
                        None => {},
                    }
                }
                }
            }
            assert forall|j: int| 0 <= j < self.slots@.len() && j != i as int implies #[trigger] self.slots@[j] == before[j] by {}
            assert forall|j: usize| #[trigger] occupied(self.slots@)(j) == occupied(before)(j) by {
                if (j as int) < self.slots@.len() && j != i {
                    assert(self.slots@[j as int] == before[j as int]);
                }
            }
            assert forall|j: usize| #[trigger] old(self).components().contains_key(j) implies if order@.subrange(0, k + 1).contains(j) && second.components().contains_key(j) && third.components().contains_key(j) {
                exists|m: &mut C|
                    *m == old(self).components()[j] && *final(m) == slot_map(self.slots@)[j]
                        && f.ensures((j, m, &second.components()[j], &third.components()[j]), ())
            } else {
                slot_map(self.slots@)[j] == old(self).components()[j]
            } by {
                if j != i {
                    assert(self.slots@[j as int] == before[j as int]);
                    assert(slot_map(self.slots@)[j] == slot_map(before)[j]);
                    assert(order@.subrange(0, k + 1).contains(j) == order@.subrange(0, k as int).contains(j));
                } else {
                    assert(order@.subrange(0, k + 1).contains(j));
                    if called {
                        assert(self.slots@[i as int] == Some(after_v->Some_0));
                        assert(slot_map(self.slots@)[j] == after_v->Some_0);
                    } else {
                        assert(self.slots@[i as int] == before[i as int]);
                    }
                }
            }
            k = k + 1;
        }
        assert(order@.subrange(0, k as int) == order@);
        assert(self.components().dom() =~= old(self).components().dom());
    }

    /// The recency list, kept where `other` holds a value.
    pub fn recency_filtered<T2>(&self, other: &DenseStorage<T2>) -> (r: Vec<usize>)
        requires
            self.well_formed(),
        ensures
            r@ == self.recency().filter(occupied(other.slots())),
    {
        let ghost order = self.order@;
        let ghost p = occupied(other.slots());
        let mut out: Vec<usize> = Vec::new();
        let mut cur = self.head;
        let ghost mut k: int = 0;
        while cur.is_some()
            invariant
                self.well_formed(),
                order == self.order@,
                p == occupied(other.slots()),
                0 <= k <= order.len(),
                cur == if k < order.len() {
                    Some(order[k])
                } else {
                    None::<usize>
                },
                out@ == order.subrange(0, k).filter(p),
            decreases order.len() - k,
        {
            let i = cur.unwrap();
            assert((self.links@[order[k] as int].next, self.links@[order[k] as int].prev) == link_at(order, k));
            proof {
                assert(order.subrange(0, k + 1) == order.subrange(0, k).push(i));
                order.subrange(0, k).lemma_filter_push(i, p);
            }
            if other.get(i).is_some() {
                out.push(i);
            }
            cur = self.links[i].next;
            proof {
                k = k + 1;
            }
        }
        assert(order.subrange(0, k) == order);
        out
    }

    /// The recency list, kept where both others hold a value.
    pub fn recency_filtered2<T2, T3>(&self, second: &DenseStorage<T2>, third: &DenseStorage<T3>) -> (r: Vec<usize>)
        requires
            self.well_formed(),
        ensures
            r@ == self.recency().filter(both_present(second.slots(), third.slots())),
    {
        let ghost order = self.order@;
        let ghost p = both_present(second.slots(), third.slots());
        let mut out: Vec<usize> = Vec::new();
        let mut cur = self.head;
        let ghost mut k: int = 0;
        while cur.is_some()
            invariant
                self.well_formed(),
                order == self.order@,
                p == both_present(second.slots(), third.slots()),
                0 <= k <= order.len(),
                cur == if k < order.len() {
                    Some(order[k])
                } else {
                    None::<usize>
                },
                out@ == order.subrange(0, k).filter(p),
            decreases order.len() - k,
        {
            let i = cur.unwrap();
            assert((self.links@[order[k] as int].next, self.links@[order[k] as int].prev) == link_at(order, k));
            proof {
                assert(order.subrange(0, k + 1) == order.subrange(0, k).push(i));
                order.subrange(0, k).lemma_filter_push(i, p);
            }
            if second.get(i).is_some() && third.get(i).is_some() {
                out.push(i);
            }
            cur = self.links[i].next;
            proof {
                k = k + 1;
            }
        }
        assert(order.subrange(0, k) == order);
        out
    }
}

} // verus!
