use vstd::prelude::*;

use crate::container::{in_domain, ComponentContainer};
use crate::dense::{lemma_filter_exact, lemma_indices_where, lemma_remove_value_shape, DenseStorage};
use crate::query::{
    aligned2, aligned3, aligned_order2, aligned_order3, fallback_order2, fallback_order3, in_all,
    in_both, probe_order2, probe_order3,
};

verus! {

broadcast use {vstd::seq_lib::group_seq_properties, vstd::seq_lib::group_filter_ensures};

/// The stored values after a run of `set` calls, each an index and a value, in order.
pub open spec fn after_sets<C>(m: Map<usize, C>, writes: Seq<(usize, C)>) -> Map<usize, C>
    decreases writes.len(),
{
    if writes.len() == 0 {
        m
    } else {
        after_sets(m, writes.drop_last()).insert(writes.last().0, writes.last().1)
    }
}

/// A value set for an entity is what `get` returns for it for as long as no
/// later `set` targets that entity: after `set(e, v)` and any run of `set`
/// calls on other entities, the container still holds `v` for `e`.
pub proof fn lemma_get_returns_last_set<C>(m: Map<usize, C>, e: usize, v: C, later: Seq<(usize, C)>)
    requires
        forall|k: int| 0 <= k < later.len() ==> (#[trigger] later[k]).0 != e,
    ensures
        after_sets(m.insert(e, v), later).contains_key(e),
        after_sets(m.insert(e, v), later)[e] == v,
    decreases later.len(),
{
    if later.len() > 0 {
        let rest = later.drop_last();
        assert forall|k: int| 0 <= k < rest.len() implies (#[trigger] rest[k]).0 != e by {
            assert(rest[k] == later[k]);
        }
        lemma_get_returns_last_set(m, e, v, rest);
        assert(later.last() == later[later.len() - 1]);
    }
}

/// Scanning one container and probing another yields exactly the entities
/// that hold a value in both, each once, whatever the layouts.
pub proof fn lemma_probe_exact2<C1, C2, K1: ComponentContainer<C1>, K2: ComponentContainer<C2>>(
    a: K1,
    b: K2,
)
    requires
        a.well_formed(),
    ensures
        probe_order2(a, b).no_duplicates(),
        forall|i: usize| #[trigger]
            probe_order2(a, b).contains(i) <==> (a.components().contains_key(i)
                && b.components().contains_key(i)),
{
    a.lemma_scan_order();
    let probe = probe_order2(a, b);
    let pred = in_domain(b.components());
    assert forall|i: usize| #[trigger]
        probe.contains(i) <==> (a.components().contains_key(i) && b.components().contains_key(i)) by {
        if probe.contains(i) {
            a.scan_order().lemma_filter_contains_rev(pred, i);
            let k = choose|k: int| 0 <= k < probe.len() && probe[k] == i;
            a.scan_order().lemma_filter_pred(pred, k);
        }
        if a.components().contains_key(i) && b.components().contains_key(i) {
            assert(a.scan_order().contains(i));
            let k = choose|k: int| 0 <= k < a.scan_order().len() && a.scan_order()[k] == i;
            a.scan_order().lemma_filter_contains(pred, k);
        }
    }
    lemma_filter_exact(a.scan_order(), pred);
}

/// Scanning one container and probing two others yields exactly the entities
/// that hold a value in all three, each once, whatever the layouts.
pub proof fn lemma_probe_exact3<
    C1,
    C2,
    C3,
    K1: ComponentContainer<C1>,
    K2: ComponentContainer<C2>,
    K3: ComponentContainer<C3>,
>(a: K1, b: K2, c: K3)
    requires
        a.well_formed(),
    ensures
        probe_order3(a, b, c).no_duplicates(),
        forall|i: usize| #[trigger]
            probe_order3(a, b, c).contains(i) <==> (a.components().contains_key(i)
                && b.components().contains_key(i) && c.components().contains_key(i)),
{
    a.lemma_scan_order();
    let probe = probe_order3(a, b, c);
    let q = in_both(b.components(), c.components());
    assert forall|i: usize| #[trigger]
        probe.contains(i) <==> (a.components().contains_key(i) && b.components().contains_key(i)
            && c.components().contains_key(i)) by {
        if probe.contains(i) {
            a.scan_order().lemma_filter_contains_rev(q, i);
            let k = choose|k: int| 0 <= k < probe.len() && probe[k] == i;
            a.scan_order().lemma_filter_pred(q, k);
        }
        if a.components().contains_key(i) && b.components().contains_key(i)
            && c.components().contains_key(i) {
            assert(a.scan_order().contains(i));
            let k = choose|k: int| 0 <= k < a.scan_order().len() && a.scan_order()[k] == i;
            a.scan_order().lemma_filter_contains(q, k);
        }
    }
    lemma_filter_exact(a.scan_order(), q);
}

/// The aligned path and the fallback path of a two-way join over the same
/// dense containers yield the same entities, each once: those that hold a
/// value in both.
pub proof fn lemma_join_paths_agree2<C1, C2, K1: ComponentContainer<C1>, K2: ComponentContainer<C2>>(
    a: K1,
    b: K2,
)
    requires
        a.well_formed(),
        b.well_formed(),
        aligned2(a, b),
    ensures
        aligned_order2(a, b).no_duplicates(),
        fallback_order2(a, b).no_duplicates(),
        aligned_order2(a, b).to_set() == fallback_order2(a, b).to_set(),
        forall|i: usize| #[trigger]
            aligned_order2(a, b).contains(i) <==> (a.components().contains_key(i)
                && b.components().contains_key(i)),
{
    a.lemma_scan_order();
    lemma_indices_where(a.size(), in_both(a.components(), b.components()));
    lemma_probe_exact2(a, b);
    lemma_probe_exact2(b, a);
    assert(aligned_order2(a, b).to_set() =~= fallback_order2(a, b).to_set());
}

/// The aligned path and the fallback path of a three-way join over the same
/// dense containers yield the same entities, each once: those that hold a
/// value in all three.
pub proof fn lemma_join_paths_agree3<
    C1,
    C2,
    C3,
    K1: ComponentContainer<C1>,
    K2: ComponentContainer<C2>,
    K3: ComponentContainer<C3>,
>(a: K1, b: K2, c: K3)
    requires
        a.well_formed(),
        b.well_formed(),
        c.well_formed(),
        aligned3(a, b, c),
    ensures
        aligned_order3(a, b, c).no_duplicates(),
        fallback_order3(a, b, c).no_duplicates(),
        aligned_order3(a, b, c).to_set() == fallback_order3(a, b, c).to_set(),
        forall|i: usize| #[trigger]
            aligned_order3(a, b, c).contains(i) <==> (a.components().contains_key(i)
                && b.components().contains_key(i) && c.components().contains_key(i)),
{
    a.lemma_scan_order();
    lemma_indices_where(a.size(), in_all(a.components(), b.components(), c.components()));
    lemma_probe_exact3(a, b, c);
    lemma_probe_exact3(b, a, c);
    lemma_probe_exact3(c, a, b);
    assert(aligned_order3(a, b, c).to_set() =~= fallback_order3(a, b, c).to_set());
}

/// The sparse traversal of a well-formed dense storage visits exactly the
/// occupied slots, each once, and as many as there are stored values.
pub proof fn lemma_sparse_traversal_exact<C>(s: DenseStorage<C>)
    requires
        s.well_formed(),
    ensures
        s.recency().no_duplicates(),
        s.recency().to_set() == s.components().dom(),
        s.recency().len() == s.components().dom().len(),
{
    s.lemma_recency_exact();
}

/// The recency list that a run of `set` calls on the given indices leaves,
/// starting from an empty one.
pub open spec fn recency_after(sets: Seq<usize>) -> Seq<usize>
    decreases sets.len(),
{
    if sets.len() == 0 {
        Seq::empty()
    } else {
        seq![sets.last()] + recency_after(sets.drop_last()).remove_value(sets.last())
    }
}

/// The position of the last occurrence of `x` in `s`.
pub open spec fn last_position(s: Seq<usize>, x: usize) -> int
    decreases s.len(),
{
    if s.len() == 0 {
        -1
    } else if s.last() == x {
        s.len() - 1
    } else {
        last_position(s.drop_last(), x)
    }
}

/// After a run of `set` calls the sparse traversal visits each index that was
/// set exactly once, in reverse order of the last `set` on each: most recently
/// set first.
pub proof fn lemma_recency_reverses_sets(sets: Seq<usize>)
    ensures
        recency_after(sets).no_duplicates(),
        forall|x: usize| #[trigger] recency_after(sets).contains(x) <==> sets.contains(x),
        forall|p: int, q: int|
            0 <= p < q < recency_after(sets).len() ==> last_position(sets, #[trigger] recency_after(sets)[p])
                > last_position(sets, #[trigger] recency_after(sets)[q]),
    decreases sets.len(),
{
    if sets.len() > 0 {
        let prev = sets.drop_last();
        let x = sets.last();
        lemma_recency_reverses_sets(prev);
        let old_r = recency_after(prev);
        let new_r = recency_after(sets);
        let cut = lemma_remove_value_shape(old_r, x);
        let removed = old_r.remove_value(x);
        assert(new_r == seq![x] + removed);
        assert forall|y: usize| y != x implies last_position(sets, y) == last_position(prev, y) by {
            assert(sets.drop_last() == prev);
        }
        assert(last_position(sets, x) == sets.len() - 1);
        assert forall|y: usize| #[trigger] new_r.contains(y) <==> sets.contains(y) by {
            if y == x {
                assert(new_r[0] == x);
                assert(sets[sets.len() - 1] == x);
            } else {
                if new_r.contains(y) {
                    let k = choose|k: int| 0 <= k < new_r.len() && new_r[k] == y;
                    let j = if k - 1 < cut { k - 1 } else { k };
                    assert(removed[k - 1] == old_r[j]);
                    assert(old_r.contains(y));
                    let m = choose|m: int| 0 <= m < prev.len() && prev[m] == y;
                    assert(sets[m] == y);
                }
                if sets.contains(y) {
                    let m = choose|m: int| 0 <= m < sets.len() && sets[m] == y;
                    assert(m < sets.len() - 1);
                    assert(prev[m] == y);
                    assert(prev.contains(y));
                    assert(old_r.contains(y));
                    let k = choose|k: int| 0 <= k < old_r.len() && old_r[k] == y;
                    assert(k != cut);
                    let j = if k < cut { k } else { k - 1 };
                    assert(0 <= j < removed.len());
                    assert(removed[j] == old_r[if j < cut { j } else { j + 1 }]);
                    assert(removed[j] == y);
                    assert(new_r[j + 1] == y);
                }
            }
        }
        assert forall|p: int, q: int| 0 <= p < q < new_r.len() implies last_position(sets, #[trigger] new_r[p])
            > last_position(sets, #[trigger] new_r[q]) by {
            let oq = if q - 1 < cut { q - 1 } else { q };
            assert(new_r[q] == old_r[oq]);
            assert(new_r[q] != x);
            assert(old_r.contains(old_r[oq]));
            assert(prev.contains(old_r[oq]));
            let m = choose|m: int| 0 <= m < prev.len() && prev[m] == old_r[oq];
            lemma_last_position_bounds(prev, old_r[oq], m);
            if p > 0 {
                let op = if p - 1 < cut { p - 1 } else { p };
                assert(new_r[p] == old_r[op]);
                assert(op < oq);
            }
        }
        assert(new_r.no_duplicates()) by {
            assert forall|a: int, b: int| 0 <= a < b < new_r.len() implies new_r[a] != new_r[b] by {
                let ob = if b - 1 < cut { b - 1 } else { b };
                assert(new_r[b] == old_r[ob]);
                if a > 0 {
                    let oa = if a - 1 < cut { a - 1 } else { a };
                    assert(new_r[a] == old_r[oa]);
                }
            }
        }
    }
}

/// The last occurrence of a value that occurs at `m` lies at or after `m`, inside the sequence.
proof fn lemma_last_position_bounds(s: Seq<usize>, x: usize, m: int)
    requires
        0 <= m < s.len(),
        s[m] == x,
    ensures
        m <= last_position(s, x) < s.len(),
    decreases s.len(),
{
    if s.last() != x {
        assert(m < s.len() - 1);
        lemma_last_position_bounds(s.drop_last(), x, m);
    }
}

/// Setting an entity that already holds a value again leaves the traversal
/// length unchanged: the list counts distinct entities, not `set` calls.
pub proof fn lemma_reset_keeps_count<C>(before: DenseStorage<C>, after: DenseStorage<C>, index: usize, value: C)
    requires
        before.well_formed(),
        after.well_formed(),
        before.components().contains_key(index),
        after.recency() == seq![index] + before.recency().remove_value(index),
    ensures
        after.recency().len() == before.recency().len(),
{
    before.lemma_recency_exact();
    before.recency().index_of_first_ensures(index);
    if let Some(q) = before.recency().index_of_first(index) {
    } else {
        assert(false);
    }
}

/// An index that a dense storage does not reach holds no value: querying it
/// after growth elsewhere yields nothing, not a fault.
pub proof fn lemma_uncovered_index_empty<C>(s: DenseStorage<C>, index: usize)
    requires
        (index as int) >= s.slots().len(),
    ensures
        !s.components().contains_key(index),
{
}

} // verus!
