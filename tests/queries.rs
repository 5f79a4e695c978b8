use gba_ecs_rs::{
    fallback_join2, fallback_join3, for_each2, for_each3, is_valid_entity_index, join2, join3, merge_join, probe_join2,
    probe_join3, safe_entity_new, validate_container, zip, zip3, zip3_mut, zip_mut, ComponentContainer, Entity,
    HashComponentContainer, VecComponentContainer,
};

#[derive(Clone, Copy, Debug, PartialEq)]
struct A(usize);
#[derive(Clone, Copy, Debug, PartialEq)]
struct B(usize);
#[derive(Clone, Copy, Debug, PartialEq)]
struct C(usize);

/// A on every index, B on the even ones, C on the multiples of 8.
fn population(n: usize) -> (
    VecComponentContainer<A>,
    VecComponentContainer<B>,
    VecComponentContainer<C>,
) {
    let mut a = VecComponentContainer::new();
    let mut b = VecComponentContainer::new();
    let mut c = VecComponentContainer::new();
    for i in 0..n {
        let e = Entity::new(i);
        a.add_entity(e);
        b.add_entity(e);
        c.add_entity(e);
        a.set(e, A(i));
        if i % 2 == 0 {
            b.set(e, B(i * 10));
        }
        if i % 8 == 0 {
            c.set(e, C(i * 100));
        }
    }
    (a, b, c)
}

fn sorted(mut v: Vec<usize>) -> Vec<usize> {
    v.sort();
    v
}

#[test]
fn thousand_entity_joins() {
    let (a, b, c) = population(1000);
    let two = join2(&a, &b);
    assert_eq!(two.len(), 500);
    let three = join3(&a, &b, &c);
    assert_eq!(three.len(), 125);
    assert!(three.iter().all(|i| i % 8 == 0));

    let mut count2 = 0;
    zip(&a, &b).for_each(|i, x, y| {
        assert_eq!(x.0, i);
        assert_eq!(y.0, i * 10);
        count2 += 1;
    });
    assert_eq!(count2, 500);

    let mut seen3 = Vec::new();
    zip3(&a, &b, &c).for_each(|i, x, y, z| {
        assert_eq!((x.0, y.0, z.0), (i, i * 10, i * 100));
        seen3.push(i);
    });
    assert_eq!(seen3.len(), 125);
    assert!(seen3.iter().all(|i| i % 8 == 0));
}

#[test]
fn aligned_and_fallback_paths_agree() {
    let (a, b, c) = population(64);
    let aligned = zip(&a, &b).indices();
    let probed = probe_join2(&a, &b);
    assert_eq!(sorted(aligned.clone()), sorted(probed.clone()));
    assert_eq!(aligned, (0..64).step_by(2).collect::<Vec<usize>>());

    let aligned3 = zip3(&a, &b, &c).indices();
    let probed3 = probe_join3(&a, &b, &c);
    assert_eq!(sorted(aligned3.clone()), sorted(probed3));
    assert_eq!(aligned3, vec![0, 8, 16, 24, 32, 40, 48, 56]);

    let probed_ba = probe_join2(&b, &a);
    assert_eq!(sorted(probed_ba), sorted(probed));
}

#[test]
fn joins_over_empty_and_disjoint_containers() {
    let (a, _, _) = population(10);
    let mut empty = VecComponentContainer::<B>::new();
    for i in 0..10 {
        empty.add_entity(Entity::new(i));
    }
    assert!(join2(&a, &empty).is_empty());
    assert!(probe_join2(&a, &empty).is_empty());

    let mut odd = VecComponentContainer::<B>::new();
    let mut even = VecComponentContainer::<C>::new();
    for i in 0..10 {
        let e = Entity::new(i);
        odd.add_entity(e);
        even.add_entity(e);
        if i % 2 == 1 {
            odd.set(e, B(i));
        } else {
            even.set(e, C(i));
        }
    }
    assert!(join2(&odd, &even).is_empty());
    assert!(join3(&a, &odd, &even).is_empty());
}

#[test]
fn mixed_layout_join_takes_fallback() {
    let (a, _, _) = population(5);
    let mut h = HashComponentContainer::<B>::new();
    h.set(Entity::new(3), B(30));
    h.set(Entity::new(1), B(10));
    // The fallback scans the container with fewer entries: the hashed one.
    assert_eq!(join2(&a, &h), vec![3, 1]);
    assert_eq!(join2(&h, &a), vec![3, 1]);
    assert_eq!(fallback_join2(&a, &h), vec![3, 1]);
    assert_eq!(probe_join2(&a, &h), vec![1, 3]);

    let mut results = Vec::new();
    for_each2(&a, &h, |i, x, y| results.push((i, x.0, y.0)));
    assert_eq!(results, vec![(3, 3, 30), (1, 1, 10)]);
}

#[test]
fn three_way_mixed_layout() {
    let (a, b, _) = population(12);
    let mut h = HashComponentContainer::<C>::new();
    h.set(Entity::new(4), C(4));
    h.set(Entity::new(5), C(5));
    h.set(Entity::new(8), C(8));
    assert_eq!(join3(&a, &b, &h), vec![4, 8]);
    assert_eq!(fallback_join3(&a, &b, &h), vec![4, 8]);
    assert_eq!(probe_join3(&b, &a, &h), vec![4, 8]);
    let mut out = Vec::new();
    for_each3(&h, &a, &b, |i, z, x, y| out.push((i, z.0, x.0, y.0)));
    assert_eq!(out, vec![(4, 4, 4, 40), (8, 8, 8, 80)]);
}

#[test]
fn callback_join_dense_path() {
    let (a, b, c) = population(20);
    let mut out = Vec::new();
    for_each2(&a, &b, |i, _x, _y| out.push(i));
    assert_eq!(out, vec![0, 2, 4, 6, 8, 10, 12, 14, 16, 18]);
    let mut out3 = Vec::new();
    for_each3(&a, &b, &c, |i, _x, _y, _z| out3.push(i));
    assert_eq!(out3, vec![0, 8, 16]);
}

#[test]
fn sparse_zip_walks_shorter_recency() {
    let mut a = VecComponentContainer::<A>::new();
    let mut b = VecComponentContainer::<B>::new();
    for i in 0..6 {
        a.add_entity(Entity::new(i));
        b.add_entity(Entity::new(i));
    }
    a.set(Entity::new(1), A(1));
    a.set(Entity::new(4), A(4));
    a.set(Entity::new(2), A(2));
    b.set(Entity::new(4), B(4));
    b.set(Entity::new(1), B(1));
    // b holds fewer values, so its recency list (most recent first) is walked.
    assert_eq!(zip(&a, &b).sparse_indices(), vec![1, 4]);
    assert_eq!(zip(&b, &a).sparse_indices(), vec![1, 4]);
    let mut out = Vec::new();
    zip(&a, &b).for_each_sparse(|i, x, y| out.push((i, x.0, y.0)));
    assert_eq!(out, vec![(1, 1, 1), (4, 4, 4)]);
    b.set(Entity::new(2), B(2));
    b.set(Entity::new(5), B(5));
    assert_eq!(zip(&a, &b).sparse_indices(), vec![2, 4, 1]);

    let mut c = VecComponentContainer::<C>::new();
    for i in 0..6 {
        c.add_entity(Entity::new(i));
    }
    c.set(Entity::new(1), C(1));
    let mut out3 = Vec::new();
    zip3(&a, &b, &c).for_each_sparse(|i, _x, _y, _z| out3.push(i));
    assert_eq!(out3, vec![1]);
    assert_eq!(zip3(&a, &b, &c).sparse_indices(), vec![1]);
}

#[test]
fn merge_join_of_sorted_sequences() {
    assert_eq!(merge_join(&vec![1, 3, 5, 7, 9], &vec![2, 3, 4, 9, 10]), vec![3, 9]);
    assert_eq!(merge_join(&vec![], &vec![1, 2]), Vec::<usize>::new());
    assert_eq!(merge_join(&vec![0, 8, 16], &vec![0, 8, 16]), vec![0, 8, 16]);
    assert_eq!(merge_join(&vec![1, 2, 3], &vec![4, 5]), Vec::<usize>::new());
}

#[test]
fn validation_helpers() {
    assert!(is_valid_entity_index(3, 4));
    assert!(!is_valid_entity_index(4, 4));
    assert_eq!(safe_entity_new(usize::MAX), None);
    assert_eq!(safe_entity_new(7).map(|e| e.index()), Some(7));
    let (a, _, _) = population(3);
    assert!(validate_container(&a, "A"));
    assert_eq!(a.len(), 3);
}

#[test]
fn mutable_zip_changes_first_operand() {
    let (mut a, b, c) = population(16);
    zip_mut(&mut a, &b).for_each_mut(|i, x, y| {
        x.0 = i + y.0;
    });
    assert_eq!(a.get_index(2), Some(&A(22)));
    assert_eq!(a.get_index(3), Some(&A(3)));

    zip3_mut(&mut a, &b, &c).for_each_mut(|_i, x, _y, z| {
        x.0 = z.0;
    });
    assert_eq!(a.get_index(8), Some(&A(800)));
    assert_eq!(a.get_index(2), Some(&A(22)));
    assert_eq!(a.get_index(0), Some(&A(0)));
}

#[test]
fn mutable_sparse_zip_walks_recency() {
    let mut a = VecComponentContainer::<A>::new();
    let mut b = VecComponentContainer::<B>::new();
    let mut c = VecComponentContainer::<C>::new();
    for i in 0..4 {
        a.add_entity(Entity::new(i));
        b.add_entity(Entity::new(i));
        c.add_entity(Entity::new(i));
    }
    a.set(Entity::new(0), A(0));
    a.set(Entity::new(3), A(0));
    a.set(Entity::new(1), A(0));
    b.set(Entity::new(0), B(5));
    b.set(Entity::new(3), B(7));
    c.set(Entity::new(3), C(9));
    let mut order = Vec::new();
    zip_mut(&mut a, &b).for_each_sparse_mut(|i, x, y| {
        x.0 = y.0;
        order.push(i);
    });
    assert_eq!(order, vec![3, 0]);
    assert_eq!(a.get_index(3), Some(&A(7)));
    assert_eq!(a.get_index(1), Some(&A(0)));

    let mut order3 = Vec::new();
    zip3_mut(&mut a, &b, &c).for_each_sparse_mut(|i, x, _y, z| {
        x.0 = z.0;
        order3.push(i);
    });
    assert_eq!(order3, vec![3]);
    assert_eq!(a.get_index(3), Some(&A(9)));
}

#[test]
fn fallback_scans_the_smaller_operand() {
    let mut big = VecComponentContainer::<A>::new();
    let mut small = VecComponentContainer::<B>::new();
    for i in 0..10 {
        big.add_entity(Entity::new(i));
        small.add_entity(Entity::new(i));
        big.set(Entity::new(i), A(i));
    }
    small.set(Entity::new(7), B(7));
    small.set(Entity::new(2), B(2));
    assert_eq!(big.count(), 10);
    assert_eq!(small.count(), 2);
    assert_eq!(fallback_join2(&big, &small), vec![2, 7]);
    assert_eq!(fallback_join2(&small, &big), vec![2, 7]);
    assert_eq!(join2(&big, &small), vec![2, 7]);
}

#[test]
fn count_follows_distinct_entities() {
    let mut a = VecComponentContainer::<A>::new();
    for i in 0..5 {
        a.add_entity(Entity::new(i));
    }
    a.set(Entity::new(1), A(1));
    a.set(Entity::new(1), A(2));
    a.set(Entity::new(4), A(3));
    assert_eq!(a.count(), 2);
    let mut h = HashComponentContainer::<A>::new();
    h.set(Entity::new(9), A(1));
    h.set(Entity::new(9), A(2));
    assert_eq!(h.count(), 1);
}

#[test]
fn default_containers_are_empty() {
    let a: VecComponentContainer<A> = Default::default();
    assert_eq!(a.len(), 0);
    let h: HashComponentContainer<A> = Default::default();
    assert!(h.is_empty());
}
