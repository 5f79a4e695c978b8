use gba_ecs_rs::{
    ComponentContainer, Entity, Global, HashComponentContainer, MarkerContainer,
    VecComponentContainer,
};

#[derive(Clone, Copy, Debug, PartialEq)]
struct TestPosition {
    x: i32,
    y: i32,
}

fn dense_with(n: usize) -> VecComponentContainer<TestPosition> {
    let mut container = VecComponentContainer::<TestPosition>::new();
    for i in 0..n {
        container.add_entity(Entity::new(i));
    }
    container
}

#[test]
fn entity_keeps_its_index() {
    let e = Entity::new(42);
    assert_eq!(e.index(), 42);
    assert_eq!(Entity::new(0), Entity::new(0));
}

#[test]
fn test_component_container_basic_operations() {
    let mut container = VecComponentContainer::<TestPosition>::new();
    let entity1 = Entity::new(0);
    let entity2 = Entity::new(1);

    container.add_entity(entity1);
    container.add_entity(entity2);

    assert_eq!(container.len(), 2);

    let pos1 = TestPosition { x: 10, y: 20 };
    let pos2 = TestPosition { x: 30, y: 40 };

    container.set(entity1, pos1);
    container.set(entity2, pos2);

    let retrieved1 = container.get(entity1).unwrap();
    assert_eq!(retrieved1.x, 10);
    assert_eq!(retrieved1.y, 20);

    let retrieved2 = container.get(entity2).unwrap();
    assert_eq!(retrieved2.x, 30);
    assert_eq!(retrieved2.y, 40);
}

#[test]
fn empty_container_reports_empty() {
    let container = VecComponentContainer::<TestPosition>::new();
    assert!(container.is_empty());
    assert_eq!(container.len(), 0);
    let grown = dense_with(3);
    assert!(!grown.is_empty());
}

#[test]
fn add_entity_is_idempotent() {
    let mut container = dense_with(5);
    container.add_entity(Entity::new(2));
    assert_eq!(container.len(), 5);
    container.add_entity(Entity::new(7));
    assert_eq!(container.len(), 8);
}

#[test]
fn get_after_set_returns_value() {
    let mut container = dense_with(4);
    container.set(Entity::new(2), TestPosition { x: 1, y: 2 });
    container.set(Entity::new(3), TestPosition { x: 5, y: 6 });
    assert_eq!(container.get(Entity::new(2)), Some(&TestPosition { x: 1, y: 2 }));
    assert_eq!(container.get_index(3), Some(&TestPosition { x: 5, y: 6 }));
    assert_eq!(container.get(Entity::new(0)), None);
}

#[test]
fn reset_replaces_value() {
    let mut container = dense_with(2);
    container.set(Entity::new(1), TestPosition { x: 1, y: 1 });
    container.set(Entity::new(1), TestPosition { x: 9, y: 9 });
    assert_eq!(container.get(Entity::new(1)), Some(&TestPosition { x: 9, y: 9 }));
}

#[test]
fn query_past_growth_is_empty() {
    let mut container = dense_with(0);
    container.add_entity(Entity::new(10));
    assert_eq!(container.len(), 11);
    assert_eq!(container.get(Entity::new(11)), None);
    assert_eq!(container.get_index(11), None);
    assert_eq!(container.get_index(usize::MAX), None);
    assert!(container.get_index_mut(11).is_none());
}

#[test]
fn get_mut_changes_value() {
    let mut container = dense_with(3);
    container.set(Entity::new(1), TestPosition { x: 10, y: 20 });
    if let Some(pos) = container.get_mut(Entity::new(1)) {
        pos.x += 5;
        pos.y += 10;
    }
    assert_eq!(container.get(Entity::new(1)), Some(&TestPosition { x: 15, y: 30 }));
    assert!(container.get_mut(Entity::new(0)).is_none());
}

#[test]
fn test_sparse_traversal_order() {
    let mut container = dense_with(3);
    container.set(Entity::new(0), TestPosition { x: 0, y: 0 });
    container.set(Entity::new(1), TestPosition { x: 1, y: 1 });
    container.set(Entity::new(2), TestPosition { x: 2, y: 2 });

    let mut visited = Vec::new();
    container.for_each_sparse(|index, pos| {
        visited.push((index, pos.x, pos.y));
    });

    assert_eq!(visited, vec![(2, 2, 2), (1, 1, 1), (0, 0, 0)]);
}

#[test]
fn test_sparse_traversal_mutable() {
    let mut container = dense_with(2);
    container.set(Entity::new(0), TestPosition { x: 0, y: 0 });
    container.set(Entity::new(1), TestPosition { x: 1, y: 1 });

    container.for_each_sparse_mut(|_index, pos| {
        pos.x += 10;
        pos.y += 20;
    });

    assert_eq!(container.get(Entity::new(0)), Some(&TestPosition { x: 10, y: 20 }));
    assert_eq!(container.get(Entity::new(1)), Some(&TestPosition { x: 11, y: 21 }));
}

#[test]
fn dense_traversal_mutable() {
    let mut container = dense_with(3);
    container.set(Entity::new(0), TestPosition { x: 0, y: 0 });
    container.set(Entity::new(2), TestPosition { x: 2, y: 2 });
    container.for_each_mut(|index, pos| {
        pos.x += index as i32;
    });
    assert_eq!(container.get(Entity::new(0)), Some(&TestPosition { x: 0, y: 0 }));
    assert_eq!(container.get(Entity::new(2)), Some(&TestPosition { x: 4, y: 2 }));
}

#[test]
fn test_dense_vs_sparse_traversal() {
    let mut container = dense_with(5);
    container.set(Entity::new(0), TestPosition { x: 0, y: 0 });
    container.set(Entity::new(2), TestPosition { x: 2, y: 2 });
    container.set(Entity::new(4), TestPosition { x: 4, y: 4 });

    let mut dense_indices = Vec::new();
    container.for_each(|index, _pos| dense_indices.push(index));
    let mut sparse_indices = Vec::new();
    container.for_each_sparse(|index, _pos| sparse_indices.push(index));

    assert_eq!(dense_indices, vec![0, 2, 4]);
    assert_eq!(sparse_indices, vec![4, 2, 0]);
    assert_eq!(container.scan_indices(), vec![0, 2, 4]);
    assert_eq!(container.sparse_indices(), vec![4, 2, 0]);
}

#[test]
fn reset_moves_entity_to_front_once() {
    let mut container = dense_with(4);
    container.set(Entity::new(0), TestPosition { x: 0, y: 0 });
    container.set(Entity::new(1), TestPosition { x: 1, y: 1 });
    container.set(Entity::new(2), TestPosition { x: 2, y: 2 });
    container.set(Entity::new(1), TestPosition { x: 7, y: 7 });
    container.set(Entity::new(1), TestPosition { x: 8, y: 8 });

    let mut count = 0;
    container.for_each_sparse(|_index, _pos| count += 1);
    assert_eq!(count, 3);
    assert_eq!(container.sparse_indices(), vec![1, 2, 0]);

    container.set(Entity::new(0), TestPosition { x: 3, y: 3 });
    assert_eq!(container.sparse_indices(), vec![0, 1, 2]);
    container.set(Entity::new(2), TestPosition { x: 3, y: 3 });
    assert_eq!(container.sparse_indices(), vec![2, 0, 1]);
}

#[test]
fn allocator_handle_is_kept() {
    let container = VecComponentContainer::<TestPosition, u8>::new_in(7u8);
    assert_eq!(*container.allocator(), 7u8);
    let hashed = HashComponentContainer::<TestPosition, u8>::new_in(3u8);
    assert_eq!(*hashed.allocator(), 3u8);
    let _default: &Global = VecComponentContainer::<TestPosition>::new().allocator();
}

#[test]
fn hash_container_get_and_set() {
    let mut container = HashComponentContainer::<TestPosition>::new();
    assert!(container.is_empty());
    container.add_entity(Entity::new(100));
    assert_eq!(container.len(), 0);
    container.set(Entity::new(100), TestPosition { x: 1, y: 2 });
    container.set(Entity::new(5), TestPosition { x: 3, y: 4 });
    assert_eq!(container.len(), 2);
    assert_eq!(container.get(Entity::new(100)), Some(&TestPosition { x: 1, y: 2 }));
    assert_eq!(container.get_index(5), Some(&TestPosition { x: 3, y: 4 }));
    assert_eq!(container.get_index(6), None);
    container.set(Entity::new(5), TestPosition { x: 9, y: 9 });
    assert_eq!(container.len(), 2);
    assert_eq!(container.get_index(5), Some(&TestPosition { x: 9, y: 9 }));
    assert_eq!(container.get_index(100), Some(&TestPosition { x: 1, y: 2 }));
}

#[test]
fn hash_container_get_mut_and_traversal() {
    let mut container = HashComponentContainer::<TestPosition>::new();
    container.set(Entity::new(30), TestPosition { x: 3, y: 0 });
    container.set(Entity::new(10), TestPosition { x: 1, y: 0 });
    container.set(Entity::new(20), TestPosition { x: 2, y: 0 });
    if let Some(p) = container.get_mut(Entity::new(10)) {
        p.y = 5;
    }
    assert_eq!(container.get_index(10), Some(&TestPosition { x: 1, y: 5 }));
    assert!(container.get_index_mut(11).is_none());

    container.for_each_mut(|_i, p| p.x *= 10);
    let mut seen = Vec::new();
    container.for_each(|i, p| seen.push((i, p.x)));
    seen.sort();
    assert_eq!(seen, vec![(10, 10), (20, 20), (30, 30)]);
    let mut keys = container.scan_indices();
    keys.sort();
    assert_eq!(keys, vec![10, 20, 30]);
}

#[test]
fn marker_iter_yields_marked_indices() {
    let mut markers = MarkerContainer::new();
    for i in 0..1000 {
        markers.add_entity(Entity::new(i));
    }
    assert_eq!(markers.len(), 1000);
    for i in (0..1000).step_by(8) {
        markers.mark(Entity::new(i));
    }
    let expected: Vec<usize> = (0..1000).step_by(8).collect();
    assert_eq!(markers.iter(), expected);
    assert_eq!(markers.iter().len(), 125);
    assert!(markers.is_marked(Entity::new(16)));
    assert!(!markers.is_marked(Entity::new(17)));
    assert!(!markers.is_marked(Entity::new(5000)));
}

#[test]
fn marker_mark_twice_listed_once() {
    let mut markers = MarkerContainer::new();
    markers.add_entity(Entity::new(3));
    markers.mark(Entity::new(2));
    markers.mark(Entity::new(2));
    markers.mark(Entity::new(0));
    assert_eq!(markers.iter(), vec![0, 2]);
}
