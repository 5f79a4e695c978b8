use gba_ecs_rs::{
    ComponentContainer, Entity, GetComponentContainer, HashComponentContainer,
    VecComponentContainer, World, WorldContainer,
};

#[derive(Clone, Copy, Debug, PartialEq)]
struct TestPosition {
    x: i32,
    y: i32,
}

#[derive(Clone, Copy, Debug, PartialEq)]
struct TestVelocity {
    dx: i32,
    dy: i32,
}

#[derive(Clone, Copy, Debug, PartialEq)]
struct Tag(i32);

struct MacroTestWorld {
    test_position: VecComponentContainer<TestPosition>,
    test_velocity: VecComponentContainer<TestVelocity>,
    tag: HashComponentContainer<Tag>,
}

impl WorldContainer for MacroTestWorld {
    fn covers(&self, _index: usize) -> bool {
        unreachable!("a specification item, never run")
    }

    fn holds_nothing(&self) -> bool {
        unreachable!("a specification item, never run")
    }

    fn registered(&self) -> usize {
        unreachable!("a specification item, never run")
    }

    fn aligned(&self) -> bool {
        unreachable!("a specification item, never run")
    }

    fn same_values(&self, _other: &Self) -> bool {
        unreachable!("a specification item, never run")
    }

    fn same_except(&self, _other: &Self, _kind: u64) -> bool {
        unreachable!("a specification item, never run")
    }

    fn new() -> Self {
        Self {
            test_position: VecComponentContainer::new(),
            test_velocity: VecComponentContainer::new(),
            tag: HashComponentContainer::new(),
        }
    }

    fn add_entity(&mut self, entity: Entity) {
        self.test_position.add_entity(entity);
        self.test_velocity.add_entity(entity);
        self.tag.add_entity(entity);
    }
}

impl GetComponentContainer<TestPosition> for MacroTestWorld {
    type Container = VecComponentContainer<TestPosition>;
    fn container_spec(&self) -> Self::Container {
        unreachable!("a specification item, never run")
    }
    fn kind_id() -> u64 {
        unreachable!("a specification item, never run")
    }
    fn lemma_kind(&self) {
        unreachable!("a proof item, never run")
    }
    fn lemma_same_values(_a: &Self, _b: &Self) {
        unreachable!("a proof item, never run")
    }
    fn lemma_same_except(_a: &Self, _b: &Self, _kind: u64) {
        unreachable!("a proof item, never run")
    }
    fn get_components(&self) -> &Self::Container {
        &self.test_position
    }
    fn get_components_mut(&mut self) -> &mut Self::Container {
        &mut self.test_position
    }
}

impl GetComponentContainer<TestVelocity> for MacroTestWorld {
    type Container = VecComponentContainer<TestVelocity>;
    fn container_spec(&self) -> Self::Container {
        unreachable!("a specification item, never run")
    }
    fn kind_id() -> u64 {
        unreachable!("a specification item, never run")
    }
    fn lemma_kind(&self) {
        unreachable!("a proof item, never run")
    }
    fn lemma_same_values(_a: &Self, _b: &Self) {
        unreachable!("a proof item, never run")
    }
    fn lemma_same_except(_a: &Self, _b: &Self, _kind: u64) {
        unreachable!("a proof item, never run")
    }
    fn get_components(&self) -> &Self::Container {
        &self.test_velocity
    }
    fn get_components_mut(&mut self) -> &mut Self::Container {
        &mut self.test_velocity
    }
}

impl GetComponentContainer<Tag> for MacroTestWorld {
    type Container = HashComponentContainer<Tag>;
    fn container_spec(&self) -> Self::Container {
        unreachable!("a specification item, never run")
    }
    fn kind_id() -> u64 {
        unreachable!("a specification item, never run")
    }
    fn lemma_kind(&self) {
        unreachable!("a proof item, never run")
    }
    fn lemma_same_values(_a: &Self, _b: &Self) {
        unreachable!("a proof item, never run")
    }
    fn lemma_same_except(_a: &Self, _b: &Self, _kind: u64) {
        unreachable!("a proof item, never run")
    }
    fn get_components(&self) -> &Self::Container {
        &self.tag
    }
    fn get_components_mut(&mut self) -> &mut Self::Container {
        &mut self.tag
    }
}

#[test]
fn test_world_macro() {
    let mut world = World::<MacroTestWorld>::new();

    let entity1 = world.spawn();
    let entity2 = world.spawn();
    assert_eq!(entity1.index(), 0);
    assert_eq!(entity2.index(), 1);

    world.add(entity1, TestPosition { x: 10, y: 20 });
    world.add(entity1, TestVelocity { dx: 1, dy: 2 });
    world.add(entity2, TestPosition { x: 30, y: 40 });

    let positions = world.get::<TestPosition>();
    let velocities = world.get::<TestVelocity>();

    let pos1 = positions.get(entity1).unwrap();
    assert_eq!(pos1.x, 10);
    assert_eq!(pos1.y, 20);

    let pos2 = positions.get(entity2).unwrap();
    assert_eq!(pos2.x, 30);
    assert_eq!(pos2.y, 40);

    let vel1 = velocities.get(entity1).unwrap();
    assert_eq!(vel1.dx, 1);
    assert_eq!(vel1.dy, 2);

    assert!(velocities.get(entity2).is_none());

    let positions_mut = world.get_mut::<TestPosition>();
    if let Some(pos) = positions_mut.get_mut(entity1) {
        pos.x += 5;
        pos.y += 10;
    }

    let positions = world.get::<TestPosition>();
    let pos1 = positions.get(entity1).unwrap();
    assert_eq!(pos1.x, 15);
    assert_eq!(pos1.y, 30);
}

#[test]
fn spawn_registers_every_container() {
    let mut world = World::<MacroTestWorld>::new();
    for _ in 0..7 {
        world.spawn();
    }
    assert_eq!(world.get::<TestPosition>().len(), 7);
    assert_eq!(world.get::<TestVelocity>().len(), 7);
    assert_eq!(world.get::<Tag>().len(), 0);
}

#[test]
fn test_new_query_api() {
    let mut world = World::<MacroTestWorld>::new();

    let entity1 = world.spawn();
    let entity2 = world.spawn();

    world.add(entity1, TestPosition { x: 10, y: 20 });
    world.add(entity1, TestVelocity { dx: 1, dy: 2 });
    world.add(entity2, TestPosition { x: 30, y: 40 });

    let mut query_results = Vec::new();
    world.for_each::<(&TestPosition, &TestVelocity), _, _>(|entity, (pos, vel)| {
        query_results.push((entity, pos.x, pos.y, vel.dx, vel.dy));
    });

    assert_eq!(query_results.len(), 1);
    assert_eq!(query_results[0], (0, 10, 20, 1, 2));
}

#[test]
fn test_optimized_vec_container_query() {
    let mut world = World::<MacroTestWorld>::new();

    for i in 0..10 {
        let entity = world.spawn();
        world.add(entity, TestPosition { x: i, y: i * 2 });
        if i % 2 == 0 {
            world.add(entity, TestVelocity { dx: 1, dy: 1 });
        }
    }

    let mut results = Vec::new();
    world.for_each::<(&TestPosition, &TestVelocity), _, _>(|entity, (pos, vel)| {
        results.push((entity, pos.x, pos.y, vel.dx, vel.dy));
    });

    assert_eq!(results.len(), 5);
    for (i, &(entity, x, y, dx, dy)) in results.iter().enumerate() {
        let expected_entity = i * 2;
        assert_eq!(entity, expected_entity);
        assert_eq!(x, expected_entity as i32);
        assert_eq!(y, (expected_entity * 2) as i32);
        assert_eq!(dx, 1);
        assert_eq!(dy, 1);
    }
}

#[test]
fn test_mixed_container_fallback() {
    let mut world = World::<MacroTestWorld>::new();

    for i in 0..5 {
        let entity = world.spawn();
        world.add(entity, TestPosition { x: i, y: 0 });
        if i % 2 == 1 {
            world.add(entity, Tag(i * 10));
        }
    }

    let mut results = Vec::new();
    world.for_each::<(&TestPosition, &Tag), _, _>(|entity, (pos, tag)| {
        results.push((entity, pos.x, tag.0));
    });

    assert_eq!(results.len(), 2);
    for (i, &(entity, x, t)) in results.iter().enumerate() {
        let expected_entity = (i * 2) + 1;
        assert_eq!(entity, expected_entity);
        assert_eq!(x, expected_entity as i32);
        assert_eq!(t, (expected_entity * 10) as i32);
    }
}

#[test]
fn single_and_triple_queries() {
    let mut world = World::<MacroTestWorld>::new();
    for i in 0..16 {
        let e = world.spawn();
        world.add(e, TestPosition { x: i, y: 0 });
        if i % 2 == 0 {
            world.add(e, TestVelocity { dx: i, dy: 0 });
        }
        if i % 4 == 0 {
            world.add(e, Tag(i));
        }
    }
    let mut singles = Vec::new();
    world.for_each::<&TestPosition, _, _>(|i, p| singles.push((i, p.x)));
    assert_eq!(singles.len(), 16);
    assert_eq!(singles[3], (3, 3));

    let mut triples = Vec::new();
    world.for_each::<(&TestPosition, &TestVelocity, &Tag), _, _>(|i, (p, v, t)| {
        triples.push((i, p.x, v.dx, t.0));
    });
    triples.sort();
    assert_eq!(triples, vec![(0, 0, 0, 0), (4, 4, 4, 4), (8, 8, 8, 8), (12, 12, 12, 12)]);

    let mut sparse = Vec::new();
    world.for_each_sparse::<(&TestPosition, &TestVelocity), _, _>(|i, _| sparse.push(i));
    assert_eq!(sparse, vec![0, 2, 4, 6, 8, 10, 12, 14]);
}

#[test]
fn reset_through_world_keeps_latest() {
    let mut world = World::<MacroTestWorld>::new();
    let e0 = world.spawn();
    let e1 = world.spawn();
    world.add(e0, TestPosition { x: 1, y: 1 });
    world.add(e1, TestPosition { x: 2, y: 2 });
    world.add(e0, TestPosition { x: 3, y: 3 });
    assert_eq!(world.get::<TestPosition>().get(e0), Some(&TestPosition { x: 3, y: 3 }));
    assert_eq!(world.get::<TestPosition>().get(e1), Some(&TestPosition { x: 2, y: 2 }));
}

#[test]
fn sparse_kind_accepts_any_index() {
    let mut world = World::<MacroTestWorld>::new();
    let e0 = world.spawn();
    assert!(!world.get::<TestPosition>().has_slot(5));
    assert!(world.get::<Tag>().has_slot(5));
    world.add(Entity::new(5), Tag(3));
    assert_eq!(world.get::<Tag>().get(Entity::new(5)), Some(&Tag(3)));
    assert!(world.get::<TestPosition>().get(e0).is_none());
}

#[test]
fn spawn_and_other_kinds_keep_values() {
    let mut world = World::<MacroTestWorld>::new();
    let e0 = world.spawn();
    world.add(e0, TestPosition { x: 1, y: 2 });
    world.spawn();
    world.add(e0, TestVelocity { dx: 3, dy: 4 });
    world.add(e0, Tag(5));
    assert_eq!(world.get::<TestPosition>().get(e0), Some(&TestPosition { x: 1, y: 2 }));
    assert_eq!(world.get::<TestVelocity>().get(e0), Some(&TestVelocity { dx: 3, dy: 4 }));
    assert_eq!(world.get::<TestPosition>().len(), 2);
    assert_eq!(world.get::<TestVelocity>().len(), 2);
}
