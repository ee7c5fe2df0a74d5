use abc_ecs::EntitiesAndComponents;
use abc_ecs::SingleMutEntity;
use abc_ecs::Resource;
use abc_ecs::System;
use abc_ecs::World;

const POSITION: u64 = 1;
const VELOCITY: u64 = 2;

#[derive(Debug, PartialEq, Clone, Copy)]
enum Comp {
    Position { x: f32, y: f32 },
    Velocity { x: f32, y: f32 },
}

fn position_of(c: &Comp) -> (f32, f32) {
    match *c {
        Comp::Position { x, y } => (x, y),
        _ => panic!("expected a position"),
    }
}

fn velocity_of(c: &Comp) -> (f32, f32) {
    match *c {
        Comp::Velocity { x, y } => (x, y),
        _ => panic!("expected a velocity"),
    }
}

struct MovementSystem {}

impl System<Comp, ()> for MovementSystem {
    fn kind_spec(self) -> u64 {
        1
    }

    fn kind(&self) -> u64 {
        1
    }

    fn run(&mut self, engine: &mut EntitiesAndComponents<Comp, ()>) {
        for i in 0..engine.get_entity_count() {
            let entity = engine.get_nth_entity(i).unwrap();

            let (position, velocity) = engine.get_components(entity, POSITION, VELOCITY);
            let (px, py) = position_of(position);
            let (vx, vy) = velocity_of(velocity);

            engine.add_component_to(entity, POSITION, Comp::Position { x: px + vx, y: py + vy });
        }
    }
}

struct ParallelMovementSystem {}

impl System<Comp, ()> for ParallelMovementSystem {
    fn kind_spec(self) -> u64 {
        2
    }

    fn kind(&self) -> u64 {
        2
    }

    fn single_entity_step(&self, single_entity: &mut SingleMutEntity<Comp, ()>) {
        let (px, py);
        let (vx, vy);
        {
            let (position, velocity) = single_entity.get_components(POSITION, VELOCITY);
            (px, py) = position_of(position);
            (vx, vy) = velocity_of(velocity);
        }
        single_entity.add_component(POSITION, Comp::Position { x: px + vx, y: py + vy });
    }

    fn implements_single_entity_step(&self) -> bool {
        true
    }
}

#[test]
fn test_components_mut() {
    let mut engine: World<Comp, (), MovementSystem> = World::new();
    let entities_and_components = &mut engine.entities_and_components;

    let entity = entities_and_components.add_entity();

    entities_and_components.add_component_to(entity, POSITION, Comp::Position { x: 0.0, y: 0.0 });
    entities_and_components.add_component_to(entity, VELOCITY, Comp::Velocity { x: 1.0, y: 1.0 });

    engine.add_system(MovementSystem {});

    for _ in 0..5 {
        engine.run();
    }
}

#[test]
fn test_try_get_components() {
    let mut engine: World<Comp, (), ()> = World::new();
    let entities_and_components = &mut engine.entities_and_components;

    let entity = entities_and_components.add_entity();

    entities_and_components.add_component_to(entity, POSITION, Comp::Position { x: 0.0, y: 0.0 });
    entities_and_components.add_component_to(entity, VELOCITY, Comp::Velocity { x: 1.0, y: 1.0 });

    let (position, velocity) = entities_and_components.try_get_components(entity, POSITION, VELOCITY);

    let (px, py) = position_of(position.unwrap());
    let (vx, vy) = velocity_of(velocity.unwrap());
    assert_eq!(px, 0.0);
    assert_eq!(py, 0.0);
    assert_eq!(vx, 1.0);
    assert_eq!(vy, 1.0);
}

#[test]
fn test_overriding_components() {
    let mut engine: World<Comp, (), ()> = World::new();
    let entities_and_components = &mut engine.entities_and_components;

    let entity = entities_and_components.add_entity();

    entities_and_components.add_component_to(entity, POSITION, Comp::Position { x: 0.0, y: 0.0 });
    entities_and_components.add_component_to(entity, POSITION, Comp::Position { x: 6.0, y: 1.0 });

    let position = entities_and_components.try_get_component(entity, POSITION).unwrap();
    let (px, py) = position_of(position);
    assert_eq!(px, 6.0);
    assert_eq!(py, 1.0);
}

#[test]
fn test_multiple_entities() {
    let mut engine: World<Comp, (), ()> = World::new();
    let entities_and_components = &mut engine.entities_and_components;

    let entity = entities_and_components.add_entity();
    let entity_2 = entities_and_components.add_entity();

    entities_and_components.add_component_to(entity, POSITION, Comp::Position { x: 0.0, y: 0.0 });
    entities_and_components.add_component_to(entity, VELOCITY, Comp::Velocity { x: 1.0, y: 1.0 });

    entities_and_components.add_component_to(entity_2, POSITION, Comp::Position { x: 0.0, y: 0.0 });
    entities_and_components.add_component_to(entity_2, VELOCITY, Comp::Velocity { x: 1.0, y: 1.0 });

    let position = entities_and_components.try_get_component(entity, POSITION).unwrap();
    let (px, py) = position_of(position);

    println!("Position: {}, {}", px, py);
}

#[test]
fn test_add_entity_with_components() {
    let mut engine: World<Comp, (), ()> = World::new();
    let entities_and_components = &mut engine.entities_and_components;

    let entity = entities_and_components.add_entity_with(vec![
        (POSITION, Comp::Position { x: 0.0, y: 0.0 }),
        (VELOCITY, Comp::Velocity { x: 1.0, y: 1.0 }),
    ]);

    let (position, velocity) = entities_and_components.get_components(entity, POSITION, VELOCITY);

    let (px, py) = position_of(position);
    let (vx, vy) = velocity_of(velocity);
    assert_eq!(px, 0.0);
    assert_eq!(py, 0.0);
    assert_eq!(vx, 1.0);
    assert_eq!(vy, 1.0);
}

#[test]
fn test_entity_removal() {
    let mut engine: World<Comp, (), ()> = World::new();
    let entities_and_components = &mut engine.entities_and_components;

    let entity = entities_and_components.add_entity_with(vec![
        (POSITION, Comp::Position { x: 0.0, y: 0.0 }),
        (VELOCITY, Comp::Velocity { x: 1.0, y: 1.0 }),
    ]);

    let (position, velocity) = entities_and_components.get_components(entity, POSITION, VELOCITY);

    let (px, py) = position_of(position);
    let (vx, vy) = velocity_of(velocity);
    assert_eq!(px, 0.0);
    assert_eq!(py, 0.0);
    assert_eq!(vx, 1.0);
    assert_eq!(vy, 1.0);

    entities_and_components.remove_entity(entity);

    assert_eq!(entities_and_components.get_entity_count(), 0);

    let entity = entities_and_components.add_entity();

    // make sure the new entity doesn't have the old entity's components
    let (position, velocity) = entities_and_components.try_get_components(entity, POSITION, VELOCITY);

    assert_eq!(position, None);
    assert_eq!(velocity, None);
}

#[test]
fn test_get_entities_with_component() {
    let mut engine: World<Comp, (), ()> = World::new();
    let entities_and_components = &mut engine.entities_and_components;

    let entity = entities_and_components.add_entity();
    let entity_2 = entities_and_components.add_entity();

    entities_and_components.add_component_to(entity, POSITION, Comp::Position { x: 0.0, y: 0.0 });
    entities_and_components.add_component_to(entity, VELOCITY, Comp::Velocity { x: 1.0, y: 1.0 });

    entities_and_components.add_component_to(entity_2, POSITION, Comp::Position { x: 0.0, y: 0.0 });
    entities_and_components.add_component_to(entity_2, VELOCITY, Comp::Velocity { x: 1.0, y: 1.0 });

    let entities = entities_and_components.get_entities_with_component(POSITION);

    assert_eq!(entities.len(), 2);
}

struct TestResource {
    value: i32,
}

impl Resource for TestResource {
    fn updated(self) -> Self {
        TestResource { value: self.value + 1 }
    }

    fn update(&mut self) {
        self.value += 1;
    }
}

const COUNTER: u64 = 10;

#[test]
fn test_resources() {
    let mut engine: World<Comp, TestResource, ()> = World::new();
    {
        let entities_and_components = &mut engine.entities_and_components;

        let resource = TestResource { value: 0 };

        entities_and_components.add_resource(COUNTER, resource);

        let resource = entities_and_components.get_resource(COUNTER).unwrap();

        assert_eq!(resource.value, 0);
    }

    for _ in 0..5 {
        engine.run();
    }

    {
        let entities_and_components = &mut engine.entities_and_components;

        let resource = entities_and_components.get_resource(COUNTER).unwrap();

        assert_eq!(resource.value, 5);
    }
}

#[test]
fn test_parallel_systems() {
    let mut engine: World<Comp, (), ParallelMovementSystem> = World::new();
    let entity;
    {
        let entities_and_components = &mut engine.entities_and_components;

        entity = entities_and_components.add_entity();
        let entity_2 = entities_and_components.add_entity();

        entities_and_components.add_component_to(entity, POSITION, Comp::Position { x: 0.0, y: 0.0 });
        entities_and_components.add_component_to(entity, VELOCITY, Comp::Velocity { x: 1.0, y: 1.0 });

        entities_and_components.add_component_to(entity_2, POSITION, Comp::Position { x: 0.0, y: 0.0 });
        entities_and_components.add_component_to(entity_2, VELOCITY, Comp::Velocity { x: 1.0, y: 1.0 });

        engine.add_system(ParallelMovementSystem {});
    }

    for _ in 0..5 {
        engine.run();
    }

    {
        let entities_and_components = &mut engine.entities_and_components;

        let (position, velocity) = entities_and_components.get_components(entity, POSITION, VELOCITY);

        let (px, py) = position_of(position);
        let (vx, vy) = velocity_of(velocity);
        assert_eq!(px, 5.0);
        assert_eq!(py, 5.0);
        assert_eq!(vx, 1.0);
        assert_eq!(vy, 1.0);
    }
}

struct PrestepSystem {
    postions: Vec<Comp>,
}

impl System<Comp, ()> for PrestepSystem {
    fn kind_spec(self) -> u64 {
        3
    }

    fn kind(&self) -> u64 {
        3
    }

    fn prestep(&mut self, engine: &EntitiesAndComponents<Comp, ()>) {
        self.postions.clear();

        for entity in engine.get_entities_with_component(POSITION) {
            let position = engine.try_get_component(entity, POSITION).unwrap();
            self.postions.push(*position);
        }
    }

    fn implements_prestep(&self) -> bool {
        true
    }

    fn run(&mut self, engine: &mut EntitiesAndComponents<Comp, ()>) {
        for position in &self.postions {
            engine.add_entity_with(vec![(POSITION, *position)]);
        }
    }
}

#[test]
fn test_prestep() {
    let mut engine: World<Comp, (), PrestepSystem> = World::new();
    {
        let entities_and_components = &mut engine.entities_and_components;

        let entity = entities_and_components.add_entity();
        let entity_2 = entities_and_components.add_entity();

        entities_and_components.add_component_to(entity, POSITION, Comp::Position { x: 0.0, y: 1.0 });
        entities_and_components.add_component_to(entity, VELOCITY, Comp::Velocity { x: 1.0, y: 1.0 });

        entities_and_components.add_component_to(entity_2, POSITION, Comp::Position { x: 1.0, y: 0.0 });
        entities_and_components.add_component_to(entity_2, VELOCITY, Comp::Velocity { x: 1.0, y: 1.0 });

        engine.add_system(PrestepSystem {
            postions: Vec::new(),
        });
    }

    for _ in 0..1 {
        engine.run();
    }

    {
        let entities_and_components = &mut engine.entities_and_components;
        let first_added_entity = entities_and_components.get_nth_entity(0);
        let second_added_entity = entities_and_components.get_nth_entity(1);

        let position = entities_and_components
            .try_get_component(first_added_entity.unwrap(), POSITION)
            .unwrap();
        let position_2 = entities_and_components
            .try_get_component(second_added_entity.unwrap(), POSITION)
            .unwrap();

        let (px, py) = position_of(position);
        let (p2x, p2y) = position_of(position_2);
        assert_eq!(px, 0.0);
        assert_eq!(py, 1.0);
        assert_eq!(p2x, 1.0);
        assert_eq!(p2y, 0.0);
    }
}
