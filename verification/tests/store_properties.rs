use abc_ecs::EntitiesAndComponents;
use abc_ecs::SingleMutEntity;
use abc_ecs::System;
use abc_ecs::TagMap;
use abc_ecs::World;

const POSITION: u64 = 1;
const VELOCITY: u64 = 2;
const HEALTH: u64 = 3;

#[derive(Debug, PartialEq, Clone, Copy)]
enum Comp {
    Position { x: f32, y: f32 },
    Velocity { x: f32, y: f32 },
    Health(i64),
}

fn position_of(c: &Comp) -> (f32, f32) {
    match *c {
        Comp::Position { x, y } => (x, y),
        _ => panic!("expected a position"),
    }
}

type Store = EntitiesAndComponents<Comp, ()>;

#[test]
fn test_stale_handle_detection() {
    let mut store: Store = EntitiesAndComponents::new();

    let doomed = store.add_entity();
    let keeper = store.add_entity();
    store.add_component_to(doomed, HEALTH, Comp::Health(3));

    assert!(store.does_entity_exist(doomed));
    store.remove_entity(doomed);
    assert!(!store.does_entity_exist(doomed));

    // the freed slot is reused, yet the old handle stays dead
    let recycled = store.add_entity();
    assert!(store.does_entity_exist(recycled));
    assert!(!store.does_entity_exist(doomed));
    assert_ne!(recycled, doomed);
    assert!(store.does_entity_exist(keeper));

    // the recycled slot starts empty
    assert_eq!(store.try_get_component(recycled, HEALTH), None);
}

#[test]
fn test_index_tracks_components() {
    let mut store: Store = EntitiesAndComponents::new();

    let a = store.add_entity();
    let b = store.add_entity();

    assert_eq!(store.get_entity_count_with_component(HEALTH), 0);
    assert!(store.get_entities_with_component(HEALTH).is_empty());

    store.add_component_to(a, HEALTH, Comp::Health(1));
    store.add_component_to(b, HEALTH, Comp::Health(2));
    store.add_component_to(a, VELOCITY, Comp::Velocity { x: 0.0, y: 0.0 });
    let mut tags = store.component_tags(a);
    tags.sort();
    assert_eq!(tags, vec![VELOCITY, HEALTH]);
    store.remove_component_from(a, VELOCITY);
    assert_eq!(store.component_tags(a), vec![HEALTH]);
    assert_eq!(store.get_entity_count_with_component(HEALTH), 2);
    assert_eq!(store.get_entity_with_component(HEALTH, 0), Some(a));
    assert_eq!(store.get_entity_with_component(HEALTH, 1), Some(b));
    assert_eq!(store.get_entity_with_component(HEALTH, 2), None);

    // overwriting does not duplicate the index entry
    store.add_component_to(a, HEALTH, Comp::Health(7));
    assert_eq!(store.get_entity_count_with_component(HEALTH), 2);
    assert_eq!(store.try_get_component(a, HEALTH), Some(&Comp::Health(7)));

    store.remove_component_from(a, HEALTH);
    assert_eq!(store.get_entities_with_component(HEALTH), vec![b]);
    assert_eq!(store.try_get_component(a, HEALTH), None);

    // destroying an entity purges it from the index everywhere
    store.add_component_to(b, POSITION, Comp::Position { x: 1.0, y: 2.0 });
    store.remove_entity(b);
    assert_eq!(store.get_entity_count_with_component(HEALTH), 0);
    assert_eq!(store.get_entity_count_with_component(POSITION), 0);
}

#[test]
fn test_take_component_returns_value() {
    let mut store: Store = EntitiesAndComponents::new();
    let e = store.add_entity();
    store.add_component_to(e, HEALTH, Comp::Health(9));

    assert_eq!(store.take_component(e, HEALTH), Some(Comp::Health(9)));
    assert_eq!(store.take_component(e, HEALTH), None);
    assert_eq!(store.try_get_component(e, HEALTH), None);
}

#[test]
fn test_parent_child_bidirectional() {
    let mut store: Store = EntitiesAndComponents::new();
    let parent = store.add_entity();
    let child = store.add_entity();
    let other = store.add_entity();
    let other_child = store.add_entity();

    assert!(store.set_parent(child, parent));
    assert_eq!(store.get_parent(child), Some(parent));
    assert_eq!(store.get_children(parent), vec![child]);

    // unrelated links leave the pair intact
    assert!(store.set_parent(other_child, other));
    assert_eq!(store.get_parent(child), Some(parent));
    assert_eq!(store.get_children(parent), vec![child]);
    store.remove_parent(other_child);
    assert_eq!(store.get_parent(child), Some(parent));
    assert_eq!(store.get_children(parent), vec![child]);

    let with_children = store.get_entities_with_children();
    assert_eq!(with_children, vec![parent]);
    let with_parent = store.get_entities_with_parent();
    assert_eq!(with_parent, vec![child]);

    // detaching the last child leaves the parent with no children stored
    store.remove_parent(child);
    assert_eq!(store.get_parent(child), None);
    assert!(store.get_children(parent).is_empty());
    assert!(store.get_entities_with_children().is_empty());
    assert!(store.get_entities_with_parent().is_empty());
}

#[test]
fn test_reparenting_moves_the_child() {
    let mut store: Store = EntitiesAndComponents::new();
    let first = store.add_entity();
    let second = store.add_entity();
    let child = store.add_entity();

    assert!(store.set_parent(child, first));
    assert!(store.set_parent(child, second));
    assert_eq!(store.get_parent(child), Some(second));
    assert!(store.get_children(first).is_empty());
    assert_eq!(store.get_children(second), vec![child]);

    // repeating the same link succeeds and keeps exactly one entry
    assert!(store.set_parent(child, second));
    assert_eq!(store.get_children(second), vec![child]);
}

#[test]
fn test_cycle_rejection() {
    let mut store: Store = EntitiesAndComponents::new();
    let a = store.add_entity();
    let b = store.add_entity();
    let c = store.add_entity();

    assert!(!store.set_parent(a, a));

    assert!(store.set_parent(a, b));
    assert!(!store.set_parent(b, a));
    // the first relationship is intact
    assert_eq!(store.get_parent(a), Some(b));
    assert_eq!(store.get_children(b), vec![a]);
    assert_eq!(store.get_parent(b), None);

    // a longer cycle is rejected as well
    assert!(store.set_parent(b, c));
    assert!(!store.set_parent(c, a));
    assert_eq!(store.get_parent(b), Some(c));
    assert_eq!(store.get_parent(c), None);
}

#[test]
fn test_destroy_cascades_links() {
    let mut store: Store = EntitiesAndComponents::new();
    let grandparent = store.add_entity();
    let parent = store.add_entity();
    let child_a = store.add_entity();
    let child_b = store.add_entity();

    assert!(store.set_parent(parent, grandparent));
    assert!(store.set_parent(child_a, parent));
    assert!(store.set_parent(child_b, parent));

    store.remove_entity(parent);

    // the children became roots and the grandparent lost the link
    assert_eq!(store.get_parent(child_a), None);
    assert_eq!(store.get_parent(child_b), None);
    assert!(store.get_children(grandparent).is_empty());
    assert_eq!(store.get_entity_count(), 3);
}

struct SerialMove {}

impl System<Comp, ()> for SerialMove {
    fn kind_spec(self) -> u64 {
        1
    }

    fn kind(&self) -> u64 {
        1
    }

    fn run(&mut self, engine: &mut EntitiesAndComponents<Comp, ()>) {
        for i in 0..engine.get_entity_count() {
            let entity = engine.get_nth_entity(i).unwrap();
            let (position, velocity) = engine.get_components(entity, POSITION, VELOCITY);
            let (px, py) = position_of(position);
            let (vx, vy) = match *velocity {
                Comp::Velocity { x, y } => (x, y),
                _ => panic!("expected a velocity"),
            };
            engine.add_component_to(entity, POSITION, Comp::Position { x: px + vx, y: py + vy });
        }
    }
}

struct ScopedMove {}

impl System<Comp, ()> for ScopedMove {
    fn kind_spec(self) -> u64 {
        2
    }

    fn kind(&self) -> u64 {
        2
    }

    fn single_entity_step(&self, single_entity: &mut SingleMutEntity<Comp, ()>) {
        let (px, py);
        let (vx, vy);
        {
            let (position, velocity) = single_entity.get_components(POSITION, VELOCITY);
            (px, py) = position_of(position);
            (vx, vy) = match *velocity {
                Comp::Velocity { x, y } => (x, y),
                _ => panic!("expected a velocity"),
            };
        }
        single_entity.add_component(POSITION, Comp::Position { x: px + vx, y: py + vy });
    }

    fn implements_single_entity_step(&self) -> bool {
        true
    }
}

// The full-access path and the per-entity path of the movement scenario end
// in the same place: every entity at {5, 5} after five ticks.
#[test]
fn test_serial_and_scoped_paths_agree() {
    let mut serial: World<Comp, (), SerialMove> = World::new();
    let mut scoped: World<Comp, (), ScopedMove> = World::new();

    for _ in 0..100 {
        serial.entities_and_components.add_entity_with(vec![
            (POSITION, Comp::Position { x: 0.0, y: 0.0 }),
            (VELOCITY, Comp::Velocity { x: 1.0, y: 1.0 }),
        ]);
        scoped.entities_and_components.add_entity_with(vec![
            (POSITION, Comp::Position { x: 0.0, y: 0.0 }),
            (VELOCITY, Comp::Velocity { x: 1.0, y: 1.0 }),
        ]);
    }
    serial.add_system(SerialMove {});
    scoped.add_system(ScopedMove {});

    for _ in 0..5 {
        serial.run();
        scoped.run();
    }

    let serial_entities = serial.entities_and_components.get_entities();
    let scoped_entities = scoped.entities_and_components.get_entities();
    assert_eq!(serial_entities.len(), 100);
    assert_eq!(scoped_entities.len(), 100);
    for i in 0..100 {
        let p1 = serial
            .entities_and_components
            .try_get_component(serial_entities[i], POSITION)
            .unwrap();
        let p2 = scoped
            .entities_and_components
            .try_get_component(scoped_entities[i], POSITION)
            .unwrap();
        assert_eq!(p1, p2);
        assert_eq!(position_of(p1), (5.0, 5.0));
    }
}

struct Snapshot {
    seen: Vec<Comp>,
}

impl System<Comp, ()> for Snapshot {
    fn kind_spec(self) -> u64 {
        3
    }

    fn kind(&self) -> u64 {
        3
    }

    fn prestep(&mut self, engine: &EntitiesAndComponents<Comp, ()>) {
        self.seen.clear();
        for entity in engine.get_entities_with_component(POSITION) {
            self.seen.push(*engine.try_get_component(entity, POSITION).unwrap());
        }
    }

    fn implements_prestep(&self) -> bool {
        true
    }

    fn run(&mut self, engine: &mut EntitiesAndComponents<Comp, ()>) {
        for c in &self.seen {
            engine.add_entity_with(vec![(POSITION, *c)]);
        }
    }
}

// The prestep snapshot is taken before the full-access phase runs, so one
// tick over two entities ends with four, the last two copying the first
// two in order.
#[test]
fn test_prestep_snapshot_then_insert() {
    let mut engine: World<Comp, (), Snapshot> = World::new();
    {
        let store = &mut engine.entities_and_components;
        let a = store.add_entity();
        let b = store.add_entity();
        store.add_component_to(a, POSITION, Comp::Position { x: 2.0, y: 3.0 });
        store.add_component_to(b, POSITION, Comp::Position { x: 4.0, y: 5.0 });
    }
    engine.add_system(Snapshot { seen: Vec::new() });

    engine.run();

    let store = &engine.entities_and_components;
    assert_eq!(store.get_entity_count(), 4);
    let third = store.get_nth_entity(2).unwrap();
    let fourth = store.get_nth_entity(3).unwrap();
    assert_eq!(
        position_of(store.try_get_component(third, POSITION).unwrap()),
        (2.0, 3.0)
    );
    assert_eq!(
        position_of(store.try_get_component(fourth, POSITION).unwrap()),
        (4.0, 5.0)
    );
}

#[test]
fn test_system_registration() {
    let mut engine: World<Comp, (), SerialMove> = World::new();
    let first = engine.add_system(SerialMove {});
    let second = engine.add_system(SerialMove {});
    assert_ne!(first, second);

    engine.remove_system(first);
    engine.run();

    engine.remove_all_systems_of_type(1);
    engine.remove_all_systems_of_type(99);
    engine.run();

    let third = engine.add_system(SerialMove {});
    assert_ne!(third, second);
    engine.remove_all_systems();
    engine.run();
}

#[test]
fn test_resource_lifecycle() {
    let mut store: EntitiesAndComponents<Comp, i64> = EntitiesAndComponents::new();
    assert_eq!(store.get_resource(HEALTH), None);
    store.add_resource(HEALTH, 41);
    assert_eq!(store.get_resource(HEALTH), Some(&41));
    store.add_resource(HEALTH, 42);
    assert_eq!(store.get_resource(HEALTH), Some(&42));
    assert_eq!(store.take_resource(HEALTH), Some(42));
    assert_eq!(store.get_resource(HEALTH), None);
    store.add_resource(HEALTH, 7);
    store.remove_resource(HEALTH);
    assert_eq!(store.get_resource(HEALTH), None);
}

#[test]
fn test_tag_map_behaviour() {
    let mut m: TagMap<i64> = TagMap::new();
    assert!(!m.contains_tag(4));
    assert_eq!(m.get(4), None);
    m.insert(4, 10);
    m.insert(9, 20);
    m.insert(4, 30);
    assert_eq!(m.get(4), Some(&30));
    assert_eq!(m.get(9), Some(&20));
    let mut tags = m.tags();
    tags.sort();
    assert_eq!(tags, vec![4, 9]);
    assert_eq!(m.remove(4), Some(30));
    assert_eq!(m.remove(4), None);
    assert!(!m.contains_tag(4));
}

#[test]
fn test_scoped_accessor_is_entity_local() {
    let mut store: Store = EntitiesAndComponents::new();
    let a = store.add_entity();
    let b = store.add_entity();
    store.add_component_to(a, HEALTH, Comp::Health(1));
    store.add_component_to(b, HEALTH, Comp::Health(2));

    let mut scoped = SingleMutEntity::new(store, a);
    assert_eq!(scoped.get_entity(), a);
    assert!(scoped.is_live());
    assert!(scoped.has_component(HEALTH));
    scoped.add_component(HEALTH, Comp::Health(5));
    assert_eq!(scoped.take_component(HEALTH), Some(Comp::Health(5)));
    scoped.add_component(HEALTH, Comp::Health(6));
    let store = scoped.into_inner();

    assert_eq!(store.try_get_component(a, HEALTH), Some(&Comp::Health(6)));
    assert_eq!(store.try_get_component(b, HEALTH), Some(&Comp::Health(2)));
}
