use dreki::entity::Entity;
use dreki::world::World;

#[derive(Debug, Clone, PartialEq)]
enum Comp {
    Position { x: f32, y: f32 },
    Velocity { dx: f32, dy: f32 },
    Health(u32),
    Marker,
    Shield,
    Poisoned { damage: u32 },
    Number(u32),
    Text(String),
}

const POSITION: u64 = 1;
const VELOCITY: u64 = 2;
const HEALTH: u64 = 3;
const MARKER: u64 = 4;
const SHIELD: u64 = 5;
const POISONED: u64 = 6;
const RES_U32: u64 = 100;
const RES_STRING: u64 = 101;
const RES_U64: u64 = 102;

fn pos(x: f32, y: f32) -> (u64, Comp) {
    (POSITION, Comp::Position { x, y })
}

fn position_of(world: &World<Comp>, e: Entity) -> (f32, f32) {
    match world.get(e, POSITION) {
        Some(Comp::Position { x, y }) => (*x, *y),
        other => panic!("no position: {:?}", other),
    }
}

#[test]
fn spawn_and_query() {
    let mut world = World::new();
    world.spawn(vec![pos(1.0, 2.0), (VELOCITY, Comp::Velocity { dx: 0.5, dy: -0.5 })]);
    world.spawn(vec![pos(3.0, 4.0), (VELOCITY, Comp::Velocity { dx: 1.0, dy: 1.0 })]);
    world.spawn(vec![pos(5.0, 6.0)]);
    let found = world.query(&vec![POSITION, VELOCITY]);
    assert_eq!(found.len(), 2);
}

#[test]
fn spawn_and_despawn() {
    let mut world = World::new();
    let e1 = world.spawn(vec![pos(0.0, 0.0)]);
    let e2 = world.spawn(vec![pos(1.0, 1.0)]);
    assert_eq!(world.entity_count(), 2);
    world.despawn(e1);
    assert_eq!(world.entity_count(), 1);
    assert!(!world.is_alive(e1));
    assert!(world.is_alive(e2));
    let found = world.query(&vec![POSITION]);
    assert_eq!(found.len(), 1);
    assert_eq!(position_of(&world, found[0]).0, 1.0);
}

#[test]
fn resources() {
    let mut world: World<Comp> = World::new();
    world.insert_resource(RES_U32, Comp::Number(42));
    world.insert_resource(RES_STRING, Comp::Text(String::from("hello")));

    assert_eq!(*world.resource(RES_U32), Comp::Number(42));
    assert_eq!(*world.resource(RES_STRING), Comp::Text(String::from("hello")));

    *world.resource_mut(RES_U32) = Comp::Number(99);
    assert_eq!(*world.resource(RES_U32), Comp::Number(99));
}

#[test]
fn resource_remove_and_reinsert() {
    let mut world: World<Comp> = World::new();
    world.insert_resource(RES_STRING, Comp::Text(String::from("hello")));

    let taken = world.resource_remove(RES_STRING);
    assert_eq!(taken, Some(Comp::Text(String::from("hello"))));
    assert!(!world.has_resource(RES_STRING));

    world.insert_resource(RES_STRING, taken.unwrap());
    assert_eq!(*world.resource(RES_STRING), Comp::Text(String::from("hello")));

    assert_eq!(world.resource_remove(RES_U64), None);
}

#[test]
fn get_resource_variants() {
    let mut world: World<Comp> = World::new();
    assert!(world.get_resource(RES_U32).is_none());
    assert!(world.get_resource_mut(RES_U32).is_none());
    world.insert_resource(RES_U32, Comp::Number(1));
    if let Some(v) = world.get_resource_mut(RES_U32) {
        *v = Comp::Number(2);
    }
    assert_eq!(world.get_resource(RES_U32), Some(&Comp::Number(2)));
    world.insert_resource(RES_U32, Comp::Number(3));
    assert_eq!(world.get_resource(RES_U32), Some(&Comp::Number(3)));
}

#[test]
fn query_mutate() {
    let mut world = World::new();
    world.spawn(vec![pos(0.0, 0.0), (VELOCITY, Comp::Velocity { dx: 1.0, dy: 2.0 })]);
    for e in world.query(&vec![POSITION, VELOCITY]) {
        let (dx, dy) = match world.get(e, VELOCITY) {
            Some(Comp::Velocity { dx, dy }) => (*dx, *dy),
            _ => panic!(),
        };
        if let Some(Comp::Position { x, y }) = world.get_mut(e, POSITION) {
            *x += dx;
            *y += dy;
        }
    }
    let found = world.query(&vec![POSITION]);
    assert_eq!(position_of(&world, found[0]), (1.0, 2.0));
}

#[test]
fn query_filtered_with_marker() {
    let mut world = World::new();
    world.spawn(vec![pos(0.0, 0.0), (MARKER, Comp::Marker)]);
    world.spawn(vec![pos(1.0, 1.0)]);
    let found = world.query_filtered(&vec![POSITION], MARKER);
    assert_eq!(found.len(), 1);
    assert_eq!(position_of(&world, found[0]).0, 0.0);
}

#[test]
fn despawn_swap_remove_preserves_data() {
    let mut world = World::new();
    let e0 = world.spawn(vec![(HEALTH, Comp::Health(10))]);
    let _e1 = world.spawn(vec![(HEALTH, Comp::Health(20))]);
    let _e2 = world.spawn(vec![(HEALTH, Comp::Health(30))]);
    world.despawn(e0);
    let mut healths: Vec<u32> = world
        .query(&vec![HEALTH])
        .into_iter()
        .map(|e| match world.get(e, HEALTH) {
            Some(Comp::Health(h)) => *h,
            _ => panic!(),
        })
        .collect();
    healths.sort();
    assert_eq!(healths, vec![20, 30]);
}

#[test]
fn spawn_one_component() {
    let mut world = World::new();
    let e = world.spawn_one(MARKER, Comp::Marker);
    assert!(world.is_alive(e));
    assert_eq!(world.entity_count(), 1);
}

#[test]
fn get_component() {
    let mut world = World::new();
    let e = world.spawn(vec![pos(42.0, 99.0)]);
    assert_eq!(position_of(&world, e), (42.0, 99.0));
    assert!(world.get(e, VELOCITY).is_none());
}

#[test]
fn get_mut_component() {
    let mut world = World::new();
    let e = world.spawn(vec![pos(0.0, 0.0)]);
    if let Some(Comp::Position { x, .. }) = world.get_mut(e, POSITION) {
        *x = 10.0;
    }
    assert_eq!(position_of(&world, e).0, 10.0);
}

#[test]
fn get_dead_entity_returns_none() {
    let mut world = World::new();
    let e = world.spawn(vec![pos(0.0, 0.0)]);
    world.despawn(e);
    assert!(world.get(e, POSITION).is_none());
}

#[test]
fn insert_new_component() {
    let mut world = World::new();
    let e = world.spawn(vec![pos(1.0, 2.0)]);
    assert!(world.get(e, VELOCITY).is_none());
    world.insert(e, VELOCITY, Comp::Velocity { dx: 3.0, dy: 4.0 });
    assert_eq!(world.get(e, VELOCITY), Some(&Comp::Velocity { dx: 3.0, dy: 4.0 }));
    assert_eq!(position_of(&world, e), (1.0, 2.0));
}

#[test]
fn insert_replaces_existing_component() {
    let mut world = World::new();
    let e = world.spawn(vec![(HEALTH, Comp::Health(50))]);
    world.insert(e, HEALTH, Comp::Health(100));
    assert_eq!(world.get(e, HEALTH), Some(&Comp::Health(100)));
}

#[test]
fn remove_component() {
    let mut world = World::new();
    let e = world.spawn(vec![pos(1.0, 2.0), (SHIELD, Comp::Shield)]);
    assert!(world.remove(e, SHIELD));
    assert!(world.get(e, SHIELD).is_none());
    assert_eq!(position_of(&world, e).0, 1.0);
}

#[test]
fn remove_nonexistent_component_returns_false() {
    let mut world = World::new();
    let e = world.spawn(vec![pos(0.0, 0.0)]);
    assert!(!world.remove(e, SHIELD));
}

#[test]
fn insert_and_query() {
    let mut world = World::new();
    let e = world.spawn(vec![pos(0.0, 0.0)]);
    world.insert(e, POISONED, Comp::Poisoned { damage: 5 });
    let found = world.query(&vec![POSITION, POISONED]);
    assert_eq!(found.len(), 1);
    assert_eq!(world.get(found[0], POISONED), Some(&Comp::Poisoned { damage: 5 }));
}

#[test]
fn query_single_finds_singleton() {
    let mut world = World::new();
    world.spawn(vec![pos(42.0, 0.0), (MARKER, Comp::Marker)]);
    let found = world.query_single(&vec![POSITION], MARKER);
    assert!(found.is_some());
    assert_eq!(position_of(&world, found.unwrap()).0, 42.0);
}

#[test]
fn query_single_no_match() {
    let mut world = World::new();
    world.spawn(vec![pos(0.0, 0.0)]);
    assert!(world.query_single(&vec![POSITION], MARKER).is_none());
}

#[test]
fn named_entity_lookup() {
    let mut world = World::new();
    let e = world.spawn(vec![pos(1.0, 2.0)]);
    world.name_entity(e, "player");
    assert_eq!(world.named("player"), e);
    assert_eq!(world.try_named("player"), Some(e));
    assert_eq!(world.try_named("nonexistent"), None);
}

#[test]
fn despawn_cleans_up_name() {
    let mut world = World::new();
    let e = world.spawn(vec![(MARKER, Comp::Marker)]);
    world.name_entity(e, "temp");
    assert!(world.try_named("temp").is_some());
    world.despawn(e);
    assert!(world.try_named("temp").is_none());
}

#[test]
fn tag_and_query() {
    let mut world = World::new();
    let e1 = world.spawn(vec![pos(0.0, 0.0)]);
    let e2 = world.spawn(vec![pos(1.0, 1.0)]);
    let _e3 = world.spawn(vec![pos(2.0, 2.0)]);
    world.tag(e1, "enemy");
    world.tag(e2, "enemy");
    let enemies = world.tagged("enemy");
    assert_eq!(enemies.len(), 2);
    assert!(enemies.contains(&e1));
    assert!(enemies.contains(&e2));
}

#[test]
fn tagged_returns_empty_for_unknown() {
    let world: World<Comp> = World::new();
    assert!(world.tagged("nothing").is_empty());
}

#[test]
fn despawn_cleans_up_tags() {
    let mut world = World::new();
    let e = world.spawn(vec![(MARKER, Comp::Marker)]);
    world.tag(e, "temporary");
    assert_eq!(world.tagged("temporary").len(), 1);
    world.despawn(e);
    assert!(world.tagged("temporary").is_empty());
}

#[test]
fn despawn_all_cleans_names_and_tags() {
    let mut world = World::new();
    let e1 = world.spawn(vec![(MARKER, Comp::Marker)]);
    let e2 = world.spawn(vec![(MARKER, Comp::Marker)]);
    world.name_entity(e1, "a");
    world.name_entity(e2, "b");
    world.tag(e1, "group");
    world.tag(e2, "group");
    world.despawn_all();
    assert!(world.try_named("a").is_none());
    assert!(world.try_named("b").is_none());
    assert!(world.tagged("group").is_empty());
}

#[test]
fn entities_with_component() {
    let mut world = World::new();
    let e1 = world.spawn(vec![pos(0.0, 0.0), (MARKER, Comp::Marker)]);
    let _e2 = world.spawn(vec![pos(1.0, 1.0)]);
    let e3 = world.spawn(vec![(MARKER, Comp::Marker)]);
    let with_marker = world.entities_with(MARKER);
    assert_eq!(with_marker.len(), 2);
    assert!(with_marker.contains(&e1));
    assert!(with_marker.contains(&e3));
    assert!(world.has_component_type(MARKER));
    assert!(!world.has_component_type(SHIELD));
}

#[test]
fn despawn_dead_or_stale_handle_returns_false() {
    let mut world = World::new();
    let e = world.spawn(vec![(MARKER, Comp::Marker)]);
    assert!(world.despawn(e));
    assert!(!world.despawn(e));
    let again = world.spawn(vec![(MARKER, Comp::Marker)]);
    assert_eq!(again.index(), e.index());
    assert!(!world.despawn(e));
    assert!(world.is_alive(again));
    assert_eq!(world.entity_count(), 1);
}

#[test]
fn duplicate_kind_in_bundle_keeps_last_value() {
    let mut world = World::new();
    let e = world.spawn(vec![(HEALTH, Comp::Health(1)), (HEALTH, Comp::Health(2))]);
    assert_eq!(world.get(e, HEALTH), Some(&Comp::Health(2)));
    assert_eq!(world.for_each_entity(), vec![(e, vec![HEALTH])]);
}

#[test]
fn archetypes_are_shared_by_kind_set() {
    let mut world = World::new();
    world.spawn(vec![pos(0.0, 0.0), (MARKER, Comp::Marker)]);
    world.spawn(vec![(MARKER, Comp::Marker), pos(1.0, 0.0)]);
    assert_eq!(world.archetype_count(), 1);
    world.spawn_empty();
    assert_eq!(world.archetype_count(), 2);
}

#[test]
fn insert_then_remove_restores_components() {
    let mut world = World::new();
    let e = world.spawn(vec![pos(1.0, 1.0)]);
    world.insert(e, SHIELD, Comp::Shield);
    assert!(world.remove(e, SHIELD));
    assert!(world.get(e, SHIELD).is_none());
    assert_eq!(world.for_each_entity(), vec![(e, vec![POSITION])]);
}

#[test]
fn any_component_access() {
    let mut world = World::new();
    let e = world.spawn_empty();
    world.insert_any_component(e, HEALTH, Comp::Health(7));
    assert_eq!(world.get_any_by_type_id(e, HEALTH), Some(&Comp::Health(7)));
    assert_eq!(world.get_any_by_type_id(e, SHIELD), None);
}

#[test]
fn stale_handle_does_not_reach_reused_slot() {
    let mut world: World<u32> = World::new();
    let e = world.spawn(vec![(1, 10)]);
    assert!(world.despawn(e));
    let e2 = world.spawn(vec![(1, 20)]);
    assert_eq!(e2.index(), e.index());
    assert_eq!(e.generation(), 0);
    assert_eq!(e2.generation(), 1);
    assert_ne!(e2, e);
    assert!(!world.is_alive(e));
    assert!(world.get(e, 1).is_none());
    assert_eq!(world.get(e2, 1), Some(&20));
}

#[test]
fn despawn_leaves_no_name() {
    let mut world: World<u32> = World::new();
    let e = world.spawn(vec![(1, 0)]);
    world.name_entity(e, "temp");
    world.tag(e, "group");
    assert!(world.despawn(e));
    assert_eq!(world.try_named("temp"), None);
    assert!(world.tagged("group").is_empty());
}

#[test]
fn despawn_leaves_other_carriers_of_a_tag() {
    let mut world: World<u32> = World::new();
    let a = world.spawn(vec![(1, 0)]);
    let b = world.spawn(vec![(1, 1)]);
    world.tag(a, "group");
    world.tag(a, "solo");
    world.tag(b, "group");
    assert!(world.despawn(a));
    assert_eq!(world.tagged("group"), vec![b]);
    assert!(world.tagged("solo").is_empty());
}

#[test]
fn a_second_name_leaves_the_first_after_despawn() {
    let mut world: World<u32> = World::new();
    let e = world.spawn(vec![(1, 0)]);
    world.name_entity(e, "first");
    world.name_entity(e, "second");
    assert_eq!(world.named("first"), e);
    assert_eq!(world.named("second"), e);
    assert!(world.despawn(e));
    assert_eq!(world.try_named("second"), None);
    assert_eq!(world.try_named("first"), Some(e));
}
