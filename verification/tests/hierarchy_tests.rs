use dreki::hierarchy::Parent;
use dreki::world::World;

const TRANSFORM: u64 = 1;

fn spawn_root(world: &mut World<u32>) -> dreki::entity::Entity {
    world.spawn(vec![(TRANSFORM, 0)])
}

#[test]
fn spawn_child_links_both_ways() {
    let mut world = World::new();
    let parent = spawn_root(&mut world);
    let child = world.spawn_child(parent, vec![(TRANSFORM, 1)]);
    assert_eq!(world.get_parent(child), Some(Parent(parent)));
    assert_eq!(world.get_children(parent).unwrap().0, vec![child]);
    assert_eq!(world.get_parent(parent), None);
    assert!(world.get_children(child).is_none());
    assert_eq!(world.get(child, TRANSFORM), Some(&1));
}

#[test]
fn children_keep_spawn_order() {
    let mut world = World::new();
    let parent = spawn_root(&mut world);
    let a = world.spawn_child(parent, vec![]);
    let b = world.spawn_child(parent, vec![]);
    let c = world.spawn_child(parent, vec![]);
    assert_eq!(world.get_children(parent).unwrap().0, vec![a, b, c]);
}

#[test]
fn despawn_recursive_removes_children() {
    let mut world = World::new();
    let parent = spawn_root(&mut world);
    let child1 = world.spawn_child(parent, vec![(TRANSFORM, 0)]);
    let grandchild = world.spawn_child(child1, vec![(TRANSFORM, 0)]);
    let _child2 = world.spawn_child(parent, vec![(TRANSFORM, 0)]);
    assert_eq!(world.entity_count(), 4);
    world.despawn_recursive(parent);
    assert_eq!(world.entity_count(), 0);
    assert!(!world.is_alive(parent));
    assert!(!world.is_alive(child1));
    assert!(!world.is_alive(grandchild));
}

#[test]
fn despawn_recursive_cleans_up_parent_children() {
    let mut world = World::new();
    let parent = spawn_root(&mut world);
    let child1 = world.spawn_child(parent, vec![(TRANSFORM, 0)]);
    let child2 = world.spawn_child(parent, vec![(TRANSFORM, 0)]);
    world.despawn_recursive(child1);
    assert!(world.is_alive(parent));
    let children = world.get_children(parent).unwrap();
    assert_eq!(children.0.len(), 1);
    assert_eq!(children.0, vec![child2]);
}

#[test]
fn despawn_recursive_leaves_siblings_and_unrelated() {
    let mut world = World::new();
    let a = spawn_root(&mut world);
    let b = world.spawn_child(a, vec![]);
    let c = world.spawn_child(b, vec![]);
    let d = world.spawn_child(a, vec![]);
    let other = spawn_root(&mut world);
    assert!(world.despawn_recursive(b));
    assert!(!world.is_alive(b));
    assert!(!world.is_alive(c));
    assert!(world.is_alive(a));
    assert!(world.is_alive(d));
    assert!(world.is_alive(other));
    assert_eq!(world.entity_count(), 3);
    assert!(!world.despawn_recursive(b));
}

#[test]
fn despawn_all_clears_world() {
    let mut world = World::new();
    spawn_root(&mut world);
    spawn_root(&mut world);
    spawn_root(&mut world);
    assert_eq!(world.entity_count(), 3);
    world.despawn_all();
    assert_eq!(world.entity_count(), 0);
}

#[test]
fn plain_despawn_keeps_stale_child_entry() {
    let mut world = World::new();
    let parent = spawn_root(&mut world);
    let child = world.spawn_child(parent, vec![]);
    assert!(world.despawn(child));
    assert_eq!(world.get_children(parent).unwrap().0, vec![child]);
    assert!(world.despawn_recursive(parent));
    assert_eq!(world.entity_count(), 0);
}
