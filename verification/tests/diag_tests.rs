use dreki::audio::AudioError;
use dreki::diag::{send_due, LogRing, RenderStats, LOGS_PER_SNAPSHOT, LOG_RING_CAP};
use dreki::world::World;

#[test]
fn snapshot_orders_and_expands() {
    let mut world: World<u32> = World::new();
    let a = world.spawn(vec![(1, 0)]);
    world.spawn(vec![(1, 0), (2, 0)]);
    world.spawn(vec![(1, 0), (2, 0)]);
    let child = world.spawn_child(a, vec![(1, 0)]);
    world.spawn_empty();
    let e = world.spawn_empty();
    world.despawn(e);
    let (count, archetypes, snaps) = world.diagnostics_snapshot(&vec![0]);
    assert_eq!(count, 5);
    assert_eq!(archetypes, 3);
    assert_eq!(snaps.len(), 3);
    assert_eq!(snaps[0].kinds, vec![1]);
    assert_eq!(snaps[0].entity_count, 2);
    let ents = snaps[0].entities.as_ref().unwrap();
    assert_eq!(ents[0].id, a.index());
    assert_eq!(ents[0].child_count, 1);
    assert_eq!(ents[1].id, child.index());
    assert_eq!(ents[1].parent_id, Some(a.index()));
    assert_eq!(snaps[1].kinds, vec![1, 2]);
    assert!(snaps[1].entities.is_none());
    assert_eq!(snaps[2].entity_count, 1);
    let stats = world.diagnostics_entity_stats();
    assert_eq!((stats.total_slots, stats.free_count, stats.alive_count), (6, 1, 5));
}

#[test]
fn spawn_and_despawn_counts_start_over_when_taken() {
    let mut world: World<u32> = World::new();
    let a = world.spawn(vec![(1, 0)]);
    let b = world.spawn_child(a, vec![]);
    world.spawn_empty();
    let stats = world.diagnostics_entity_stats();
    assert_eq!((stats.spawned_this_tick, stats.despawned_this_tick), (3, 0));
    assert!(world.despawn_recursive(a));
    assert!(!world.despawn(b));
    let stats = world.diagnostics_entity_stats();
    assert_eq!((stats.spawned_this_tick, stats.despawned_this_tick), (0, 2));
    world.spawn_one(2, 7);
    world.despawn_all();
    let stats = world.diagnostics_entity_stats();
    assert_eq!((stats.spawned_this_tick, stats.despawned_this_tick), (1, 2));
    assert_eq!(stats.alive_count, 0);
}

#[test]
fn propagation_lists_roots_then_children() {
    let mut world: World<u32> = World::new();
    let root = world.spawn(vec![(1, 0)]);
    let other = world.spawn(vec![(2, 0)]);
    let c1 = world.spawn_child(root, vec![(1, 0)]);
    let c2 = world.spawn_child(root, vec![]);
    let g = world.spawn_child(c1, vec![(1, 0)]);
    let order = world.propagation_order(1);
    assert_eq!(order, vec![(root, None), (c1, Some(0)), (c2, Some(0)), (g, Some(1))]);
    assert!(!order.iter().any(|(e, _)| *e == other));
}

#[test]
fn audio_error_messages() {
    assert_eq!(AudioError::Load("x.ogg".to_string()).message(), "audio load failed: x.ogg");
    assert_eq!(AudioError::Play("busy".to_string()).message(), "audio play failed: busy");
    assert_eq!(
        AudioError::BackendInit("none".to_string()).message(),
        "audio backend init failed: none"
    );
    let s = RenderStats::new();
    assert_eq!((s.draw_calls, s.vertices, s.textures_loaded), (0, 0, 0));
}

#[test]
fn log_ring_drops_oldest_when_full() {
    let mut ring: LogRing<usize> = LogRing::new();
    for i in 0..LOG_RING_CAP + 3 {
        ring.push(i);
    }
    assert_eq!(ring.len(), LOG_RING_CAP);
    let all = ring.drain(usize::MAX);
    assert_eq!(all.first(), Some(&3));
    assert_eq!(all.last(), Some(&(LOG_RING_CAP + 2)));
    assert_eq!(ring.len(), 0);
}

#[test]
fn log_ring_drains_oldest_first() {
    let mut ring: LogRing<u32> = LogRing::new();
    for i in 0..60 {
        ring.push(i);
    }
    let first = ring.drain(LOGS_PER_SNAPSHOT);
    assert_eq!(first, (0..50).collect::<Vec<u32>>());
    assert_eq!(ring.drain(LOGS_PER_SNAPSHOT), (50..60).collect::<Vec<u32>>());
    assert!(ring.drain(LOGS_PER_SNAPSHOT).is_empty());
}

#[test]
fn snapshots_are_throttled() {
    assert!(!send_due(0));
    assert!(!send_due(99));
    assert!(send_due(100));
    assert!(send_due(1000));
}

#[test]
fn equal_counts_are_ordered_by_key() {
    let mut world: World<u32> = World::new();
    world.spawn(vec![(2, 0)]);
    world.spawn(vec![(1, 0)]);
    world.spawn(vec![(1, 0), (3, 0)]);
    let (_, _, snaps) = world.diagnostics_snapshot(&vec![]);
    let keys: Vec<Vec<u64>> = snaps.iter().map(|s| s.kinds.clone()).collect();
    assert_eq!(keys, vec![vec![1], vec![1, 3], vec![2]]);
}

#[test]
fn expanded_snapshot_carries_component_values() {
    let mut world: World<u32> = World::new();
    let a = world.spawn(vec![(2, 20), (1, 10)]);
    let b = world.spawn(vec![(1, 11), (2, 21)]);
    let (_, _, snaps) = world.diagnostics_snapshot(&vec![0]);
    assert_eq!(snaps[0].kinds, vec![1, 2]);
    let ents = snaps[0].entities.as_ref().unwrap();
    assert_eq!(ents[0].id, a.index());
    assert_eq!(ents[0].components, vec![(1, &10), (2, &20)]);
    assert_eq!(ents[1].id, b.index());
    assert_eq!(ents[1].components, vec![(1, &11), (2, &21)]);
}
