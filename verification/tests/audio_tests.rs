use dreki::audio::{audio_system, stopped_sources, SourceStatus};
use dreki::world::World;

#[test]
fn audio_starts_auto_play_sources_without_a_sound() {
    let mut world: World<u32> = World::new();
    let a = world.spawn(vec![(1, 0)]);
    let b = world.spawn(vec![(1, 0)]);
    let c = world.spawn(vec![(1, 0)]);
    let d = world.spawn(vec![(1, 0)]);
    let sources = vec![
        SourceStatus { entity: a, auto_play: true, has_handle: false, stopped: false },
        SourceStatus { entity: b, auto_play: false, has_handle: false, stopped: false },
        SourceStatus { entity: c, auto_play: true, has_handle: true, stopped: false },
        SourceStatus { entity: d, auto_play: true, has_handle: false, stopped: false },
    ];
    assert_eq!(audio_system(&sources), vec![a, d]);
    assert!(audio_system(&Vec::new()).is_empty());
}

#[test]
fn audio_releases_only_stopped_handles() {
    let mut world: World<u32> = World::new();
    let a = world.spawn(vec![(1, 0)]);
    let b = world.spawn(vec![(1, 0)]);
    let c = world.spawn(vec![(1, 0)]);
    let sources = vec![
        SourceStatus { entity: a, auto_play: true, has_handle: true, stopped: true },
        SourceStatus { entity: b, auto_play: false, has_handle: true, stopped: false },
        SourceStatus { entity: c, auto_play: false, has_handle: false, stopped: true },
    ];
    assert_eq!(stopped_sources(&sources), vec![a]);
}
