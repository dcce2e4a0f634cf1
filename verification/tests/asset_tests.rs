use dreki::asset::{has_settled, AssetKind, HotReload, TextureHandle3d, RELOAD_DEBOUNCE_US};
use dreki::batch::TextureHandle;

fn server() -> HotReload {
    let mut h = HotReload::new();
    h.watch("/game/assets/player.png".to_string(), AssetKind::Texture2d(TextureHandle(3)));
    h.watch("/game/shaders/sprite.wgsl".to_string(), AssetKind::Shader2d);
    h
}

#[test]
fn kinds_have_labels() {
    assert_eq!(AssetKind::Texture2d(TextureHandle(0)).label(), "Texture2d");
    assert_eq!(AssetKind::Texture3d(TextureHandle3d(1)).label(), "Texture3d");
    assert_eq!(AssetKind::Shader2d.label(), "Shader2d");
    assert_eq!(AssetKind::Shader3d.label(), "Shader3d");
}

#[test]
fn settling_takes_the_debounce_time() {
    assert!(!has_settled(1_000, 1_000));
    assert!(!has_settled(1_000, 1_000 + RELOAD_DEBOUNCE_US - 1));
    assert!(has_settled(1_000, 1_000 + RELOAD_DEBOUNCE_US));
    assert!(!has_settled(5_000, 1_000));
}

#[test]
fn unwatched_changes_are_ignored() {
    let mut h = server();
    h.file_changed(&"/game/assets/other.png".to_string(), 0);
    assert_eq!(h.pending_count(), 0);
}

#[test]
fn reload_waits_for_quiet_file() {
    let mut h = server();
    let path = "/game/assets/player.png".to_string();
    h.file_changed(&path, 1_000);
    assert!(h.drain_ready(1_000 + RELOAD_DEBOUNCE_US - 1).is_empty());
    assert_eq!(h.pending_count(), 1);
    let ready = h.drain_ready(1_000 + RELOAD_DEBOUNCE_US);
    assert_eq!(ready, vec![(path, AssetKind::Texture2d(TextureHandle(3)))]);
    assert_eq!(h.pending_count(), 0);
}

#[test]
fn burst_of_changes_gives_one_reload() {
    let mut h = server();
    let path = "/game/shaders/sprite.wgsl".to_string();
    h.file_changed(&path, 0);
    h.file_changed(&path, 50_000);
    h.file_changed(&path, 90_000);
    assert!(h.drain_ready(150_000).is_empty());
    let ready = h.drain_ready(190_000);
    assert_eq!(ready, vec![(path, AssetKind::Shader2d)]);
    assert!(h.drain_ready(1_000_000).is_empty());
}

#[test]
fn only_settled_files_leave() {
    let mut h = server();
    h.file_changed(&"/game/assets/player.png".to_string(), 0);
    h.file_changed(&"/game/shaders/sprite.wgsl".to_string(), 80_000);
    let ready = h.drain_ready(120_000);
    assert_eq!(ready.len(), 1);
    assert_eq!(ready[0].1, AssetKind::Texture2d(TextureHandle(3)));
    assert_eq!(h.pending_count(), 1);
}

#[test]
fn watched_files_are_listed_once() {
    let mut h = server();
    h.watch("/game/shaders/sprite.wgsl".to_string(), AssetKind::Shader2d);
    assert_eq!(h.watched_count(), 2);
    let files = h.watched_files();
    assert_eq!(files.len(), 2);
    assert!(files.contains(&("/game/assets/player.png".to_string(), AssetKind::Texture2d(TextureHandle(3)))));
    assert!(files.contains(&("/game/shaders/sprite.wgsl".to_string(), AssetKind::Shader2d)));
}
