use dreki::dashboard::{
    entity_word, tree_arrow, ArchetypeInfo, ComponentInfo, ComponentLine, Dashboard, EntityInfo,
    KeyAction, KeyCode, KeyPress, LogEntry,
};
use dreki::telemetry::{InputMode, LogFilter, SortMode, Tab, TreeRow};

fn arch(count: usize, names: &[&str], entities: Option<Vec<EntityInfo>>) -> ArchetypeInfo {
    ArchetypeInfo {
        entity_count: count,
        component_names: names.iter().map(|s| s.to_string()).collect(),
        entities,
    }
}

fn entity(id: u32, comps: &[(&str, &str)]) -> EntityInfo {
    EntityInfo {
        id,
        generation: 0,
        components: comps
            .iter()
            .map(|(n, v)| ComponentInfo { name: n.to_string(), debug_value: v.to_string() })
            .collect(),
    }
}

fn key(code: KeyCode) -> KeyPress {
    KeyPress { code, ctrl: false, shift: false }
}

fn log(level: &str) -> LogEntry {
    LogEntry { level: level.to_string(), target: "t".to_string(), message: "m".to_string(), timestamp_bits: 0 }
}

fn sample() -> Vec<ArchetypeInfo> {
    vec![
        arch(1, &["Transform", "Sprite"], None),
        arch(5, &["Camera2d"], None),
        arch(3, &["Health"], Some(vec![entity(7, &[("Health", "Health { hp: 3, max: 5 }")]), entity(12, &[])])),
    ]
}

#[test]
fn sorts_by_count_and_name() {
    let mut d = Dashboard::new();
    assert!(d.push_snapshot(60, 16000, sample(), vec![], None));
    assert_eq!(d.filtered_sorted_archetypes(), vec![1, 2, 0]);
    d.sort_mode = SortMode::CountAsc;
    assert_eq!(d.filtered_sorted_archetypes(), vec![0, 2, 1]);
    d.sort_mode = SortMode::Alphabetical;
    assert_eq!(d.filtered_sorted_archetypes(), vec![1, 2, 0]);
}

#[test]
fn filter_matches_names_and_ids() {
    let mut d = Dashboard::new();
    d.push_snapshot(60, 16000, sample(), vec![], None);
    d.active_filter = Some("SPRITE".to_string());
    assert_eq!(d.filtered_sorted_archetypes(), vec![0]);
    d.active_filter = Some("12".to_string());
    assert_eq!(d.filtered_sorted_archetypes(), vec![2]);
    d.active_filter = Some("nothing".to_string());
    assert!(d.filtered_sorted_archetypes().is_empty());
}

#[test]
fn tree_rows_follow_expansion() {
    let mut d = Dashboard::new();
    d.push_snapshot(60, 16000, sample(), vec![], None);
    let (rows, sel) = d.build_tree_rows();
    assert_eq!(rows.len(), 3);
    assert_eq!(sel, vec![0, 1, 2]);
    d.expanded_archetypes.push(2);
    d.expanded_entities.push((2, 0));
    d.expanded_components.push((2, 0, 0));
    let (rows, sel) = d.build_tree_rows();
    assert_eq!(
        rows,
        vec![
            TreeRow::Archetype { arch_idx: 1 },
            TreeRow::Archetype { arch_idx: 2 },
            TreeRow::Entity { arch_idx: 2, entity_row: 0 },
            TreeRow::Component { arch_idx: 2, entity_row: 0, comp_idx: 0 },
            TreeRow::Field { arch_idx: 2, entity_row: 0, comp_idx: 0, field_idx: 0 },
            TreeRow::Field { arch_idx: 2, entity_row: 0, comp_idx: 0, field_idx: 1 },
            TreeRow::Entity { arch_idx: 2, entity_row: 1 },
            TreeRow::Archetype { arch_idx: 0 },
        ]
    );
    assert_eq!(sel, vec![0, 1, 2, 3, 6, 7]);
}

#[test]
fn keys_move_cursor_and_toggle() {
    let mut d = Dashboard::new();
    d.push_snapshot(60, 16000, sample(), vec![], None);
    assert_eq!(d.handle_key(key(KeyCode::Down)), KeyAction::Continue);
    assert_eq!(d.cursor, 1);
    assert_eq!(d.handle_key(key(KeyCode::Enter)), KeyAction::SendExpanded);
    assert_eq!(d.expanded_archetypes, vec![2]);
    d.handle_key(key(KeyCode::Down));
    assert_eq!(d.handle_key(key(KeyCode::Right)), KeyAction::Continue);
    assert_eq!(d.expanded_entities, vec![(2, 0)]);
    d.handle_key(key(KeyCode::Left));
    assert!(d.expanded_entities.is_empty());
    d.handle_key(key(KeyCode::Left));
    assert_eq!(d.cursor, 1);
    assert_eq!(d.handle_key(key(KeyCode::Left)), KeyAction::SendExpanded);
    assert!(d.expanded_archetypes.is_empty());
    d.handle_key(key(KeyCode::Up));
    d.handle_key(key(KeyCode::Up));
    assert_eq!(d.cursor, 0);
    assert_eq!(d.handle_key(key(KeyCode::Esc)), KeyAction::SendExpanded);
}

#[test]
fn search_mode_edits_and_applies_filter() {
    let mut d = Dashboard::new();
    d.push_snapshot(60, 16000, sample(), vec![], None);
    d.cursor = 2;
    d.handle_key(key(KeyCode::Char('/')));
    assert_eq!(d.input_mode, InputMode::Search);
    for c in "heax".chars() {
        d.handle_key(key(KeyCode::Char(c)));
    }
    d.handle_key(key(KeyCode::Backspace));
    d.handle_key(key(KeyCode::Backspace));
    d.handle_key(key(KeyCode::Char('a')));
    assert_eq!(d.search_query, "hea");
    assert_eq!(d.handle_key(key(KeyCode::Char('q'))), KeyAction::Continue);
    d.handle_key(key(KeyCode::Backspace));
    d.handle_key(key(KeyCode::Enter));
    assert_eq!(d.input_mode, InputMode::Normal);
    assert_eq!(d.active_filter, Some("hea".to_string()));
    assert_eq!(d.cursor, 0);
    assert_eq!(d.filtered_sorted_archetypes(), vec![2]);
    d.handle_key(key(KeyCode::Char('/')));
    assert_eq!(d.active_filter, None);
}

#[test]
fn quit_pause_tabs_and_logs() {
    let mut d = Dashboard::new();
    assert_eq!(d.handle_key(key(KeyCode::Char('q'))), KeyAction::Quit);
    assert_eq!(
        d.handle_key(KeyPress { code: KeyCode::Char('c'), ctrl: true, shift: false }),
        KeyAction::Quit
    );
    assert_eq!(d.handle_key(key(KeyCode::Char('c'))), KeyAction::Continue);
    d.handle_key(key(KeyCode::Char('p')));
    assert!(d.paused);
    assert!(!d.push_snapshot(1, 1, vec![], vec![], None));
    d.handle_key(key(KeyCode::Char('4')));
    assert_eq!(d.active_tab, Tab::Logs);
    d.handle_key(key(KeyCode::Char('l')));
    assert_eq!(d.log_filter, LogFilter::Warn);
    d.handle_key(key(KeyCode::Down));
    assert_eq!(d.log_scroll_offset, 1);
    assert!(!d.log_auto_scroll);
    d.handle_key(KeyPress { code: KeyCode::Tab, ctrl: false, shift: true });
    assert_eq!(d.active_tab, Tab::Assets);
    d.handle_key(key(KeyCode::Tab));
    assert_eq!(d.active_tab, Tab::Logs);
}

#[test]
fn logs_are_counted_filtered_and_capped() {
    let mut d = Dashboard::new();
    let mut logs = Vec::new();
    for lvl in ["TRACE", "DEBUG", "INFO", "WARN", "ERROR", "INFO", "OTHER"] {
        logs.push(log(lvl));
    }
    d.push_snapshot(60, 16000, vec![], logs, None);
    assert_eq!(d.log_counts(), (1, 1, 2, 1, 1));
    assert_eq!(d.filtered_logs().len(), 4);
    let many: Vec<LogEntry> = (0..2100).map(|_| log("INFO")).collect();
    d.push_snapshot(60, 16000, vec![], many, None);
    assert_eq!(d.log_entries.len(), 2000);
}

#[test]
fn history_keeps_the_latest_samples() {
    let mut d = Dashboard::new();
    for i in 0..1205u64 {
        d.push_snapshot(i, i * 2, vec![], vec![], None);
    }
    assert_eq!(d.fps_history.len(), 1200);
    assert_eq!(*d.fps_history.front().unwrap(), 5);
    assert_eq!(*d.delta_history.back().unwrap(), 2408);
    assert!(d.connected);
}

#[test]
fn cursor_is_clamped_when_rows_shrink() {
    let mut d = Dashboard::new();
    d.push_snapshot(60, 16000, sample(), vec![], None);
    d.cursor = 2;
    d.push_snapshot(60, 16000, vec![arch(1, &["A"], None)], vec![], None);
    assert_eq!(d.cursor, 0);
}

#[test]
fn tree_row_words_and_arrows() {
    assert_eq!(tree_arrow(true), '\u{25BC}');
    assert_eq!(tree_arrow(false), '\u{25B6}');
    assert_eq!(entity_word(1), "entity");
    assert_eq!(entity_word(0), "entities");
    assert_eq!(entity_word(5), "entities");
}

#[test]
fn component_rows_show_preview_fields_or_value() {
    let mut d = Dashboard::new();
    let archs = vec![arch(
        1,
        &["Health", "Marker"],
        Some(vec![entity(7, &[("Health", "Health { hp: 3, max: 5 }"), ("Marker", "Marker")])]),
    )];
    assert!(d.push_snapshot(60, 16000, archs, vec![], None));
    match d.component_line(0, 0, 0) {
        ComponentLine::Preview(p) => assert_eq!(p, "{ hp: 3, max: 5 }"),
        _ => panic!("expected a preview"),
    }
    assert!(matches!(d.component_line(0, 0, 1), ComponentLine::Value));
    d.expanded_components.push((0, 0, 0));
    assert!(matches!(d.component_line(0, 0, 0), ComponentLine::Open));
}

#[test]
fn only_expanded_component_texts_are_checked() {
    let archs = sample();
    assert!(dreki::dashboard::archetypes_readable(&archs, &vec![]));
    assert!(dreki::dashboard::archetypes_readable(&archs, &vec![(2, 0, 0), (9, 9, 9)]));
}
