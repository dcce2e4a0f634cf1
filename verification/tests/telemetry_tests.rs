use dreki::telemetry::{LogFilter, SortMode, Tab, TreeRow};

#[test]
fn tabs_cycle_both_ways() {
    assert_eq!(Tab::Overview.next(), Tab::Systems);
    assert_eq!(Tab::Logs.next(), Tab::Overview);
    assert_eq!(Tab::Overview.prev(), Tab::Logs);
    for t in [Tab::Overview, Tab::Systems, Tab::Assets, Tab::Logs] {
        assert_eq!(t.next().prev(), t);
        assert_eq!(t.next().next().next().next(), t);
    }
    assert_eq!(Tab::Assets.label(), "Assets");
}

#[test]
fn sort_modes_cycle() {
    assert_eq!(SortMode::CountDesc.next(), SortMode::CountAsc);
    assert_eq!(SortMode::Alphabetical.next(), SortMode::CountDesc);
    assert_eq!(SortMode::CountDesc.label(), "count \u{2193}");
    assert_eq!(SortMode::Alphabetical.label(), "A-Z");
}

#[test]
fn log_filters_pass_levels() {
    assert!(LogFilter::All.passes("TRACE"));
    assert!(!LogFilter::Debug.passes("TRACE"));
    assert!(LogFilter::Debug.passes("DEBUG"));
    assert!(!LogFilter::Info.passes("DEBUG"));
    assert!(LogFilter::Info.passes("WARN"));
    assert!(!LogFilter::Warn.passes("INFO"));
    assert!(LogFilter::Error.passes("ERROR"));
    assert!(!LogFilter::Error.passes("WARN"));
    assert_eq!(LogFilter::Error.next(), LogFilter::All);
    assert_eq!(LogFilter::Info.label(), "INFO+");
}

#[test]
fn field_rows_are_not_selectable() {
    assert!(TreeRow::Archetype { arch_idx: 0 }.is_selectable());
    assert!(TreeRow::Entity { arch_idx: 0, entity_row: 1 }.is_selectable());
    assert!(TreeRow::Component { arch_idx: 0, entity_row: 1, comp_idx: 2 }.is_selectable());
    assert!(!TreeRow::Field { arch_idx: 0, entity_row: 1, comp_idx: 2, field_idx: 3 }.is_selectable());
}
