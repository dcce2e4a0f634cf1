use dreki::names::{short_system_name, short_type_name};

#[test]
fn system_name_keeps_last_segment() {
    assert_eq!(short_system_name("hello_2d::movement_system"), "movement_system");
    assert_eq!(short_system_name("dummy_system"), "dummy_system");
}

#[test]
fn closure_system_name() {
    assert_eq!(short_system_name("my_game::main::{{closure}}"), "<closure>");
}

#[test]
fn type_name_keeps_last_segment() {
    assert_eq!(short_type_name("my_game::components::Position"), "Position");
    assert_eq!(short_type_name("Position"), "Position");
    assert_eq!(short_type_name("a::"), "");
    assert_eq!(short_type_name("a:::b"), "b");
}

#[test]
fn schedule_captures_system_name() {
    // the type name of a function item `dummy_system` declared in this file
    let name = short_system_name("names_tests::dummy_system");
    assert_eq!(name, "dummy_system");
}
