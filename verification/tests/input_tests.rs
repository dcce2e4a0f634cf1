use dreki::input::Input;

#[test]
fn press_sets_pressed_and_just_pressed() {
    let mut input: Input<u32> = Input::new();
    assert!(!input.pressed(7));
    input.press(7);
    assert!(input.pressed(7));
    assert!(input.just_pressed(7));
    assert!(!input.just_released(7));
}

#[test]
fn holding_does_not_repeat_just_pressed() {
    let mut input: Input<u32> = Input::new();
    input.press(7);
    input.clear_just();
    input.press(7);
    assert!(input.pressed(7));
    assert!(!input.just_pressed(7));
}

#[test]
fn release_only_counts_when_held() {
    let mut input: Input<u32> = Input::new();
    input.release(3);
    assert!(!input.just_released(3));
    input.press(3);
    input.release(3);
    assert!(!input.pressed(3));
    assert!(input.just_released(3));
    assert!(input.just_pressed(3));
}

#[test]
fn clear_just_keeps_held_inputs() {
    let mut input: Input<u32> = Input::new();
    input.press(1);
    input.press(2);
    input.release(2);
    input.clear_just();
    assert!(input.pressed(1));
    assert!(!input.pressed(2));
    assert!(!input.just_pressed(1));
    assert!(!input.just_released(2));
}
