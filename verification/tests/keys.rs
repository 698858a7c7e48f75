//! Keyboard bookkeeping tests.
use koko::input::Input;

#[test]
fn fresh_input_reports_nothing() {
    let input = Input::new();
    assert!(!input.was_key_pressed(1));
    assert!(!input.was_key_released(1));
    assert!(!input.is_key_held(1));
}

#[test]
fn key_down_is_pressed_and_held() {
    let mut input = Input::new();
    input.key_down_event(7);
    assert!(input.was_key_pressed(7));
    assert!(input.is_key_held(7));
    assert!(!input.was_key_released(7));
    assert!(!input.was_key_pressed(8));
}

#[test]
fn key_up_releases_and_unholds() {
    let mut input = Input::new();
    input.key_down_event(7);
    input.key_up_event(7);
    assert!(input.was_key_pressed(7));
    assert!(input.was_key_released(7));
    assert!(!input.is_key_held(7));
}

#[test]
fn new_frame_clears_edges_but_keeps_held_keys() {
    let mut input = Input::new();
    input.key_down_event(7);
    input.begin_new_frame();
    assert!(!input.was_key_pressed(7));
    assert!(!input.was_key_released(7));
    assert!(input.is_key_held(7));
}
