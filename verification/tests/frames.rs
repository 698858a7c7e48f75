//! Whole-frame engine tests: the event protocol, panning, color cycling,
//! growth under panning, paging, and the stroke gesture cycle.
use koko::engine::{
    BrushMode, EngineState, InputEvent, KEY_ESCAPE, KEY_HUE_R, KEY_LEFT, KEY_RIGHT,
};
use koko::units::V2;

#[test]
fn fresh_engine_state() {
    let e = EngineState::new();
    assert!(e.is_running);
    assert_eq!(e.color, (125, 0, 175));
    assert!(matches!(e.brush, BrushMode::Squareish));
    assert_eq!(e.scanbox, V2(0, 0));
    assert_eq!(e.grid.pitch(), 3);
    assert!(!e.cursor_down);
    assert!(e.cursor_commit);
}

#[test]
fn close_event_stops_the_loop() {
    let mut e = EngineState::new();
    e.handle_event(InputEvent::Closed);
    assert!(!e.is_running);
}

#[test]
fn escape_stops_the_loop_on_the_frame_it_is_pressed() {
    let mut e = EngineState::new();
    e.begin_frame();
    e.handle_event(InputEvent::KeyDown(KEY_ESCAPE));
    e.step();
    assert!(!e.is_running);
}

#[test]
fn escape_pressed_in_an_earlier_frame_does_not_stop_later_ones() {
    let mut e = EngineState::new();
    e.begin_frame();
    e.handle_event(InputEvent::KeyDown(KEY_ESCAPE));
    e.handle_event(InputEvent::KeyUp(KEY_ESCAPE));
    e.begin_frame(); // pressed set cleared; escape not pressed this frame
    e.step();
    assert!(e.is_running);
}

#[test]
fn held_right_key_pans_five_units_per_frame() {
    let mut e = EngineState::new();
    e.begin_frame();
    e.handle_event(InputEvent::KeyDown(KEY_RIGHT));
    e.step();
    assert_eq!(e.scanbox, V2(5, 0));
    e.begin_frame();
    e.step(); // key still held
    assert_eq!(e.scanbox, V2(10, 0));
}

#[test]
fn held_hue_key_cycles_the_red_channel() {
    let mut e = EngineState::new();
    e.begin_frame();
    e.handle_event(InputEvent::KeyDown(KEY_HUE_R));
    e.step();
    assert_eq!(e.color, (126, 0, 175));
    e.begin_frame();
    e.step();
    assert_eq!(e.color, (127, 0, 175));
}

#[test]
fn first_frame_pages_in_exactly_the_visible_tile() {
    let mut e = EngineState::new();
    e.begin_frame();
    e.step();
    assert!(e.grid.tile_at(0, 0).hot());
    assert!(!e.grid.tile_at(0, 1).hot());
    assert!(!e.grid.tile_at(1, 0).hot());
    assert!(!e.grid.tile_at(2, 2).hot());
}

#[test]
fn panning_left_grows_the_grid_and_shifts_the_view() {
    let mut e = EngineState::new();
    e.begin_frame();
    e.step();
    assert!(e.grid.tile_at(0, 0).hot());
    e.begin_frame();
    e.handle_event(InputEvent::KeyDown(KEY_LEFT));
    let shift = e.step();
    assert_eq!(shift, 1);
    assert_eq!(e.grid.pitch(), 4);
    // origin panned to (-5, 0), then translated by one tile extent
    assert_eq!(e.scanbox, V2(1275, 720));
    // the tile that was (0,0) now sits at (1,1), still covering the view
    assert!(e.grid.tile_at(1, 1).hot());
}

#[test]
fn drag_gesture_commits_one_path_to_the_tile_under_it() {
    let mut e = EngineState::new();
    e.begin_frame();
    e.handle_event(InputEvent::PointerMoved(100, 100));
    e.handle_event(InputEvent::PointerPressed);
    e.step();
    e.begin_frame();
    e.handle_event(InputEvent::PointerMoved(110, 110));
    e.step();
    e.begin_frame();
    e.handle_event(InputEvent::PointerMoved(120, 100));
    e.step();
    assert_eq!(e.stroke.sample_count(), 3);
    e.begin_frame();
    e.handle_event(InputEvent::PointerReleased);
    e.step();
    assert!(e.cursor_commit);
    assert_eq!(e.stroke.sample_count(), 0);
    assert_eq!(e.grid.tile_at(0, 0).path_count(), 1);
    assert_eq!(e.grid.tile_at(0, 1).path_count(), 0);
}

#[test]
fn release_without_samples_commits_nothing() {
    let mut e = EngineState::new();
    e.begin_frame();
    e.handle_event(InputEvent::PointerPressed);
    e.handle_event(InputEvent::PointerReleased);
    e.step();
    assert!(e.cursor_commit);
    assert_eq!(e.grid.tile_at(0, 0).path_count(), 0);
}

#[test]
fn samples_outside_the_window_are_not_recorded() {
    let mut e = EngineState::new();
    e.begin_frame();
    e.handle_event(InputEvent::PointerMoved(-3, 50));
    e.handle_event(InputEvent::PointerPressed);
    e.step();
    assert_eq!(e.stroke.sample_count(), 0);
    e.begin_frame();
    e.handle_event(InputEvent::PointerMoved(40, 50));
    e.step();
    assert_eq!(e.stroke.sample_count(), 1);
}
