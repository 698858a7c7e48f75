//! Coordinate math tests.
use koko::units::V2;
use koko::viewport::{pan, PanDirection};

#[test]
fn vector_add_and_sub_are_component_wise() {
    let a = V2(3, -4);
    let b = V2(10, 7);
    assert_eq!(a.add(b), V2(13, 3));
    assert_eq!(a.sub(b), V2(-7, -11));
}

#[test]
fn pan_moves_one_step_in_each_direction() {
    let o = V2(100, 200);
    assert_eq!(pan(o, PanDirection::Up, 5), V2(100, 205));
    assert_eq!(pan(o, PanDirection::Down, 5), V2(100, 195));
    assert_eq!(pan(o, PanDirection::Left, 5), V2(95, 200));
    assert_eq!(pan(o, PanDirection::Right, 5), V2(105, 200));
}

#[test]
fn pan_walks_into_negative_coordinates_unchecked() {
    let o = V2(0, 0);
    assert_eq!(pan(o, PanDirection::Left, 5), V2(-5, 0));
    assert_eq!(pan(o, PanDirection::Down, 5), V2(0, -5));
}
