//! Grid shape, growth and coverage tests: the regrow scenarios, tile
//! identity across growth, and the square-count invariant.
use koko::grid::{tile_visible, RegionGrid, INITIAL_PITCH};
use koko::tile::TILE_ROW;
use koko::units::V2;

#[test]
fn new_grid_is_three_by_three() {
    let g = RegionGrid::new();
    assert_eq!(g.pitch(), INITIAL_PITCH);
    assert_eq!(g.len(), 9);
    assert!(g.tile_at(0, 0).uninitialized());
    assert!(g.tile_at(2, 2).uninitialized());
}

#[test]
fn tile_count_stays_a_perfect_square_through_growth() {
    let mut g = RegionGrid::new();
    g.grow_out();
    assert_eq!(g.pitch(), 4);
    assert_eq!(g.len(), 16);
    g.grow_in();
    assert_eq!(g.pitch(), 5);
    assert_eq!(g.len(), 25);
}

#[test]
fn grow_out_keeps_tiles_in_place_and_adds_fresh_border() {
    let mut g = RegionGrid::new();
    let origin = V2(0, 0);
    g.page(&origin); // tile (0,0) becomes resident
    g.tile_at_mut(0, 0).fill_rect(3, 4, 2, 2, 77);
    g.grow_out();
    assert_eq!(g.pitch(), 4);
    assert!(g.tile_at(0, 0).hot());
    assert_eq!(g.tile_at(0, 0).pixel(4 * TILE_ROW + 3), 77);
    assert!(g.tile_at(3, 0).uninitialized());
    assert!(g.tile_at(0, 3).uninitialized());
    assert!(g.tile_at(3, 3).uninitialized());
}

#[test]
fn grow_in_shifts_every_tile_by_one() {
    let mut g = RegionGrid::new();
    let origin = V2(0, 0);
    g.page(&origin);
    g.tile_at_mut(0, 0).fill_rect(9, 9, 1, 1, 123);
    g.grow_in();
    assert_eq!(g.pitch(), 4);
    assert!(g.tile_at(0, 0).uninitialized());
    assert!(g.tile_at(0, 3).uninitialized());
    assert!(g.tile_at(3, 0).uninitialized());
    assert!(g.tile_at(1, 1).hot());
    assert_eq!(g.tile_at(1, 1).pixel(9 * TILE_ROW + 9), 123);
}

#[test]
fn panning_right_past_the_extent_grows_once_to_pitch_four() {
    // the 3 x 3 grid covers viewport x up to 2560; a pan past that adds
    // exactly one ring, and the tile formerly at (0,0) stays at (0,0)
    let mut g = RegionGrid::new();
    let mut origin = V2(0, 0);
    g.page(&origin);
    g.tile_at_mut(0, 0).fill_rect(0, 0, 4, 1, 55);
    origin = V2(2565, 0);
    let shift = g.ensure_covers(&mut origin);
    assert_eq!(shift, 0);
    assert_eq!(g.pitch(), 4);
    assert_eq!(g.len(), 16);
    assert_eq!(origin, V2(2565, 0));
    assert_eq!(g.tile_at(0, 0).pixel(0), 55);
}

#[test]
fn pan_within_the_extent_never_grows() {
    let mut g = RegionGrid::new();
    let mut origin = V2(2560, 0);
    let shift = g.ensure_covers(&mut origin);
    assert_eq!(shift, 0);
    assert_eq!(g.pitch(), INITIAL_PITCH);
}

#[test]
fn negative_origin_grows_left_and_translates_the_origin() {
    // scenario: origin panned to (-5, 0) triggers a grow-left; afterwards
    // origin.x == old_x + 1280 and the old (0,0) tile sits at (1,1)
    let mut g = RegionGrid::new();
    let mut origin = V2(0, 0);
    g.page(&origin);
    g.tile_at_mut(0, 0).fill_rect(2, 2, 1, 1, 88);
    origin = V2(-5, 0);
    let shift = g.ensure_covers(&mut origin);
    assert_eq!(shift, 1);
    assert_eq!(g.pitch(), 4);
    assert_eq!(origin.0, -5 + 1280);
    assert_eq!(origin.1, 0 + 720);
    assert_eq!(g.tile_at(1, 1).pixel(2 * TILE_ROW + 2), 88);
    assert!(g.tile_at(0, 0).uninitialized());
}

#[test]
fn far_negative_origin_grows_until_covered() {
    let mut g = RegionGrid::new();
    let mut origin = V2(-2000, 0);
    let shift = g.ensure_covers(&mut origin);
    assert_eq!(shift, 2);
    assert_eq!(origin.0, -2000 + 2 * 1280);
    assert!(origin.0 >= 0);
    assert_eq!(g.pitch(), 5);
}

#[test]
fn overlap_test_matches_the_viewport_rectangle() {
    let origin = V2(0, 0);
    assert!(tile_visible(&origin, 0, 0));
    assert!(!tile_visible(&origin, 0, 1));
    assert!(!tile_visible(&origin, 1, 0));
    let origin = V2(5, 0);
    assert!(tile_visible(&origin, 0, 0));
    assert!(tile_visible(&origin, 0, 1));
    assert!(!tile_visible(&origin, 0, 2));
    let origin = V2(1280, 720);
    assert!(tile_visible(&origin, 1, 1));
    assert!(tile_visible(&origin, 0, 0)); // closed lower edge of the test
}

#[test]
fn paging_keeps_exactly_the_visible_tiles_resident() {
    let mut g = RegionGrid::new();
    let origin = V2(5, 3);
    g.page(&origin);
    for row in 0..3 {
        for col in 0..3 {
            let vis = tile_visible(&origin, row, col);
            assert_eq!(g.tile_at(row, col).hot(), vis);
        }
    }
    // pan away: previously visible tiles are evicted, new ones brought in
    let origin2 = V2(1300, 3);
    g.page(&origin2);
    for row in 0..3 {
        for col in 0..3 {
            let vis = tile_visible(&origin2, row, col);
            assert_eq!(g.tile_at(row, col).hot(), vis);
            if !vis && tile_visible(&origin, row, col) {
                assert!(g.tile_at(row, col).swapped());
            }
        }
    }
}

#[test]
fn paging_round_trip_preserves_painted_content() {
    let mut g = RegionGrid::new();
    let home = V2(0, 0);
    g.page(&home);
    g.tile_at_mut(0, 0).fill_rect(30, 40, 2, 2, 99);
    let away = V2(1300, 720);
    g.page(&away);
    assert!(!g.tile_at(0, 0).hot());
    g.page(&home);
    assert!(g.tile_at(0, 0).hot());
    assert_eq!(g.tile_at(0, 0).pixel(40 * TILE_ROW + 30), 99);
}

#[test]
fn visible_indices_lists_exactly_the_overlapping_cells() {
    let g = RegionGrid::new();
    let origin = V2(0, 0);
    assert_eq!(g.visible_indices(&origin), vec![(0, 0)]);
    let origin = V2(5, 3);
    assert_eq!(g.visible_indices(&origin), vec![(0, 0), (0, 1), (1, 0), (1, 1)]);
    let origin = V2(1280, 720);
    assert_eq!(
        g.visible_indices(&origin),
        vec![(0, 0), (0, 1), (1, 0), (1, 1)]
    );
}

#[test]
fn visible_indices_agree_with_paging_residency() {
    let mut g = RegionGrid::new();
    let origin = V2(700, 100);
    g.page(&origin);
    let listed = g.visible_indices(&origin);
    for row in 0..3 {
        for col in 0..3 {
            assert_eq!(g.tile_at(row, col).hot(), listed.contains(&(row, col)));
        }
    }
}
