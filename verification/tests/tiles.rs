//! Tile lifecycle tests: allocation with the debug border, painting, and
//! the lossless swap-out/swap-in cycle.
use koko::tile::{Tile, BORDER_BYTE, CLEAR_BYTE, TILE_BYTES, TILE_ROW};

#[test]
fn fresh_tile_is_uninitialized() {
    let t = Tile::new();
    assert!(t.uninitialized());
    assert!(!t.hot());
    assert!(!t.swapped());
    assert_eq!(t.path_count(), 0);
}

#[test]
fn ensure_allocated_clears_and_paints_border() {
    let mut t = Tile::new();
    t.ensure_allocated();
    assert!(t.hot());
    // corners and edges carry the debug border
    assert_eq!(t.pixel(0), BORDER_BYTE);
    assert_eq!(t.pixel(TILE_ROW - 1), BORDER_BYTE);
    assert_eq!(t.pixel(TILE_BYTES - 1), BORDER_BYTE);
    assert_eq!(t.pixel(5 * TILE_ROW), BORDER_BYTE); // column 0 of row 5
    // an interior pixel is cleared
    assert_eq!(t.pixel(5 * TILE_ROW + 7), CLEAR_BYTE);
}

#[test]
fn ensure_allocated_leaves_a_hot_tile_alone() {
    let mut t = Tile::new();
    t.ensure_allocated();
    t.fill_rect(10, 10, 4, 4, 200);
    t.ensure_allocated();
    assert!(t.hot());
    assert_eq!(t.pixel(10 * TILE_ROW + 10), 200);
}

#[test]
fn fill_rect_writes_exactly_the_rectangle() {
    let mut t = Tile::new();
    t.ensure_allocated();
    t.fill_rect(100, 50, 3, 2, 42);
    for row in 49..53 {
        for col in 99..104 {
            let inside = (50..52).contains(&row) && (100..103).contains(&col);
            let expected = if inside { 42 } else { CLEAR_BYTE };
            assert_eq!(t.pixel(row * TILE_ROW + col), expected);
        }
    }
}

#[test]
fn swap_cycle_reproduces_pixels_exactly() {
    // a tile swapped out then immediately swapped back in with no
    // intervening paint is pixel-identical to before the swap
    let mut t = Tile::new();
    t.ensure_allocated();
    t.fill_rect(0, 0, 64, 64, 17);
    t.fill_rect(600, 300, 5, 9, 91);
    let before = t.contents_vec();
    t.swap_out();
    assert!(t.swapped());
    assert!(!t.hot());
    assert_eq!(t.contents_vec(), before);
    t.swap_in();
    assert!(t.hot());
    assert_eq!(t.contents_vec(), before);
}

#[test]
fn swap_preserves_noisy_content() {
    let mut t = Tile::new();
    t.ensure_allocated();
    let mut col = 0;
    while col < 32 {
        t.fill_rect(col, 2, 1, 1, (col % 2 * 255) as u8);
        col += 1;
    }
    let before = t.contents_vec();
    t.swap_out();
    t.swap_in();
    assert_eq!(t.contents_vec(), before);
}
