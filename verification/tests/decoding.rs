//! TGA decoding and font-sheet slicing tests.
use koko::graphics::{ascii_to_cell, font_atlas_rows, FONT_ROWS, FONT_ROW_STRIDE};
use koko::tga::{decode_tga, TGA_HEADER};

fn tga_header(width: u16, height: u16) -> Vec<u8> {
    let mut buf = vec![0u8; TGA_HEADER];
    buf[2] = 2; // uncompressed true color
    buf[12] = (width & 0xFF) as u8;
    buf[13] = (width >> 8) as u8;
    buf[14] = (height & 0xFF) as u8;
    buf[15] = (height >> 8) as u8;
    buf[16] = 32; // bits per pixel
    buf
}

#[test]
fn decode_swizzles_bgra_to_rgba() {
    let mut buf = tga_header(2, 1);
    buf.extend_from_slice(&[10, 20, 30, 40]); // BGRA
    buf.extend_from_slice(&[50, 60, 70, 80]);
    let img = decode_tga(&buf).unwrap();
    assert_eq!(img.width, 2);
    assert_eq!(img.height, 1);
    assert_eq!(img.rgba, vec![30, 20, 10, 40, 70, 60, 50, 80]);
}

#[test]
fn decode_maps_transparent_pixels_to_opaque_black() {
    let mut buf = tga_header(1, 1);
    buf.extend_from_slice(&[9, 9, 9, 0]);
    let img = decode_tga(&buf).unwrap();
    assert_eq!(img.rgba, vec![0, 0, 0, 255]);
}

#[test]
fn decode_rejects_wrong_image_type() {
    let mut buf = tga_header(1, 1);
    buf[2] = 10; // run-length encoded: not accepted
    buf.extend_from_slice(&[1, 2, 3, 4]);
    assert!(decode_tga(&buf).is_none());
}

#[test]
fn decode_rejects_wrong_depth() {
    let mut buf = tga_header(1, 1);
    buf[16] = 24;
    buf.extend_from_slice(&[1, 2, 3, 4]);
    assert!(decode_tga(&buf).is_none());
}

#[test]
fn decode_rejects_truncated_pixel_data() {
    let mut buf = tga_header(2, 2);
    buf.extend_from_slice(&[1, 2, 3, 4]); // only one of four pixels
    assert!(decode_tga(&buf).is_none());
}

#[test]
fn decode_rejects_short_header() {
    assert!(decode_tga(&vec![0u8; 5]).is_none());
}

#[test]
fn ascii_cells_match_the_sprite_map() {
    assert_eq!(ascii_to_cell(b'A'), Some((0, 0)));
    assert_eq!(ascii_to_cell(b'P'), Some((15, 0)));
    assert_eq!(ascii_to_cell(b'Q'), Some((0, 1)));
    assert_eq!(ascii_to_cell(b'Z'), Some((9, 1)));
    assert_eq!(ascii_to_cell(b'a'), Some((10, 1)));
    assert_eq!(ascii_to_cell(b'f'), Some((15, 1)));
    assert_eq!(ascii_to_cell(b'g'), Some((0, 2)));
    assert_eq!(ascii_to_cell(b'v'), Some((15, 2)));
    assert_eq!(ascii_to_cell(b'w'), Some((0, 3)));
    assert_eq!(ascii_to_cell(b'z'), Some((3, 3)));
    assert_eq!(ascii_to_cell(b'1'), Some((4, 3)));
    assert_eq!(ascii_to_cell(b'9'), Some((12, 3)));
    assert_eq!(ascii_to_cell(b'0'), Some((13, 3)));
    assert_eq!(ascii_to_cell(b' '), Some((0, 7)));
    assert_eq!(ascii_to_cell(b'~'), None);
    assert_eq!(ascii_to_cell(b'!'), None);
}

#[test]
fn font_rows_come_back_in_reverse_page_order() {
    let mut image = Vec::with_capacity(FONT_ROWS * FONT_ROW_STRIDE);
    for page in 0..FONT_ROWS {
        for _ in 0..FONT_ROW_STRIDE {
            image.push(page as u8);
        }
    }
    let rows = font_atlas_rows(&image).unwrap();
    assert_eq!(rows.len(), FONT_ROWS);
    for (k, row) in rows.iter().enumerate() {
        assert_eq!(row.len(), FONT_ROW_STRIDE);
        assert_eq!(row[0], (FONT_ROWS - 1 - k) as u8);
        assert_eq!(row[FONT_ROW_STRIDE - 1], (FONT_ROWS - 1 - k) as u8);
    }
}

#[test]
fn short_font_sheet_is_rejected() {
    let image = vec![0u8; FONT_ROWS * FONT_ROW_STRIDE - 1];
    assert!(font_atlas_rows(&image).is_none());
}
