//! The compute side of on-GPU text blitting: mapping an ASCII character to
//! its cell in the bitmap-font atlas, and slicing the decoded font sheet
//! into the rows the atlas texture array is built from. Uploading and
//! drawing stay with the rendering shell.
use vstd::prelude::*;

verus! {

/// Bytes in one row of the font sheet: 256 pixels wide, 16 tall, 4 bytes a
/// pixel.
pub const FONT_ROW_STRIDE: usize = 256 * 4 * 16;

/// Number of rows (atlas pages) in the font sheet.
pub const FONT_ROWS: usize = 8;

/// The atlas cell a printable character is drawn from: `(index into the
/// page, page number)`. Characters outside the sprite map have no cell.
pub open spec fn ascii_cell_spec(c: u8) -> Option<(u8, u8)> {
    if 65 <= c <= 80 {  // 'A' ..= 'P'
        Some(((c - 65) as u8, 0u8))
    } else if 81 <= c <= 90 {  // 'Q' ..= 'Z'
        Some(((c - 81) as u8, 1u8))
    } else if 97 <= c <= 102 {  // 'a' ..= 'f'
        Some(((c - 97 + 10) as u8, 1u8))
    } else if 103 <= c <= 118 {  // 'g' ..= 'v'
        Some(((c - 103) as u8, 2u8))
    } else if 119 <= c <= 122 {  // 'w' ..= 'z'
        Some(((c - 119) as u8, 3u8))
    } else if 49 <= c <= 57 {  // '1' ..= '9'
        Some(((c - 49 + 4) as u8, 3u8))
    } else if c == 48 {  // '0'
        Some((13u8, 3u8))
    } else if c == 32 {  // ' '
        Some((0u8, 7u8))
    } else {
        None
    }
}

/// Map an ASCII character to its font-atlas cell, or nothing for a
/// character the sprite map does not cover.
pub fn ascii_to_cell(c: u8) -> (r: Option<(u8, u8)>)
    ensures
        r == ascii_cell_spec(c),
{
    if 65 <= c && c <= 80 {
        Some((c - 65, 0))
    } else if 81 <= c && c <= 90 {
        Some((c - 81, 1))
    } else if 97 <= c && c <= 102 {
        Some((c - 97 + 10, 1))
    } else if 103 <= c && c <= 118 {
        Some((c - 103, 2))
    } else if 119 <= c && c <= 122 {
        Some((c - 119, 3))
    } else if 49 <= c && c <= 57 {
        Some((c - 49 + 4, 3))
    } else if c == 48 {
        Some((13, 3))
    } else if c == 32 {
        Some((0, 7))
    } else {
        None
    }
}

/// Slice a decoded font sheet into its atlas rows, last row first, as the
/// texture array is built. Nothing is returned for a sheet shorter than
/// eight rows.
pub fn font_atlas_rows(image: &Vec<u8>) -> (r: Option<Vec<Vec<u8>>>)
    ensures
        r is Some <==> image@.len() >= FONT_ROWS * FONT_ROW_STRIDE,
        r is Some ==> {
            &&& r->0@.len() == FONT_ROWS
            &&& forall|k: int|
                0 <= k < FONT_ROWS ==> #[trigger] r->0@[k]@ == image@.subrange(
                    (FONT_ROWS - 1 - k) * FONT_ROW_STRIDE,
                    (FONT_ROWS - k) * FONT_ROW_STRIDE,
                )
        },
{
    if image.len() < FONT_ROWS * FONT_ROW_STRIDE {
        return None;
    }
    let mut rows: Vec<Vec<u8>> = Vec::new();
    let mut k: usize = 0;
    while k < FONT_ROWS
        invariant
            k <= FONT_ROWS,
            image@.len() >= FONT_ROWS * FONT_ROW_STRIDE,
            rows@.len() == k,
            forall|j: int|
                0 <= j < k ==> #[trigger] rows@[j]@ == image@.subrange(
                    (FONT_ROWS - 1 - j) * FONT_ROW_STRIDE,
                    (FONT_ROWS - j) * FONT_ROW_STRIDE,
                ),
        decreases FONT_ROWS - k,
    {
        proof {
            assert(FONT_ROWS == 8 && FONT_ROW_STRIDE == 16384);
        }
        let start = (FONT_ROWS - 1 - k) * FONT_ROW_STRIDE;
        let mut row: Vec<u8> = Vec::new();
        let mut i: usize = 0;
        while i < FONT_ROW_STRIDE
            invariant
                i <= FONT_ROW_STRIDE,
                k < FONT_ROWS,
                start == (FONT_ROWS - 1 - k) * FONT_ROW_STRIDE,
                image@.len() >= FONT_ROWS * FONT_ROW_STRIDE,
                row@ =~= image@.subrange(start as int, start + i),
            decreases FONT_ROW_STRIDE - i,
        {
            proof {
                assert(FONT_ROWS == 8 && FONT_ROW_STRIDE == 16384);
                assert(start <= 7 * 16384 && image@.len() >= 8 * 16384);
            }
            row.push(image[start + i]);
            proof {
                assert(row@ =~= image@.subrange(start as int, start + i + 1));
            }
            i = i + 1;
        }
        rows.push(row);
        k = k + 1;
    }
    Some(rows)
}

} // verus!
