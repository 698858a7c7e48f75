//! Decoding an uncompressed true-color TGA image into RGBA bytes, as the
//! font sheet loader needs it. Reading the file is the shell's job; this
//! works on the raw bytes.
//!
//! The format accepted: no id field, no color map, uncompressed true color,
//! 32 bits a pixel, an 18 byte header with the width at offset 12 and the
//! height at offset 14, both little-endian, pixels stored BGRA. A pixel
//! with alpha 0 decodes to opaque black.
use vstd::prelude::*;

verus! {

/// Offset of the first pixel: the 3 header bytes checked, 5 color-map
/// bytes, two 2-byte origins, width, height, depth and descriptor.
pub const TGA_HEADER: usize = 18;

/// The image width the header declares.
pub open spec fn tga_width(b: Seq<u8>) -> int {
    b[12] + 256 * b[13]
}

/// The image height the header declares.
pub open spec fn tga_height(b: Seq<u8>) -> int {
    b[14] + 256 * b[15]
}

/// A byte buffer this decoder accepts: the header of an uncompressed
/// true-color TGA with no id field and no color map, 32 bits a pixel, and
/// enough bytes for every pixel the header declares.
pub open spec fn tga_valid(b: Seq<u8>) -> bool {
    &&& b.len() >= TGA_HEADER
    &&& b[0] == 0
    &&& b[1] == 0
    &&& b[2] == 2
    &&& b[16] == 32
    &&& b.len() >= TGA_HEADER + tga_width(b) * tga_height(b) * 4
}

/// The four RGBA bytes pixel `k` decodes to: BGRA swizzled to RGBA, and
/// opaque black where the stored alpha is zero.
pub open spec fn tga_pixel(b: Seq<u8>, k: int) -> Seq<u8> {
    let src = TGA_HEADER + 4 * k;
    if b[src + 3] == 0 {
        seq![0u8, 0u8, 0u8, 255u8]
    } else {
        seq![b[src + 2], b[src + 1], b[src], b[src + 3]]
    }
}

/// A decoded image: RGBA bytes in row-major order.
pub struct TgaImage {
    pub rgba: Vec<u8>,
    pub width: usize,
    pub height: usize,
}

/// Bounds on a pixel's source offset within a valid buffer.
proof fn lemma_tga_src_in_range(b: Seq<u8>, k: int)
    requires
        tga_valid(b),
        0 <= k < tga_width(b) * tga_height(b),
    ensures
        TGA_HEADER + 4 * k + 4 <= b.len(),
{
    assert(4 * k + 4 <= tga_width(b) * tga_height(b) * 4) by (nonlinear_arith)
        requires
            0 <= k < tga_width(b) * tga_height(b),
    ;
}

/// Decode an uncompressed true-color TGA buffer. Returns the image exactly
/// when the buffer is one this decoder accepts; every pixel is swizzled
/// from BGRA, with fully transparent pixels decoding to opaque black.
pub fn decode_tga(buf: &Vec<u8>) -> (r: Option<TgaImage>)
    ensures
        r is Some <==> tga_valid(buf@),
        r is Some ==> {
            let img = r->0;
            &&& img.width == tga_width(buf@)
            &&& img.height == tga_height(buf@)
            &&& img.rgba@.len() == img.width * img.height * 4
            &&& forall|k: int|
                0 <= k < img.width * img.height ==> #[trigger] img.rgba@.subrange(
                    4 * k,
                    4 * k + 4,
                ) == tga_pixel(buf@, k)
        },
{
    if buf.len() < TGA_HEADER {
        return None;
    }
    if buf[0] != 0 || buf[1] != 0 || buf[2] != 2 || buf[16] != 32 {
        return None;
    }
    let width: usize = buf[12] as usize + 256 * (buf[13] as usize);
    let height: usize = buf[14] as usize + 256 * (buf[15] as usize);
    proof {
        assert(0 <= (width as int) * (height as int) <= 65535 * 65535) by (nonlinear_arith)
            requires
                0 <= width <= 65535,
                0 <= height <= 65535,
        ;
    }
    let need: u64 = TGA_HEADER as u64 + (width as u64) * (height as u64) * 4;
    let buflen: usize = buf.len();
    if (buflen as u64) < need {
        return None;
    }
    let count = width * height;
    let mut rgba: Vec<u8> = Vec::new();
    let mut k: usize = 0;
    while k < count
        invariant
            k <= count,
            count == tga_width(buf@) * tga_height(buf@),
            count <= 65535 * 65535,
            TGA_HEADER + count * 4 <= buf@.len(),
            buf@.len() == buflen,
            tga_valid(buf@),
            rgba@.len() == 4 * k,
            forall|j: int|
                0 <= j < k ==> #[trigger] rgba@.subrange(4 * j, 4 * j + 4) == tga_pixel(buf@, j),
        decreases count - k,
    {
        proof {
            lemma_tga_src_in_range(buf@, k as int);
        }
        let ghost before = rgba@;
        let src = TGA_HEADER + 4 * k;
        if buf[src + 3] == 0 {
            rgba.push(0);
            rgba.push(0);
            rgba.push(0);
            rgba.push(255);
        } else {
            rgba.push(buf[src + 2]);
            rgba.push(buf[src + 1]);
            rgba.push(buf[src]);
            rgba.push(buf[src + 3]);
        }
        proof {
            assert(rgba@.subrange(4 * (k as int), 4 * (k as int) + 4) =~= tga_pixel(
                buf@,
                k as int,
            ));
            assert forall|j: int|
                0 <= j < k + 1 implies #[trigger] rgba@.subrange(4 * j, 4 * j + 4) == tga_pixel(
                buf@,
                j,
            ) by {
                if j < k {
                    assert(rgba@.subrange(4 * j, 4 * j + 4) =~= before.subrange(4 * j, 4 * j + 4));
                }
            }
        }
        k = k + 1;
    }
    Some(TgaImage { rgba, width, height })
}

} // verus!
