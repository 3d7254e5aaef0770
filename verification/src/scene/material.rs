use vstd::prelude::*;

verus! {

/// The little-endian `u32` made of four bytes.
pub open spec fn le_u32(b0: u8, b1: u8, b2: u8, b3: u8) -> int {
    b0 + 256 * b1 + 65536 * b2 + 16777216 * b3
}

/// Pixel `i` of row-major RGBA8 bytes, as one little-endian `u32`.
pub open spec fn packed_pixel(raw: Seq<u8>, i: int) -> int {
    le_u32(raw[4 * i], raw[4 * i + 1], raw[4 * i + 2], raw[4 * i + 3])
}

/// Packs a `width` by `height` image given as row-major RGBA8 bytes into one
/// `u32` per pixel, row by row: the pixel at column `x` of row `y` goes to
/// `y * width + x`, its four bytes read as a little-endian number.
pub fn pack_rgba8(width: u32, height: u32, raw: &Vec<u8>) -> (r: Vec<u32>)
    requires
        width * height <= u32::MAX,
        raw@.len() == 4 * width * height,
    ensures
        r@.len() == width * height,
        forall|i: int| 0 <= i < width * height ==> #[trigger] r@[i] == packed_pixel(raw@, i),
{
    let mut out: Vec<u32> = Vec::with_capacity((width * height) as usize);
    let mut y: u32 = 0;
    while y < height
        invariant
            y <= height,
            width * height <= u32::MAX,
            raw@.len() == 4 * width * height,
            out@.len() == y * width,
            forall|i: int| 0 <= i < out@.len() ==> #[trigger] out@[i] == packed_pixel(raw@, i),
        decreases height - y,
    {
        let mut x: u32 = 0;
        proof {
            assert((y + 1) * width <= width * height) by (nonlinear_arith)
                requires
                    y < height,
            ;
            assert((y + 1) * width == y * width + width) by (nonlinear_arith);
        }
        while x < width
            invariant
                x <= width,
                y < height,
                width * height <= u32::MAX,
                (y + 1) * width <= width * height,
                (y + 1) * width == y * width + width,
                raw@.len() == 4 * width * height,
                out@.len() == y * width + x,
                forall|i: int| 0 <= i < out@.len() ==> #[trigger] out@[i] == packed_pixel(raw@, i),
            decreases width - x,
        {
            let i = (y * width + x) as usize;
            proof {
                assert(4 * (i as int) + 3 < 4 * width * height) by (nonlinear_arith)
                    requires
                        i < (y + 1) * width,
                        (y + 1) * width <= width * height,
                ;
                assert(raw@.len() == raw.len());
            }
            let b0 = raw[4 * i];
            let b1 = raw[4 * i + 1];
            let b2 = raw[4 * i + 2];
            let b3 = raw[4 * i + 3];
            let val = (b0 as u32) + (b1 as u32) * 256 + (b2 as u32) * 65536 + (b3 as u32) * 16777216;
            out.push(val);
            x = x + 1;
        }
        y = y + 1;
    }
    proof {
        assert(height * width == width * height) by (nonlinear_arith);
    }
    out
}

} // verus!
