//! 3x3 Gaussian blur over a flat RGBA pixel buffer.
//!
//! Every interior pixel of the output holds the 3x3 weighted average
//! (weights 1-2-1 / 2-4-2 / 1-2-1, divided by 16) of the red channel of its
//! neighbourhood, written into red, green and blue alike, with alpha forced
//! to fully opaque. Border pixels are left at zero on purpose: the kernel
//! neither wraps nor clamps at the edges.

use vstd::prelude::*;
use vstd::arithmetic::div_mod::lemma_div_multiples_vanish;

verus! {

/// Red channel of the pixel at column `x`, row `y` of a row-major RGBA
/// buffer of the given width.
pub open spec fn red_at(data: Seq<u8>, width: int, x: int, y: int) -> int {
    data[4 * (y * width + x)] as int
}

/// The pixel at `(x, y)` is interior: not on the first or last row or
/// column.
pub open spec fn is_interior(width: int, height: int, x: int, y: int) -> bool {
    1 <= x < width - 1 && 1 <= y < height - 1
}

/// The blurred red value at an interior position: the 3x3 neighbourhood's
/// red channel under the normalised Gaussian weights, rounded down.
pub open spec fn blur_red(data: Seq<u8>, width: int, x: int, y: int) -> int {
    (red_at(data, width, x - 1, y - 1) + 2 * red_at(data, width, x, y - 1) + red_at(
        data,
        width,
        x + 1,
        y - 1,
    ) + 2 * red_at(data, width, x - 1, y) + 4 * red_at(data, width, x, y) + 2 * red_at(
        data,
        width,
        x + 1,
        y,
    ) + red_at(data, width, x - 1, y + 1) + 2 * red_at(data, width, x, y + 1) + red_at(
        data,
        width,
        x + 1,
        y + 1,
    )) / 16
}

/// What the blur writes at channel `c` of the pixel at `(x, y)`: the
/// blurred red value in the three colour channels and opaque alpha for an
/// interior pixel, and zero everywhere on the border.
pub open spec fn blur_spec_at(
    data: Seq<u8>,
    width: int,
    height: int,
    x: int,
    y: int,
    c: int,
) -> u8 {
    if is_interior(width, height, x, y) {
        if c == 3 {
            255u8
        } else {
            blur_red(data, width, x, y) as u8
        }
    } else {
        0u8
    }
}

/// A flat pixel index decomposes uniquely into column, row and channel.
proof fn lemma_pixel_index_injective(
    width: int,
    x1: int,
    y1: int,
    x2: int,
    y2: int,
    c1: int,
    c2: int,
)
    requires
        0 <= x1 < width,
        0 <= x2 < width,
        0 <= y1,
        0 <= y2,
        0 <= c1 < 4,
        0 <= c2 < 4,
        4 * (y1 * width + x1) + c1 == 4 * (y2 * width + x2) + c2,
    ensures
        x1 == x2 && y1 == y2 && c1 == c2,
{
    assert(x1 == x2 && y1 == y2 && c1 == c2) by (nonlinear_arith)
        requires
            0 <= x1 < width,
            0 <= x2 < width,
            0 <= y1,
            0 <= y2,
            0 <= c1 < 4,
            0 <= c2 < 4,
            4 * (y1 * width + x1) + c1 == 4 * (y2 * width + x2) + c2;
}

/// A valid pixel position stays inside the buffer.
proof fn lemma_pixel_index_bounds(width: int, height: int, x: int, y: int)
    requires
        0 <= x < width,
        0 <= y < height,
    ensures
        0 <= y * width + x,
        y * width + x < width * height,
{
    assert(0 <= y * width + x && y * width + x < width * height) by (nonlinear_arith)
        requires
            0 <= x < width,
            0 <= y < height;
}

/// Applies the 3x3 Gaussian kernel to an RGBA buffer, returning a buffer
/// of the same size; see `blur_spec_at` for the exact value at every
/// position. When the image is narrower or shorter than 3 there is no
/// interior, and the output is all zeros.
#[verifier::loop_isolation(false)]
#[verifier::rlimit(100)]
pub fn gaussian_blur(data: &Vec<u8>, width: usize, height: usize) -> (out: Vec<u8>)
    requires
        data@.len() == width * height * 4,
    ensures
        out@.len() == data@.len(),
        forall|x: int, y: int, c: int| 0 <= x < width && 0 <= y < height && 0 <= c < 4
            ==> (#[trigger] out@[4 * (y * width + x) + c]) == blur_spec_at(
                data@, width as int, height as int, x, y, c),
{
    let len = data.len();
    let mut out: Vec<u8> = Vec::new();
    let mut t: usize = 0;
    while t < len
        invariant
            t <= len,
            out@.len() == t,
            forall|p: int| 0 <= p < t ==> (#[trigger] out@[p]) == 0u8,
        decreases len - t,
    {
        out.push(0u8);
        t = t + 1;
    }
    proof {
        assert forall|x: int, y: int, c: int| 0 <= x < width && 0 <= y < height && 0 <= c < 4
            implies 0 <= #[trigger] (4 * (y * width + x) + c) < len by {
            lemma_pixel_index_bounds(width as int, height as int, x, y);
        }
    }

    if width < 3 || height < 3 {
        return out;
    }

    let mut y: usize = 1;
    while y + 1 < height
        invariant
            3 <= width,
            3 <= height,
            1 <= y,
            y <= height - 1,
            out@.len() == len,
            forall|xx: int, yy: int, cc: int| 0 <= xx < width && 0 <= yy < height && 0 <= cc
                < 4 ==> (#[trigger] out@[4 * (yy * width + xx) + cc]) == (if yy < y {
                blur_spec_at(data@, width as int, height as int, xx, yy, cc)
            } else {
                0u8
            }),
        decreases height - y,
    {
        let mut x: usize = 1;
        while x + 1 < width
            invariant
                1 <= x,
                x <= width - 1,
                y <= height - 2,
                out@.len() == len,
                forall|xx: int, yy: int, cc: int| 0 <= xx < width && 0 <= yy < height && 0
                    <= cc < 4 ==> (#[trigger] out@[4 * (yy * width + xx) + cc]) == (if yy < y
                    || (yy == y && xx < x) {
                    blur_spec_at(data@, width as int, height as int, xx, yy, cc)
                } else {
                    0u8
                }),
            decreases width - x,
        {
            proof {
                lemma_pixel_index_bounds(width as int, height as int, x - 1, y - 1);
                lemma_pixel_index_bounds(width as int, height as int, x as int, y - 1);
                lemma_pixel_index_bounds(width as int, height as int, x + 1, y - 1);
                lemma_pixel_index_bounds(width as int, height as int, x - 1, y as int);
                lemma_pixel_index_bounds(width as int, height as int, x as int, y as int);
                lemma_pixel_index_bounds(width as int, height as int, x + 1, y as int);
                lemma_pixel_index_bounds(width as int, height as int, x - 1, y + 1);
                lemma_pixel_index_bounds(width as int, height as int, x as int, y + 1);
                lemma_pixel_index_bounds(width as int, height as int, x + 1, y + 1);
            }
            let row0 = (y - 1) * width;
            let row1 = y * width;
            let row2 = (y + 1) * width;
            let sum: u32 = data[4 * (row0 + x - 1)] as u32 + 2 * (data[4 * (row0 + x)] as u32)
                + data[4 * (row0 + x + 1)] as u32 + 2 * (data[4 * (row1 + x - 1)] as u32) + 4
                * (data[4 * (row1 + x)] as u32) + 2 * (data[4 * (row1 + x + 1)] as u32)
                + data[4 * (row2 + x - 1)] as u32 + 2 * (data[4 * (row2 + x)] as u32)
                + data[4 * (row2 + x + 1)] as u32;
            let v = (sum / 16) as u8;
            proof {
                assert(v == blur_spec_at(data@, width as int, height as int, x as int, y as int,
                    0));
            }
            let ghost before = out@;
            let base = 4 * (row1 + x);
            out.set(base, v);
            out.set(base + 1, v);
            out.set(base + 2, v);
            out.set(base + 3, 255);
            proof {
                assert forall|xx: int, yy: int, cc: int| 0 <= xx < width && 0 <= yy < height
                    && 0 <= cc < 4 implies (#[trigger] out@[4 * (yy * width + xx) + cc]) == (
                if yy < y || (yy == y && xx < x + 1) {
                    blur_spec_at(data@, width as int, height as int, xx, yy, cc)
                } else {
                    0u8
                }) by {
                    lemma_pixel_index_bounds(width as int, height as int, xx, yy);
                    if xx == x && yy == y {
                        assert(4 * (yy * width + xx) == base);
                    } else {
                        let idx = 4 * (yy * width + xx) + cc;
                        if idx == base + 0 {
                            lemma_pixel_index_injective(width as int, xx, yy, x as int,
                                y as int, cc, 0);
                        }
                        if idx == base + 1 {
                            lemma_pixel_index_injective(width as int, xx, yy, x as int,
                                y as int, cc, 1);
                        }
                        if idx == base + 2 {
                            lemma_pixel_index_injective(width as int, xx, yy, x as int,
                                y as int, cc, 2);
                        }
                        if idx == base + 3 {
                            lemma_pixel_index_injective(width as int, xx, yy, x as int,
                                y as int, cc, 3);
                        }
                        assert(out@[idx] == before[idx]);
                    }
                }
            }
            x = x + 1;
        }
        y = y + 1;
    }
    out
}

/// Law: blurring a uniform image reproduces its red channel. If every
/// pixel of the buffer has red value `r`, the blurred red value at every
/// interior position is exactly `r`, because the kernel weights sum to 16
/// before the division by 16.
pub proof fn lemma_blur_uniform_image(data: Seq<u8>, width: int, height: int, r: u8, x: int, y: int)
    requires
        data.len() == width * height * 4,
        forall|xx: int, yy: int| 0 <= xx < width && 0 <= yy < height
            ==> #[trigger] red_at(data, width, xx, yy) == r as int,
        is_interior(width, height, x, y),
    ensures
        blur_red(data, width, x, y) == r as int,
{
    assert(red_at(data, width, x - 1, y - 1) == r as int);
    assert(red_at(data, width, x, y - 1) == r as int);
    assert(red_at(data, width, x + 1, y - 1) == r as int);
    assert(red_at(data, width, x - 1, y) == r as int);
    assert(red_at(data, width, x, y) == r as int);
    assert(red_at(data, width, x + 1, y) == r as int);
    assert(red_at(data, width, x - 1, y + 1) == r as int);
    assert(red_at(data, width, x, y + 1) == r as int);
    assert(red_at(data, width, x + 1, y + 1) == r as int);
    lemma_div_multiples_vanish(r as int, 16);
    assert(16 * (r as int) / 16 == r as int);
}

} // verus!
