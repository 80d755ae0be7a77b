//! Hard-edged solid circle centered in the buffer.
use vstd::prelude::*;
use crate::grid::{lemma_index_pixel, lemma_pixel_index, pixel_index};

verus! {

/// Pixel `(x, y)` lies inside or on a circle of the given radius centered in
/// a `width` x `height` buffer. The pixel is sampled at its center and all
/// coordinates are doubled, so the test is exact on integers.
pub open spec fn solid_inside(width: int, height: int, radius: int, x: int, y: int) -> bool {
    let dx = width - 2 * x - 1;
    let dy = height - 2 * y - 1;
    dx * dx + dy * dy <= (2 * radius) * (2 * radius)
}

/// Distance along one axis, doubled, between the center of pixel `p` and the
/// middle of a line of `size` pixels.
fn doubled_offset(size: usize, p: usize) -> (r: u128)
    requires
        p < size,
    ensures
        r == if size >= 2 * p + 1 { size - 2 * p - 1 } else { 2 * p + 1 - size },
        r < size,
{
    let a = 2 * (p as u128) + 1;
    if size as u128 >= a {
        size as u128 - a
    } else {
        a - size as u128
    }
}

proof fn lemma_sum_of_squares_fits(w: int, h: int, a: int, b: int)
    requires
        0 <= a < w,
        0 <= b < h,
        w * h <= usize::MAX,
    ensures
        a * a + b * b < u128::MAX,
{
    assert(a + b <= w * h - 1) by (nonlinear_arith)
        requires
            0 <= a < w,
            0 <= b < h,
    ;
    assert(a * a + b * b <= (a + b) * (a + b)) by (nonlinear_arith)
        requires
            0 <= a,
            0 <= b,
    ;
    assert(usize::MAX <= 0xFFFF_FFFF_FFFF_FFFF);
    assert((a + b) * (a + b) <= 0xFFFF_FFFF_FFFF_FFFE * 0xFFFF_FFFF_FFFF_FFFE) by (nonlinear_arith)
        requires
            0 <= a + b <= 0xFFFF_FFFF_FFFF_FFFE,
    ;
}

/// The square of twice the radius, or `u128::MAX` where it does not fit, which
/// is then larger than any squared distance in a buffer.
fn doubled_radius_squared(radius: usize) -> (r: u128)
    ensures
        radius < 0x8000_0000_0000_0000 ==> r == (2 * radius) * (2 * radius),
        radius >= 0x8000_0000_0000_0000 ==> r == u128::MAX && (2 * radius) * (2 * radius)
            > u128::MAX,
{
    if radius as u128 >= 0x8000_0000_0000_0000 {
        assert((2 * radius) * (2 * radius) > u128::MAX) by (nonlinear_arith)
            requires
                radius >= 0x8000_0000_0000_0000,
        ;
        u128::MAX
    } else {
        let d = 2 * radius as u128;
        assert(d * d <= u128::MAX) by (nonlinear_arith)
            requires
                d < 0x1_0000_0000_0000_0000,
        ;
        d * d
    }
}

/// Sets every pixel whose center lies inside or on the circle of the given
/// radius around the buffer's center to `foreground`, every other to
/// `background`.
pub fn fill_solid_circle(
    pixels: &mut [u32],
    width: usize,
    height: usize,
    radius: usize,
    foreground: u32,
    background: u32,
)
    requires
        old(pixels)@.len() == width * height,
    ensures
        final(pixels)@.len() == old(pixels)@.len(),
        forall|x: int, y: int|
            0 <= x < width && 0 <= y < height ==> #[trigger] final(pixels)@[pixel_index(
                width as int,
                x,
                y,
            )] == if solid_inside(width as int, height as int, radius as int, x, y) {
                foreground
            } else {
                background
            },
{
    let n = pixels.len();
    let r2 = doubled_radius_squared(radius);
    let mut i: usize = 0;
    while i < n
        invariant
            n == pixels@.len(),
            n == width * height,
            i <= n,
            radius < 0x8000_0000_0000_0000 ==> r2 == (2 * radius) * (2 * radius),
            radius >= 0x8000_0000_0000_0000 ==> r2 == u128::MAX && (2 * radius) * (2 * radius)
                > u128::MAX,
            forall|j: int|
                0 <= j < i ==> #[trigger] pixels@[j] == if solid_inside(
                    width as int,
                    height as int,
                    radius as int,
                    j % width as int,
                    j / width as int,
                ) {
                    foreground
                } else {
                    background
                },
        decreases n - i,
    {
        proof {
            lemma_index_pixel(width as int, height as int, i as int);
        }
        let x = i % width;
        let y = i / width;
        let dx = doubled_offset(width, x);
        let dy = doubled_offset(height, y);
        proof {
            lemma_sum_of_squares_fits(width as int, height as int, dx as int, dy as int);
            assert(dx * dx == (width - 2 * x - 1) * (width - 2 * x - 1)) by (nonlinear_arith)
                requires
                    dx == width - 2 * x - 1 || dx == 2 * x + 1 - width,
            ;
            assert(dy * dy == (height - 2 * y - 1) * (height - 2 * y - 1)) by (nonlinear_arith)
                requires
                    dy == height - 2 * y - 1 || dy == 2 * y + 1 - height,
            ;
        }
        let d2 = dx * dx + dy * dy;
        pixels[i] = if d2 <= r2 {
            foreground
        } else {
            background
        };
        i = i + 1;
    }
    proof {
        assert forall|x: int, y: int| 0 <= x < width && 0 <= y < height implies #[trigger] pixels@[pixel_index(
            width as int,
            x,
            y,
        )] == if solid_inside(width as int, height as int, radius as int, x, y) {
            foreground
        } else {
            background
        } by {
            lemma_pixel_index(width as int, height as int, x, y);
        }
    }
}

} // verus!
