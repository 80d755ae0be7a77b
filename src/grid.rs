//! Row-major addressing of a `width` x `height` pixel grid.
use vstd::prelude::*;
use vstd::arithmetic::div_mod::{lemma_fundamental_div_mod, lemma_fundamental_div_mod_converse};

verus! {

/// Position of pixel `(x, y)` in a row-major buffer of the given width.
pub open spec fn pixel_index(width: int, x: int, y: int) -> int {
    y * width + x
}

/// Every in-bounds pixel has an in-bounds index, from which its column and row
/// are recovered by remainder and quotient.
pub proof fn lemma_pixel_index(width: int, height: int, x: int, y: int)
    requires
        0 <= x < width,
        0 <= y < height,
    ensures
        0 <= pixel_index(width, x, y) < width * height,
        pixel_index(width, x, y) % width == x,
        pixel_index(width, x, y) / width == y,
{
    assert(0 <= y * width) by (nonlinear_arith)
        requires
            0 <= y,
            0 <= width,
    ;
    assert(y * width + x < width * height) by (nonlinear_arith)
        requires
            0 <= x < width,
            0 <= y < height,
    ;
    lemma_fundamental_div_mod_converse(pixel_index(width, x, y), width, y, x);
}

/// An index into the buffer names the pixel at its remainder and quotient.
pub proof fn lemma_index_pixel(width: int, height: int, i: int)
    requires
        0 < width,
        0 <= i < width * height,
    ensures
        0 <= i % width < width,
        0 <= i / width < height,
        pixel_index(width, i % width, i / width) == i,
{
    lemma_fundamental_div_mod(i, width);
    let q = i / width;
    let r = i % width;
    assert(0 <= q < height) by (nonlinear_arith)
        requires
            i == width * q + r,
            0 <= r < width,
            0 <= i < width * height,
    ;
    assert(q * width == width * q) by (nonlinear_arith);
}

} // verus!
