//! Tile-based foreground / background fills.
use vstd::prelude::*;
use crate::grid::{lemma_index_pixel, lemma_pixel_index, pixel_index};

verus! {

/// Color of pixel `(x, y)` in diagonal stripes of the given tile size.
pub open spec fn stripes_color(x: int, y: int, tile_size: int, foreground: u32, background: u32) -> u32 {
    if ((x + y) / tile_size) % 2 == 0 {
        background
    } else {
        foreground
    }
}

/// Color of pixel `(x, y)` in a checkerboard of the given tile size.
pub open spec fn checker_color(x: int, y: int, tile_size: int, foreground: u32, background: u32) -> u32 {
    if (x / tile_size + y / tile_size) % 2 == 0 {
        background
    } else {
        foreground
    }
}

/// Fills the buffer with diagonal stripes `tile_size` pixels wide, starting
/// with the background at the top-left corner.
pub fn stripes_pattern(
    pixels: &mut [u32],
    width: usize,
    height: usize,
    tile_size: usize,
    foreground: u32,
    background: u32,
)
    requires
        old(pixels)@.len() == width * height,
        tile_size > 0,
    ensures
        final(pixels)@.len() == old(pixels)@.len(),
        forall|x: int, y: int|
            0 <= x < width && 0 <= y < height ==> #[trigger] final(pixels)@[pixel_index(
                width as int,
                x,
                y,
            )] == stripes_color(x, y, tile_size as int, foreground, background),
{
    let n = pixels.len();
    let mut i: usize = 0;
    while i < n
        invariant
            n == pixels@.len(),
            n == width * height,
            tile_size > 0,
            i <= n,
            forall|j: int|
                0 <= j < i ==> #[trigger] pixels@[j] == stripes_color(
                    j % width as int,
                    j / width as int,
                    tile_size as int,
                    foreground,
                    background,
                ),
        decreases n - i,
    {
        proof {
            lemma_index_pixel(width as int, height as int, i as int);
        }
        let x = i % width;
        let y = i / width;
        let band = (x as u128 + y as u128) / tile_size as u128;
        pixels[i] = if band % 2 == 0 {
            background
        } else {
            foreground
        };
        i = i + 1;
    }
    proof {
        assert forall|x: int, y: int| 0 <= x < width && 0 <= y < height implies #[trigger] pixels@[pixel_index(
            width as int,
            x,
            y,
        )] == stripes_color(x, y, tile_size as int, foreground, background) by {
            lemma_pixel_index(width as int, height as int, x, y);
        }
    }
}

/// Fills the buffer with a checkerboard of `tile_size` squares, starting with
/// the background at the top-left corner.
pub fn checker_pattern(
    pixels: &mut [u32],
    width: usize,
    height: usize,
    tile_size: usize,
    foreground: u32,
    background: u32,
)
    requires
        old(pixels)@.len() == width * height,
        tile_size > 0,
    ensures
        final(pixels)@.len() == old(pixels)@.len(),
        forall|x: int, y: int|
            0 <= x < width && 0 <= y < height ==> #[trigger] final(pixels)@[pixel_index(
                width as int,
                x,
                y,
            )] == checker_color(x, y, tile_size as int, foreground, background),
{
    let n = pixels.len();
    let mut i: usize = 0;
    while i < n
        invariant
            n == pixels@.len(),
            n == width * height,
            tile_size > 0,
            i <= n,
            forall|j: int|
                0 <= j < i ==> #[trigger] pixels@[j] == checker_color(
                    j % width as int,
                    j / width as int,
                    tile_size as int,
                    foreground,
                    background,
                ),
        decreases n - i,
    {
        proof {
            lemma_index_pixel(width as int, height as int, i as int);
        }
        let x = i % width;
        let y = i / width;
        let parity = (x / tile_size) as u128 + (y / tile_size) as u128;
        pixels[i] = if parity % 2 == 0 {
            background
        } else {
            foreground
        };
        i = i + 1;
    }
    proof {
        assert forall|x: int, y: int| 0 <= x < width && 0 <= y < height implies #[trigger] pixels@[pixel_index(
            width as int,
            x,
            y,
        )] == checker_color(x, y, tile_size as int, foreground, background) by {
            lemma_pixel_index(width as int, height as int, x, y);
        }
    }
}

} // verus!
