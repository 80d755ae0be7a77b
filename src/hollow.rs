//! Outlined circle by the midpoint method, one octant walked and mirrored
//! eight ways about the center of a square buffer.
use vstd::prelude::*;
use crate::grid::{lemma_index_pixel, lemma_pixel_index, pixel_index};

verus! {

/// Why an outline could not be drawn.
#[derive(Clone, Copy, Debug, PartialEq, Eq)]
pub enum RasterError {
    /// The outline is mirrored across the diagonal, so the buffer must be square.
    NonSquareBuffer,
}

/// Twice the height of the walk above the center after `k` steps. The walk
/// starts half a pixel inside the radius and, each time a step to the right
/// leaves the circle, moves down one pixel.
pub open spec fn walk_t(r: int, k: nat) -> int
    decreases k,
{
    if k == 0 {
        2 * r - 1
    } else {
        let t = walk_t(r, (k - 1) as nat);
        if 4 * k * k + t * t > 4 * r * r {
            t - 2
        } else {
            t
        }
    }
}

/// Step `k` of the walk lies in the first octant and inside a buffer of side `s`.
pub open spec fn drawn(s: int, r: int, k: nat) -> bool {
    2 * k <= walk_t(r, k) && 2 * k < s && walk_t(r, k) < s
}

/// `(px, py)` is one of the eight mirror images of `(a, b)` about the center
/// of a buffer of side `s`.
pub open spec fn in_orbit(s: int, a: int, b: int, px: int, py: int) -> bool {
    ||| (px == a || px == s - 1 - a) && (py == b || py == s - 1 - b)
    ||| (px == b || px == s - 1 - b) && (py == a || py == s - 1 - a)
}

/// Column of the pixel plotted at step `k`.
pub open spec fn step_col(s: int, k: int) -> int {
    k + s / 2
}

/// Row of the pixel plotted at step `k`.
pub open spec fn step_row(s: int, r: int, k: nat) -> int {
    (walk_t(r, k) + s) / 2
}

/// `(px, py)` is plotted by one of the first `n` steps.
pub open spec fn hollow_upto(s: int, r: int, n: nat, px: int, py: int) -> bool
    decreases n,
{
    if n == 0 {
        false
    } else {
        let k = (n - 1) as nat;
        hollow_upto(s, r, k, px, py) || (drawn(s, r, k) && in_orbit(
            s,
            step_col(s, k as int),
            step_row(s, r, k),
            px,
            py,
        ))
    }
}

/// `(px, py)` lies on the outline of the circle of radius `r` in a buffer of side `s`.
pub open spec fn hollow_member(s: int, r: int, px: int, py: int) -> bool {
    hollow_upto(s, r, ((s + 1) / 2) as nat, px, py)
}

proof fn lemma_walk_nonincreasing(r: int, k: nat, m: nat)
    requires
        k <= m,
    ensures
        walk_t(r, m) <= walk_t(r, k),
    decreases m - k,
{
    if k < m {
        lemma_walk_nonincreasing(r, k, (m - 1) as nat);
    }
}

proof fn lemma_upto_stable(s: int, r: int, k: nat, n: nat, px: int, py: int)
    requires
        k <= n,
        2 * k > walk_t(r, k),
    ensures
        hollow_upto(s, r, n, px, py) == hollow_upto(s, r, k, px, py),
    decreases n - k,
{
    if k < n {
        let m = (n - 1) as nat;
        lemma_upto_stable(s, r, k, m, px, py);
        lemma_walk_nonincreasing(r, k, m);
    }
}

proof fn lemma_upto_symmetric(s: int, r: int, n: nat, px: int, py: int)
    ensures
        hollow_upto(s, r, n, px, py) == hollow_upto(s, r, n, s - 1 - px, py),
        hollow_upto(s, r, n, px, py) == hollow_upto(s, r, n, px, s - 1 - py),
        hollow_upto(s, r, n, px, py) == hollow_upto(s, r, n, py, px),
    decreases n,
{
    if n > 0 {
        lemma_upto_symmetric(s, r, (n - 1) as nat, px, py);
    }
}

/// The outline is symmetric about the buffer's center: mirroring it left to
/// right, top to bottom or across the main diagonal gives the same pixels, and
/// so does a quarter turn.
pub proof fn lemma_hollow_symmetric(s: int, r: int, px: int, py: int)
    ensures
        hollow_member(s, r, px, py) == hollow_member(s, r, s - 1 - px, py),
        hollow_member(s, r, px, py) == hollow_member(s, r, px, s - 1 - py),
        hollow_member(s, r, px, py) == hollow_member(s, r, py, px),
        hollow_member(s, r, px, py) == hollow_member(s, r, s - 1 - py, px),
{
    let n = ((s + 1) / 2) as nat;
    lemma_upto_symmetric(s, r, n, px, py);
    lemma_upto_symmetric(s, r, n, py, px);
    lemma_upto_symmetric(s, r, n, s - 1 - py, px);
}

/// Sets one pixel of a square buffer.
fn plot(pixels: &mut [u32], s: usize, x: usize, y: usize, color: u32)
    requires
        old(pixels)@.len() == s * s,
        x < s,
        y < s,
    ensures
        final(pixels)@.len() == old(pixels)@.len(),
        forall|px: int, py: int|
            0 <= px < s && 0 <= py < s ==> #[trigger] final(pixels)@[pixel_index(s as int, px, py)]
                == if px == x && py == y {
                color
            } else {
                old(pixels)@[pixel_index(s as int, px, py)]
            },
{
    let len = pixels.len();
    proof {
        lemma_pixel_index(s as int, s as int, x as int, y as int);
        assert(y * s <= y * s + x < len);
    }
    pixels[y * s + x] = color;
    proof {
        assert forall|px: int, py: int| 0 <= px < s && 0 <= py < s implies #[trigger] pixels@[pixel_index(
            s as int,
            px,
            py,
        )] == if px == x && py == y {
            color
        } else {
            old(pixels)@[pixel_index(s as int, px, py)]
        } by {
            lemma_pixel_index(s as int, s as int, px, py);
        }
    }
}

/// Sets the eight mirror images of `(a, b)`. Each image of an in-bounds pixel
/// under these reflections is in bounds too, so no write is skipped.
fn plot_orbit(pixels: &mut [u32], s: usize, a: usize, b: usize, color: u32)
    requires
        old(pixels)@.len() == s * s,
        a < s,
        b < s,
    ensures
        final(pixels)@.len() == old(pixels)@.len(),
        forall|px: int, py: int|
            0 <= px < s && 0 <= py < s ==> #[trigger] final(pixels)@[pixel_index(s as int, px, py)]
                == if in_orbit(s as int, a as int, b as int, px, py) {
                color
            } else {
                old(pixels)@[pixel_index(s as int, px, py)]
            },
{
    let ma = s - 1 - a;
    let mb = s - 1 - b;
    plot(pixels, s, a, b, color);
    plot(pixels, s, b, a, color);
    plot(pixels, s, a, mb, color);
    plot(pixels, s, mb, a, color);
    plot(pixels, s, ma, b, color);
    plot(pixels, s, b, ma, color);
    plot(pixels, s, ma, mb, color);
    plot(pixels, s, mb, ma, color);
}

/// Clears the buffer to `background`, then draws in `foreground` the outline
/// of the circle of the given radius around the buffer's center. The buffer
/// must be square; otherwise it is left as it is and an error is returned.
pub fn draw_hollow_circle(
    pixels: &mut [u32],
    width: usize,
    height: usize,
    radius: usize,
    foreground: u32,
    background: u32,
) -> (res: Result<(), RasterError>)
    requires
        old(pixels)@.len() == width * height,
    ensures
        final(pixels)@.len() == old(pixels)@.len(),
        res is Err <==> width != height,
        res is Err ==> final(pixels)@ == old(pixels)@,
        res is Ok ==> forall|x: int, y: int|
            0 <= x < width && 0 <= y < height ==> #[trigger] final(pixels)@[pixel_index(
                width as int,
                x,
                y,
            )] == if hollow_member(width as int, radius as int, x, y) {
                foreground
            } else {
                background
            },
        res is Ok ==> forall|x: int, y: int|
            0 <= x < width && 0 <= y < height ==> {
                &&& #[trigger] final(pixels)@[pixel_index(width as int, x, y)]
                    == final(pixels)@[pixel_index(width as int, width - 1 - x, y)]
                &&& final(pixels)@[pixel_index(width as int, x, y)] == final(pixels)@[pixel_index(
                    width as int,
                    x,
                    height - 1 - y,
                )]
                &&& final(pixels)@[pixel_index(width as int, x, y)] == final(pixels)@[pixel_index(
                    width as int,
                    y,
                    x,
                )]
            },
{
    if width != height {
        return Err(RasterError::NonSquareBuffer);
    }
    let s = width;
    let n = pixels.len();
    let mut i: usize = 0;
    while i < n
        invariant
            n == pixels@.len(),
            n == s * s,
            i <= n,
            forall|j: int| 0 <= j < i ==> #[trigger] pixels@[j] == background,
        decreases n - i,
    {
        pixels[i] = background;
        i = i + 1;
    }
    proof {
        assert(s <= 0x1_0000_0000) by (nonlinear_arith)
            requires
                n == s * s,
                n <= usize::MAX,
                usize::MAX <= 0xFFFF_FFFF_FFFF_FFFF,
        ;
        assert forall|x: int, y: int| 0 <= x < s && 0 <= y < s implies #[trigger] pixels@[pixel_index(
            s as int,
            x,
            y,
        )] == if hollow_upto(s as int, radius as int, 0, x, y) {
            foreground
        } else {
            background
        } by {
            lemma_pixel_index(s as int, s as int, x, y);
        }
    }
    let ghost si = s as int;
    let ghost r = radius as int;
    let half = s / 2 + s % 2;
    let rr = radius as u128;
    let mut k: usize = 0;
    let mut j: u128 = 0;
    while k < half && 2 * (k as u128) + 2 * j + 1 <= 2 * rr
        invariant
            n == pixels@.len(),
            n == s * s,
            s <= 0x1_0000_0000,
            si == s as int,
            r == radius as int,
            rr == radius,
            half == (si + 1) / 2,
            k <= half,
            j <= k,
            walk_t(r, k as nat) == 2 * r - 1 - 2 * j,
            forall|x: int, y: int|
                0 <= x < s && 0 <= y < s ==> #[trigger] pixels@[pixel_index(si, x, y)] == if hollow_upto(
                    si,
                    r,
                    k as nat,
                    x,
                    y,
                ) {
                    foreground
                } else {
                    background
                },
        decreases half - k,
    {
        let t_plus_s = 2 * rr - 1 - 2 * j + s as u128;
        if t_plus_s < 2 * s as u128 {
            let a = k + s / 2;
            let b = (t_plus_s / 2) as usize;
            let ghost prev = pixels@;
            plot_orbit(pixels, s, a, b, foreground);
            proof {
                assert(drawn(si, r, k as nat));
                assert(a == step_col(si, k as int));
                assert(b == step_row(si, r, k as nat));
            }
        } else {
            proof {
                assert(!drawn(si, r, k as nat));
            }
        }
        let k1 = k as u128 + 1;
        let d = 2 * j + 1;
        proof {
            let t = 2 * r - 1 - 2 * j;
            assert(4 * r * r - t * t == d * (4 * r - d)) by (nonlinear_arith)
                requires
                    t == 2 * r - 1 - 2 * j,
                    d == 2 * j + 1,
            ;
            assert(d <= 2 * rr);
            assert(rr <= 0xFFFF_FFFF_FFFF_FFFF);
            assert(d * (4 * rr - d) <= 0x2_0000_0001 * 4 * 0xFFFF_FFFF_FFFF_FFFF) by (nonlinear_arith)
                requires
                    d <= 0x2_0000_0001,
                    d <= 2 * rr,
                    rr <= 0xFFFF_FFFF_FFFF_FFFF,
            ;
            assert(4 * k1 * k1 <= 4 * 0x1_0000_0001 * 0x1_0000_0001) by (nonlinear_arith)
                requires
                    k1 <= 0x1_0000_0001,
            ;
        }
        if 4 * k1 * k1 > d * (4 * rr - d) {
            j = j + 1;
        }
        k = k + 1;
    }
    proof {
        if k < half {
            assert forall|x: int, y: int| 0 <= x < s && 0 <= y < s implies hollow_upto(
                si,
                r,
                half as nat,
                x,
                y,
            ) == hollow_upto(si, r, k as nat, x, y) by {
                lemma_upto_stable(si, r, k as nat, half as nat, x, y);
            }
        }
        assert forall|x: int, y: int| 0 <= x < s && 0 <= y < s implies {
            &&& #[trigger] pixels@[pixel_index(si, x, y)] == pixels@[pixel_index(si, si - 1 - x, y)]
            &&& pixels@[pixel_index(si, x, y)] == pixels@[pixel_index(si, x, si - 1 - y)]
            &&& pixels@[pixel_index(si, x, y)] == pixels@[pixel_index(si, y, x)]
        } by {
            lemma_hollow_symmetric(si, r, x, y);
        }
    }
    Ok(())
}

} // verus!
