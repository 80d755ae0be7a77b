//! Anti-aliased solid circle: supersampled coverage, then a blend.
use vstd::prelude::*;
use crate::color::{blend_spec, BlendPolicy, Coverage};
use crate::grid::{lemma_index_pixel, lemma_pixel_index, pixel_index};

verus! {

/// Samples per pixel along each axis.
pub const AA_RES: u32 = 3;

/// Offset, in quarter pixels, from the buffer's middle to sample `k` of pixel
/// `p` along an axis of `size` pixels. Samples sit at a quarter, a half and
/// three quarters of the pixel, never on its edge.
pub open spec fn sample_offset(size: int, p: int, k: int) -> int {
    2 * size - 4 * p - 1 - k
}

/// Sample `(i, j)` of pixel `(x, y)` lies inside or on the circle.
pub open spec fn sample_inside(w: int, h: int, r: int, x: int, y: int, i: int, j: int) -> bool {
    let a = sample_offset(w, x, i);
    let b = sample_offset(h, y, j);
    a * a + b * b <= 16 * r * r
}

/// Samples of row `j` among the first `n` of that row that lie inside.
pub open spec fn row_hits(w: int, h: int, r: int, x: int, y: int, j: int, n: int) -> int
    decreases n,
{
    if n <= 0 {
        0
    } else {
        row_hits(w, h, r, x, y, j, n - 1) + if sample_inside(w, h, r, x, y, n - 1, j) {
            1int
        } else {
            0int
        }
    }
}

/// Samples of the first `m` rows of pixel `(x, y)` that lie inside.
pub open spec fn pixel_hits(w: int, h: int, r: int, x: int, y: int, m: int) -> int
    decreases m,
{
    if m <= 0 {
        0
    } else {
        pixel_hits(w, h, r, x, y, m - 1) + row_hits(w, h, r, x, y, m - 1, AA_RES as int)
    }
}

/// Fraction of the samples of pixel `(x, y)` that lie inside the circle.
pub open spec fn aa_coverage(w: int, h: int, r: int, x: int, y: int) -> Coverage {
    Coverage {
        covered: pixel_hits(w, h, r, x, y, AA_RES as int) as u32,
        total: (AA_RES * AA_RES) as u32,
    }
}

proof fn lemma_row_hits_bounds(w: int, h: int, r: int, x: int, y: int, j: int, n: int)
    requires
        0 <= n,
    ensures
        0 <= row_hits(w, h, r, x, y, j, n) <= n,
    decreases n,
{
    if n > 0 {
        lemma_row_hits_bounds(w, h, r, x, y, j, n - 1);
    }
}

proof fn lemma_pixel_hits_bounds(w: int, h: int, r: int, x: int, y: int, m: int)
    requires
        0 <= m,
    ensures
        0 <= pixel_hits(w, h, r, x, y, m) <= m * AA_RES,
    decreases m,
{
    if m > 0 {
        lemma_pixel_hits_bounds(w, h, r, x, y, m - 1);
        lemma_row_hits_bounds(w, h, r, x, y, m - 1, AA_RES as int);
    }
}

/// Samples of pixel `(x, y)` that lie inside the circle.
pub open spec fn coverage_count(w: int, h: int, r: int, x: int, y: int) -> int {
    pixel_hits(w, h, r, x, y, AA_RES as int)
}

/// Of the two edges of pixel `p`, the one farther from the middle, in quarter pixels.
pub open spec fn edge_far(size: int, p: int) -> int {
    let hi = 2 * size - 4 * p;
    let lo = hi - 4;
    let ahi = if hi >= 0 { hi } else { -hi };
    let alo = if lo >= 0 { lo } else { -lo };
    if ahi >= alo { ahi } else { alo }
}

/// Distance from the middle to the nearest point of pixel `p`, in quarter pixels.
pub open spec fn edge_near(size: int, p: int) -> int {
    let hi = 2 * size - 4 * p;
    let lo = hi - 4;
    if lo >= 0 {
        lo
    } else if hi <= 0 {
        -hi
    } else {
        0
    }
}

/// Pixel `(x, y)` lies wholly inside or on the circle.
pub open spec fn pixel_within(w: int, h: int, r: int, x: int, y: int) -> bool {
    edge_far(w, x) * edge_far(w, x) + edge_far(h, y) * edge_far(h, y) <= 16 * r * r
}

/// Pixel `(x, y)` lies wholly outside the circle.
pub open spec fn pixel_beyond(w: int, h: int, r: int, x: int, y: int) -> bool {
    edge_near(w, x) * edge_near(w, x) + edge_near(h, y) * edge_near(h, y) > 16 * r * r
}

proof fn lemma_row_hits_monotone(
    w: int,
    h: int,
    r: int,
    x1: int,
    y1: int,
    x2: int,
    y2: int,
    j: int,
    n: int,
)
    requires
        0 <= n <= AA_RES,
        forall|i: int|
            0 <= i < AA_RES ==> sample_inside(w, h, r, x2, y2, i, j) ==> sample_inside(
                w,
                h,
                r,
                x1,
                y1,
                i,
                j,
            ),
    ensures
        row_hits(w, h, r, x2, y2, j, n) <= row_hits(w, h, r, x1, y1, j, n),
    decreases n,
{
    if n > 0 {
        lemma_row_hits_monotone(w, h, r, x1, y1, x2, y2, j, n - 1);
    }
}

proof fn lemma_pixel_hits_monotone(
    w: int,
    h: int,
    r: int,
    x1: int,
    y1: int,
    x2: int,
    y2: int,
    m: int,
)
    requires
        0 <= m <= AA_RES,
        forall|i: int, j: int|
            0 <= i < AA_RES && 0 <= j < AA_RES ==> sample_inside(w, h, r, x2, y2, i, j)
                ==> sample_inside(w, h, r, x1, y1, i, j),
    ensures
        pixel_hits(w, h, r, x2, y2, m) <= pixel_hits(w, h, r, x1, y1, m),
    decreases m,
{
    if m > 0 {
        lemma_pixel_hits_monotone(w, h, r, x1, y1, x2, y2, m - 1);
        lemma_row_hits_monotone(w, h, r, x1, y1, x2, y2, m - 1, AA_RES as int);
    }
}

proof fn lemma_row_hits_all(w: int, h: int, r: int, x: int, y: int, j: int, n: int, all: bool)
    requires
        0 <= n <= AA_RES,
        forall|i: int| 0 <= i < AA_RES ==> sample_inside(w, h, r, x, y, i, j) == all,
    ensures
        row_hits(w, h, r, x, y, j, n) == if all { n } else { 0 },
    decreases n,
{
    if n > 0 {
        lemma_row_hits_all(w, h, r, x, y, j, n - 1, all);
    }
}

proof fn lemma_pixel_hits_all(w: int, h: int, r: int, x: int, y: int, m: int, all: bool)
    requires
        0 <= m <= AA_RES,
        forall|i: int, j: int|
            0 <= i < AA_RES && 0 <= j < AA_RES ==> sample_inside(w, h, r, x, y, i, j) == all,
    ensures
        pixel_hits(w, h, r, x, y, m) == if all { m * AA_RES } else { 0 },
    decreases m,
{
    if m > 0 {
        lemma_pixel_hits_all(w, h, r, x, y, m - 1, all);
        lemma_row_hits_all(w, h, r, x, y, m - 1, AA_RES as int, all);
    }
}

proof fn lemma_sample_between_edges(size: int, p: int, k: int)
    requires
        0 <= k < AA_RES,
    ensures
        edge_near(size, p) * edge_near(size, p) <= sample_offset(size, p, k) * sample_offset(
            size,
            p,
            k,
        ),
        sample_offset(size, p, k) * sample_offset(size, p, k) <= edge_far(size, p) * edge_far(
            size,
            p,
        ),
{
    let a = sample_offset(size, p, k);
    let hi = 2 * size - 4 * p;
    let near = edge_near(size, p);
    let far = edge_far(size, p);
    assert(hi - 4 < a < hi);
    assert(0 <= near && (near <= a || near <= -a) && (a <= far && -a <= far));
    assert(near * near <= a * a) by (nonlinear_arith)
        requires
            0 <= near,
            near <= a || near <= -a,
    ;
    assert(a * a <= far * far) by (nonlinear_arith)
        requires
            a <= far,
            -a <= far,
    ;
}

/// Coverage is a fraction in `[0, 1]`: between none and all of the samples.
pub proof fn lemma_coverage_in_unit(w: int, h: int, r: int, x: int, y: int)
    ensures
        0 <= coverage_count(w, h, r, x, y) <= AA_RES * AA_RES,
        aa_coverage(w, h, r, x, y).wf(),
        aa_coverage(w, h, r, x, y).covered == coverage_count(w, h, r, x, y),
{
    lemma_pixel_hits_bounds(w, h, r, x, y, AA_RES as int);
}

/// A pixel wholly inside the circle is fully covered; one wholly outside is
/// not covered at all.
pub proof fn lemma_coverage_extremes(w: int, h: int, r: int, x: int, y: int)
    ensures
        pixel_within(w, h, r, x, y) ==> coverage_count(w, h, r, x, y) == AA_RES * AA_RES,
        pixel_beyond(w, h, r, x, y) ==> coverage_count(w, h, r, x, y) == 0,
{
    assert forall|i: int, j: int| 0 <= i < AA_RES && 0 <= j < AA_RES implies (pixel_within(
        w,
        h,
        r,
        x,
        y,
    ) ==> sample_inside(w, h, r, x, y, i, j)) && (pixel_beyond(w, h, r, x, y) ==> !sample_inside(
        w,
        h,
        r,
        x,
        y,
        i,
        j,
    )) by {
        lemma_sample_between_edges(w, x, i);
        lemma_sample_between_edges(h, y, j);
    }
    if pixel_within(w, h, r, x, y) {
        lemma_pixel_hits_all(w, h, r, x, y, AA_RES as int, true);
    }
    if pixel_beyond(w, h, r, x, y) {
        lemma_pixel_hits_all(w, h, r, x, y, AA_RES as int, false);
    }
}

proof fn lemma_outward_sample(size: int, p: int, q: int, k: int)
    requires
        0 <= k < AA_RES,
        p == q + 1 && sample_offset(size, q, 0) <= 0 || p == q - 1 && sample_offset(
            size,
            q,
            AA_RES - 1,
        ) >= 0,
    ensures
        sample_offset(size, q, k) * sample_offset(size, q, k) <= sample_offset(size, p, k)
            * sample_offset(size, p, k),
{
    let a = sample_offset(size, q, k);
    let b = sample_offset(size, p, k);
    assert(a * a <= b * b) by (nonlinear_arith)
        requires
            b < a <= 0 || 0 <= a < b,
    ;
}

/// Moving one pixel away from the buffer's center, along a row or a column,
/// never raises the coverage; moving toward it never lowers it.
pub proof fn lemma_coverage_outward(w: int, h: int, r: int, x: int, y: int)
    ensures
        sample_offset(w, x, 0) <= 0 ==> coverage_count(w, h, r, x + 1, y) <= coverage_count(
            w,
            h,
            r,
            x,
            y,
        ),
        sample_offset(w, x, AA_RES - 1) >= 0 ==> coverage_count(w, h, r, x - 1, y)
            <= coverage_count(w, h, r, x, y),
        sample_offset(h, y, 0) <= 0 ==> coverage_count(w, h, r, x, y + 1) <= coverage_count(
            w,
            h,
            r,
            x,
            y,
        ),
        sample_offset(h, y, AA_RES - 1) >= 0 ==> coverage_count(w, h, r, x, y - 1)
            <= coverage_count(w, h, r, x, y),
{
    if sample_offset(w, x, 0) <= 0 {
        assert forall|i: int, j: int| 0 <= i < AA_RES && 0 <= j < AA_RES implies sample_inside(w, h, r, x + 1, y, i, j)
            ==> sample_inside(w, h, r, x, y, i, j) by {
            lemma_outward_sample(w, x + 1, x, i);
        }
        lemma_pixel_hits_monotone(w, h, r, x, y, x + 1, y, AA_RES as int);
    }
    if sample_offset(w, x, AA_RES - 1) >= 0 {
        assert forall|i: int, j: int| 0 <= i < AA_RES && 0 <= j < AA_RES implies sample_inside(w, h, r, x - 1, y, i, j)
            ==> sample_inside(w, h, r, x, y, i, j) by {
            lemma_outward_sample(w, x - 1, x, i);
        }
        lemma_pixel_hits_monotone(w, h, r, x, y, x - 1, y, AA_RES as int);
    }
    if sample_offset(h, y, 0) <= 0 {
        assert forall|i: int, j: int| 0 <= i < AA_RES && 0 <= j < AA_RES implies sample_inside(w, h, r, x, y + 1, i, j)
            ==> sample_inside(w, h, r, x, y, i, j) by {
            lemma_outward_sample(h, y + 1, y, j);
        }
        lemma_pixel_hits_monotone(w, h, r, x, y, x, y + 1, AA_RES as int);
    }
    if sample_offset(h, y, AA_RES - 1) >= 0 {
        assert forall|i: int, j: int| 0 <= i < AA_RES && 0 <= j < AA_RES implies sample_inside(w, h, r, x, y - 1, i, j)
            ==> sample_inside(w, h, r, x, y, i, j) by {
            lemma_outward_sample(h, y - 1, y, j);
        }
        lemma_pixel_hits_monotone(w, h, r, x, y, x, y - 1, AA_RES as int);
    }
}

/// Magnitude of a sample offset.
fn sample_magnitude(size: usize, p: usize, k: u32) -> (r: u128)
    requires
        p < size,
        k < AA_RES,
    ensures
        r * r == sample_offset(size as int, p as int, k as int) * sample_offset(
            size as int,
            p as int,
            k as int,
        ),
        r < 2 * size,
{
    let hi = 2 * size as u128;
    let lo = 4 * p as u128 + 1 + k as u128;
    let m = if hi >= lo {
        hi - lo
    } else {
        lo - hi
    };
    assert(m * m == sample_offset(size as int, p as int, k as int) * sample_offset(
        size as int,
        p as int,
        k as int,
    )) by (nonlinear_arith)
        requires
            m == hi - lo || m == lo - hi,
            hi - lo == sample_offset(size as int, p as int, k as int),
    ;
    m
}

/// Sixteen times the squared radius, or `u128::MAX` where that does not fit.
fn scaled_radius_squared(radius: usize) -> (r: u128)
    ensures
        radius < 0x4000_0000_0000_0000 ==> r == 16 * radius * radius,
        radius >= 0x4000_0000_0000_0000 ==> r == u128::MAX && 16 * radius * radius > u128::MAX,
{
    if radius as u128 >= 0x4000_0000_0000_0000 {
        assert(16 * radius * radius > u128::MAX) by (nonlinear_arith)
            requires
                radius >= 0x4000_0000_0000_0000,
        ;
        u128::MAX
    } else {
        let d = 4 * radius as u128;
        assert(d * d == 16 * radius * radius && d * d <= u128::MAX) by (nonlinear_arith)
            requires
                d == 4 * radius,
                d < 0x1_0000_0000_0000_0000,
        ;
        d * d
    }
}

/// Number of the pixel's samples that lie inside the circle.
fn count_hits(width: usize, height: usize, radius: usize, r16: u128, x: usize, y: usize) -> (n: u32)
    requires
        x < width <= 0x2000_0000_0000_0000,
        y < height <= 0x2000_0000_0000_0000,
        radius < 0x4000_0000_0000_0000 ==> r16 == 16 * radius * radius,
        radius >= 0x4000_0000_0000_0000 ==> r16 == u128::MAX && 16 * radius * radius > u128::MAX,
    ensures
        n == pixel_hits(width as int, height as int, radius as int, x as int, y as int, AA_RES as int),
        n <= AA_RES * AA_RES,
{
    let ghost w = width as int;
    let ghost h = height as int;
    let ghost r = radius as int;
    let mut total: u32 = 0;
    let mut j: u32 = 0;
    while j < AA_RES
        invariant
            x < width <= 0x2000_0000_0000_0000,
            y < height <= 0x2000_0000_0000_0000,
            radius < 0x4000_0000_0000_0000 ==> r16 == 16 * radius * radius,
            radius >= 0x4000_0000_0000_0000 ==> r16 == u128::MAX && 16 * radius * radius
                > u128::MAX,
            w == width as int,
            h == height as int,
            r == radius as int,
            j <= AA_RES,
            total == pixel_hits(w, h, r, x as int, y as int, j as int),
            total <= j * AA_RES,
        decreases AA_RES - j,
    {
        let b = sample_magnitude(height, y, j);
        let mut row: u32 = 0;
        let mut i: u32 = 0;
        while i < AA_RES
            invariant
                x < width <= 0x2000_0000_0000_0000,
                y < height <= 0x2000_0000_0000_0000,
                radius < 0x4000_0000_0000_0000 ==> r16 == 16 * radius * radius,
                radius >= 0x4000_0000_0000_0000 ==> r16 == u128::MAX && 16 * radius * radius
                    > u128::MAX,
                w == width as int,
                h == height as int,
                r == radius as int,
                j < AA_RES,
                i <= AA_RES,
                b * b == sample_offset(h, y as int, j as int) * sample_offset(h, y as int, j as int),
                b < 2 * height,
                row == row_hits(w, h, r, x as int, y as int, j as int, i as int),
                row <= i,
            decreases AA_RES - i,
        {
            let a = sample_magnitude(width, x, i);
            assert(a * a + b * b < 0x8000_0000_0000_0000_0000_0000_0000_0000) by (nonlinear_arith)
                requires
                    a < 0x4000_0000_0000_0000,
                    b < 0x4000_0000_0000_0000,
            ;
            if a * a + b * b <= r16 {
                row = row + 1;
            }
            i = i + 1;
        }
        total = total + row;
        j = j + 1;
    }
    total
}

/// Fills every pixel with `background` blended toward `foreground` by the
/// fraction of its samples that lie inside the circle of the given radius
/// around the buffer's center.
pub fn fill_solid_aa_circle(
    pixels: &mut [u32],
    width: usize,
    height: usize,
    radius: usize,
    foreground: u32,
    background: u32,
    policy: BlendPolicy,
)
    requires
        old(pixels)@.len() == width * height,
        // a slice of `u32` spans at most `isize::MAX` bytes
        old(pixels)@.len() * 4 <= isize::MAX,
    ensures
        final(pixels)@.len() == old(pixels)@.len(),
        forall|x: int, y: int|
            0 <= x < width && 0 <= y < height ==> #[trigger] final(pixels)@[pixel_index(
                width as int,
                x,
                y,
            )] == blend_spec(
                policy,
                background,
                foreground,
                aa_coverage(width as int, height as int, radius as int, x, y),
            ),
{
    let n = pixels.len();
    let r16 = scaled_radius_squared(radius);
    let ghost w = width as int;
    let ghost h = height as int;
    let ghost r = radius as int;
    let mut i: usize = 0;
    while i < n
        invariant
            n == pixels@.len(),
            n == width * height,
            n * 4 <= isize::MAX,
            w == width as int,
            h == height as int,
            r == radius as int,
            i <= n,
            radius < 0x4000_0000_0000_0000 ==> r16 == 16 * radius * radius,
            radius >= 0x4000_0000_0000_0000 ==> r16 == u128::MAX && 16 * radius * radius
                > u128::MAX,
            forall|j: int|
                0 <= j < i ==> #[trigger] pixels@[j] == blend_spec(
                    policy,
                    background,
                    foreground,
                    aa_coverage(w, h, r, j % w, j / w),
                ),
        decreases n - i,
    {
        proof {
            assert(0 < width && width <= n && height <= n) by (nonlinear_arith)
                requires
                    n == width * height,
                    i < n,
            ;
            assert(isize::MAX <= 0x7FFF_FFFF_FFFF_FFFF);
            lemma_index_pixel(w, h, i as int);
        }
        let x = i % width;
        let y = i / width;
        let hits = count_hits(width, height, radius, r16, x, y);
        let cov = Coverage { covered: hits, total: AA_RES * AA_RES };
        pixels[i] = policy.blend(background, foreground, cov);
        i = i + 1;
    }
    proof {
        assert forall|x: int, y: int| 0 <= x < width && 0 <= y < height implies #[trigger] pixels@[pixel_index(
            w,
            x,
            y,
        )] == blend_spec(policy, background, foreground, aa_coverage(w, h, r, x, y)) by {
            lemma_pixel_index(w, h, x, y);
        }
    }
}

} // verus!
