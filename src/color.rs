//! Packed 24-bit colors and the two blending policies.
use vstd::prelude::*;

verus! {

/// The largest value a packed 24-bit color can take.
pub const COLOR_MAX: u32 = 0xFF_FFFF;

/// Red channel of a packed color.
pub open spec fn red(c: u32) -> int {
    (c as int / 0x1_0000) % 0x100
}

/// Green channel of a packed color.
pub open spec fn green(c: u32) -> int {
    (c as int / 0x100) % 0x100
}

/// Blue channel of a packed color.
pub open spec fn blue(c: u32) -> int {
    c as int % 0x100
}

/// Three channels packed into one value, red in the highest byte.
pub open spec fn pack(r: int, g: int, b: int) -> int {
    r * 0x1_0000 + g * 0x100 + b
}

/// A color is valid when it uses no bits above the three channels.
pub open spec fn valid_color(c: u32) -> bool {
    c <= COLOR_MAX
}

/// A fraction `covered / total` of a pixel lying inside a shape.
#[derive(Clone, Copy, Debug, PartialEq, Eq)]
pub struct Coverage {
    pub covered: u32,
    pub total: u32,
}

impl Coverage {
    /// The fraction lies in `[0, 1]` and has a non-zero denominator.
    pub open spec fn wf(self) -> bool {
        0 < self.total && self.covered <= self.total
    }
}

/// Interpolation between `a` and `b` at `covered / total`, rounded down.
pub open spec fn lerp(a: int, b: int, covered: int, total: int) -> int {
    (a * (total - covered) + b * covered) / total
}

/// Integer square root: the largest `k` with `k * k <= n`.
pub open spec fn isqrt(n: int) -> int
    decreases n,
{
    if n <= 0 {
        0
    } else {
        let k = isqrt(n - 1);
        if (k + 1) * (k + 1) <= n {
            k + 1
        } else {
            k
        }
    }
}

/// One channel blended in linear channel space.
pub open spec fn linear_channel(a: int, b: int, cov: Coverage) -> int {
    lerp(a, b, cov.covered as int, cov.total as int)
}

/// One channel blended in squared channel space, then taken back by a square root.
pub open spec fn gamma_channel(a: int, b: int, cov: Coverage) -> int {
    isqrt(lerp(a * a, b * b, cov.covered as int, cov.total as int))
}

pub open spec fn blend_linear(bg: u32, fg: u32, cov: Coverage) -> int {
    pack(
        linear_channel(red(bg), red(fg), cov),
        linear_channel(green(bg), green(fg), cov),
        linear_channel(blue(bg), blue(fg), cov),
    )
}

pub open spec fn blend_gamma(bg: u32, fg: u32, cov: Coverage) -> int {
    pack(
        gamma_channel(red(bg), red(fg), cov),
        gamma_channel(green(bg), green(fg), cov),
        gamma_channel(blue(bg), blue(fg), cov),
    )
}

/// How a foreground is mixed over a background.
#[derive(Clone, Copy, Debug, PartialEq, Eq)]
pub enum BlendPolicy {
    /// Interpolate the 8-bit channel values directly.
    Linear,
    /// Interpolate the squared channel values, then take the square root.
    GammaCorrected,
}

pub open spec fn blend_spec(policy: BlendPolicy, bg: u32, fg: u32, cov: Coverage) -> int {
    match policy {
        BlendPolicy::Linear => blend_linear(bg, fg, cov),
        BlendPolicy::GammaCorrected => blend_gamma(bg, fg, cov),
    }
}

proof fn lemma_isqrt_bounds(n: int)
    requires
        0 <= n,
    ensures
        0 <= isqrt(n),
        isqrt(n) * isqrt(n) <= n < (isqrt(n) + 1) * (isqrt(n) + 1),
    decreases n,
{
    if n > 0 {
        lemma_isqrt_bounds(n - 1);
        let k = isqrt(n - 1);
        assert((k + 1) * (k + 1) <= n ==> n < (k + 2) * (k + 2)) by (nonlinear_arith)
            requires
                n - 1 < (k + 1) * (k + 1),
                0 <= k,
        ;
    }
}

proof fn lemma_isqrt_unique(n: int, k: int)
    requires
        0 <= n,
        0 <= k,
        k * k <= n < (k + 1) * (k + 1),
    ensures
        isqrt(n) == k,
{
    lemma_isqrt_bounds(n);
    let s = isqrt(n);
    if s < k {
        assert((s + 1) * (s + 1) <= k * k) by (nonlinear_arith)
            requires
                0 <= s < k,
        ;
    } else if k < s {
        assert((k + 1) * (k + 1) <= s * s) by (nonlinear_arith)
            requires
                0 <= k < s,
        ;
    }
}

/// The square root of a perfect square is its root.
pub proof fn lemma_isqrt_square(a: int)
    requires
        0 <= a,
    ensures
        isqrt(a * a) == a,
{
    assert(a * a < (a + 1) * (a + 1)) by (nonlinear_arith)
        requires
            0 <= a,
    ;
    assert(0 <= a * a) by (nonlinear_arith);
    lemma_isqrt_unique(a * a, a);
}

/// Integer square root of `n`, rounded down.
fn int_sqrt(n: u32) -> (r: u32)
    requires
        n <= 0x1_0000,
    ensures
        r == isqrt(n as int),
        r <= 256,
{
    let mut k: u32 = 0;
    while (k + 1) * (k + 1) <= n
        invariant
            k * k <= n,
            n <= 0x1_0000,
            k <= 256,
            (k + 1) * (k + 1) <= 257 * 257,
        decreases n - k * k,
    {
        assert(k < 256) by (nonlinear_arith)
            requires
                (k + 1) * (k + 1) <= n,
                n <= 0x1_0000,
        ;
        assert(k * k < (k + 1) * (k + 1)) by (nonlinear_arith);
        k = k + 1;
        assert((k + 1) * (k + 1) <= 257 * 257) by (nonlinear_arith)
            requires
                k <= 256,
        ;
    }
    proof {
        lemma_isqrt_unique(n as int, k as int);
    }
    k
}

/// Interpolation of two values below `0x1_0000` at the given coverage, rounded down.
fn lerp_u32(a: u32, b: u32, cov: Coverage) -> (r: u32)
    requires
        a <= 0x1_0000,
        b <= 0x1_0000,
        cov.wf(),
    ensures
        r == lerp(a as int, b as int, cov.covered as int, cov.total as int),
        r <= a || r <= b,
        r <= 0x1_0000,
{
    let t = cov.total as u64;
    let c = cov.covered as u64;
    proof {
        assert(a * (t - c) <= 0x1_0000 * 0x1_0000_0000) by (nonlinear_arith)
            requires
                a <= 0x1_0000,
                t - c <= t,
                t <= 0xFFFF_FFFF,
                c <= t,
        ;
        assert(b * c <= 0x1_0000 * 0x1_0000_0000) by (nonlinear_arith)
            requires
                b <= 0x1_0000,
                c <= 0xFFFF_FFFF,
        ;
    }
    let num = a as u64 * (t - c) + b as u64 * c;
    let m: u64 = if a <= b { b as u64 } else { a as u64 };
    proof {
        assert(num <= m * t) by (nonlinear_arith)
            requires
                num == a * (t - c) + b * c,
                a <= m,
                b <= m,
                c <= t,
        ;
        assert(num / t <= m) by (nonlinear_arith)
            requires
                num <= m * t,
                0 < t,
        ;
    }
    (num / t) as u32
}

/// Red, green and blue channels of a packed color.
fn channels(c: u32) -> (r: (u32, u32, u32))
    ensures
        r.0 == red(c),
        r.1 == green(c),
        r.2 == blue(c),
        r.0 < 256,
        r.1 < 256,
        r.2 < 256,
{
    ((c / 0x1_0000) % 0x100, (c / 0x100) % 0x100, c % 0x100)
}

/// Packs three channel values below 256 into one color.
fn pack_channels(r: u32, g: u32, b: u32) -> (c: u32)
    requires
        r < 256,
        g < 256,
        b < 256,
    ensures
        c == pack(r as int, g as int, b as int),
        valid_color(c),
{
    r * 0x1_0000 + g * 0x100 + b
}

/// Blends `foreground` over `background` channel by channel in linear channel space.
pub fn blend_pixels_naively(background: u32, foreground: u32, cov: Coverage) -> (r: u32)
    requires
        cov.wf(),
    ensures
        r == blend_linear(background, foreground, cov),
        valid_color(r),
{
    let (br, bg, bb) = channels(background);
    let (fr, fg, fb) = channels(foreground);
    let r = lerp_u32(br, fr, cov);
    let g = lerp_u32(bg, fg, cov);
    let b = lerp_u32(bb, fb, cov);
    pack_channels(r, g, b)
}

/// One channel blended in squared space.
fn gamma_blend_channel(a: u32, b: u32, cov: Coverage) -> (r: u32)
    requires
        a < 256,
        b < 256,
        cov.wf(),
    ensures
        r == gamma_channel(a as int, b as int, cov),
        r < 256,
{
    proof {
        assert(a * a <= 255 * 255 && b * b <= 255 * 255) by (nonlinear_arith)
            requires
                a < 256,
                b < 256,
        ;
    }
    let l = lerp_u32(a * a, b * b, cov);
    let r = int_sqrt(l);
    proof {
        lemma_isqrt_bounds(l as int);
        assert(r * r <= 255 * 255);
        assert(r < 256) by (nonlinear_arith)
            requires
                r * r <= 255 * 255,
        ;
    }
    r
}

/// Blends `foreground` over `background` channel by channel in squared channel space.
pub fn blend_pixels_gamma_corrected(background: u32, foreground: u32, cov: Coverage) -> (r: u32)
    requires
        cov.wf(),
    ensures
        r == blend_gamma(background, foreground, cov),
        valid_color(r),
{
    let (br, bg, bb) = channels(background);
    let (fr, fg, fb) = channels(foreground);
    let r = gamma_blend_channel(br, fr, cov);
    let g = gamma_blend_channel(bg, fg, cov);
    let b = gamma_blend_channel(bb, fb, cov);
    pack_channels(r, g, b)
}

impl BlendPolicy {
    /// Blends `foreground` over `background` at the given coverage with this policy.
    pub fn blend(&self, background: u32, foreground: u32, cov: Coverage) -> (r: u32)
        requires
            cov.wf(),
        ensures
            r == blend_spec(*self, background, foreground, cov),
            valid_color(r),
    {
        match self {
            BlendPolicy::Linear => blend_pixels_naively(background, foreground, cov),
            BlendPolicy::GammaCorrected => blend_pixels_gamma_corrected(background, foreground, cov),
        }
    }
}

proof fn lemma_unpack(c: u32)
    requires
        valid_color(c),
    ensures
        pack(red(c), green(c), blue(c)) == c,
        0 <= red(c) < 256,
        0 <= green(c) < 256,
        0 <= blue(c) < 256,
{
}

/// Blending at no coverage gives the background and at full coverage the
/// foreground, exactly, under both policies.
pub proof fn lemma_blend_endpoints(policy: BlendPolicy, bg: u32, fg: u32, total: u32)
    requires
        valid_color(bg),
        valid_color(fg),
        0 < total,
    ensures
        blend_spec(policy, bg, fg, Coverage { covered: 0, total }) == bg,
        blend_spec(policy, bg, fg, Coverage { covered: total, total }) == fg,
{
    lemma_unpack(bg);
    lemma_unpack(fg);
    let t = total as int;
    assert forall|a: int, b: int| 0 <= a && 0 <= b implies lerp(a, b, 0, t) == a && lerp(
        a,
        b,
        t,
        t,
    ) == b by {
        assert(a * (t - 0) + b * 0 == a * t) by (nonlinear_arith);
        assert(a * (t - t) + b * t == b * t) by (nonlinear_arith);
        assert((a * t) / t == a) by (nonlinear_arith)
            requires
                0 < t,
        ;
        assert((b * t) / t == b) by (nonlinear_arith)
            requires
                0 < t,
        ;
    }
    lemma_isqrt_square(red(bg));
    lemma_isqrt_square(green(bg));
    lemma_isqrt_square(blue(bg));
    lemma_isqrt_square(red(fg));
    lemma_isqrt_square(green(fg));
    lemma_isqrt_square(blue(fg));
    assert(0 <= red(bg) * red(bg)) by (nonlinear_arith);
    assert(0 <= green(bg) * green(bg)) by (nonlinear_arith);
    assert(0 <= blue(bg) * blue(bg)) by (nonlinear_arith);
    assert(0 <= red(fg) * red(fg)) by (nonlinear_arith);
    assert(0 <= green(fg) * green(fg)) by (nonlinear_arith);
    assert(0 <= blue(fg) * blue(fg)) by (nonlinear_arith);
}

} // verus!
