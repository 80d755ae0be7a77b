use circle_raster::antialias::fill_solid_aa_circle;
use circle_raster::color::{blend_pixels_gamma_corrected, blend_pixels_naively, BlendPolicy, Coverage};
use circle_raster::hollow::{draw_hollow_circle, RasterError};
use circle_raster::pattern::{checker_pattern, stripes_pattern};
use circle_raster::ppm::{encode_ppm, parse_ppm};
use circle_raster::solid::fill_solid_circle;
use circle_raster::walk::MidpointWalk;

const FOREGROUND: u32 = 0xFF00FF;
const BACKGROUND: u32 = 0x000000;

fn half() -> Coverage {
    Coverage { covered: 1, total: 2 }
}

#[test]
fn solid_circle_center_and_corner() {
    let mut pixels = vec![0x00FF00u32; 16 * 16];
    fill_solid_circle(&mut pixels, 16, 16, 8, FOREGROUND, BACKGROUND);
    assert_eq!(pixels[8 * 16 + 8], FOREGROUND);
    assert_eq!(pixels[0], BACKGROUND);
}

#[test]
fn solid_circle_matches_distance_test() {
    let (w, h, r) = (13usize, 9usize, 4usize);
    let mut pixels = vec![0x00FF00u32; w * h];
    fill_solid_circle(&mut pixels, w, h, r, FOREGROUND, BACKGROUND);
    for y in 0..h {
        for x in 0..w {
            let dx = w as i64 - 2 * x as i64 - 1;
            let dy = h as i64 - 2 * y as i64 - 1;
            let inside = dx * dx + dy * dy <= (2 * r as i64) * (2 * r as i64);
            let expected = if inside { FOREGROUND } else { BACKGROUND };
            assert_eq!(pixels[y * w + x], expected, "pixel ({}, {})", x, y);
        }
    }
}

#[test]
fn solid_circle_radius_zero_is_all_background() {
    let mut pixels = vec![7u32; 4 * 4];
    fill_solid_circle(&mut pixels, 4, 4, 0, FOREGROUND, BACKGROUND);
    assert!(pixels.iter().all(|&p| p == BACKGROUND));
}

#[test]
fn gamma_blend_half_is_brighter_than_linear() {
    assert_eq!(blend_pixels_gamma_corrected(0x000000, 0xFFFFFF, half()), 0xB4B4B4);
    assert_eq!(blend_pixels_naively(0x000000, 0xFFFFFF, half()), 0x7F7F7F);
}

#[test]
fn blend_endpoints_are_exact() {
    let (bg, fg) = (0x123456u32, 0xFEDCBAu32);
    for policy in [BlendPolicy::Linear, BlendPolicy::GammaCorrected] {
        assert_eq!(policy.blend(bg, fg, Coverage { covered: 0, total: 9 }), bg);
        assert_eq!(policy.blend(bg, fg, Coverage { covered: 9, total: 9 }), fg);
    }
}

#[test]
fn blend_channels_are_independent() {
    let c = Coverage { covered: 1, total: 4 };
    // red 0 -> 200, green 100 -> 0, blue 40 -> 40
    assert_eq!(blend_pixels_naively(0x006428, 0xC80028, c), 0x324B28);
    // red: isqrt(40000 / 4) = 100, green: isqrt(10000 * 3 / 4) = 86
    assert_eq!(blend_pixels_gamma_corrected(0x006428, 0xC80028, c), 0x645628);
}

#[test]
fn blend_ignores_bits_above_the_channels() {
    assert_eq!(blend_pixels_naively(0xFF000000, 0xFF000000, half()), 0);
}

#[test]
fn aa_circle_small_buffer_exact_values() {
    let mut pixels = vec![0u32; 2 * 2];
    fill_solid_aa_circle(&mut pixels, 2, 2, 1, 0xFFFFFF, 0x000000, BlendPolicy::Linear);
    assert_eq!(pixels, vec![0xE2E2E2; 4]);
    fill_solid_aa_circle(&mut pixels, 2, 2, 1, 0xFFFFFF, 0x000000, BlendPolicy::GammaCorrected);
    assert_eq!(pixels, vec![0xF0F0F0; 4]);
}

fn channel(c: u32) -> u32 {
    c & 0xFF
}

#[test]
fn aa_circle_inside_full_outside_empty_and_monotone() {
    let (s, r) = (32usize, 10usize);
    let mut pixels = vec![0u32; s * s];
    fill_solid_aa_circle(&mut pixels, s, s, r, 0xFFFFFF, 0x000000, BlendPolicy::Linear);
    assert_eq!(pixels[16 * s + 16], 0xFFFFFF);
    assert_eq!(pixels[0], 0x000000);
    assert_eq!(pixels[16 * s + 31], 0x000000);
    for x in 16..s - 1 {
        assert!(channel(pixels[16 * s + x + 1]) <= channel(pixels[16 * s + x]));
    }
    for x in 1..16 {
        assert!(channel(pixels[16 * s + x - 1]) <= channel(pixels[16 * s + x]));
    }
    assert!(pixels.iter().any(|&p| channel(p) > 0 && channel(p) < 0xFF));
}

#[test]
fn hollow_circle_small_ring() {
    let mut pixels = vec![9u32; 4 * 4];
    assert_eq!(draw_hollow_circle(&mut pixels, 4, 4, 2, 1, 0), Ok(()));
    let expected = vec![
        1, 1, 1, 1, //
        1, 0, 0, 1, //
        1, 0, 0, 1, //
        1, 1, 1, 1,
    ];
    assert_eq!(pixels, expected);
}

#[test]
fn hollow_circle_is_symmetric() {
    let s = 32usize;
    let mut pixels = vec![0u32; s * s];
    draw_hollow_circle(&mut pixels, s, s, 10, FOREGROUND, BACKGROUND).unwrap();
    let at = |x: usize, y: usize| pixels[y * s + x];
    let mut count = 0;
    for y in 0..s {
        for x in 0..s {
            assert_eq!(at(x, y), at(s - 1 - x, y));
            assert_eq!(at(x, y), at(x, s - 1 - y));
            assert_eq!(at(x, y), at(y, x));
            if at(x, y) == FOREGROUND {
                count += 1;
            }
        }
    }
    assert!(count > 0);
    assert_eq!(at(16, 16), BACKGROUND);
}

#[test]
fn hollow_circle_radius_zero_clears() {
    let mut pixels = vec![5u32; 3 * 3];
    draw_hollow_circle(&mut pixels, 3, 3, 0, FOREGROUND, BACKGROUND).unwrap();
    assert!(pixels.iter().all(|&p| p == BACKGROUND));
}

#[test]
fn hollow_circle_rejects_non_square_buffer() {
    let mut pixels = vec![5u32; 4 * 3];
    assert_eq!(
        draw_hollow_circle(&mut pixels, 4, 3, 1, FOREGROUND, BACKGROUND),
        Err(RasterError::NonSquareBuffer)
    );
    assert!(pixels.iter().all(|&p| p == 5));
}

#[test]
fn stripes_follow_diagonals() {
    let mut pixels = vec![0u32; 4 * 4];
    stripes_pattern(&mut pixels, 4, 4, 2, 1, 0);
    for y in 0..4 {
        for x in 0..4 {
            let expected = if ((x + y) / 2) % 2 == 0 { 0 } else { 1 };
            assert_eq!(pixels[y * 4 + x], expected);
        }
    }
}

#[test]
fn checker_alternates_tiles() {
    let mut pixels = vec![0u32; 4 * 4];
    checker_pattern(&mut pixels, 4, 4, 2, 1, 0);
    assert_eq!(
        pixels,
        vec![0, 0, 1, 1, 0, 0, 1, 1, 1, 1, 0, 0, 1, 1, 0, 0]
    );
}

#[test]
fn encode_two_by_two() {
    let pixels = [0xFF0000u32, 0x00FF00, 0x0000FF, 0xFFFFFF];
    let bytes = encode_ppm(&pixels, 2, 2);
    let header = b"P6\n2 2 255\n";
    assert_eq!(&bytes[..header.len()], header);
    assert_eq!(
        &bytes[header.len()..],
        &[255, 0, 0, 0, 255, 0, 0, 0, 255, 255, 255, 255]
    );
}

#[test]
fn encode_multi_digit_header() {
    let pixels = vec![0x010203u32; 12 * 105];
    let bytes = encode_ppm(&pixels, 12, 105);
    let header = b"P6\n12 105 255\n";
    assert_eq!(&bytes[..header.len()], header);
    assert_eq!(bytes.len(), header.len() + 3 * 12 * 105);
    assert_eq!(&bytes[header.len()..header.len() + 3], &[1, 2, 3]);
}

#[test]
fn walk_steps_up_and_left() {
    let mut w = MidpointWalk::start(3);
    assert!(w.is_active());
    w.advance();
    // err becomes 0 + 1 + 2 = 3, past the circle: x drops to 2
    assert_eq!(w, MidpointWalk { x: 2, y: 1, err: 0 });
    w.advance();
    assert_eq!(w, MidpointWalk { x: 1, y: 2, err: 4 });
    assert!(!w.is_active());
}

#[test]
fn round_trip_two_by_two() {
    let pixels = [0xFF0000u32, 0x00FF00, 0x0000FF, 0xFFFFFF];
    let bytes = encode_ppm(&pixels, 2, 2);
    let image = parse_ppm(&bytes).expect("a well-formed image");
    assert_eq!(image.width, 2);
    assert_eq!(image.height, 2);
    assert_eq!(image.data, vec![255, 0, 0, 0, 255, 0, 0, 0, 255, 255, 255, 255]);
    let header_len = bytes.len() - image.data.len();
    assert_eq!(&bytes[..header_len], b"P6\n2 2 255\n");
}

#[test]
fn parse_empty_image() {
    let image = parse_ppm(b"P6\n0 7 255\n").expect("a well-formed image");
    assert_eq!((image.width, image.height), (0, 7));
    assert!(image.data.is_empty());
}

#[test]
fn parse_rejects_malformed_input() {
    assert!(parse_ppm(b"").is_none());
    assert!(parse_ppm(b"P5\n1 1 255\n\x01\x02\x03").is_none());
    assert!(parse_ppm(b"P6\n01 1 255\n\x01\x02\x03").is_none());
    assert!(parse_ppm(b"P6\n1 1 255\n\x01\x02").is_none());
    assert!(parse_ppm(b"P6\n1 1 255\n\x01\x02\x03\x04").is_none());
    assert!(parse_ppm(b"P6\n1  1 255\n\x01\x02\x03").is_none());
    assert!(parse_ppm(b"P6\n1 1 256\n\x01\x02\x03").is_none());
    assert!(parse_ppm(b"P6\n99999999999999999999999 1 255\n").is_none());
    assert!(parse_ppm(b"P6\n1 1 255\n\x01\x02\x03").is_some());
}
