use mandelbrot::binary64::value::Binary64;
use mandelbrot::color::{color, hsv_to_rgb, ColorScheme};
use mandelbrot::complex::Complex;
use mandelbrot::escape::escape_time;
use mandelbrot::generate_mandelbrot;
use mandelbrot::viewport::Viewport;
use num_complex::Complex as NativeComplex;

fn b(x: f64) -> Binary64 {
    Binary64::from_bits(x.to_bits())
}

fn render(width: u32, height: u32, max_iter: u32, zoom: f64, cx: f64, cy: f64, tag: &str) -> Vec<u8> {
    generate_mandelbrot(width, height, max_iter, b(zoom), b(cx), b(cy), tag)
}

/// The same conversion on hardware floating point.
fn native_hsv(h: f64, s: f64, v: f64) -> (u8, u8, u8) {
    let c = v * s;
    let h_prime = h / 60.0;
    let x = c * (1.0 - (h_prime % 2.0 - 1.0).abs());
    let m = v - c;
    let (r, g, bl) = if h_prime < 1.0 {
        (c, x, 0.0)
    } else if h_prime < 2.0 {
        (x, c, 0.0)
    } else if h_prime < 3.0 {
        (0.0, c, x)
    } else if h_prime < 4.0 {
        (0.0, x, c)
    } else if h_prime < 5.0 {
        (x, 0.0, c)
    } else {
        (c, 0.0, x)
    };
    (((r + m) * 255.0) as u8, ((g + m) * 255.0) as u8, ((bl + m) * 255.0) as u8)
}

fn native_escape_time(c: NativeComplex<f64>, max_iter: u32) -> u32 {
    let mut z = NativeComplex::new(0.0, 0.0);
    let mut i = 0;
    while i < max_iter && !(z.norm_sqr() > 4.0) {
        z = z * z + c;
        i += 1;
    }
    i
}

fn native_color(i: u32, max_iter: u32, tag: &str) -> (u8, u8, u8) {
    if i == max_iter {
        return (0, 0, 0);
    }
    let t = i as f64 / max_iter as f64;
    let gray = |t: f64| {
        let level = (t * 255.0) as u8;
        (level, level, level)
    };
    match tag {
        "fire" => native_hsv(t * 60.0, 1.0, 1.0),
        "ocean" => native_hsv(180.0 + t * 60.0, 1.0, 1.0),
        "grayscale" => gray(t),
        "cosmic" => native_hsv(240.0 + t * 60.0, 0.7 + t * 0.3, 0.6 + t * 0.4),
        "fireAndAsh" => {
            if t < 0.5 {
                native_hsv(t * 2.0 * 60.0, 1.0, 1.0)
            } else {
                let u = (t - 0.5) * 2.0;
                native_hsv(30.0, 1.0 - u, 0.5 + u * 0.5)
            }
        }
        "monochrome" => {
            if t > 0.9 {
                native_hsv(320.0, 1.0, 1.0)
            } else {
                gray(t)
            }
        }
        "psychedelic" => {
            let raw = (t * 3.0 * 360.0) % 360.0;
            let hue = if raw < 60.0 {
                270.0 + raw / 2.0
            } else if raw < 180.0 {
                300.0 + (raw - 60.0) / 4.0
            } else {
                60.0 + (raw - 180.0) / 6.0
            };
            native_hsv(hue, 0.9, 1.0)
        }
        _ => native_hsv(t * 360.0, 1.0, 1.0),
    }
}

fn native_render(width: u32, height: u32, max_iter: u32, zoom: f64, cx: f64, cy: f64, tag: &str) -> Vec<u8> {
    if width == 0 || height == 0 || max_iter == 0 || zoom <= 0.0 {
        return Vec::new();
    }
    let mut pixels = Vec::new();
    let x_min = cx - 2.0 / zoom;
    let x_max = cx + 1.0 / zoom;
    let y_min = cy - 1.5 / zoom;
    let y_max = cy + 1.5 / zoom;
    for y in 0..height {
        for x in 0..width {
            let re = x_min + (x as f64 / width as f64) * (x_max - x_min);
            let im = y_min + (y as f64 / height as f64) * (y_max - y_min);
            let n = native_escape_time(NativeComplex::new(re, im), max_iter);
            let (r, g, bl) = native_color(n, max_iter, tag);
            pixels.push(r);
            pixels.push(g);
            pixels.push(bl);
            pixels.push(255);
        }
    }
    pixels
}

const TAGS: [&str; 8] = [
    "rainbow",
    "fire",
    "ocean",
    "grayscale",
    "cosmic",
    "fireAndAsh",
    "monochrome",
    "psychedelic",
];

#[test]
fn invalid_requests_give_empty_buffers() {
    assert_eq!(render(0, 10, 10, 1.0, 0.0, 0.0, "rainbow").len(), 0);
    assert_eq!(render(10, 0, 10, 1.0, 0.0, 0.0, "rainbow").len(), 0);
    assert_eq!(render(10, 10, 0, 1.0, 0.0, 0.0, "rainbow").len(), 0);
    assert_eq!(render(10, 10, 10, 0.0, 0.0, 0.0, "rainbow").len(), 0);
    assert_eq!(render(10, 10, 10, -0.0, 0.0, 0.0, "rainbow").len(), 0);
    assert_eq!(render(10, 10, 10, -1.0, 0.0, 0.0, "rainbow").len(), 0);
    assert_eq!(render(10, 10, 10, -1.0e-310, 0.0, 0.0, "fire").len(), 0);
    assert_eq!(render(10, 10, 10, f64::NEG_INFINITY, 0.0, 0.0, "fire").len(), 0);
    assert_eq!(render(0, 0, 0, 0.0, 0.0, 0.0, "").len(), 0);
    assert_eq!(render(u32::MAX, u32::MAX, u32::MAX, -2.5, 0.0, 0.0, "ocean").len(), 0);
}

#[test]
fn valid_requests_give_four_bytes_a_pixel() {
    for &(w, h) in [(1u32, 1u32), (1, 7), (7, 1), (3, 5), (16, 9), (31, 2)].iter() {
        let pixels = render(w, h, 12, 1.0, 0.0, 0.0, "rainbow");
        assert_eq!(pixels.len(), (w * h * 4) as usize);
    }
}

#[test]
fn smallest_image_is_one_pixel() {
    let pixels = render(1, 1, 1, 1.0, 0.0, 0.0, "rainbow");
    assert_eq!(pixels.len(), 4);
    assert_eq!(pixels, native_render(1, 1, 1, 1.0, 0.0, 0.0, "rainbow"));
}

#[test]
fn alpha_is_opaque_everywhere() {
    for tag in TAGS.iter() {
        let pixels = render(12, 10, 25, 1.0, 0.0, 0.0, tag);
        assert_eq!(pixels.len(), 12 * 10 * 4);
        for (i, &byte) in pixels.iter().enumerate() {
            if i % 4 == 3 {
                assert_eq!(byte, 255, "{} byte {}", tag, i);
            }
        }
    }
}

#[test]
fn bounded_points_are_black() {
    for tag in TAGS.iter() {
        for &n in [1u32, 2, 10, 100, 500].iter() {
            let (w, h) = (8u32, 6u32);
            let pixels = render(w, h, n, 1.0, 0.0, 0.0, tag);
            let at = (((h / 2) * w + w / 2) * 4) as usize;
            assert_eq!(&pixels[at..at + 4], &[0, 0, 0, 255], "{} {}", tag, n);
        }
    }
}

#[test]
fn origin_never_escapes() {
    let origin = Complex::new(b(0.0), b(0.0));
    for &n in [0u32, 1, 2, 50, 1000].iter() {
        assert_eq!(escape_time(origin, n), n);
        assert_eq!(color(n, n, ColorScheme::Rainbow), (0, 0, 0));
    }
}

#[test]
fn escape_times_of_known_points() {
    // c = 1: 0, 1, 2, 5 (|z|² = 25 > 4 at index 3).
    assert_eq!(escape_time(Complex::new(b(1.0), b(0.0)), 100), 3);
    // c = 2: 0, 2, 6 (|z|² = 36 > 4 at index 2; |2|² = 4 does not exceed 4).
    assert_eq!(escape_time(Complex::new(b(2.0), b(0.0)), 100), 2);
    // c = 3: leaves at index 1.
    assert_eq!(escape_time(Complex::new(b(3.0), b(0.0)), 100), 1);
    // c = -2 stays on the boundary: 0, -2, 2, 2, ...
    assert_eq!(escape_time(Complex::new(b(-2.0), b(0.0)), 100), 100);
    // c = -1 cycles between -1 and 0.
    assert_eq!(escape_time(Complex::new(b(-1.0), b(0.0)), 77), 77);
    // c = i cycles too.
    assert_eq!(escape_time(Complex::new(b(0.0), b(1.0)), 64), 64);
    // c = -0.5 settles near -0.366.
    assert_eq!(escape_time(Complex::new(b(-0.5), b(0.0)), 1000), 1000);
    // The budget caps the count.
    assert_eq!(escape_time(Complex::new(b(1.0), b(0.0)), 2), 2);
    assert_eq!(escape_time(Complex::new(b(1.0), b(0.0)), 0), 0);
}

#[test]
fn escape_times_match_hardware() {
    let mut state = 0x1234_5678_9ABC_DEF1u64;
    for _ in 0..3000 {
        state ^= state << 13;
        state ^= state >> 7;
        state ^= state << 17;
        let re = ((state >> 11) as f64 / (1u64 << 53) as f64) * 4.0 - 2.5;
        state ^= state << 13;
        state ^= state >> 7;
        state ^= state << 17;
        let im = ((state >> 11) as f64 / (1u64 << 53) as f64) * 3.0 - 1.5;
        let ours = escape_time(Complex::new(b(re), b(im)), 60);
        let native = native_escape_time(NativeComplex::new(re, im), 60);
        assert_eq!(ours, native, "{} {}", re, im);
    }
}

#[test]
fn hsv_primaries() {
    assert_eq!(hsv_to_rgb(b(0.0), b(1.0), b(1.0)), (255, 0, 0));
    assert_eq!(hsv_to_rgb(b(120.0), b(1.0), b(1.0)), (0, 255, 0));
    assert_eq!(hsv_to_rgb(b(240.0), b(1.0), b(1.0)), (0, 0, 255));
}

#[test]
fn hsv_secondaries_and_grays() {
    assert_eq!(hsv_to_rgb(b(60.0), b(1.0), b(1.0)), (255, 255, 0));
    assert_eq!(hsv_to_rgb(b(180.0), b(1.0), b(1.0)), (0, 255, 255));
    assert_eq!(hsv_to_rgb(b(300.0), b(1.0), b(1.0)), (255, 0, 255));
    assert_eq!(hsv_to_rgb(b(360.0), b(1.0), b(1.0)), (255, 0, 0));
    assert_eq!(hsv_to_rgb(b(77.0), b(0.0), b(1.0)), (255, 255, 255));
    assert_eq!(hsv_to_rgb(b(77.0), b(1.0), b(0.0)), (0, 0, 0));
    assert_eq!(hsv_to_rgb(b(0.0), b(0.0), b(0.5)), (127, 127, 127));
    assert_eq!(hsv_to_rgb(b(320.0), b(1.0), b(1.0)), native_hsv(320.0, 1.0, 1.0));
}

#[test]
fn hsv_matches_hardware() {
    let mut state = 0x0BAD_CAFE_DEAD_BEEFu64;
    let mut unit = move || {
        state ^= state << 13;
        state ^= state >> 7;
        state ^= state << 17;
        (state >> 11) as f64 / (1u64 << 53) as f64
    };
    for i in 0..4000 {
        let h = if i % 50 == 0 { (i / 50) as f64 * 30.0 } else { unit() * 400.0 - 20.0 };
        let s = if i % 7 == 0 { 1.0 } else { unit() };
        let v = if i % 11 == 0 { 1.0 } else { unit() };
        assert_eq!(hsv_to_rgb(b(h), b(s), b(v)), native_hsv(h, s, v), "{} {} {}", h, s, v);
    }
    for &h in [f64::NAN, f64::INFINITY, -0.0, 1.0e300, -1.0e300, 5.0e-324].iter() {
        assert_eq!(hsv_to_rgb(b(h), b(0.5), b(0.75)), native_hsv(h, 0.5, 0.75), "{}", h);
    }
}

#[test]
fn grayscale_at_half_the_budget() {
    assert_eq!(color(5, 10, ColorScheme::Grayscale), (127, 127, 127));
    assert_eq!(color(50, 100, ColorScheme::Grayscale), (127, 127, 127));
    assert_eq!(color(1, 2, ColorScheme::Grayscale), (127, 127, 127));
}

#[test]
fn scheme_recipes_at_chosen_fractions() {
    // rainbow: hue 90° is halfway from yellow to green.
    assert_eq!(color(1, 4, ColorScheme::Rainbow), (127, 255, 0));
    // fire: hue 30°.
    assert_eq!(color(1, 2, ColorScheme::Fire), (255, 127, 0));
    // ocean: hue 210°.
    assert_eq!(color(1, 2, ColorScheme::Ocean), (0, 127, 255));
    // monochrome: gray up to nine tenths, pink accent above.
    assert_eq!(color(9, 10, ColorScheme::Monochrome), (229, 229, 229));
    assert_eq!(color(19, 20, ColorScheme::Monochrome), (255, 0, 170));
    // fire and ash: hue 30° below the half, graying orange from the half on.
    assert_eq!(color(1, 4, ColorScheme::FireAndAsh), (255, 127, 0));
    assert_eq!(color(1, 2, ColorScheme::FireAndAsh), (127, 63, 0));
    // cosmic at a quarter: hue 255°, saturation 0.775, value 0.7.
    assert_eq!(color(1, 4, ColorScheme::Cosmic), native_color(1, 4, "cosmic"));
    // psychedelic at the start: hue 270°, saturation 0.9.
    assert_eq!(color(0, 4, ColorScheme::Psychedelic), (140, 25, 255));
}

#[test]
fn colors_match_hardware() {
    let schemes = [
        ColorScheme::Rainbow,
        ColorScheme::Fire,
        ColorScheme::Ocean,
        ColorScheme::Grayscale,
        ColorScheme::Cosmic,
        ColorScheme::FireAndAsh,
        ColorScheme::Monochrome,
        ColorScheme::Psychedelic,
    ];
    for (k, tag) in TAGS.iter().enumerate() {
        for &max in [1u32, 2, 3, 7, 10, 100, 255, 1000, 4096].iter() {
            let step = if max > 300 { 7 } else { 1 };
            let mut n = 0;
            while n <= max {
                assert_eq!(color(n, max, schemes[k]), native_color(n, max, tag), "{} {}/{}", tag, n, max);
                n += step;
            }
        }
    }
}

#[test]
fn tags_name_their_schemes() {
    assert_eq!(ColorScheme::from_tag("rainbow"), ColorScheme::Rainbow);
    assert_eq!(ColorScheme::from_tag("fire"), ColorScheme::Fire);
    assert_eq!(ColorScheme::from_tag("ocean"), ColorScheme::Ocean);
    assert_eq!(ColorScheme::from_tag("grayscale"), ColorScheme::Grayscale);
    assert_eq!(ColorScheme::from_tag("cosmic"), ColorScheme::Cosmic);
    assert_eq!(ColorScheme::from_tag("fireAndAsh"), ColorScheme::FireAndAsh);
    assert_eq!(ColorScheme::from_tag("monochrome"), ColorScheme::Monochrome);
    assert_eq!(ColorScheme::from_tag("psychedelic"), ColorScheme::Psychedelic);
    assert_eq!(ColorScheme::from_tag(""), ColorScheme::Rainbow);
    assert_eq!(ColorScheme::from_tag("Fire"), ColorScheme::Rainbow);
    assert_eq!(ColorScheme::from_tag("fire "), ColorScheme::Rainbow);
    assert_eq!(ColorScheme::from_tag("fireandash"), ColorScheme::Rainbow);
    assert_eq!(ColorScheme::from_tag("océan"), ColorScheme::Rainbow);
}

#[test]
fn unknown_tags_render_as_rainbow() {
    let rainbow = render(9, 7, 30, 1.0, 0.0, 0.0, "rainbow");
    for tag in ["", "plasma", "RAINBOW", "grey", "fire and ash", "💥"].iter() {
        assert_eq!(render(9, 7, 30, 1.0, 0.0, 0.0, tag), rainbow, "{}", tag);
    }
    for max in [5u32, 33] {
        for n in 0..=max {
            let unknown = color(n, max, ColorScheme::from_tag("no such scheme"));
            assert_eq!(unknown, color(n, max, ColorScheme::Rainbow));
        }
    }
}

#[test]
fn rendering_twice_gives_the_same_bytes() {
    for tag in TAGS.iter() {
        let first = render(10, 8, 40, 1.5, -0.25, 0.125, tag);
        let second = render(10, 8, 40, 1.5, -0.25, 0.125, tag);
        assert_eq!(first, second);
    }
}

#[test]
fn two_by_two_grayscale() {
    let pixels = render(2, 2, 10, 1.0, 0.0, 0.0, "grayscale");
    assert_eq!(pixels.len(), 16);
    for p in 0..4 {
        let px = &pixels[p * 4..p * 4 + 4];
        assert_eq!(px[3], 255);
        assert_eq!(px[0], px[1]);
        assert_eq!(px[1], px[2]);
    }
    // (-2, -1.5) leaves at index 1, (-0.5, -1.5) at 2, (-2, 0) never, (-0.5, 0) never.
    assert_eq!(pixels, vec![25, 25, 25, 255, 51, 51, 51, 255, 0, 0, 0, 255, 0, 0, 0, 255]);
}

#[test]
fn pixels_come_row_by_row() {
    let (w, h) = (5u32, 4u32);
    let pixels = render(w, h, 20, 1.0, 0.0, 0.0, "fire");
    let view = Viewport::around(b(1.0), b(0.0), b(0.0));
    for y in 0..h {
        for x in 0..w {
            let n = escape_time(view.point(x, y, w, h), 20);
            let (r, g, bl) = color(n, 20, ColorScheme::Fire);
            let at = ((y * w + x) * 4) as usize;
            assert_eq!(&pixels[at..at + 4], &[r, g, bl, 255]);
        }
    }
}

#[test]
fn viewport_bounds_and_points() {
    let view = Viewport::around(b(1.0), b(0.0), b(0.0));
    assert_eq!(view.x_min.to_bits(), (-2.0f64).to_bits());
    assert_eq!(view.x_max.to_bits(), 1.0f64.to_bits());
    assert_eq!(view.y_min.to_bits(), (-1.5f64).to_bits());
    assert_eq!(view.y_max.to_bits(), 1.5f64.to_bits());
    let view = Viewport::around(b(4.0), b(-0.75), b(0.1));
    assert_eq!(view.x_min.to_bits(), (-0.75f64 - 2.0 / 4.0).to_bits());
    assert_eq!(view.x_max.to_bits(), (-0.75f64 + 1.0 / 4.0).to_bits());
    assert_eq!(view.y_min.to_bits(), (0.1f64 - 1.5 / 4.0).to_bits());
    assert_eq!(view.y_max.to_bits(), (0.1f64 + 1.5 / 4.0).to_bits());
    let c = Viewport::around(b(1.0), b(0.0), b(0.0)).point(4, 3, 8, 6);
    assert_eq!(c.re.to_bits(), (-0.5f64).to_bits());
    assert_eq!(c.im.to_bits(), 0.0f64.to_bits());
    let c = Viewport::around(b(3.0), b(0.3), b(-0.2)).point(5, 11, 7, 13);
    let x_min = 0.3f64 - 2.0 / 3.0;
    let x_max = 0.3f64 + 1.0 / 3.0;
    let y_min = -0.2f64 - 1.5 / 3.0;
    let y_max = -0.2f64 + 1.5 / 3.0;
    assert_eq!(c.re.to_bits(), (x_min + (5.0 / 7.0) * (x_max - x_min)).to_bits());
    assert_eq!(c.im.to_bits(), (y_min + (11.0 / 13.0) * (y_max - y_min)).to_bits());
}

#[test]
fn viewport_bounds_can_coincide() {
    // Far from the origin the window is narrower than the spacing of the numbers.
    let view = Viewport::around(b(1.0), b(1.0e300), b(-1.0e300));
    assert_eq!(view.x_min.to_bits(), view.x_max.to_bits());
    assert_eq!(view.y_min.to_bits(), view.y_max.to_bits());
    assert!(view.x_min.le(view.x_max));
    assert!(!view.x_min.lt(view.x_max));
    // At an infinite zoom the window has no width at all.
    let view = Viewport::around(b(f64::INFINITY), b(0.25), b(0.5));
    assert_eq!(view.x_min.to_bits(), 0.25f64.to_bits());
    assert_eq!(view.x_max.to_bits(), 0.25f64.to_bits());
    // An ordinary window is strictly ordered.
    let view = Viewport::around(b(2.0), b(0.25), b(0.5));
    assert!(view.x_min.lt(view.x_max));
    assert!(view.y_min.lt(view.y_max));
}

#[test]
fn escape_fractions_stay_below_one() {
    let one = b(1.0);
    let zero = b(0.0);
    for &cap in [1u32, 2, 3, 10, 1000, u32::MAX].iter() {
        for &count in [0u32, cap / 2, cap - 1].iter() {
            if count < cap {
                let t = Binary64::from_ratio(count, cap);
                assert!(t.lt(one), "{}/{}", count, cap);
                assert!(zero.le(t), "{}/{}", count, cap);
            }
        }
    }
}

#[test]
fn images_match_hardware() {
    let views = [
        (1.0, 0.0, 0.0),
        (1.5, -0.25, 0.125),
        (40.0, -0.743643887037151, 0.13182590420533),
        (0.3, 0.5, -0.5),
        (2.0e6, -1.7499, 0.0),
    ];
    for tag in TAGS.iter() {
        for &(zoom, cx, cy) in views.iter() {
            let ours = render(14, 11, 48, zoom, cx, cy, tag);
            let native = native_render(14, 11, 48, zoom, cx, cy, tag);
            assert_eq!(ours, native, "{} {} {} {}", tag, zoom, cx, cy);
        }
    }
}

#[test]
fn a_larger_image_matches_hardware() {
    let ours = render(48, 36, 64, 1.0, 0.0, 0.0, "psychedelic");
    let native = native_render(48, 36, 64, 1.0, 0.0, 0.0, "psychedelic");
    assert_eq!(ours, native);
}

#[test]
fn extreme_views_match_hardware() {
    for &(zoom, cx, cy) in [
        (f64::INFINITY, 0.0, 0.0),
        (f64::MIN_POSITIVE, 0.0, 0.0),
        (5.0e-324, 0.0, 0.0),
        (1.0e308, -0.5, 0.0),
        (1.0, f64::INFINITY, 0.0),
        (1.0, 0.0, f64::NEG_INFINITY),
        (1.0, 1.0e308, -1.0e308),
        (1.0e-300, 1.0e300, 1.0e300),
    ]
    .iter()
    {
        for tag in ["rainbow", "cosmic", "psychedelic"].iter() {
            let ours = render(4, 3, 9, zoom, cx, cy, tag);
            let native = native_render(4, 3, 9, zoom, cx, cy, tag);
            assert_eq!(ours, native, "{} {} {} {}", tag, zoom, cx, cy);
        }
    }
}

#[test]
fn a_view_that_is_no_number_is_all_black() {
    // No comparison with a NaN holds, so no point is ever seen to leave.
    let pixels = render(3, 2, 5, f64::NAN, 0.0, 0.0, "rainbow");
    assert_eq!(pixels.len(), 24);
    for px in pixels.chunks(4) {
        assert_eq!(px, &[0, 0, 0, 255]);
    }
    let pixels = render(3, 2, 5, 1.0, f64::NAN, 0.0, "fire");
    for px in pixels.chunks(4) {
        assert_eq!(px, &[0, 0, 0, 255]);
    }
}
