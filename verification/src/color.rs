//! Colour schemes and the conversion from hue, saturation and value.

use crate::binary64::laws::{
    lemma_half, lemma_nearest_code_monotonic, lemma_ratio_is_nearest, lemma_rounded_exact_fraction,
    lemma_units_ordered, lemma_whole_difference, lemma_whole_order, lemma_whole_product,
    lemma_whole_quotient, lemma_whole_remainder, lemma_whole_sum, lemma_whole_to_byte,
};
use crate::binary64::value::{Binary64, Value};
use crate::binary64::rounding::{lemma_rounded_exact, nearest_code};
use vstd::arithmetic::power2::{
    lemma2_to64, lemma_pow2_adds, lemma_pow2_pos, lemma_pow2_unfold, pow2,
};
use vstd::prelude::*;
use vstd::string::*;

verus! {

/// A recipe that turns the escape fraction of a point into a colour.
#[derive(Clone, Copy, Debug, PartialEq, Eq, Structural)]
pub enum ColorScheme {
    Rainbow,
    Fire,
    Ocean,
    Grayscale,
    Cosmic,
    FireAndAsh,
    Monochrome,
    Psychedelic,
}

impl ColorScheme {
    /// The scheme that a tag names; a tag that names none selects the rainbow.
    pub open spec fn of_tag(tag: Seq<char>) -> ColorScheme {
        if tag == "rainbow"@ {
            ColorScheme::Rainbow
        } else if tag == "fire"@ {
            ColorScheme::Fire
        } else if tag == "ocean"@ {
            ColorScheme::Ocean
        } else if tag == "grayscale"@ {
            ColorScheme::Grayscale
        } else if tag == "cosmic"@ {
            ColorScheme::Cosmic
        } else if tag == "fireAndAsh"@ {
            ColorScheme::FireAndAsh
        } else if tag == "monochrome"@ {
            ColorScheme::Monochrome
        } else if tag == "psychedelic"@ {
            ColorScheme::Psychedelic
        } else {
            ColorScheme::Rainbow
        }
    }

    /// The scheme that a tag names.
    pub fn from_tag(tag: &str) -> (scheme: ColorScheme)
        ensures
            scheme == ColorScheme::of_tag(tag@),
    {
        if same_text(tag, "rainbow") {
            ColorScheme::Rainbow
        } else if same_text(tag, "fire") {
            ColorScheme::Fire
        } else if same_text(tag, "ocean") {
            ColorScheme::Ocean
        } else if same_text(tag, "grayscale") {
            ColorScheme::Grayscale
        } else if same_text(tag, "cosmic") {
            ColorScheme::Cosmic
        } else if same_text(tag, "fireAndAsh") {
            ColorScheme::FireAndAsh
        } else if same_text(tag, "monochrome") {
            ColorScheme::Monochrome
        } else if same_text(tag, "psychedelic") {
            ColorScheme::Psychedelic
        } else {
            ColorScheme::Rainbow
        }
    }
}

/// Whether a tag is one of the eight names of schemes.
pub open spec fn names_a_scheme(tag: Seq<char>) -> bool {
    ||| tag == "rainbow"@
    ||| tag == "fire"@
    ||| tag == "ocean"@
    ||| tag == "grayscale"@
    ||| tag == "cosmic"@
    ||| tag == "fireAndAsh"@
    ||| tag == "monochrome"@
    ||| tag == "psychedelic"@
}

/// One colour channel: the component plus the lightness offset, scaled to
/// 255 and cut to a byte.
pub open spec fn channel_of(component: Value, offset: Value) -> u8 {
    component.plus(offset).times(Value::from_count(255)).to_byte()
}

/// The colour with hue `h` in degrees, saturation `s` and value `v`, by the
/// sector of the colour wheel that the hue falls in.
pub open spec fn hsv_to_rgb_of(h: Value, s: Value, v: Value) -> (u8, u8, u8) {
    let zero = Value::from_count(0);
    let one = Value::from_count(1);
    let c = v.times(s);
    let h_prime = h.over(Value::from_count(60));
    let x = c.times(one.minus(h_prime.modulo(Value::from_count(2)).minus(one).magnitude()));
    let m = v.minus(c);
    let primes = if h_prime.below(Value::from_count(1)) {
        (c, x, zero)
    } else if h_prime.below(Value::from_count(2)) {
        (x, c, zero)
    } else if h_prime.below(Value::from_count(3)) {
        (zero, c, x)
    } else if h_prime.below(Value::from_count(4)) {
        (zero, x, c)
    } else if h_prime.below(Value::from_count(5)) {
        (x, zero, c)
    } else {
        (c, zero, x)
    };
    (channel_of(primes.0, m), channel_of(primes.1, m), channel_of(primes.2, m))
}

/// The gray of the given lightness between 0 and 1.
pub open spec fn gray_of(fraction: Value) -> (u8, u8, u8) {
    let level = fraction.times(Value::from_count(255)).to_byte();
    (level, level, level)
}

/// The hue of the psychedelic scheme: three turns of the wheel, each folded
/// onto purples, pinks and yellows.
pub open spec fn psychedelic_hue_of(fraction: Value) -> Value {
    let raw = fraction.times(Value::from_count(3)).times(Value::from_count(360)).modulo(
        Value::from_count(360),
    );
    if raw.below(Value::from_count(60)) {
        Value::from_count(270).plus(raw.over(Value::from_count(2)))
    } else if raw.below(Value::from_count(180)) {
        Value::from_count(300).plus(raw.minus(Value::from_count(60)).over(Value::from_count(4)))
    } else {
        Value::from_count(60).plus(raw.minus(Value::from_count(180)).over(Value::from_count(6)))
    }
}

/// The colour of a point that escaped after `count` of `cap` iterations, as
/// a scheme paints the fraction `count / cap`.
pub open spec fn escaped_color_of(count: nat, cap: nat, scheme: ColorScheme) -> (u8, u8, u8) {
    let one = Value::from_count(1);
    let t = Value::ratio(count, cap);
    match scheme {
        ColorScheme::Rainbow => hsv_to_rgb_of(t.times(Value::from_count(360)), one, one),
        ColorScheme::Fire => hsv_to_rgb_of(t.times(Value::from_count(60)), one, one),
        ColorScheme::Ocean => hsv_to_rgb_of(
            Value::from_count(180).plus(t.times(Value::from_count(60))),
            one,
            one,
        ),
        ColorScheme::Grayscale => gray_of(t),
        ColorScheme::Cosmic => hsv_to_rgb_of(
            Value::from_count(240).plus(t.times(Value::from_count(60))),
            Value::ratio(7, 10).plus(t.times(Value::ratio(3, 10))),
            Value::ratio(6, 10).plus(t.times(Value::ratio(4, 10))),
        ),
        ColorScheme::FireAndAsh => if t.below(Value::ratio(1, 2)) {
            hsv_to_rgb_of(t.times(Value::from_count(2)).times(Value::from_count(60)), one, one)
        } else {
            let u = t.minus(Value::ratio(1, 2)).times(Value::from_count(2));
            hsv_to_rgb_of(
                Value::from_count(30),
                one.minus(u),
                Value::ratio(1, 2).plus(u.times(Value::ratio(1, 2))),
            )
        },
        ColorScheme::Monochrome => if Value::ratio(9, 10).below(t) {
            hsv_to_rgb_of(Value::from_count(320), one, one)
        } else {
            gray_of(t)
        },
        ColorScheme::Psychedelic => hsv_to_rgb_of(psychedelic_hue_of(t), Value::ratio(9, 10), one),
    }
}

/// The colour of a point by its escape time: black for a point that stayed
/// inside through all `cap` iterations, the scheme's colour otherwise.
pub open spec fn color_of(count: nat, cap: nat, scheme: ColorScheme) -> (u8, u8, u8) {
    if count == cap {
        (0u8, 0u8, 0u8)
    } else {
        escaped_color_of(count, cap, scheme)
    }
}

/// Whether two strings hold the same characters.
pub fn same_text(a: &str, b: &str) -> (r: bool)
    ensures
        r == (a@ == b@),
{
    let len = a.unicode_len();
    if len != b.unicode_len() {
        return false;
    }
    let mut i: usize = 0;
    while i < len
        invariant
            i <= len,
            len == a@.len(),
            len == b@.len(),
            forall|j: int| 0 <= j < i ==> a@[j] == b@[j],
        decreases len - i,
    {
        if a.get_char(i) != b.get_char(i) {
            return false;
        }
        i = i + 1;
    }
    assert(a@ =~= b@);
    true
}

fn channel(component: Binary64, offset: Binary64) -> (b: u8)
    ensures
        b == channel_of(component@, offset@),
{
    component.add(offset).mul(Binary64::from_u32(255)).to_u8()
}

/// Converts hue (degrees), saturation and value to red, green and blue.
pub fn hsv_to_rgb(h: Binary64, s: Binary64, v: Binary64) -> (rgb: (u8, u8, u8))
    ensures
        rgb == hsv_to_rgb_of(h@, s@, v@),
{
    let zero = Binary64::from_u32(0);
    let one = Binary64::from_u32(1);
    let c = v.mul(s);
    let h_prime = h.div(Binary64::from_u32(60));
    let x = c.mul(one.sub(h_prime.rem(Binary64::from_u32(2)).sub(one).abs()));
    let m = v.sub(c);
    let primes = if h_prime.lt(Binary64::from_u32(1)) {
        (c, x, zero)
    } else if h_prime.lt(Binary64::from_u32(2)) {
        (x, c, zero)
    } else if h_prime.lt(Binary64::from_u32(3)) {
        (zero, c, x)
    } else if h_prime.lt(Binary64::from_u32(4)) {
        (zero, x, c)
    } else if h_prime.lt(Binary64::from_u32(5)) {
        (x, zero, c)
    } else {
        (c, zero, x)
    };
    (channel(primes.0, m), channel(primes.1, m), channel(primes.2, m))
}

fn gray(fraction: Binary64) -> (rgb: (u8, u8, u8))
    ensures
        rgb == gray_of(fraction@),
{
    let level = fraction.mul(Binary64::from_u32(255)).to_u8();
    (level, level, level)
}

fn psychedelic_hue(fraction: Binary64) -> (hue: Binary64)
    ensures
        hue@ == psychedelic_hue_of(fraction@),
{
    let raw = fraction.mul(Binary64::from_u32(3)).mul(Binary64::from_u32(360)).rem(
        Binary64::from_u32(360),
    );
    if raw.lt(Binary64::from_u32(60)) {
        Binary64::from_u32(270).add(raw.div(Binary64::from_u32(2)))
    } else if raw.lt(Binary64::from_u32(180)) {
        Binary64::from_u32(300).add(raw.sub(Binary64::from_u32(60)).div(Binary64::from_u32(4)))
    } else {
        Binary64::from_u32(60).add(raw.sub(Binary64::from_u32(180)).div(Binary64::from_u32(6)))
    }
}

/// The colour of a point by its escape time.
pub fn color(count: u32, max_iter: u32, scheme: ColorScheme) -> (rgb: (u8, u8, u8))
    ensures
        rgb == color_of(count as nat, max_iter as nat, scheme),
        count == max_iter ==> rgb == (0u8, 0u8, 0u8),
{
    if count == max_iter {
        return (0, 0, 0);
    }
    let one = Binary64::from_u32(1);
    let t = Binary64::from_ratio(count, max_iter);
    match scheme {
        ColorScheme::Rainbow => hsv_to_rgb(t.mul(Binary64::from_u32(360)), one, one),
        ColorScheme::Fire => hsv_to_rgb(t.mul(Binary64::from_u32(60)), one, one),
        ColorScheme::Ocean => hsv_to_rgb(
            Binary64::from_u32(180).add(t.mul(Binary64::from_u32(60))),
            one,
            one,
        ),
        ColorScheme::Grayscale => gray(t),
        ColorScheme::Cosmic => hsv_to_rgb(
            Binary64::from_u32(240).add(t.mul(Binary64::from_u32(60))),
            Binary64::from_ratio(7, 10).add(t.mul(Binary64::from_ratio(3, 10))),
            Binary64::from_ratio(6, 10).add(t.mul(Binary64::from_ratio(4, 10))),
        ),
        ColorScheme::FireAndAsh => {
            let half = Binary64::from_ratio(1, 2);
            if t.lt(half) {
                hsv_to_rgb(t.mul(Binary64::from_u32(2)).mul(Binary64::from_u32(60)), one, one)
            } else {
                let u = t.sub(half).mul(Binary64::from_u32(2));
                hsv_to_rgb(Binary64::from_u32(30), one.sub(u), half.add(u.mul(half)))
            }
        },
        ColorScheme::Monochrome => {
            if t.gt(Binary64::from_ratio(9, 10)) {
                hsv_to_rgb(Binary64::from_u32(320), one, one)
            } else {
                gray(t)
            }
        },
        ColorScheme::Psychedelic => hsv_to_rgb(
            psychedelic_hue(t),
            Binary64::from_ratio(9, 10),
            one,
        ),
    }
}

/// Each of the eight names selects its own scheme.
pub proof fn lemma_names_select_their_schemes()
    ensures
        ColorScheme::of_tag("rainbow"@) == ColorScheme::Rainbow,
        ColorScheme::of_tag("fire"@) == ColorScheme::Fire,
        ColorScheme::of_tag("ocean"@) == ColorScheme::Ocean,
        ColorScheme::of_tag("grayscale"@) == ColorScheme::Grayscale,
        ColorScheme::of_tag("cosmic"@) == ColorScheme::Cosmic,
        ColorScheme::of_tag("fireAndAsh"@) == ColorScheme::FireAndAsh,
        ColorScheme::of_tag("monochrome"@) == ColorScheme::Monochrome,
        ColorScheme::of_tag("psychedelic"@) == ColorScheme::Psychedelic,
{
    reveal_strlit("rainbow");
    reveal_strlit("fire");
    reveal_strlit("ocean");
    reveal_strlit("grayscale");
    reveal_strlit("cosmic");
    reveal_strlit("fireAndAsh");
    reveal_strlit("monochrome");
    reveal_strlit("psychedelic");
    assert("rainbow"@.len() == 7);
    assert("fire"@.len() == 4);
    assert("ocean"@.len() == 5);
    assert("grayscale"@.len() == 9);
    assert("cosmic"@.len() == 6);
    assert("fireAndAsh"@.len() == 10);
    assert("monochrome"@.len() == 10);
    assert("psychedelic"@.len() == 11);
    assert("fireAndAsh"@[0] == 'f' && "monochrome"@[0] == 'm');
}

/// A tag that is none of the eight names selects the scheme that
/// "rainbow" selects, and so paints every point as "rainbow" does.
pub proof fn lemma_unknown_tag_is_rainbow(tag: Seq<char>)
    requires
        !names_a_scheme(tag),
    ensures
        ColorScheme::of_tag(tag) == ColorScheme::of_tag("rainbow"@),
        forall|count: nat, cap: nat|
            #[trigger] color_of(count, cap, ColorScheme::of_tag(tag)) == color_of(
                count,
                cap,
                ColorScheme::of_tag("rainbow"@),
            ),
{
}

/// A point that used up its budget is black in every scheme.
pub proof fn lemma_member_is_black(cap: nat, scheme: ColorScheme)
    ensures
        color_of(cap, cap, scheme) == (0u8, 0u8, 0u8),
{
}

/// The gray schemes give equal red, green and blue: always in grayscale,
/// up to nine tenths of the budget in monochrome.
pub proof fn lemma_grays_are_gray(count: nat, cap: nat)
    ensures
        ({
            let rgb = color_of(count, cap, ColorScheme::Grayscale);
            rgb.0 == rgb.1 && rgb.1 == rgb.2
        }),
        !Value::ratio(9, 10).below(Value::ratio(count, cap)) ==> ({
            let rgb = color_of(count, cap, ColorScheme::Monochrome);
            rgb.0 == rgb.1 && rgb.1 == rgb.2
        }),
{
}

/// The escape fraction of a point that escaped lies in the range from 0 up
/// to, but not including, 1.
pub proof fn lemma_escape_fraction_range(count: u32, cap: u32)
    requires
        count < cap,
    ensures
        Value::from_count(0).at_most(Value::ratio(count as nat, cap as nat)),
        Value::ratio(count as nat, cap as nat).below(Value::from_count(1)),
{
    let p = pow2(1074);
    let low = pow2(1042);
    let most: nat = 0xFFFF_FFFF;
    let top = most * low;
    lemma2_to64();
    lemma_pow2_pos(1042);
    lemma_pow2_adds(32, 1042);
    assert(p == 0x1_0000_0000 * low);
    lemma_ratio_is_nearest(count as nat, cap as nat);
    lemma_rounded_exact(false, most, 1042);
    assert((count * p) * 1 <= top * cap) by (nonlinear_arith)
        requires
            count + 1 <= cap,
            cap <= 0xFFFF_FFFF,
            p == 0x1_0000_0000 * low,
            top == 0xFFFF_FFFF * low,
            low > 0,
    ;
    lemma_nearest_code_monotonic(count as nat * p, cap as nat, top, 1);
    lemma_units_ordered(nearest_code(count as nat * p, cap as nat), nearest_code(top, 1));
    assert(0 * p == 0 && 1 * p == p) by (nonlinear_arith);
    assert(top < p);
}

/// A channel at full strength is 255 and an empty one 0, when the
/// lightness offset is zero.
proof fn lemma_pure_channels()
    ensures
        channel_of(Value::from_count(1), Value::from_count(0)) == 255u8,
        channel_of(Value::from_count(0), Value::from_count(0)) == 0u8,
{
    lemma_whole_sum(1, 0);
    lemma_whole_sum(0, 0);
    lemma_whole_product(1, 255);
    lemma_whole_product(0, 255);
    lemma_whole_to_byte(255);
    lemma_whole_to_byte(0);
}

/// The intermediate values of the conversion for a fully saturated, fully
/// bright colour whose hue is an even multiple of 60 degrees.
proof fn lemma_pure_hue_parts(sector: nat)
    requires
        sector % 2 == 0,
        sector < 6,
    ensures
        ({
            let one = Value::from_count(1);
            let h_prime = Value::from_count(60 * sector).over(Value::from_count(60));
            &&& one.times(one) == one
            &&& h_prime == Value::from_count(sector)
            &&& one.times(
                one.minus(h_prime.modulo(Value::from_count(2)).minus(one).magnitude()),
            ) == Value::from_count(0)
            &&& one.minus(one) == Value::from_count(0)
        }),
{
    let one = Value::from_count(1);
    lemma_whole_product(1, 1);
    assert(sector * 60 == 60 * sector);
    lemma_whole_quotient(sector, 60);
    lemma_whole_remainder(sector, 2);
    lemma_whole_difference(0, 1);
    assert(Value::from_count(1).negated().magnitude() == one);
    lemma_whole_difference(1, 1);
    lemma_whole_product(1, 0);
}

/// Full red, green and blue: hues 0, 120 and 240 degrees at full
/// saturation and value.
pub proof fn lemma_hsv_primaries()
    ensures
        hsv_to_rgb_of(Value::from_count(0), Value::from_count(1), Value::from_count(1)) == (
            255u8,
            0u8,
            0u8,
        ),
        hsv_to_rgb_of(Value::from_count(120), Value::from_count(1), Value::from_count(1)) == (
            0u8,
            255u8,
            0u8,
        ),
        hsv_to_rgb_of(Value::from_count(240), Value::from_count(1), Value::from_count(1)) == (
            0u8,
            0u8,
            255u8,
        ),
{
    lemma_pure_channels();
    lemma_pure_hue_parts(0);
    lemma_pure_hue_parts(2);
    lemma_pure_hue_parts(4);
    lemma_whole_order(0, 1);
    lemma_whole_order(2, 1);
    lemma_whole_order(2, 2);
    lemma_whole_order(2, 3);
    lemma_whole_order(4, 1);
    lemma_whole_order(4, 2);
    lemma_whole_order(4, 3);
    lemma_whole_order(4, 4);
    lemma_whole_order(4, 5);
}

/// A point that escapes at half the budget is painted the gray 127 by the
/// grayscale scheme: half of 255, cut to a whole number.
pub proof fn lemma_grayscale_at_half_budget(count: nat)
    requires
        count > 0,
    ensures
        color_of(count, 2 * count, ColorScheme::Grayscale) == (127u8, 127u8, 127u8),
{
    let h = pow2(1073);
    let p = pow2(1074);
    lemma_pow2_pos(1073);
    lemma_pow2_unfold(1074);
    lemma_half(count);
    let t = Value::ratio(count, 2 * count);
    assert(h * (255 * p) == 255 * h * p) by (nonlinear_arith);
    lemma_rounded_exact_fraction(false, 255, 1073, p);
    let scaled = t.times(Value::from_count(255));
    assert(scaled == Value::Finite { negative: false, units: 255 * h });
    assert((255 * h) / p == 127) by (nonlinear_arith)
        requires
            p == 2 * h,
            h > 0,
    ;
    assert(scaled.to_byte() == 127u8);
}

} // verus!
