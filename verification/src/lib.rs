//! A renderer of the Mandelbrot set with proved contracts.
//!
//! [`generate_mandelbrot`] turns an image size, a viewport, an iteration
//! budget and the name of a colour scheme into raw RGBA bytes. All of its
//! arithmetic is binary64 floating point, carried out on bit patterns by the
//! integer routines of [`binary64`], so that every byte of the image is a
//! stated function of the arguments.

pub mod binary64;
pub mod color;
pub mod complex;
pub mod escape;
pub mod viewport;

pub use crate::binary64::value::{Binary64, Value};
pub use crate::color::ColorScheme;

use crate::color::{color, color_of, names_a_scheme};
use crate::escape::{escape_time, escape_time_of, lemma_minus_half_never_escapes};
use crate::viewport::{lemma_middle_of_default_viewport, Viewport, ViewportValue};
use vstd::arithmetic::power2::{lemma_pow2_pos, pow2};
use vstd::prelude::*;

verus! {

/// What a rendering is asked for: the size of the image in pixels, the
/// iteration budget per pixel, the part of the plane to show and the
/// colour scheme.
pub struct Request {
    pub width: nat,
    pub height: nat,
    pub max_iter: nat,
    pub zoom: Value,
    pub center_x: Value,
    pub center_y: Value,
    pub scheme: ColorScheme,
}

impl Request {
    /// A request can be rendered unless a dimension or the budget is zero
    /// or the zoom is zero or negative.
    pub open spec fn valid(self) -> bool {
        &&& self.width > 0
        &&& self.height > 0
        &&& self.max_iter > 0
        &&& !self.zoom.at_most(Value::from_count(0))
    }

    /// The rectangle of the plane that the image shows.
    pub open spec fn viewport(self) -> ViewportValue {
        ViewportValue::around(self.zoom, self.center_x, self.center_y)
    }

    /// The escape time of the point under the pixel in column `x`, row `y`.
    pub open spec fn escape_time_at(self, x: nat, y: nat) -> nat {
        escape_time_of(self.viewport().point(x, y, self.width, self.height), self.max_iter)
    }

    /// The colour of the pixel in column `x`, row `y`.
    pub open spec fn pixel(self, x: nat, y: nat) -> (u8, u8, u8) {
        color_of(self.escape_time_at(x, y), self.max_iter, self.scheme)
    }

    /// The byte at offset `i` of the image: rows from the top, pixels from
    /// the left, four bytes a pixel in the order red, green, blue, alpha,
    /// the alpha always 255.
    pub open spec fn byte(self, i: int) -> u8 {
        let index = (i / 4) as nat;
        let rgb = self.pixel(index % self.width, index / self.width);
        let part = i % 4;
        if part == 0 {
            rgb.0
        } else if part == 1 {
            rgb.1
        } else if part == 2 {
            rgb.2
        } else {
            255
        }
    }

    /// The whole image; empty for a request that is not valid.
    pub open spec fn image(self) -> Seq<u8> {
        if self.valid() {
            Seq::new(self.width * self.height * 4, |i: int| self.byte(i))
        } else {
            Seq::empty()
        }
    }
}

/// The request that the arguments of [`generate_mandelbrot`] make.
pub open spec fn request_of(
    width: u32,
    height: u32,
    max_iter: u32,
    zoom: Value,
    center_x: Value,
    center_y: Value,
    tag: Seq<char>,
) -> Request {
    Request {
        width: width as nat,
        height: height as nat,
        max_iter: max_iter as nat,
        zoom,
        center_x,
        center_y,
        scheme: ColorScheme::of_tag(tag),
    }
}

proof fn lemma_pixel_index(x: nat, y: nat, width: nat)
    requires
        x < width,
    ensures
        (y * width + x) % width == x,
        (y * width + x) / width == y,
{
    vstd::arithmetic::div_mod::lemma_fundamental_div_mod_converse(
        (y * width + x) as int,
        width as int,
        y as int,
        x as int,
    );
    assert(width * y == y * width) by (nonlinear_arith);
}

/// Renders the Mandelbrot set as raw RGBA bytes, row by row.
///
/// A request with a zero dimension, a zero budget, or a zoom that is zero or
/// negative gives an empty buffer. The buffer of any other request has to
/// be one that a vector can hold.
pub fn generate_mandelbrot(
    width: u32,
    height: u32,
    max_iter: u32,
    zoom: Binary64,
    center_x: Binary64,
    center_y: Binary64,
    colour_scheme: &str,
) -> (pixels: Vec<u8>)
    requires
        request_of(width, height, max_iter, zoom@, center_x@, center_y@, colour_scheme@).valid()
            ==> width * height * 4 <= isize::MAX,
    ensures
        pixels@ == request_of(
            width,
            height,
            max_iter,
            zoom@,
            center_x@,
            center_y@,
            colour_scheme@,
        ).image(),
        !request_of(width, height, max_iter, zoom@, center_x@, center_y@, colour_scheme@).valid()
            ==> pixels@.len() == 0,
        request_of(width, height, max_iter, zoom@, center_x@, center_y@, colour_scheme@).valid()
            ==> pixels@.len() == width * height * 4,
        forall|i: int| 0 <= i < pixels@.len() && i % 4 == 3 ==> pixels@[i] == 255,
{
    let ghost request = request_of(
        width,
        height,
        max_iter,
        zoom@,
        center_x@,
        center_y@,
        colour_scheme@,
    );
    if width == 0 || height == 0 || max_iter == 0 || zoom.le(Binary64::from_u32(0)) {
        return Vec::new();
    }
    let scheme = ColorScheme::from_tag(colour_scheme);
    let view = Viewport::around(zoom, center_x, center_y);
    proof {
        assert(width * height <= width * height * 4) by (nonlinear_arith);
    }
    let mut pixels: Vec<u8> = Vec::with_capacity((width as usize) * (height as usize) * 4);
    let mut y: u32 = 0;
    while y < height
        invariant
            y <= height,
            request == request_of(
                width,
                height,
                max_iter,
                zoom@,
                center_x@,
                center_y@,
                colour_scheme@,
            ),
            scheme == request.scheme,
            view@ == request.viewport(),
            pixels@.len() == 4 * (y * width),
            forall|i: int| 0 <= i < pixels@.len() ==> pixels@[i] == request.byte(i),
        decreases height - y,
    {
        let mut x: u32 = 0;
        proof {
            assert(y * width + 0 == y * width);
        }
        while x < width
            invariant
                x <= width,
                y < height,
                request == request_of(
                    width,
                    height,
                    max_iter,
                    zoom@,
                    center_x@,
                    center_y@,
                    colour_scheme@,
                ),
                scheme == request.scheme,
                view@ == request.viewport(),
                pixels@.len() == 4 * (y * width + x),
                forall|i: int| 0 <= i < pixels@.len() ==> pixels@[i] == request.byte(i),
            decreases width - x,
        {
            let c = view.point(x, y, width, height);
            let n = escape_time(c, max_iter);
            let rgb = color(n, max_iter, scheme);
            proof {
                lemma_pixel_index(x as nat, y as nat, width as nat);
                let start = 4 * (y * width + x);
                assert(start / 4 == y * width + x);
                assert((start + 1) / 4 == y * width + x);
                assert((start + 2) / 4 == y * width + x);
                assert((start + 3) / 4 == y * width + x);
                assert(rgb == request.pixel(x as nat, y as nat));
            }
            pixels.push(rgb.0);
            pixels.push(rgb.1);
            pixels.push(rgb.2);
            pixels.push(255);
            x = x + 1;
        }
        proof {
            assert((y + 1) * width == y * width + width) by (nonlinear_arith);
        }
        y = y + 1;
    }
    proof {
        assert(height * width == width * height) by (nonlinear_arith);
        assert(4 * (width * height) == width * height * 4) by (nonlinear_arith);
        assert(pixels@ =~= request.image());
    }
    pixels
}

/// The shape of an image: nothing for a request that is not valid, else
/// four bytes for each pixel, every fourth of them an alpha of 255.
pub proof fn lemma_image_shape(request: Request)
    ensures
        !request.valid() ==> request.image().len() == 0,
        request.valid() ==> request.image().len() == request.width * request.height * 4,
        forall|i: int|
            0 <= i < request.image().len() && i % 4 == 3 ==> #[trigger] request.image()[i] == 255,
{
}

/// Where a pixel lies in the image: the pixel in column `x` of row `y`
/// fills the four bytes from offset `4 * (y * width + x)`.
pub proof fn lemma_image_pixel(request: Request, x: nat, y: nat)
    requires
        request.valid(),
        x < request.width,
        y < request.height,
    ensures
        ({
            let at = (4 * (y * request.width + x)) as int;
            let rgb = request.pixel(x, y);
            &&& at + 4 <= request.image().len()
            &&& request.image()[at] == rgb.0
            &&& request.image()[at + 1] == rgb.1
            &&& request.image()[at + 2] == rgb.2
            &&& request.image()[at + 3] == 255
        }),
{
    let w = request.width;
    let h = request.height;
    lemma_pixel_index(x, y, w);
    assert(y * w + x + 1 <= w * h) by (nonlinear_arith)
        requires
            x < w,
            y < h,
    ;
    assert(4 * (y * w + x) + 4 <= w * h * 4) by (nonlinear_arith)
        requires
            y * w + x + 1 <= w * h,
    ;
    let at = (4 * (y * w + x)) as int;
    assert(at / 4 == y * w + x);
    assert((at + 1) / 4 == y * w + x);
    assert((at + 2) / 4 == y * w + x);
    assert((at + 3) / 4 == y * w + x);
}

/// A pixel over a point that stays bounded through the whole budget is
/// black and opaque, whatever the scheme.
pub proof fn lemma_members_are_black(request: Request, x: nat, y: nat)
    requires
        request.valid(),
        x < request.width,
        y < request.height,
        request.escape_time_at(x, y) == request.max_iter,
    ensures
        ({
            let at = (4 * (y * request.width + x)) as int;
            &&& request.image()[at] == 0
            &&& request.image()[at + 1] == 0
            &&& request.image()[at + 2] == 0
            &&& request.image()[at + 3] == 255
        }),
{
    lemma_image_pixel(request, x, y);
}

/// In the default view, zoom 1 around the origin, the middle pixel of an
/// image of even width and height lies over the point -0.5, which stays
/// bounded: it is black whatever the budget and the scheme.
pub proof fn lemma_middle_of_default_view_is_black(
    width: u32,
    height: u32,
    max_iter: u32,
    tag: Seq<char>,
)
    requires
        width > 0,
        height > 0,
        max_iter > 0,
        width % 2 == 0,
        height % 2 == 0,
    ensures
        ({
            let request = request_of(
                width,
                height,
                max_iter,
                Value::from_count(1),
                Value::from_count(0),
                Value::from_count(0),
                tag,
            );
            let at = 4 * ((height / 2) * width + width / 2);
            &&& request.valid()
            &&& request.escape_time_at((width / 2) as nat, (height / 2) as nat) == max_iter
            &&& request.image()[at] == 0
            &&& request.image()[at + 1] == 0
            &&& request.image()[at + 2] == 0
            &&& request.image()[at + 3] == 255
        }),
{
    let request = request_of(
        width,
        height,
        max_iter,
        Value::from_count(1),
        Value::from_count(0),
        Value::from_count(0),
        tag,
    );
    lemma_pow2_pos(1074);
    assert(0 * pow2(1074) == 0 && 1 * pow2(1074) > 0) by (nonlinear_arith)
        requires
            pow2(1074) > 0,
    ;
    assert(request.valid());
    lemma_middle_of_default_viewport(width as nat, height as nat);
    lemma_minus_half_never_escapes(max_iter as nat);
    lemma_members_are_black(request, (width / 2) as nat, (height / 2) as nat);
}

/// A tag that is none of the eight names gives the image that "rainbow" gives.
pub proof fn lemma_unknown_tag_renders_as_rainbow(
    width: u32,
    height: u32,
    max_iter: u32,
    zoom: Value,
    center_x: Value,
    center_y: Value,
    tag: Seq<char>,
)
    requires
        !names_a_scheme(tag),
    ensures
        request_of(width, height, max_iter, zoom, center_x, center_y, tag).image() == request_of(
            width,
            height,
            max_iter,
            zoom,
            center_x,
            center_y,
            "rainbow"@,
        ).image(),
{
    assert(ColorScheme::of_tag(tag) == ColorScheme::of_tag("rainbow"@));
}

/// Rendering is repeatable: two buffers rendered from the same arguments
/// hold the same bytes, since the image is a function of the values of the
/// arguments and of nothing else.
pub proof fn lemma_rendering_is_repeatable(first: Seq<u8>, second: Seq<u8>, request: Request)
    requires
        first == request.image(),
        second == request.image(),
    ensures
        first == second,
{
}

} // verus!
