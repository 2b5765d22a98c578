//! The canvas: a 2-D grid of 4-channel 8-bit pixels, backed by the `image`
//! crate's RGBA buffer and modeled as a map from coordinates to channel
//! quadruples. Every item here that carries `external_body` is trusted: its
//! contract states what the named `image` function does and Verus believes
//! it.
use vstd::prelude::*;

verus! {

/// A square (or any rectangular) pixel grid; the codec's wire format.
#[verifier::external_body]
pub struct Canvas {
    img: image::RgbaImage,
}

/// The width of a canvas, in pixels.
pub uninterp spec fn canvas_width_of(c: Canvas) -> u32;

/// The height of a canvas, in pixels.
pub uninterp spec fn canvas_height_of(c: Canvas) -> u32;

/// What a canvas holds: the (R, G, B, A) value of each pixel coordinate.
pub uninterp spec fn canvas_pixels(c: Canvas) -> Map<(u32, u32), (u8, u8, u8, u8)>;

/// The four bytes of pixel (x, y) inside a row-major RGBA byte buffer.
pub open spec fn raw_pixel_at(raw: Seq<u8>, width: int, x: int, y: int) -> (u8, u8, u8, u8) {
    (
        raw[4 * (y * width + x)],
        raw[4 * (y * width + x) + 1],
        raw[4 * (y * width + x) + 2],
        raw[4 * (y * width + x) + 3],
    )
}

/// Relies on image::ImageBuffer::from_raw: a row-major RGBA byte buffer of
/// exactly 4 * width * height bytes yields an image of those dimensions whose
/// pixel (x, y) holds the four bytes at offset 4 * (y * width + x). With an
/// exact length the call never returns None.
#[verifier::external_body]
pub(crate) fn canvas_from_raw(width: u32, height: u32, raw: Vec<u8>) -> (c: Canvas)
    requires
        raw@.len() == 4 * (width as int) * (height as int),
    ensures
        canvas_width_of(c) == width,
        canvas_height_of(c) == height,
        forall|x: u32, y: u32|
            x < width && y < height ==> #[trigger] canvas_pixels(c).contains_pair(
                (x, y),
                raw_pixel_at(raw@, width as int, x as int, y as int),
            ),
{
    Canvas { img: image::RgbaImage::from_raw(width, height, raw).unwrap() }
}

/// Relies on image::ImageBuffer::get_pixel: returns the pixel at (x, y); it
/// panics only out of bounds, which the precondition excludes.
#[verifier::external_body]
pub(crate) fn canvas_get(c: &Canvas, x: u32, y: u32) -> (p: (u8, u8, u8, u8))
    requires
        x < canvas_width_of(*c),
        y < canvas_height_of(*c),
    ensures
        p == canvas_pixels(*c)[(x, y)],
{
    let q = c.img.get_pixel(x, y);
    (q.0[0], q.0[1], q.0[2], q.0[3])
}

/// Relies on image::ImageBuffer::width.
#[verifier::external_body]
pub(crate) fn canvas_width(c: &Canvas) -> (w: u32)
    ensures
        w == canvas_width_of(*c),
{
    c.img.width()
}

/// Relies on image::ImageBuffer::height.
#[verifier::external_body]
pub(crate) fn canvas_height(c: &Canvas) -> (h: u32)
    ensures
        h == canvas_height_of(*c),
{
    c.img.height()
}

/// Relies on image::ImageBuffer::into_raw: hands back the row-major RGBA
/// byte buffer underlying the canvas, pixel (x, y) at offset
/// 4 * (y * width + x). Every canvas is built through `canvas_from_raw`, so
/// its buffer holds exactly 4 * width * height bytes.
#[verifier::external_body]
pub(crate) fn canvas_into_raw(c: Canvas) -> (raw: Vec<u8>)
    ensures
        raw@.len() == 4 * (canvas_width_of(c) as int) * (canvas_height_of(c) as int),
        forall|x: u32, y: u32|
            x < canvas_width_of(c) && y < canvas_height_of(c) ==> #[trigger] canvas_pixels(
                c,
            ).contains_pair(
                (x, y),
                raw_pixel_at(raw@, canvas_width_of(c) as int, x as int, y as int),
            ),
{
    c.img.into_raw()
}

impl Canvas {
    /// The canvas width in pixels.
    pub fn width(&self) -> (w: u32)
        ensures
            w == canvas_width_of(*self),
    {
        canvas_width(self)
    }

    /// The canvas height in pixels.
    pub fn height(&self) -> (h: u32)
        ensures
            h == canvas_height_of(*self),
    {
        canvas_height(self)
    }

    /// Whether the canvas holds no pixels at all.
    pub fn is_empty(&self) -> (r: bool)
        ensures
            r == (canvas_width_of(*self) == 0 || canvas_height_of(*self) == 0),
    {
        self.width() == 0 || self.height() == 0
    }

    /// Builds a canvas from raw row-major RGBA bytes; None when the buffer
    /// length does not match the dimensions.
    pub fn from_raw_parts(width: u32, height: u32, raw: Vec<u8>) -> (r: Option<Canvas>)
        ensures
            r matches Some(c) ==> {
                &&& raw@.len() == 4 * (width as int) * (height as int)
                &&& canvas_width_of(c) == width
                &&& canvas_height_of(c) == height
                &&& forall|x: u32, y: u32|
                    x < width && y < height ==> #[trigger] canvas_pixels(c).contains_pair(
                        (x, y),
                        raw_pixel_at(raw@, width as int, x as int, y as int),
                    )
            },
            r is None ==> raw@.len() != 4 * (width as int) * (height as int),
    {
        proof {
            assert((width as u128) * (height as u128) <= 0xFFFF_FFFFu128 * 0xFFFF_FFFFu128)
                by (nonlinear_arith)
                requires
                    width <= 0xFFFF_FFFFu32 && height <= 0xFFFF_FFFFu32,
            ;
        }
        let area: u128 = (width as u128) * (height as u128);
        if raw.len() as u128 == 4u128 * area {
            proof {
                assert(raw@.len() == 4 * ((width as int) * (height as int)));
                assert(4 * ((width as int) * (height as int)) == 4 * (width as int) * (
                height as int)) by (nonlinear_arith);
            }
            Some(canvas_from_raw(width, height, raw))
        } else {
            proof {
                assert(raw@.len() != 4 * ((width as int) * (height as int)));
                assert(4 * ((width as int) * (height as int)) == 4 * (width as int) * (
                height as int)) by (nonlinear_arith);
            }
            None
        }
    }

    /// Hands back the raw row-major RGBA bytes of the canvas.
    pub fn into_raw_parts(self) -> (raw: Vec<u8>)
        ensures
            raw@.len() == 4 * (canvas_width_of(self) as int) * (canvas_height_of(self) as int),
    {
        canvas_into_raw(self)
    }
}

/// The UTF-8 encoding of a character sequence.
pub uninterp spec fn utf8_bytes_of(s: Seq<char>) -> Seq<u8>;

/// Relies on str::as_bytes: a string's bytes are the UTF-8 encoding of its
/// characters.
#[verifier::external_body]
pub(crate) fn str_utf8_bytes(s: &str) -> (r: Vec<u8>)
    ensures
        r@ == utf8_bytes_of(s@),
{
    s.as_bytes().to_vec()
}

/// Relies on String::from_utf8: decoding succeeds exactly on byte sequences
/// that are the UTF-8 encoding of some character sequence, and returns that
/// sequence; UTF-8 decoding is the inverse of the encoding.
#[verifier::external_body]
pub(crate) fn utf8_to_string(bytes: Vec<u8>) -> (r: Option<String>)
    ensures
        r matches Some(s) ==> bytes@ == utf8_bytes_of(s@),
        r matches Some(s) ==> forall|t: Seq<char>| bytes@ == utf8_bytes_of(t) ==> s@ == t,
        r is None ==> forall|t: Seq<char>| bytes@ != utf8_bytes_of(t),
{
    String::from_utf8(bytes).ok()
}

} // verus!
