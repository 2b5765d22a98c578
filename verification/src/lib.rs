//! A steganographic pixel codec: hides a short byte string in the pixel
//! colors of a square image, keyed by a shared base color. Bytes are packed
//! three per block; channel sums that exceed 255 are clamped and recovered
//! through overflow records stored after a reserved separator block.
use vstd::prelude::*;

pub mod canvas;
pub mod decode;
pub mod encode;
pub mod laws;
pub mod model;

pub use canvas::Canvas;
pub use decode::decode_pixels_to_string;
pub use encode::count_overflow_pixels;
pub use encode::string_to_pixels;

verus! {

/// The largest accepted block size: keeps every canvas the codec can produce
/// within the pixel buffer sizes the grid allocator accepts on any platform.
pub const MAX_PIXEL_SIZE: u32 = 1023;

/// The errors the codec reports.
#[derive(Clone, Copy, Debug, PartialEq, Eq, Structural)]
pub enum CodecError {
    /// Encoding was asked for more than 765 input bytes.
    InputTooLarge,
    /// The block size is zero or too large to lay out a canvas.
    InvalidPixelSize,
    /// The decoded bytes are not valid text.
    InvalidEncoding,
}

/// Adds a byte onto a base channel value, clamping at 255; the second
/// component is the amount clamped away (zero when nothing overflowed).
pub fn add_with_overflow(base: u8, add: u8) -> (r: (u8, u8))
    ensures
        r.0 == model::stored_channel(base, add),
        r.1 == model::excess_channel(base, add),
{
    let sum: u16 = base as u16 + add as u16;
    if sum > 255 {
        (255, (sum - 255) as u8)
    } else {
        (sum as u8, 0)
    }
}

} // verus!
