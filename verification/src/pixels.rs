//! Pixel values of the colour types that images can have.

use vstd::prelude::*;

verus! {

/// One pixel: RGB or RGBA with 8 or 16 bits per channel, or grey with or
/// without alpha.
#[derive(Debug, Clone, Copy, PartialEq, Eq, Structural)]
pub enum Pixels {
    Rgb(u8, u8, u8),
    Rgba(u8, u8, u8, u8),
    BigRgb(u16, u16, u16),
    BigRgba(u16, u16, u16, u16),
    Gray(u8),
    GrayAlpha(u8, u8),
    BigGray(u16),
    BigGrayAlpha(u16, u16),
}

} // verus!
