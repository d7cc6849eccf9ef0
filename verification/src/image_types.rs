//! The image types and the raw BMP file header layout.

use vstd::prelude::*;

verus! {

/// The image types a file can hold.
#[derive(Debug, Clone, Copy, PartialEq, Eq, Structural)]
pub enum ImageTypes {
    Bmp,
}

/// The 14-byte BMP file header, field by field as stored.
#[allow(dead_code)]
struct BmpFileHeader {
    signature: [u8; 2],
    size: [u8; 4],
    reserve: [u8; 2],
    reserve2: [u8; 2],
    start: [u8; 4],
}

/// The first bytes of a DIB header as stored.
#[allow(dead_code)]
struct BmpImage {
    dib_header: [u8; 7],
}

} // verus!
