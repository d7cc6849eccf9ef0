//! BMP: the DIB (BITMAPINFOHEADER) header and the pixel array.

use crate::endian::{le_i32, le_u16, le_u32, read_le_i32, read_le_u16, read_le_u32};
use crate::error::{is_custom, ImageError};
use vstd::arithmetic::power2::pow2;
use vstd::prelude::*;
use vstd::string::*;

verus! {

/// One pixel colour.
#[derive(Clone, Copy, Debug, PartialEq, Eq, Structural)]
pub struct Rgb {
    pub red: u8,
    pub green: u8,
    pub blue: u8,
}

/// The 40-byte BITMAPINFOHEADER that follows the BMP file header.
#[derive(Debug)]
pub struct BitMapImageHeader {
    size: u32,
    width: i32,
    height: i32,
    number_of_color_planes: u16,
    bits_per_pixel: u16,
    compression_method_raw: u32,
    image_size: u32,
    horizontal_resolution: u32,
    vertical_resolution: u32,
    color_count: u32,
    important_color_count: u32,
}

impl BitMapImageHeader {
    pub closed spec fn spec_size(&self) -> u32 {
        self.size
    }

    pub closed spec fn spec_width(&self) -> i32 {
        self.width
    }

    pub closed spec fn spec_height(&self) -> i32 {
        self.height
    }

    pub closed spec fn spec_number_of_color_planes(&self) -> u16 {
        self.number_of_color_planes
    }

    pub closed spec fn spec_bits_per_pixel(&self) -> u16 {
        self.bits_per_pixel
    }

    pub closed spec fn spec_compression_method_raw(&self) -> u32 {
        self.compression_method_raw
    }

    pub closed spec fn spec_image_size(&self) -> u32 {
        self.image_size
    }

    pub closed spec fn spec_horizontal_resolution(&self) -> u32 {
        self.horizontal_resolution
    }

    pub closed spec fn spec_vertical_resolution(&self) -> u32 {
        self.vertical_resolution
    }

    pub closed spec fn spec_color_count(&self) -> u32 {
        self.color_count
    }

    pub closed spec fn spec_important_color_count(&self) -> u32 {
        self.important_color_count
    }

    /// Decodes the little-endian fields of the header from its first 40 bytes.
    pub fn new(header_bytes: &[u8]) -> (r: Result<BitMapImageHeader, ImageError>)
        requires
            header_bytes@.len() >= 40,
        ensures
            r matches Ok(h) && {
                &&& h.size() == le_u32(header_bytes@, 0)
                &&& h.width() == le_i32(header_bytes@, 4)
                &&& h.height() == le_i32(header_bytes@, 8)
                &&& h.number_of_color_planes() == le_u16(header_bytes@, 12)
                &&& h.bits_per_pixel() == le_u16(header_bytes@, 14)
                &&& h.compression_method_raw() == le_u32(header_bytes@, 16)
                &&& h.image_size() == le_u32(header_bytes@, 20)
                &&& h.horizontal_resolution() == le_u32(header_bytes@, 24)
                &&& h.vertical_resolution() == le_u32(header_bytes@, 28)
                &&& h.color_count() == le_u32(header_bytes@, 32)
                &&& h.important_color_count() == le_u32(header_bytes@, 36)
            },
    {
        Ok(BitMapImageHeader {
            size: read_le_u32(header_bytes, 0),
            width: read_le_i32(header_bytes, 4),
            height: read_le_i32(header_bytes, 8),
            number_of_color_planes: read_le_u16(header_bytes, 12),
            bits_per_pixel: read_le_u16(header_bytes, 14),
            compression_method_raw: read_le_u32(header_bytes, 16),
            image_size: read_le_u32(header_bytes, 20),
            horizontal_resolution: read_le_u32(header_bytes, 24),
            vertical_resolution: read_le_u32(header_bytes, 28),
            color_count: read_le_u32(header_bytes, 32),
            important_color_count: read_le_u32(header_bytes, 36),
        })
    }

    #[verifier::when_used_as_spec(spec_size)]
    pub fn size(&self) -> (v: u32)
        ensures
            v == self.spec_size(),
    {
        self.size
    }

    #[verifier::when_used_as_spec(spec_width)]
    pub fn width(&self) -> (v: i32)
        ensures
            v == self.spec_width(),
    {
        self.width
    }

    #[verifier::when_used_as_spec(spec_height)]
    pub fn height(&self) -> (v: i32)
        ensures
            v == self.spec_height(),
    {
        self.height
    }

    #[verifier::when_used_as_spec(spec_number_of_color_planes)]
    pub fn number_of_color_planes(&self) -> (v: u16)
        ensures
            v == self.spec_number_of_color_planes(),
    {
        self.number_of_color_planes
    }

    #[verifier::when_used_as_spec(spec_bits_per_pixel)]
    pub fn bits_per_pixel(&self) -> (v: u16)
        ensures
            v == self.spec_bits_per_pixel(),
    {
        self.bits_per_pixel
    }

    #[verifier::when_used_as_spec(spec_compression_method_raw)]
    pub fn compression_method_raw(&self) -> (v: u32)
        ensures
            v == self.spec_compression_method_raw(),
    {
        self.compression_method_raw
    }

    #[verifier::when_used_as_spec(spec_image_size)]
    pub fn image_size(&self) -> (v: u32)
        ensures
            v == self.spec_image_size(),
    {
        self.image_size
    }

    #[verifier::when_used_as_spec(spec_horizontal_resolution)]
    pub fn horizontal_resolution(&self) -> (v: u32)
        ensures
            v == self.spec_horizontal_resolution(),
    {
        self.horizontal_resolution
    }

    #[verifier::when_used_as_spec(spec_vertical_resolution)]
    pub fn vertical_resolution(&self) -> (v: u32)
        ensures
            v == self.spec_vertical_resolution(),
    {
        self.vertical_resolution
    }

    #[verifier::when_used_as_spec(spec_color_count)]
    pub fn color_count(&self) -> (v: u32)
        ensures
            v == self.spec_color_count(),
    {
        self.color_count
    }

    #[verifier::when_used_as_spec(spec_important_color_count)]
    pub fn important_color_count(&self) -> (v: u32)
        ensures
            v == self.spec_important_color_count(),
    {
        self.important_color_count
    }
}


/// The compression methods a BITMAPINFOHEADER can name.
#[allow(dead_code)]
enum BmpCompressionMethods {
    BiRgb,
    BiRle8,
    BiRle4,
    BiBitfields,
    BiJpeg,
    BiPng,
    BiAlphabitfields,
    BiCmyk,
    BiCmykrle8,
    BiCmykrle4,
}

/// A decoded BMP image: its header and its pixels.
#[derive(Debug)]
pub struct BmpImage {
    dib_header: BitMapImageHeader,
    pixels: Vec<Rgb>,
}

/// The compression methods this decoder handles: none (0), RLE8 (1), RLE4 (2)
/// and their CMYK variants (12, 13).
pub open spec fn is_supported_compression(method: u32) -> bool {
    method == 0 || method == 1 || method == 2 || method == 12 || method == 13
}

/// The error text given when a run-length encoded image has no palette.
pub open spec fn no_palette_text() -> Seq<char> {
    "no palette to decode RLE encoded bmp with"@
}

/// The pixel stored at index `i` of an unencoded pixel array whose pixels take
/// `pixel_size` bytes each, in blue, green, red order.
pub open spec fn bmp_pixel_at(image: Seq<u8>, pixel_size: int, i: int) -> Rgb {
    Rgb {
        red: image[i * pixel_size + 2],
        green: image[i * pixel_size + 1],
        blue: image[i * pixel_size],
    }
}

/// The pixels of an unencoded pixel array: every whole pixel of
/// `bits_per_pixel / 8` bytes, last stored pixel first.
pub open spec fn unencoded_pixels(image: Seq<u8>, bits_per_pixel: u16) -> Seq<Rgb> {
    let pixel_size = (bits_per_pixel / 8) as int;
    let count = image.len() as int / pixel_size;
    Seq::new(count as nat, |k: int| bmp_pixel_at(image, pixel_size, count - 1 - k))
}

/// The palette stored as `count` entries of four bytes (blue, green, red, reserved).
pub open spec fn bmp_palette(image: Seq<u8>, count: int) -> Seq<Rgb> {
    Seq::new(count as nat, |i: int| bmp_pixel_at(image, 4, i))
}

/// The unencoded pixels come last stored first: the result holds one pixel
/// for every whole group of `bits_per_pixel / 8` bytes, and its pixel `k` is
/// the stored pixel `count - 1 - k`, whose first three bytes are its blue,
/// green and red values.
pub proof fn lemma_unencoded_pixels_reversed(image: Seq<u8>, bits_per_pixel: u16)
    requires
        bits_per_pixel >= 8,
    ensures
        ({
            let size = (bits_per_pixel / 8) as int;
            let count = image.len() as int / size;
            &&& unencoded_pixels(image, bits_per_pixel).len() == count
            &&& forall|k: int|
                0 <= k < count ==> {
                    let start = (count - 1 - k) * size;
                    #[trigger] unencoded_pixels(image, bits_per_pixel)[k] == (Rgb {
                        red: image[start + 2],
                        green: image[start + 1],
                        blue: image[start],
                    })
                }
        }),
{
}

/// Palette entry `i` is made of the four bytes at `4 * i`: blue, green, red
/// and a reserved byte.
pub proof fn lemma_palette_entries(image: Seq<u8>, count: int)
    requires
        count >= 0,
    ensures
        bmp_palette(image, count).len() == count,
        forall|i: int|
            0 <= i < count ==> #[trigger] bmp_palette(image, count)[i] == (Rgb {
                red: image[4 * i + 2],
                green: image[4 * i + 1],
                blue: image[4 * i],
            }),
{
    assert forall|i: int| 0 <= i < count implies #[trigger] bmp_palette(image, count)[i] == Rgb {
        red: image[4 * i + 2],
        green: image[4 * i + 1],
        blue: image[4 * i],
    } by {
        assert(i * 4 == 4 * i);
    }
}

/// The number of palette entries that the header announces: its colour count,
/// or 2 to the power of its bits per pixel when the count is 0.
pub open spec fn palette_entries(h: BitMapImageHeader) -> int {
    if h.color_count() == 0 {
        pow2(h.bits_per_pixel() as nat) as int
    } else {
        h.color_count() as int
    }
}

/// Whether the pixel reads of an unencoded array of `len` bytes stay in it:
/// pixels take `bits_per_pixel / 8` bytes, at least one, and the red byte of the
/// last whole pixel, two bytes after its start, lies before the end.
pub open spec fn unencoded_in_bounds(len: int, bits_per_pixel: u16) -> bool {
    let pixel_size = (bits_per_pixel / 8) as int;
    let count = len / pixel_size;
    pixel_size >= 1 && (count == 0 || (count - 1) * pixel_size + 2 < len)
}

/// The bytes that the pixel decoder reads: those after the header's `size()`
/// bytes, less the palette when the image has fewer than 24 bits per pixel.
pub open spec fn bmp_pixel_data(h: BitMapImageHeader, buffer: Seq<u8>) -> Seq<u8> {
    let image = buffer.skip(h.size() as int);
    if h.bits_per_pixel() < 24 {
        image.skip(4 * palette_entries(h))
    } else {
        image
    }
}

/// Where the pixel data lie in the buffer: right after the `size()` bytes of
/// the header, and for fewer than 24 bits per pixel after the palette too,
/// whose entries are four bytes each and number the colour count, or 2 to
/// the power of the bits per pixel when the colour count is 0.
pub proof fn lemma_pixel_data_layout(h: BitMapImageHeader, buffer: Seq<u8>)
    requires
        h.size() <= buffer.len(),
        h.bits_per_pixel() < 24 ==> 4 * palette_entries(h) <= buffer.len() - h.size(),
    ensures
        ({
            let entries = if h.color_count() == 0 {
                pow2(h.bits_per_pixel() as nat) as int
            } else {
                h.color_count() as int
            };
            let start = if h.bits_per_pixel() < 24 {
                h.size() + 4 * entries
            } else {
                h.size() as int
            };
            &&& bmp_pixel_data(h, buffer).len() == buffer.len() - start
            &&& forall|k: int|
                0 <= k < buffer.len() - start ==> #[trigger] bmp_pixel_data(h, buffer)[k]
                    == buffer[start + k]
        }),
{
}

/// The inputs on which `BmpImage::new` decodes without failing a bounds,
/// overflow or division check: the pixel data start lies in the buffer, the
/// palette size (2 to the power of the bits per pixel when the colour count is
/// 0) fits in `usize`, the palette lies in the buffer when the image has fewer
/// than 24 bits per pixel, the compression method is a known one, and an
/// unencoded pixel array is read within its bounds.
pub open spec fn bmp_decodable(h: BitMapImageHeader, buffer: Seq<u8>) -> bool {
    &&& h.size() <= buffer.len()
    &&& (h.color_count() == 0 ==> (h.bits_per_pixel() as u32) < usize::BITS)
    &&& (h.bits_per_pixel() < 24 ==> 4 * palette_entries(h) <= buffer.len() - h.size())
    &&& is_supported_compression(h.compression_method_raw())
    &&& (h.compression_method_raw() == 0 ==> unencoded_in_bounds(
        bmp_pixel_data(h, buffer).len() as int,
        h.bits_per_pixel(),
    ))
}

/// Whether an unencoded pixel array of `len` bytes is read within its bounds.
fn unencoded_fits(len: usize, bits_per_pixel: u16) -> (ok: bool)
    ensures
        ok == unencoded_in_bounds(len as int, bits_per_pixel),
{
    let pixel_size = (bits_per_pixel / 8) as usize;
    if pixel_size == 0 {
        return false;
    }
    let count = len / pixel_size;
    if count == 0 {
        return true;
    }
    proof {
        lemma_pixel_in_bounds((count - 1) as int, count as int, pixel_size as int, len as int);
    }
    let last = (count - 1) * pixel_size;
    len - last > 2
}

/// Whether `BmpImage::new` decodes `buffer` with header `h` without failing a
/// bounds, overflow or division check.
pub fn bmp_is_decodable(h: &BitMapImageHeader, buffer: &[u8]) -> (ok: bool)
    ensures
        ok == bmp_decodable(*h, buffer@),
{
    let len = buffer.len();
    if h.size as usize > len {
        return false;
    }
    let method = h.compression_method_raw;
    if !(method == 0 || method == 1 || method == 2 || method == 12 || method == 13) {
        return false;
    }
    proof {
        lemma_pow2_fits_usize(h.bits_per_pixel);
    }
    if h.color_count == 0 && h.bits_per_pixel as u32 >= usize::BITS {
        return false;
    }
    let room = len - h.size as usize;
    let data_len = if h.bits_per_pixel < 24 {
        let num_colors = if h.color_count == 0 {
            power_of_two(h.bits_per_pixel)
        } else {
            h.color_count as usize
        };
        assert(num_colors == palette_entries(*h));
        if num_colors > room / 4 {
            return false;
        }
        room - num_colors * 4
    } else {
        room
    };
    assert(data_len == bmp_pixel_data(*h, buffer@).len());
    if method == 0 && !unencoded_fits(data_len, h.bits_per_pixel) {
        return false;
    }
    true
}

proof fn lemma_pow2_fits_usize(e: u16)
    ensures
        (pow2(e as nat) <= usize::MAX) == ((e as u32) < usize::BITS),
{
    vstd::arithmetic::power2::lemma2_to64();
    vstd::arithmetic::power2::lemma2_to64_rest();
    assert(usize::BITS == 32 || usize::BITS == 64);
    assert(usize::BITS == 32 ==> usize::MAX == 0xffff_ffff);
    assert(usize::BITS == 64 ==> usize::MAX == 0xffff_ffff_ffff_ffff);
    if (e as u32) < usize::BITS {
        if (e as u32) + 1 < usize::BITS {
            vstd::arithmetic::power2::lemma_pow2_strictly_increases(e as nat, (usize::BITS - 1) as nat);
        }
    } else if (e as u32) > usize::BITS {
        vstd::arithmetic::power2::lemma_pow2_strictly_increases(usize::BITS as nat, e as nat);
    }
}

/// `2` to the power `exp`.
fn power_of_two(exp: u16) -> (p: usize)
    requires
        pow2(exp as nat) <= usize::MAX,
    ensures
        p == pow2(exp as nat),
{
    let mut p: usize = 1;
    let mut k: u16 = 0;
    proof {
        vstd::arithmetic::power2::lemma2_to64();
    }
    while k < exp
        invariant
            k <= exp,
            p == pow2(k as nat),
            pow2(exp as nat) <= usize::MAX,
        decreases exp - k,
    {
        proof {
            if k + 1 < exp {
                vstd::arithmetic::power2::lemma_pow2_strictly_increases((k + 1) as nat, exp as nat);
            }
            vstd::arithmetic::power2::lemma_pow2_unfold((k + 1) as nat);
        }
        p = p * 2;
        k = k + 1;
    }
    p
}

proof fn lemma_pixel_in_bounds(i: int, count: int, pixel_size: int, len: int)
    requires
        0 <= i < count,
        pixel_size > 0,
        len >= 0,
        count == len / pixel_size,
    ensures
        0 <= i * pixel_size,
        i * pixel_size + pixel_size <= len,
{
    vstd::arithmetic::div_mod::lemma_fundamental_div_mod(len, pixel_size);
    vstd::arithmetic::div_mod::lemma_mod_pos_bound(len, pixel_size);
    assert(0 <= i * pixel_size && i * pixel_size + pixel_size <= pixel_size * (len / pixel_size))
        by (nonlinear_arith)
        requires
            0 <= i < count,
            pixel_size > 0,
            count == len / pixel_size,
    ;
}

proof fn lemma_red_byte_in_bounds(i: int, count: int, pixel_size: int, len: int)
    requires
        0 <= i < count,
        pixel_size > 0,
        (count - 1) * pixel_size + 2 < len,
    ensures
        i * pixel_size + 2 < len,
{
    assert(i * pixel_size <= (count - 1) * pixel_size) by (nonlinear_arith)
        requires
            0 <= i <= count - 1,
            pixel_size > 0,
    ;
}

impl BmpImage {
    pub closed spec fn spec_header(&self) -> BitMapImageHeader {
        self.dib_header
    }

    pub closed spec fn spec_pixels(&self) -> Seq<Rgb> {
        self.pixels@
    }

    /// Decodes the pixel data that `buffer` holds from offset `dib_header.size()` on.
    pub fn new(dib_header: BitMapImageHeader, buffer: &[u8]) -> (r: Result<BmpImage, ImageError>)
        requires
            bmp_decodable(dib_header, buffer@),
        ensures
            ({
                let method = dib_header.compression_method_raw();
                let bpp = dib_header.bits_per_pixel();
                match r {
                    Ok(img) => {
                        &&& img.spec_header() == dib_header
                        &&& img.spec_pixels() == (if method == 0 {
                            unencoded_pixels(bmp_pixel_data(dib_header, buffer@), bpp)
                        } else {
                            Seq::<Rgb>::empty()
                        })
                    },
                    Err(e) => is_custom(e, no_palette_text()),
                }
            }),
            r is Err <==> (dib_header.bits_per_pixel() >= 24 && dib_header.compression_method_raw()
                != 0),
    {
        proof {
            lemma_pow2_fits_usize(dib_header.bits_per_pixel);
        }
        let start = dib_header.size as usize;
        let image = vstd::slice::slice_subrange(buffer, start, buffer.len());
        let num_colors = if dib_header.color_count == 0 {
            power_of_two(dib_header.bits_per_pixel)
        } else {
            dib_header.color_count as usize
        };
        assert(num_colors == palette_entries(dib_header));
        assert(image@ == buffer@.skip(dib_header.size() as int));
        let ghost data = bmp_pixel_data(dib_header, buffer@);

        if dib_header.bits_per_pixel < 24 {
            let mut palette: Vec<Rgb> = Vec::new();
            let mut i: usize = 0;
            let image_len = image.len();
            while i < num_colors
                invariant
                    image_len == image@.len(),
                    i <= num_colors,
                    4 * num_colors <= image@.len(),
                    palette@ == bmp_palette(image@, i as int),
                decreases num_colors - i,
            {
                let b = image[i * 4];
                let g = image[i * 4 + 1];
                let r = image[i * 4 + 2];
                let color = Rgb { red: r, green: g, blue: b };
                palette.push(color);
                i = i + 1;
                assert(palette@ =~= bmp_palette(image@, i as int));
            }
            let palette_offset = num_colors * 4;
            let rest = vstd::slice::slice_subrange(image, palette_offset, image.len());
            assert(rest@ == data);
            let pixels = match choose_decoding_method(
                dib_header.compression_method_raw,
                rest,
                dib_header.bits_per_pixel,
                Some(palette),
            ) {
                Ok(pixel_array) => pixel_array,
                Err(e) => return Err(e),
            };
            return Ok(BmpImage { dib_header: dib_header, pixels: pixels });
        }
        let pixels = match choose_decoding_method(
            dib_header.compression_method_raw,
            image,
            dib_header.bits_per_pixel,
            None,
        ) {
            Ok(pixel_array) => pixel_array,
            Err(e) => return Err(e),
        };
        Ok(BmpImage { dib_header: dib_header, pixels: pixels })
    }

    pub fn header(&self) -> (h: &BitMapImageHeader)
        ensures
            *h == self.spec_header(),
    {
        &self.dib_header
    }

    pub fn pixels(&self) -> (p: &[Rgb])
        ensures
            p@ == self.spec_pixels(),
    {
        self.pixels.as_slice()
    }
}

/// The error reported when a run-length encoded image comes without a palette.
fn no_palette_error() -> (e: ImageError)
    ensures
        is_custom(e, no_palette_text()),
{
    ImageError::CustomError(String::from_str("no palette to decode RLE encoded bmp with"))
}

/// Decodes `image` by the compression method `method`; run-length encoded
/// images need a palette.
fn choose_decoding_method(
    method: u32,
    image: &[u8],
    bits_per_pixel: u16,
    palette: Option<Vec<Rgb>>,
) -> (r: Result<Vec<Rgb>, ImageError>)
    requires
        is_supported_compression(method),
        method == 0 ==> unencoded_in_bounds(image@.len() as int, bits_per_pixel),
    ensures
        method == 0 ==> (r matches Ok(px) && px@ == unencoded_pixels(image@, bits_per_pixel)),
        method != 0 && palette is None ==> (r matches Err(e) && is_custom(e, no_palette_text())),
        method != 0 && palette is Some ==> (r matches Ok(px) && px@.len() == 0),
{
    if method == 0 {
        read_unencoded_pixels(image, bits_per_pixel)
    } else if method == 1 || method == 12 {
        let palette = match palette {
            Some(colors) => colors,
            None => {
                return Err(no_palette_error());
            },
        };
        decode_RLE8(image, bits_per_pixel, palette)
    } else {
        let palette = match palette {
            Some(colors) => colors,
            None => {
                return Err(no_palette_error());
            },
        };
        decode_RLE4(image, bits_per_pixel, palette)
    }
}

/// Run-length decoding with 8 bits per index; it yields no pixels yet.
#[allow(non_snake_case, unused_variables)]
fn decode_RLE8(image: &[u8], bits_per_pixel: u16, palette: Vec<Rgb>) -> (r: Result<
    Vec<Rgb>,
    ImageError,
>)
    ensures
        r matches Ok(px) && px@.len() == 0,
{
    let decoded_image: Vec<Rgb> = Vec::new();
    Ok(decoded_image)
}

/// Run-length decoding with 4 bits per index; it yields no pixels yet.
#[allow(non_snake_case, unused_variables)]
fn decode_RLE4(image: &[u8], bits_per_pixel: u16, palette: Vec<Rgb>) -> (r: Result<
    Vec<Rgb>,
    ImageError,
>)
    ensures
        r matches Ok(px) && px@.len() == 0,
{
    let decoded_image: Vec<Rgb> = Vec::new();
    Ok(decoded_image)
}

/// Run-length decoding of 24-bit pixels; it yields no pixels yet.
#[allow(non_snake_case, unused_variables, dead_code)]
fn decode_RLE24(image: &[u8], bits_per_pixel: u16, palette: Vec<Rgb>) -> (r: Result<
    Vec<Rgb>,
    ImageError,
>)
    ensures
        r matches Ok(px) && px@.len() == 0,
{
    let decoded_image: Vec<Rgb> = Vec::new();
    Ok(decoded_image)
}

/// The pixels of an unencoded pixel array, last stored pixel first: each pixel
/// takes `bits_per_pixel / 8` bytes and starts with its blue, green and red bytes.
fn read_unencoded_pixels(image: &[u8], bits_per_pixel: u16) -> (r: Result<Vec<Rgb>, ImageError>)
    requires
        unencoded_in_bounds(image@.len() as int, bits_per_pixel),
    ensures
        r matches Ok(px) && px@ == unencoded_pixels(image@, bits_per_pixel),
{
    let pixel_size = (bits_per_pixel / 8) as usize;
    let image_len = image.len();
    let count = image_len / pixel_size;
    let mut decoded_image: Vec<Rgb> = Vec::new();
    let mut i = count;
    while i > 0
        invariant
            pixel_size == bits_per_pixel / 8,
            unencoded_in_bounds(image@.len() as int, bits_per_pixel),
            image_len == image@.len(),
            count == image@.len() as int / (pixel_size as int),
            i <= count,
            decoded_image@.len() == count - i,
            forall|k: int|
                0 <= k < count - i ==> decoded_image@[k] == bmp_pixel_at(
                    image@,
                    pixel_size as int,
                    count - 1 - k,
                ),
        decreases i,
    {
        i = i - 1;
        proof {
            lemma_pixel_in_bounds(i as int, count as int, pixel_size as int, image@.len() as int);
            lemma_red_byte_in_bounds(i as int, count as int, pixel_size as int, image@.len() as int);
        }
        let base = i * pixel_size;
        decoded_image.push(Rgb { red: image[base + 2], green: image[base + 1], blue: image[base] });
    }
    assert(decoded_image@ =~= unencoded_pixels(image@, bits_per_pixel));
    Ok(decoded_image)
}

} // verus!
