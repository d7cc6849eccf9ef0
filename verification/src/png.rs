//! PNG: the IHDR header, the chunk list with its CRC checks, and palette expansion.

use crate::endian::{be_u32, read_be_u32};
use crate::error::{is_custom, ImageError};
use crate::text::{
    decimal_text, format_decimal, format_padded_lower_hex, join_text, padded_lower_hex_text,
};
use vstd::prelude::*;
use vstd::string::*;

verus! {

/// The chunk type `IHDR` as a big-endian number.
pub const IHDR: u32 = 0x49484452u32;

/// The chunk type `PLTE` as a big-endian number.
pub const PLTE: u32 = 0x504C5445u32;

/// The chunk type `IDAT` as a big-endian number.
pub const IDAT: u32 = 0x49444154u32;

/// The CRC-32/ISO-HDLC checksum of `data`, as the `crc` crate computes it.
pub uninterp spec fn png_crc32(data: Seq<u8>) -> u32;

/// Computes the PNG checksum with `crc::Crc::<u32>::new(&crc::CRC_32_ISO_HDLC).checksum`.
/// Trusted: the result is `png_crc32` of the bytes (the crate's `checksum` is a
/// deterministic function of them); of the empty input it is 0, and of the ASCII
/// text "123456789" it is the algorithm's documented check value 0xcbf43926.
#[verifier::external_body]
fn crc32_iso_hdlc(data: &[u8]) -> (c: u32)
    ensures
        c == png_crc32(data@),
        data@.len() == 0 ==> c == 0,
        data@ == seq![0x31u8, 0x32u8, 0x33u8, 0x34u8, 0x35u8, 0x36u8, 0x37u8, 0x38u8, 0x39u8]
            ==> c == 0xcbf43926u32,
{
    crc::Crc::<u32>::new(&crc::CRC_32_ISO_HDLC).checksum(data)
}

/// A chunk: its length field, its type and its data.
#[derive(Debug)]
struct PngChunk {
    length: u32,
    /*
     * case of first letter determines criticality, second publicity, third should be upper,
     * fourth safe to copy if lower case, if upper only if modifications have not touched
     * other critical chunks
     */
    name: u32,
    data: Vec<u8>,
}

/// A chunk as plain values: length field, type, data.
pub type ChunkModel = (u32, u32, Seq<u8>);

spec fn model_of(c: PngChunk) -> ChunkModel {
    (c.length, c.name, c.data@)
}

/// Whether a chunk that starts at `p` lies in `b`: its length field, type,
/// data and stored CRC.
pub open spec fn png_chunk_fits(b: Seq<u8>, p: int) -> bool {
    &&& 0 <= p
    &&& p + 4 <= b.len()
    &&& p + 12 + be_u32(b, p) <= b.len()
}

/// The chunk that starts at `p` in `b`.
pub open spec fn png_chunk_at(b: Seq<u8>, p: int) -> ChunkModel {
    let len = be_u32(b, p) as int;
    (be_u32(b, p), be_u32(b, p + 4), b.subrange(p + 8, p + 8 + len))
}

/// The checksum computed over the type and data of the chunk at `p`.
pub open spec fn png_computed_crc(b: Seq<u8>, p: int) -> u32 {
    png_crc32(b.subrange(p + 4, p + 8 + be_u32(b, p)))
}

/// The checksum stored after the data of the chunk at `p`.
pub open spec fn png_stored_crc(b: Seq<u8>, p: int) -> u32 {
    be_u32(b, p + 8 + be_u32(b, p))
}

/// The error text for a checksum mismatch.
pub open spec fn crc_mismatch_text(computed: u32, stored: u32) -> Seq<char> {
    "PNG header CRC mismatch: computed "@ + padded_lower_hex_text(computed) + ", stored "@
        + padded_lower_hex_text(stored)
}

/// The chunk at `p` is laid out as its length field, its type and its data:
/// the length and type are the big-endian numbers in the four bytes at `p`
/// and at `p + 4`, and the data are the `length` bytes from `p + 8` on, which
/// the stored checksum follows.
pub proof fn lemma_chunk_layout(b: Seq<u8>, p: int)
    requires
        png_chunk_fits(b, p),
    ensures
        ({
            let (length, name, data) = png_chunk_at(b, p);
            &&& length / 0x1000000 == b[p] && (length / 0x10000) % 0x100 == b[p + 1]
            &&& (length / 0x100) % 0x100 == b[p + 2] && length % 0x100 == b[p + 3]
            &&& name / 0x1000000 == b[p + 4] && (name / 0x10000) % 0x100 == b[p + 5]
            &&& (name / 0x100) % 0x100 == b[p + 6] && name % 0x100 == b[p + 7]
            &&& data.len() == length
            &&& forall|k: int| 0 <= k < length ==> #[trigger] data[k] == b[p + 8 + k]
            &&& png_stored_crc(b, p) == be_u32(b, p + 8 + length)
            &&& png_computed_crc(b, p) == png_crc32(b.subrange(p + 4, p + 8 + length))
        }),
{
    crate::endian::lemma_be_u32_digits(b, p);
    crate::endian::lemma_be_u32_digits(b, p + 4);
}

/// Where a walk over the chunks ends: with the chunks read, at a checksum
/// mismatch, or at a chunk that does not lie in the buffer.
pub enum PngWalk {
    Chunks(Seq<ChunkModel>),
    CrcMismatch(u32, u32),
    OutOfBounds,
}

/// `acc` put in front of the chunks of `w`, if it has any.
pub open spec fn prepend_chunks(acc: Seq<ChunkModel>, w: PngWalk) -> PngWalk {
    match w {
        PngWalk::Chunks(cs) => PngWalk::Chunks(acc + cs),
        other => other,
    }
}

/// The walk over the chunks of `b` from `p` on, until the end of `b`: after
/// the chunk at `p` the walk goes on at `p + length + 4`, four bytes before
/// that chunk's stored CRC.
#[verifier::opaque]
pub open spec fn png_walk(b: Seq<u8>, p: int) -> PngWalk
    decreases b.len() - p,
{
    if p < 0 || p >= b.len() {
        PngWalk::Chunks(seq![])
    } else if !png_chunk_fits(b, p) {
        PngWalk::OutOfBounds
    } else if png_computed_crc(b, p) != png_stored_crc(b, p) {
        PngWalk::CrcMismatch(png_computed_crc(b, p), png_stored_crc(b, p))
    } else {
        prepend_chunks(seq![png_chunk_at(b, p)], png_walk(b, p + be_u32(b, p) + 4))
    }
}

proof fn lemma_prepend_chunks_twice(a: Seq<ChunkModel>, c: Seq<ChunkModel>, w: PngWalk)
    ensures
        prepend_chunks(a, prepend_chunks(c, w)) == prepend_chunks(a + c, w),
{
    if let PngWalk::Chunks(cs) = w {
        assert(a + (c + cs) =~= (a + c) + cs);
    }
}

/// Checks the CRC that follows the `length` data bytes of the chunk that starts `bytes`.
fn check_crc(bytes: &[u8], length: u32) -> (r: Result<(), ImageError>)
    requires
        12 + length <= bytes@.len(),
    ensures
        ({
            let computed = png_crc32(bytes@.subrange(4, 8 + length));
            let stored = be_u32(bytes@, 8 + length);
            match r {
                Ok(()) => computed == stored,
                Err(e) => computed != stored && is_custom(e, crc_mismatch_text(computed, stored)),
            }
        }),
{
    let _total = bytes.len();
    let end = 8 + length as usize;
    let crc_data = vstd::slice::slice_subrange(bytes, 4, end);
    let computed = crc32_iso_hdlc(crc_data);
    let stored_crc_start = 8 + length as usize;
    let stored = read_be_u32(bytes, stored_crc_start);
    crc_outcome(computed, stored)
}

/// The verdict on a chunk whose checksum came out as `computed` and whose
/// stored checksum is `stored`: success when they agree, else the mismatch
/// error that names both in hexadecimal.
pub fn crc_outcome(computed: u32, stored: u32) -> (r: Result<(), ImageError>)
    ensures
        r is Ok <==> computed == stored,
        r matches Err(e) ==> is_custom(e, crc_mismatch_text(computed, stored)),
{
    if computed != stored {
        let text = join_text("PNG header CRC mismatch: computed ", format_padded_lower_hex(computed).as_str());
        let text = join_text(text.as_str(), ", stored ");
        let text = join_text(text.as_str(), format_padded_lower_hex(stored).as_str());
        return Err(ImageError::CustomError(text));
    }
    Ok(())
}

impl PngChunk {
    /// Reads the chunk that starts `bytes` and checks its CRC.
    fn new(bytes: &[u8]) -> (r: Result<PngChunk, ImageError>)
        requires
            png_chunk_fits(bytes@, 0),
        ensures
            match r {
                Ok(c) => png_computed_crc(bytes@, 0) == png_stored_crc(bytes@, 0) && model_of(c)
                    == png_chunk_at(bytes@, 0),
                Err(e) => png_computed_crc(bytes@, 0) != png_stored_crc(bytes@, 0) && is_custom(
                    e,
                    crc_mismatch_text(png_computed_crc(bytes@, 0), png_stored_crc(bytes@, 0)),
                ),
            },
    {
        let _total = bytes.len();
        let length: u32 = read_be_u32(bytes, 0);
        let new_chunk = PngChunk {
            length: length,
            name: read_be_u32(bytes, 4),
            data: vstd::slice::slice_to_vec(
                vstd::slice::slice_subrange(bytes, 8, 8 + length as usize),
            ),
        };
        match check_crc(bytes, length) {
            Ok(()) => {},
            Err(e) => return Err(e),
        }
        Ok(new_chunk)
    }
}

/// The IHDR data of a PNG image.
#[derive(Debug)]
pub struct PngHeader {
    width: u32,
    height: u32,
    bit_depth: u8,
    color_type: u8,
    compression_method: u8,
    filter_method: u8,
    interlace_method: u8,
}

impl PngHeader {
    pub closed spec fn spec_width(&self) -> u32 {
        self.width
    }

    pub closed spec fn spec_height(&self) -> u32 {
        self.height
    }

    pub closed spec fn spec_bit_depth(&self) -> u8 {
        self.bit_depth
    }

    pub closed spec fn spec_color_type(&self) -> u8 {
        self.color_type
    }

    pub closed spec fn spec_compression_method(&self) -> u8 {
        self.compression_method
    }

    pub closed spec fn spec_filter_method(&self) -> u8 {
        self.filter_method
    }

    pub closed spec fn spec_interlace_method(&self) -> u8 {
        self.interlace_method
    }

    /// Whether this header holds the fields that `bytes` encodes: width and
    /// height big-endian at 0 and 4, and the one-byte fields at 9 to 13.
    pub open spec fn decodes(&self, bytes: Seq<u8>) -> bool {
        &&& self.width() == be_u32(bytes, 0)
        &&& self.height() == be_u32(bytes, 4)
        &&& self.bit_depth() == bytes[9]
        &&& self.color_type() == bytes[10]
        &&& self.compression_method() == bytes[11]
        &&& self.filter_method() == bytes[12]
        &&& self.interlace_method() == bytes[13]
    }

    /// A header read from the IHDR data `bytes` holds the width in its first
    /// four bytes and the height in the next four, most significant byte
    /// first, and the bit depth, colour type, compression, filter and
    /// interlace methods in bytes 9 to 13.
    pub proof fn lemma_header_fields(h: PngHeader, bytes: Seq<u8>)
        requires
            bytes.len() >= 14,
            h.decodes(bytes),
        ensures
            h.width() / 0x1000000 == bytes[0] && (h.width() / 0x10000) % 0x100 == bytes[1],
            (h.width() / 0x100) % 0x100 == bytes[2] && h.width() % 0x100 == bytes[3],
            h.height() / 0x1000000 == bytes[4] && (h.height() / 0x10000) % 0x100 == bytes[5],
            (h.height() / 0x100) % 0x100 == bytes[6] && h.height() % 0x100 == bytes[7],
            h.bit_depth() == bytes[9],
            h.color_type() == bytes[10],
            h.compression_method() == bytes[11],
            h.filter_method() == bytes[12],
            h.interlace_method() == bytes[13],
    {
        crate::endian::lemma_be_u32_digits(bytes, 0);
        crate::endian::lemma_be_u32_digits(bytes, 4);
    }

    /// Reads the header fields from the IHDR data `bytes`.
    fn new(bytes: &[u8]) -> (r: Result<PngHeader, ImageError>)
        requires
            bytes@.len() >= 14,
        ensures
            r matches Ok(h) && h.decodes(bytes@),
    {
        Ok(PngHeader {
            width: read_be_u32(bytes, 0),
            height: read_be_u32(bytes, 4),
            bit_depth: bytes[9],
            color_type: bytes[10],
            compression_method: bytes[11],
            filter_method: bytes[12],
            interlace_method: bytes[13],
        })
    }

    #[verifier::when_used_as_spec(spec_width)]
    pub fn width(&self) -> (v: u32)
        ensures
            v == self.spec_width(),
    {
        self.width
    }

    #[verifier::when_used_as_spec(spec_height)]
    pub fn height(&self) -> (v: u32)
        ensures
            v == self.spec_height(),
    {
        self.height
    }

    #[verifier::when_used_as_spec(spec_bit_depth)]
    pub fn bit_depth(&self) -> (v: u8)
        ensures
            v == self.spec_bit_depth(),
    {
        self.bit_depth
    }

    #[verifier::when_used_as_spec(spec_color_type)]
    pub fn color_type(&self) -> (v: u8)
        ensures
            v == self.spec_color_type(),
    {
        self.color_type
    }

    #[verifier::when_used_as_spec(spec_compression_method)]
    pub fn compression_method(&self) -> (v: u8)
        ensures
            v == self.spec_compression_method(),
    {
        self.compression_method
    }

    #[verifier::when_used_as_spec(spec_filter_method)]
    pub fn filter_method(&self) -> (v: u8)
        ensures
            v == self.spec_filter_method(),
    {
        self.filter_method
    }

    #[verifier::when_used_as_spec(spec_interlace_method)]
    pub fn interlace_method(&self) -> (v: u8)
        ensures
            v == self.spec_interlace_method(),
    {
        self.interlace_method
    }
}

/// The chunks of a PNG image after its header.
#[derive(Debug)]
pub struct PngImageChunks {
    image: Vec<PngChunk>,
}

/// The text of the error for a first chunk that is not IHDR.
pub open spec fn not_header_text() -> Seq<char> {
    "Png: first chunk was not the header chunk"@
}

/// The length field of the first chunk.
pub open spec fn png_header_length(b: Seq<u8>) -> int {
    be_u32(b, 0) as int
}

/// The inputs on which `PngImageChunks::new` completes without failing a bounds
/// check: the first chunk's length and type lie in the buffer and, when it is
/// IHDR, its CRC lies in the buffer, its data has at least 14 bytes, and the
/// walk over the chunks from the end of its data on stays in the buffer.
pub open spec fn png_decodable(b: Seq<u8>) -> bool {
    &&& b.len() >= 8
    &&& be_u32(b, 4) == IHDR ==> {
        &&& 12 + png_header_length(b) <= b.len()
        &&& png_header_length(b) >= 14
        &&& !(png_walk(b, 8 + png_header_length(b)) is OutOfBounds)
    }
}

/// What `PngImageChunks::new` returns for a decodable `b`: an error when the
/// first chunk is not IHDR; otherwise the header read from the IHDR data and
/// the chunks of the walk from the end of that data, or the first CRC mismatch.
pub open spec fn png_new_outcome(
    b: Seq<u8>,
    r: Result<(PngImageChunks, PngHeader), ImageError>,
) -> bool {
    if be_u32(b, 4) != IHDR {
        r matches Err(e) && is_custom(e, not_header_text())
    } else {
        let hl = png_header_length(b);
        match png_walk(b, 8 + hl) {
            PngWalk::Chunks(cs) => r matches Ok((chunks, header)) && chunks.chunks() == cs
                && header.decodes(b.subrange(8, 8 + hl)),
            PngWalk::CrcMismatch(computed, stored) => r matches Err(e) && is_custom(
                e,
                crc_mismatch_text(computed, stored),
            ),
            PngWalk::OutOfBounds => false,
        }
    }
}

proof fn lemma_walk_step(b: Seq<u8>, p: int)
    requires
        0 <= p < b.len(),
        png_chunk_fits(b, p),
    ensures
        png_chunk_fits(b.skip(p), 0),
        png_chunk_at(b.skip(p), 0) == png_chunk_at(b, p),
        png_computed_crc(b.skip(p), 0) == png_computed_crc(b, p),
        png_stored_crc(b.skip(p), 0) == png_stored_crc(b, p),
        p < p + be_u32(b, p) + 4 < b.len(),
{
    let s = b.skip(p);
    let len = be_u32(b, p) as int;
    assert(be_u32(s, 0) == be_u32(b, p));
    assert(be_u32(s, 4) == be_u32(b, p + 4));
    assert(s.subrange(8, 8 + len) =~= b.subrange(p + 8, p + 8 + len));
    assert(s.subrange(4, 8 + len) =~= b.subrange(p + 4, p + 8 + len));
    assert(be_u32(s, 8 + len) == be_u32(b, p + 8 + len));
}

impl PngImageChunks {
    pub closed spec fn chunks(&self) -> Seq<ChunkModel> {
        self.image@.map_values(|c: PngChunk| model_of(c))
    }

    /// Reads the IHDR header and then the chunks of a PNG stream that follows the
    /// 8-byte signature. The chunk walk starts where the IHDR data ends and moves
    /// from a chunk at `p` to `p + length + 4`; the IHDR checksum is computed but
    /// its outcome is not used.
    pub fn new(bytes: &[u8]) -> (r: Result<(PngImageChunks, PngHeader), ImageError>)
        requires
            png_decodable(bytes@),
        ensures
            png_new_outcome(bytes@, r),
    {
        let total = bytes.len();
        let header_length = read_be_u32(bytes, 0);
        let header_id = read_be_u32(bytes, 4);
        if header_id != 0x49484452 {
            return Err(
                ImageError::CustomError(
                    String::from_str("Png: first chunk was not the header chunk"),
                ),
            );
        }
        let _ = check_crc(bytes, header_length);
        let header = match PngHeader::new(
            vstd::slice::slice_subrange(bytes, 8, 8 + header_length as usize),
        ) {
            Ok(h) => h,
            Err(e) => return Err(e),
        };
        let ghost start = 8 + header_length as int;
        let mut chunks: Vec<PngChunk> = Vec::new();
        let mut i = 8 + header_length as usize;
        while i < bytes.len()
            invariant
                total == bytes@.len(),
                be_u32(bytes@, 4) == IHDR,
                start == 8 + png_header_length(bytes@),
                start <= i,
                !(png_walk(bytes@, start) is OutOfBounds),
                png_walk(bytes@, start) == prepend_chunks(
                    chunks@.map_values(|c: PngChunk| model_of(c)),
                    png_walk(bytes@, i as int),
                ),
            decreases total - i,
        {
            let ghost before = chunks@.map_values(|c: PngChunk| model_of(c));
            proof {
                lemma_walk_unfold(bytes@, i as int);
                lemma_walk_step(bytes@, i as int);
            }
            let rest = vstd::slice::slice_subrange(bytes, i, total);
            assert(rest@ == bytes@.skip(i as int));
            let new_chunk = match PngChunk::new(rest) {
                Ok(c) => c,
                Err(e) => {
                    return Err(e);
                },
            };
            let ghost p = i as int;
            i = new_chunk.length as usize + i + 4;
            chunks.push(new_chunk);
            proof {
                lemma_prepend_chunks_twice(
                    before,
                    seq![png_chunk_at(bytes@, p)],
                    png_walk(bytes@, i as int),
                );
                assert(chunks@.map_values(|c: PngChunk| model_of(c)) =~= before + seq![
                    png_chunk_at(bytes@, p),
                ]);
            }
        }
        proof {
            lemma_walk_unfold(bytes@, i as int);
            assert(chunks@.map_values(|c: PngChunk| model_of(c)) + seq![] =~= chunks@.map_values(
                |c: PngChunk| model_of(c),
            ));
        }
        Ok((PngImageChunks { image: chunks }, header))
    }
}


/// Whether `PngImageChunks::new` reads `bytes` without failing a bounds check,
/// computed by walking the chunks as `new` does.
pub fn png_is_decodable(bytes: &[u8]) -> (ok: bool)
    ensures
        ok == png_decodable(bytes@),
{
    let total = bytes.len();
    if total < 8 {
        return false;
    }
    let header_length = read_be_u32(bytes, 0);
    if read_be_u32(bytes, 4) != IHDR {
        return true;
    }
    if total < 12 || total - 12 < header_length as usize || header_length < 14 {
        return false;
    }
    let ghost start = 8 + header_length as int;
    let mut i = 8 + header_length as usize;
    while i < total
        invariant
            total == bytes@.len(),
            be_u32(bytes@, 4) == IHDR,
            start == 8 + png_header_length(bytes@),
            total >= 8,
            12 + png_header_length(bytes@) <= total,
            png_header_length(bytes@) >= 14,
            start <= i,
            (png_walk(bytes@, start) is OutOfBounds) == (png_walk(bytes@, i as int) is OutOfBounds),
        decreases total - i,
    {
        proof {
            lemma_walk_unfold(bytes@, i as int);
        }
        if total - i < 4 {
            return false;
        }
        let length = read_be_u32(bytes, i);
        if total - i < 12 || total - i - 12 < length as usize {
            return false;
        }
        assert(png_chunk_fits(bytes@, i as int));
        let end = i + 8 + length as usize;
        let computed = crc32_iso_hdlc(vstd::slice::slice_subrange(bytes, i + 4, end));
        let stored = read_be_u32(bytes, end);
        assert(computed == png_computed_crc(bytes@, i as int));
        assert(stored == png_stored_crc(bytes@, i as int));
        if computed != stored {
            return true;
        }
        i = i + length as usize + 4;
    }
    proof {
        lemma_walk_unfold(bytes@, i as int);
    }
    true
}

/// One step of the chunk walk at `p`.
proof fn lemma_walk_unfold(b: Seq<u8>, p: int)
    ensures
        (p < 0 || p >= b.len()) ==> png_walk(b, p) == PngWalk::Chunks(seq![]),
        0 <= p < b.len() && !png_chunk_fits(b, p) ==> png_walk(b, p) is OutOfBounds,
        0 <= p < b.len() && png_chunk_fits(b, p) && png_computed_crc(b, p) != png_stored_crc(b, p)
            ==> png_walk(b, p) == PngWalk::CrcMismatch(
            png_computed_crc(b, p),
            png_stored_crc(b, p),
        ),
        0 <= p < b.len() && png_chunk_fits(b, p) && png_computed_crc(b, p) == png_stored_crc(b, p)
            ==> png_walk(b, p) == prepend_chunks(
            seq![png_chunk_at(b, p)],
            png_walk(b, p + be_u32(b, p) + 4),
        ),
{
    reveal(png_walk);
}

/// A chunk walk that starts inside the buffer never reaches the buffer's end:
/// each chunk that lies in the buffer moves the walk to a position before its
/// stored CRC, so the walk stops at a CRC mismatch or at a chunk that does not fit.
pub proof fn lemma_png_walk_never_completes(b: Seq<u8>, p: int)
    requires
        0 <= p < b.len(),
    ensures
        !(png_walk(b, p) is Chunks),
    decreases b.len() - p,
{
    lemma_walk_unfold(b, p);
    if png_chunk_fits(b, p) && png_computed_crc(b, p) == png_stored_crc(b, p) {
        lemma_png_walk_never_completes(b, p + be_u32(b, p) + 4);
    }
}

/// `PngImageChunks::new` returns an error for every input that it reads: a
/// first chunk that is not IHDR, or the CRC mismatch at which its chunk walk stops.
pub proof fn lemma_png_new_never_ok(b: Seq<u8>, r: Result<(PngImageChunks, PngHeader), ImageError>)
    requires
        png_decodable(b),
        png_new_outcome(b, r),
    ensures
        r is Err,
{
    if be_u32(b, 4) == IHDR {
        lemma_png_walk_never_completes(b, 8 + png_header_length(b));
    }
}

impl PngImageChunks {
    /// `PngImageChunks::new` on the inputs that it reads without failing a
    /// bounds check, and `None` on the others.
    pub fn new_checked(bytes: &[u8]) -> (r: Option<Result<(PngImageChunks, PngHeader), ImageError>>)
        ensures
            r is None <==> !png_decodable(bytes@),
            r matches Some(res) ==> png_new_outcome(bytes@, res),
    {
        if png_is_decodable(bytes) {
            Some(PngImageChunks::new(bytes))
        } else {
            None
        }
    }
}

/// The index of the first chunk of type `name`.
spec fn first_index_named(cs: Seq<PngChunk>, name: u32) -> Option<int>
    decreases cs.len(),
{
    if cs.len() == 0 {
        None
    } else {
        match first_index_named(cs.drop_last(), name) {
            Some(j) => Some(j),
            None => if cs.last().name == name {
                Some(cs.len() - 1)
            } else {
                None
            },
        }
    }
}

/// The data of the IDAT chunks, in order.
spec fn idat_data(cs: Seq<PngChunk>) -> Seq<Seq<u8>>
    decreases cs.len(),
{
    if cs.len() == 0 {
        seq![]
    } else if cs.last().name == IDAT {
        idat_data(cs.drop_last()).push(cs.last().data@)
    } else {
        idat_data(cs.drop_last())
    }
}

/// The bit depths at which palette indices can be unpacked.
pub open spec fn is_index_bit_depth(bit_depth: u8) -> bool {
    bit_depth == 1 || bit_depth == 2 || bit_depth == 4 || bit_depth == 8
}

/// Index `k` of the palette indices packed in `data`, most significant bits first.
pub open spec fn index_at(data: Seq<u8>, bit_depth: u8, k: int) -> u8 {
    if bit_depth == 8 {
        data[k]
    } else if bit_depth == 4 {
        if k % 2 == 0 {
            data[k / 2] >> 4
        } else {
            data[k / 2] & 0x0F
        }
    } else if bit_depth == 2 {
        let r = k % 4;
        if r == 0 {
            data[k / 4] >> 6
        } else if r == 1 {
            (data[k / 4] >> 4) & 0x03
        } else if r == 2 {
            (data[k / 4] >> 2) & 0x03
        } else {
            data[k / 4] & 0x03
        }
    } else {
        (data[k / 8] >> ((7 - k % 8) as u8)) & 1
    }
}

/// Unpacking inverts packing: the indices unpacked from byte `p` of the data
/// (`8 / bit_depth` of them, each below `2^bit_depth`) spell that byte when
/// put back together, the first index in the most significant bits.
pub proof fn lemma_indices_spell_byte(data: Seq<u8>, p: int)
    requires
        0 <= p < data.len(),
    ensures
        index_at(data, 8, p) == data[p],
        index_at(data, 4, 2 * p) < 16 && index_at(data, 4, 2 * p + 1) < 16,
        index_at(data, 4, 2 * p) * 16 + index_at(data, 4, 2 * p + 1) == data[p],
        forall|t: int| 0 <= t < 4 ==> #[trigger] index_at(data, 2, 4 * p + t) < 4,
        index_at(data, 2, 4 * p) * 64 + index_at(data, 2, 4 * p + 1) * 16 + index_at(
            data,
            2,
            4 * p + 2,
        ) * 4 + index_at(data, 2, 4 * p + 3) == data[p],
        forall|t: int| 0 <= t < 8 ==> #[trigger] index_at(data, 1, 8 * p + t) < 2,
        index_at(data, 1, 8 * p) * 128 + index_at(data, 1, 8 * p + 1) * 64 + index_at(
            data,
            1,
            8 * p + 2,
        ) * 32 + index_at(data, 1, 8 * p + 3) * 16 + index_at(data, 1, 8 * p + 4) * 8 + index_at(
            data,
            1,
            8 * p + 5,
        ) * 4 + index_at(data, 1, 8 * p + 6) * 2 + index_at(data, 1, 8 * p + 7) == data[p],
{
    let x = data[p];
    assert((2 * p) / 2 == p && (2 * p) % 2 == 0 && (2 * p + 1) / 2 == p && (2 * p + 1) % 2 == 1);
    assert((4 * p + 0) / 4 == p && (4 * p + 0) % 4 == 0);
    assert((4 * p + 1) / 4 == p && (4 * p + 1) % 4 == 1);
    assert((4 * p + 2) / 4 == p && (4 * p + 2) % 4 == 2);
    assert((4 * p + 3) / 4 == p && (4 * p + 3) % 4 == 3);
    assert((8 * p + 0) / 8 == p && (8 * p + 0) % 8 == 0);
    assert((8 * p + 1) / 8 == p && (8 * p + 1) % 8 == 1);
    assert((8 * p + 2) / 8 == p && (8 * p + 2) % 8 == 2);
    assert((8 * p + 3) / 8 == p && (8 * p + 3) % 8 == 3);
    assert((8 * p + 4) / 8 == p && (8 * p + 4) % 8 == 4);
    assert((8 * p + 5) / 8 == p && (8 * p + 5) % 8 == 5);
    assert((8 * p + 6) / 8 == p && (8 * p + 6) % 8 == 6);
    assert((8 * p + 7) / 8 == p && (8 * p + 7) % 8 == 7);
    assert((x >> 4) < 16 && (x & 0x0F) < 16 && (x >> 4) * 16 + (x & 0x0F) == x) by (bit_vector);
    assert((x >> 6) < 4 && ((x >> 4) & 0x03) < 4 && ((x >> 2) & 0x03) < 4 && (x & 0x03) < 4 && (x
        >> 6) * 64 + ((x >> 4) & 0x03) * 16 + ((x >> 2) & 0x03) * 4 + (x & 0x03) == x)
        by (bit_vector);
    assert(((x >> 7u8) & 1) * 128 + ((x >> 6u8) & 1) * 64 + ((x >> 5u8) & 1) * 32 + ((x >> 4u8)
        & 1) * 16 + ((x >> 3u8) & 1) * 8 + ((x >> 2u8) & 1) * 4 + ((x >> 1u8) & 1) * 2 + ((x
        >> 0u8) & 1) == x) by (bit_vector);
    assert forall|t: int| 0 <= t < 8 implies #[trigger] index_at(data, 1, 8 * p + t) < 2 by {
        assert((8 * p + t) / 8 == p && (8 * p + t) % 8 == t);
        let s = (7 - t) as u8;
        assert((x >> s) & 1 < 2) by (bit_vector);
    }
    assert forall|t: int| 0 <= t < 4 implies #[trigger] index_at(data, 2, 4 * p + t) < 4 by {
        assert((4 * p + t) / 4 == p && (4 * p + t) % 4 == t);
    }
}

/// The palette indices packed in `data` at `bit_depth` bits each.
pub open spec fn unpack_indices(data: Seq<u8>, bit_depth: u8) -> Seq<u8> {
    Seq::new(data.len() * (8nat / (bit_depth as nat)), |k: int| index_at(data, bit_depth, k))
}

/// Whether every index packed in `datas` is below `n`.
pub open spec fn indices_below(datas: Seq<Seq<u8>>, n: int, bit_depth: u8) -> bool {
    forall|j: int, k: int|
        0 <= j < datas.len() && 0 <= k < unpack_indices(datas[j], bit_depth).len() ==> (
        #[trigger] unpack_indices(datas[j], bit_depth)[k]) < n
}

/// The palette entries named by the indices of one chunk.
pub open spec fn chunk_palette_pixels(data: Seq<u8>, palette: Seq<[u8; 3]>, bit_depth: u8) -> Seq<
    [u8; 3],
> {
    let idx = unpack_indices(data, bit_depth);
    Seq::new(idx.len(), |k: int| palette[idx[k] as int])
}

/// The palette entries named by the indices of all chunks, in order.
pub open spec fn palette_pixels(datas: Seq<Seq<u8>>, palette: Seq<[u8; 3]>, bit_depth: u8) -> Seq<
    [u8; 3],
>
    decreases datas.len(),
{
    if datas.len() == 0 {
        seq![]
    } else {
        palette_pixels(datas.drop_last(), palette, bit_depth) + chunk_palette_pixels(
            datas.last(),
            palette,
            bit_depth,
        )
    }
}

/// The text of the error for a bit depth at which indices cannot be unpacked.
pub open spec fn bit_depth_text(bit_depth: u8) -> Seq<char> {
    "invalid bit depth: "@ + decimal_text(bit_depth as u64)
}

fn unpack_nibbles(data: &[u8]) -> (r: Vec<u8>)
    ensures
        r@ == unpack_indices(data@, 4),
{
    let mut r: Vec<u8> = Vec::new();
    let mut j: usize = 0;
    while j < data.len()
        invariant
            j <= data@.len(),
            r@.len() == 2 * j,
            forall|k: int| 0 <= k < r@.len() ==> r@[k] == index_at(data@, 4, k),
        decreases data@.len() - j,
    {
        let b = data[j];
        proof {
            vstd::arithmetic::div_mod::lemma_fundamental_div_mod_converse(2 * j as int, 2, j as int, 0);
            vstd::arithmetic::div_mod::lemma_fundamental_div_mod_converse(2 * j + 1, 2, j as int, 1);
        }
        r.push(b >> 4);
        r.push(b & 0x0F);
        j = j + 1;
    }
    assert(8nat / (4u8 as nat) == 2);
    assert(r@ =~= unpack_indices(data@, 4));
    r
}

fn unpack_pairs(data: &[u8]) -> (r: Vec<u8>)
    ensures
        r@ == unpack_indices(data@, 2),
{
    let mut r: Vec<u8> = Vec::new();
    let mut j: usize = 0;
    while j < data.len()
        invariant
            j <= data@.len(),
            r@.len() == 4 * j,
            forall|k: int| 0 <= k < r@.len() ==> r@[k] == index_at(data@, 2, k),
        decreases data@.len() - j,
    {
        let b = data[j];
        proof {
            vstd::arithmetic::div_mod::lemma_fundamental_div_mod_converse(4 * j as int, 4, j as int, 0);
            vstd::arithmetic::div_mod::lemma_fundamental_div_mod_converse(4 * j + 1, 4, j as int, 1);
            vstd::arithmetic::div_mod::lemma_fundamental_div_mod_converse(4 * j + 2, 4, j as int, 2);
            vstd::arithmetic::div_mod::lemma_fundamental_div_mod_converse(4 * j + 3, 4, j as int, 3);
        }
        r.push(b >> 6);
        r.push((b >> 4) & 0x03);
        r.push((b >> 2) & 0x03);
        r.push(b & 0x03);
        j = j + 1;
    }
    assert(8nat / (2u8 as nat) == 4);
    assert(r@ =~= unpack_indices(data@, 2));
    r
}

fn unpack_bits(data: &[u8]) -> (r: Vec<u8>)
    ensures
        r@ == unpack_indices(data@, 1),
{
    let mut r: Vec<u8> = Vec::new();
    let mut j: usize = 0;
    while j < data.len()
        invariant
            j <= data@.len(),
            r@.len() == 8 * j,
            forall|k: int| 0 <= k < r@.len() ==> r@[k] == index_at(data@, 1, k),
        decreases data@.len() - j,
    {
        let b = data[j];
        let mut i: u8 = 0;
        while i < 8
            invariant
                j < data@.len(),
                b == data@[j as int],
                i <= 8,
                r@.len() == 8 * j + i,
                forall|k: int| 0 <= k < r@.len() ==> r@[k] == index_at(data@, 1, k),
            decreases 8 - i,
        {
            proof {
                vstd::arithmetic::div_mod::lemma_fundamental_div_mod_converse(
                    8 * j + i,
                    8,
                    j as int,
                    i as int,
                );
            }
            r.push((b >> (7 - i)) & 1);
            i = i + 1;
        }
        j = j + 1;
    }
    assert(8nat / (1u8 as nat) == 8);
    assert(r@ =~= unpack_indices(data@, 1));
    r
}

/// The pixels of the IDAT chunks `image_data` whose data are palette indices of
/// `bit_depth` bits.
fn read_pixels_with_palette(image_data: Vec<&PngChunk>, palette: Vec<[u8; 3]>, bit_depth: u8) -> (r:
    Result<Vec<[u8; 3]>, ImageError>)
    requires
        is_index_bit_depth(bit_depth) ==> indices_below(
            image_data@.map_values(|c: &PngChunk| c.data@),
            palette@.len() as int,
            bit_depth,
        ),
    ensures
        ({
            let datas = image_data@.map_values(|c: &PngChunk| c.data@);
            if datas.len() > 0 && !is_index_bit_depth(bit_depth) {
                r matches Err(e) && is_custom(e, bit_depth_text(bit_depth))
            } else {
                r matches Ok(px) && px@ == palette_pixels(datas, palette@, bit_depth)
            }
        }),
{
    let ghost datas = image_data@.map_values(|c: &PngChunk| c.data@);
    let mut image: Vec<[u8; 3]> = Vec::new();
    let mut c: usize = 0;
    while c < image_data.len()
        invariant
            datas == image_data@.map_values(|c: &PngChunk| c.data@),
            c <= datas.len(),
            c > 0 ==> is_index_bit_depth(bit_depth),
            is_index_bit_depth(bit_depth) ==> indices_below(datas, palette@.len() as int, bit_depth),
            image@ == palette_pixels(datas.take(c as int), palette@, bit_depth),
        decreases datas.len() - c,
    {
        let chunk = image_data[c];
        let data = chunk.data.as_slice();
        assert(data@ == datas[c as int]);
        let indices: Vec<u8> = if bit_depth == 8 {
            vstd::slice::slice_to_vec(data)
        } else if bit_depth == 4 {
            unpack_nibbles(data)
        } else if bit_depth == 2 {
            unpack_pairs(data)
        } else if bit_depth == 1 {
            unpack_bits(data)
        } else {
            let text = join_text("invalid bit depth: ", format_decimal(bit_depth as u64).as_str());
            return Err(ImageError::CustomError(text));
        };
        assert(indices@ == unpack_indices(datas[c as int], bit_depth)) by {
            if bit_depth == 8 {
                assert(8nat / (bit_depth as nat) == 1);
                assert(unpack_indices(datas[c as int], bit_depth).len() == indices@.len());
                assert(indices@ =~= unpack_indices(datas[c as int], bit_depth));
            }
        }
        let mut pixels: Vec<[u8; 3]> = Vec::new();
        let mut k: usize = 0;
        while k < indices.len()
            invariant
                k <= indices@.len(),
                c < datas.len(),
                indices@ == unpack_indices(datas[c as int], bit_depth),
                indices_below(datas, palette@.len() as int, bit_depth),
                pixels@ =~= chunk_palette_pixels(datas[c as int], palette@, bit_depth).take(k as int),
            decreases indices@.len() - k,
        {
            assert(indices@[k as int] < palette@.len());
            pixels.push(palette[indices[k] as usize]);
            k = k + 1;
        }
        let ghost before = image@;
        image.append(&mut pixels);
        proof {
            assert(datas.take(c + 1).drop_last() =~= datas.take(c as int));
            assert(chunk_palette_pixels(datas[c as int], palette@, bit_depth).take(k as int)
                =~= chunk_palette_pixels(datas[c as int], palette@, bit_depth));
        }
        c = c + 1;
    }
    assert(datas.take(c as int) =~= datas);
    Ok(image)
}

/// The pixels of the IDAT chunks of an image that is not palette based; it
/// yields no pixels yet.
#[allow(unused_variables)]
fn read_pixels(image_data: Vec<&PngChunk>, bit_depth: u8, num_channels: u8) -> (r: Result<
    Vec<[u8; 3]>,
    ImageError,
>)
    ensures
        r matches Ok(px) && px@.len() == 0,
{
    let pixels: Vec<[u8; 3]> = Vec::new();
    Ok(pixels)
}


/// The error text `build_image` reports for `header` and the chunks `cs`, or
/// `None` when it succeeds.
spec fn build_image_error(header: PngHeader, cs: Seq<PngChunk>) -> Option<Seq<char>> {
    let ct = header.color_type();
    if ct == 0 || ct == 2 || ct == 4 || ct == 6 {
        None
    } else if ct == 3 {
        match first_index_named(cs, PLTE) {
            None => Some("no palette found in png"@),
            Some(j) => {
                let d = cs[j].data@;
                let n = d.len() / 3;
                if d.len() % 3 != 0 {
                    Some("invalid palette length: not divisible by 3"@)
                } else if n < 1 || n > 256 {
                    Some("invalid palette size: "@ + decimal_text(n as u64))
                } else if idat_data(cs).len() > 0 && !is_index_bit_depth(header.bit_depth()) {
                    Some(bit_depth_text(header.bit_depth()))
                } else {
                    None
                }
            },
        }
    } else {
        Some("invalid color type: "@ + decimal_text(ct as u64))
    }
}

/// The inputs on which `build_image` indexes its palette in bounds: every
/// index in the IDAT data of a palette image names a palette entry.
spec fn build_image_in_bounds(header: PngHeader, cs: Seq<PngChunk>) -> bool {
    header.color_type() == 3 && is_index_bit_depth(header.bit_depth()) ==> match first_index_named(
        cs,
        PLTE,
    ) {
        None => true,
        Some(j) => {
            let n = cs[j].data@.len() / 3;
            cs[j].data@.len() % 3 == 0 && 1 <= n <= 256 ==> indices_below(
                idat_data(cs),
                n as int,
                header.bit_depth(),
            )
        },
    }
}

proof fn lemma_first_index_named(cs: Seq<PngChunk>, name: u32)
    ensures
        match first_index_named(cs, name) {
            Some(j) => 0 <= j < cs.len() && cs[j].name == name && forall|k: int|
                0 <= k < j ==> cs[k].name != name,
            None => forall|k: int| 0 <= k < cs.len() ==> cs[k].name != name,
        },
    decreases cs.len(),
{
    if cs.len() > 0 {
        let d = cs.drop_last();
        lemma_first_index_named(d, name);
        assert forall|k: int| 0 <= k < d.len() implies d[k] == cs[k] by {}
    }
}

/// Expands the pixels of the image that `header` and `chunks` describe; only
/// whether that succeeds is returned.
fn build_image(header: PngHeader, chunks: PngImageChunks) -> (r: Result<(), ImageError>)
    requires
        build_image_in_bounds(header, chunks.image@),
    ensures
        match build_image_error(header, chunks.image@) {
            None => r is Ok,
            Some(msg) => r matches Err(e) && is_custom(e, msg),
        },
{
    let ghost cs = chunks.image@;
    let mut palette_index: Option<usize> = None;
    let mut j: usize = 0;
    while j < chunks.image.len()
        invariant
            cs == chunks.image@,
            j <= cs.len(),
            match first_index_named(cs.take(j as int), PLTE) {
                Some(k) => palette_index == Some(k as usize),
                None => palette_index is None,
            },
            palette_index matches Some(k) ==> k < j,
        decreases cs.len() - j,
    {
        proof {
            assert(cs.take(j + 1).drop_last() =~= cs.take(j as int));
            lemma_first_index_named(cs.take(j as int), PLTE);
        }
        if palette_index.is_none() && chunks.image[j].name == PLTE {
            palette_index = Some(j);
        }
        j = j + 1;
    }
    assert(cs.take(j as int) =~= cs);
    proof {
        lemma_first_index_named(cs, PLTE);
    }
    let mut idat_chunks: Vec<&PngChunk> = Vec::new();
    let mut j: usize = 0;
    while j < chunks.image.len()
        invariant
            cs == chunks.image@,
            j <= cs.len(),
            idat_chunks@.map_values(|c: &PngChunk| c.data@) == idat_data(cs.take(j as int)),
        decreases cs.len() - j,
    {
        proof {
            assert(cs.take(j + 1).drop_last() =~= cs.take(j as int));
        }
        if chunks.image[j].name == IDAT {
            idat_chunks.push(&chunks.image[j]);
            assert(idat_chunks@.map_values(|c: &PngChunk| c.data@) =~= idat_data(
                cs.take(j + 1),
            ));
        } else {
            assert(idat_chunks@.map_values(|c: &PngChunk| c.data@) =~= idat_data(
                cs.take(j + 1),
            ));
        }
        j = j + 1;
    }
    assert(cs.take(j as int) =~= cs);
    let color_type = header.color_type;
    if color_type == 0 {
        let _pixels = read_pixels(idat_chunks, header.bit_depth, 1);
    } else if color_type == 2 {
        let _pixels = read_pixels(idat_chunks, header.bit_depth, 3);
    } else if color_type == 3 {
        let k = match palette_index {
            Some(k) => k,
            None => {
                return Err(ImageError::CustomError(String::from_str("no palette found in png")));
            },
        };
        let data = chunks.image[k].data.as_slice();
        let data_len = data.len();
        assert(first_index_named(cs, PLTE) == Some(k as int));
        assert(data@ == cs[k as int].data@);
        if data.len() % 3 != 0 {
            return Err(
                ImageError::CustomError(
                    String::from_str("invalid palette length: not divisible by 3"),
                ),
            );
        }
        let entry_count = data.len() / 3;
        if entry_count < 1 || entry_count > 256 {
            let text = join_text("invalid palette size: ", format_decimal(entry_count as u64).as_str());
            return Err(ImageError::CustomError(text));
        }
        let mut palette: Vec<[u8; 3]> = Vec::new();
        let mut e: usize = 0;
        proof {
            vstd::arithmetic::div_mod::lemma_fundamental_div_mod(data_len as int, 3);
        }
        while e < entry_count
            invariant
                data_len == data@.len(),
                3 * entry_count == data_len,
                entry_count == data@.len() / 3,
                data@.len() % 3 == 0,
                e <= entry_count,
                palette@.len() == e,
            decreases entry_count - e,
        {
            palette.push([data[3 * e], data[3 * e + 1], data[3 * e + 2]]);
            e = e + 1;
        }
        match read_pixels_with_palette(idat_chunks, palette, header.bit_depth) {
            Ok(_pixels) => {},
            Err(e) => return Err(e),
        }
    } else if color_type == 4 {
        let _pixels = read_pixels(idat_chunks, header.bit_depth, 2);
    } else if color_type == 6 {
        let _pixels = read_pixels(idat_chunks, header.bit_depth, 4);
    } else {
        let text = join_text("invalid color type: ", format_decimal(color_type as u64).as_str());
        return Err(ImageError::CustomError(text));
    }
    Ok(())
}

} // verus!
