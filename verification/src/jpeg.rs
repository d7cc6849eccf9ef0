//! JPEG: the marker segments of a stream, the frame header, quantization and
//! Huffman tables, and the bit reader of the entropy-coded data.

use crate::endian::{be_u16, read_be_u16};
use crate::error::{is_custom, ImageError};
use crate::text::{decimal_text, format_decimal, format_upper_hex, join_text, upper_hex_text};
use vstd::arithmetic::power2::{lemma_pow2_pos, lemma_pow2_unfold, pow2};
use vstd::prelude::*;
use vstd::string::*;

verus! {

/// Markers that stand alone, without a length field: RST0 to RST7, SOI and EOI.
pub open spec fn is_standalone_marker(indicator: u8) -> bool {
    0xD0 <= indicator <= 0xD9
}

/// Markers followed by a two-byte length field: SOF0, SOF2, DHT, DQT, DRI, SOS,
/// COM and APP0 to APP15.
pub open spec fn has_length_field(indicator: u8) -> bool {
    indicator == 0xC0 || indicator == 0xC2 || indicator == 0xC4 || indicator == 0xDB || indicator
        == 0xDD || indicator == 0xDA || indicator == 0xFE || (0xE0 <= indicator <= 0xEF)
}

/// A segment as plain values: marker, length field, data.
pub type SegmentModel = (u8, u16, Option<Seq<u8>>);

/// Why a segment could not be read.
pub enum SegmentError {
    /// Fewer than four bytes were left; the number of bytes left.
    ShortInput(nat),
    /// The marker is not one this decoder knows.
    UnknownIndicator(u8),
}

/// The error text for a segment that could not be read.
pub open spec fn segment_error_text(e: SegmentError) -> Seq<char> {
    match e {
        SegmentError::ShortInput(n) => "invalid chunk length: "@ + decimal_text(n as u64),
        SegmentError::UnknownIndicator(ind) => "invalid indicator: "@ + upper_hex_text(ind as u64),
    }
}

/// The segment that starts `s` (with its `0xFF`): a standalone marker has no
/// data; a marker with a length field `len` has the `len - 2` bytes after it.
pub open spec fn parse_segment(s: Seq<u8>) -> Result<SegmentModel, SegmentError> {
    if s.len() < 4 {
        Err(SegmentError::ShortInput(s.len()))
    } else if is_standalone_marker(s[1]) {
        Ok((s[1], 0u16, None))
    } else if has_length_field(s[1]) {
        Ok((s[1], be_u16(s, 2), Some(s.subrange(4, 2 + be_u16(s, 2)))))
    } else {
        Err(SegmentError::UnknownIndicator(s[1]))
    }
}

/// Whether reading the segment that starts `s` stays in bounds: a length
/// field is at least 2 and does not reach past the end of `s`.
pub open spec fn segment_in_bounds(s: Seq<u8>) -> bool {
    s.len() >= 4 && has_length_field(s[1]) ==> 2 <= be_u16(s, 2) && 2 + be_u16(s, 2) <= s.len()
}

/// How a segment reads by its marker: the markers with a length field (SOF0,
/// SOF2, DHT, DQT, DRI, SOS, COM and every APPn, `0xE0` to `0xEF`) give the
/// marker, the big-endian length `L` after it and the `L - 2` bytes after
/// that; RST0 to RST7, SOI and EOI stand alone, with length 0 and no data; any
/// other marker is refused by name.
pub proof fn lemma_segment_by_marker(s: Seq<u8>)
    requires
        s.len() >= 4,
    ensures
        (s[1] == 0xC0 || s[1] == 0xC2 || s[1] == 0xC4 || s[1] == 0xDB || s[1] == 0xDD || s[1]
            == 0xDA || s[1] == 0xFE || (0xE0 <= s[1] && s[1] <= 0xEF)) ==> parse_segment(s) == Ok::<
            SegmentModel,
            SegmentError,
        >((s[1], (s[2] * 256 + s[3]) as u16, Some(s.subrange(4, 2 + s[2] * 256 + s[3])))),
        (0xD0 <= s[1] && s[1] <= 0xD9) ==> parse_segment(s) == Ok::<SegmentModel, SegmentError>(
            (s[1], 0u16, None),
        ),
        !(s[1] == 0xC0 || s[1] == 0xC2 || s[1] == 0xC4 || s[1] == 0xDB || s[1] == 0xDD || s[1]
            == 0xDA || s[1] == 0xFE || (0xE0 <= s[1] && s[1] <= 0xEF) || (0xD0 <= s[1] && s[1]
            <= 0xD9)) ==> parse_segment(s) == Err::<SegmentModel, SegmentError>(
            SegmentError::UnknownIndicator(s[1]),
        ),
{
    assert(s[2] * 256 + s[3] <= 0xFFFF);
}

/// Every segment shorter than four bytes is refused with its length.
pub proof fn lemma_short_segment(s: Seq<u8>)
    requires
        s.len() < 4,
    ensures
        parse_segment(s) == Err::<SegmentModel, SegmentError>(SegmentError::ShortInput(s.len())),
{
}

/// A marker segment of a JPEG stream.
#[derive(Debug)]
pub struct JpegChunk {
    indicator: u8,
    length: u16,
    data: Option<Vec<u8>>,
}

impl JpegChunk {
    /// The segment as plain values.
    pub closed spec fn model(&self) -> SegmentModel {
        (
            self.indicator,
            self.length,
            match self.data {
                Some(d) => Some(d@),
                None => None,
            },
        )
    }

    /// Reads the marker segment that starts `bytes`.
    pub fn new(bytes: &[u8]) -> (r: Result<JpegChunk, ImageError>)
        requires
            segment_in_bounds(bytes@),
        ensures
            match parse_segment(bytes@) {
                Ok(m) => r matches Ok(c) && c.model() == m,
                Err(e) => r matches Err(x) && is_custom(x, segment_error_text(e)),
            },
    {
        if bytes.len() < 4 {
            let text = join_text("invalid chunk length: ", format_decimal(bytes.len() as u64).as_str());
            return Err(ImageError::CustomError(text));
        }
        let indicator: u8 = bytes[1];
        let length = if 0xD0 <= indicator && indicator <= 0xD9 {
            return Ok(JpegChunk { indicator: indicator, length: 0 as u16, data: None });
        } else if indicator == 0xC0 || indicator == 0xC2 || indicator == 0xC4 || indicator == 0xDB
            || indicator == 0xDD || indicator == 0xDA || indicator == 0xFE || (0xE0 <= indicator
            && indicator <= 0xEF) {
            read_be_u16(bytes, 2)
        } else {
            let text = join_text("invalid indicator: ", format_upper_hex(indicator as u64).as_str());
            return Err(ImageError::CustomError(text));
        };
        Ok(JpegChunk {
            indicator: indicator,
            length: length,
            data: Some(
                vstd::slice::slice_to_vec(
                    vstd::slice::slice_subrange(bytes, 4, 2 + length as usize),
                ),
            ),
        })
    }

    /// The segment's data, or an error for a standalone marker.
    pub fn get_data(self) -> (r: Result<Vec<u8>, ImageError>)
        ensures
            match self.model().2 {
                Some(d) => r matches Ok(v) && v@ == d,
                None => r matches Err(e) && is_custom(
                    e,
                    upper_hex_text(self.model().0 as u64) + " held no data"@,
                ),
            },
    {
        match self.data {
            Some(data) => Ok(data),
            None => {
                let text = join_text(format_upper_hex(self.indicator as u64).as_str(), " held no data");
                Err(ImageError::CustomError(text))
            },
        }
    }

    pub fn indicator(&self) -> (v: u8)
        ensures
            v == self.model().0,
    {
        self.indicator
    }

    pub fn length(&self) -> (v: u16)
        ensures
            v == self.model().1,
    {
        self.length
    }
}

/// Where the entropy-coded data that starts at `j` ends: at the first `0xFF`
/// followed by a byte that is neither `0x00` nor RST0 to RST7, or at the last byte.
pub open spec fn scan_end(b: Seq<u8>, j: int) -> int
    decreases b.len() - j,
{
    if j < 0 || j + 1 >= b.len() {
        j
    } else if b[j] == 0xFF && b[j + 1] != 0 && !(0xD0 <= b[j + 1] <= 0xD7) {
        j
    } else {
        scan_end(b, j + 1)
    }
}

/// The end of the entropy-coded data lies between its start and the end of `b`.
pub proof fn lemma_scan_end(b: Seq<u8>, j: int)
    ensures
        scan_end(b, j) >= j,
        j <= b.len() ==> scan_end(b, j) <= b.len(),
    decreases b.len() - j,
{
    if !(j < 0 || j + 1 >= b.len()) && !(b[j] == 0xFF && b[j + 1] != 0 && !(0xD0 <= b[j + 1]
        <= 0xD7)) {
        lemma_scan_end(b, j + 1);
    }
}

/// The entropy-coded data that starts at `j` ends at the first `0xFF` that
/// is followed by a byte other than `0x00` and other than a restart marker
/// (`0xD0` to `0xD7`), or at the last byte when there is none: stuffed zeros
/// and restart markers lie inside the data.
pub proof fn lemma_scan_end_is_first_marker(b: Seq<u8>, j: int)
    requires
        0 <= j,
    ensures
        j <= scan_end(b, j),
        scan_end(b, j) + 1 >= b.len() || ({
            let e = scan_end(b, j);
            b[e] == 0xFF && b[e + 1] != 0x00 && (b[e + 1] < 0xD0 || b[e + 1] > 0xD7)
        }),
        forall|k: int|
            j <= k < scan_end(b, j) ==> !(#[trigger] b[k] == 0xFF && b[k + 1] != 0x00 && (b[k
                + 1] < 0xD0 || b[k + 1] > 0xD7)),
    decreases b.len() - j,
{
    if !(j + 1 >= b.len()) && !(b[j] == 0xFF && b[j + 1] != 0 && !(0xD0 <= b[j + 1] <= 0xD7)) {
        lemma_scan_end_is_first_marker(b, j + 1);
    }
}

/// Which restart marker stands in the entropy-coded data does not matter:
/// putting any of RST0 to RST7 in place of another leaves the end of the data
/// where it was.
pub proof fn lemma_scan_end_restart_markers_alike(b: Seq<u8>, j: int, k: int, r: u8)
    requires
        0 <= j,
        0 <= k < b.len(),
        0xD0 <= b[k] <= 0xD7,
        0xD0 <= r <= 0xD7,
    ensures
        scan_end(b.update(k, r), j) == scan_end(b, j),
    decreases b.len() - j,
{
    let c = b.update(k, r);
    if !(j + 1 >= b.len()) {
        assert(c[j] == 0xFF <==> b[j] == 0xFF);
        assert((c[j + 1] != 0 && !(0xD0 <= c[j + 1] <= 0xD7)) <==> (b[j + 1] != 0 && !(0xD0
            <= b[j + 1] <= 0xD7)));
        if !(b[j] == 0xFF && b[j + 1] != 0 && !(0xD0 <= b[j + 1] <= 0xD7)) {
            lemma_scan_end_restart_markers_alike(b, j + 1, k, r);
        }
    }
}

/// Where a scan over the segments of a stream ends: with the segments read, at
/// a segment that could not be read, or at one that reaches past the end.
pub enum JpegScan {
    Segments(Seq<SegmentModel>),
    Failed(SegmentError),
    OutOfBounds,
}

/// `acc` put in front of the segments of `w`, if it has any.
pub open spec fn prepend_segments(acc: Seq<SegmentModel>, w: JpegScan) -> JpegScan {
    match w {
        JpegScan::Segments(ms) => JpegScan::Segments(acc + ms),
        other => other,
    }
}

/// The scan over the segments of `b` from `i` on: bytes other than `0xFF` are
/// skipped; after a segment the scan goes on past its length field, and past
/// the entropy-coded data after an SOS segment.
#[verifier::opaque]
pub open spec fn jpeg_scan(b: Seq<u8>, i: int) -> JpegScan
    decreases b.len() - i,
{
    if i < 0 || i >= b.len() {
        JpegScan::Segments(seq![])
    } else if b[i] != 0xFF {
        jpeg_scan(b, i + 1)
    } else if !segment_in_bounds(b.skip(i)) {
        JpegScan::OutOfBounds
    } else {
        match parse_segment(b.skip(i)) {
            Ok(m) => {
                let next = i + 2 + m.1;
                proof {
                    lemma_scan_end(b, next);
                }
                let after = if m.0 == 0xDA {
                    scan_end(b, next)
                } else {
                    next
                };
                prepend_segments(seq![m], jpeg_scan(b, after))
            },
            Err(e) => JpegScan::Failed(e),
        }
    }
}

/// One step of the segment scan at `i`.
proof fn lemma_scan_unfold(b: Seq<u8>, i: int)
    ensures
        (i < 0 || i >= b.len()) ==> jpeg_scan(b, i) == JpegScan::Segments(seq![]),
        0 <= i < b.len() && b[i] != 0xFF ==> jpeg_scan(b, i) == jpeg_scan(b, i + 1),
        0 <= i < b.len() && b[i] == 0xFF && !segment_in_bounds(b.skip(i)) ==> jpeg_scan(b, i)
            is OutOfBounds,
        0 <= i < b.len() && b[i] == 0xFF && segment_in_bounds(b.skip(i)) ==> match parse_segment(
            b.skip(i),
        ) {
            Ok(m) => jpeg_scan(b, i) == prepend_segments(
                seq![m],
                jpeg_scan(
                    b,
                    if m.0 == 0xDA {
                        scan_end(b, i + 2 + m.1)
                    } else {
                        i + 2 + m.1
                    },
                ),
            ),
            Err(e) => jpeg_scan(b, i) == JpegScan::Failed(e),
        },
{
    reveal(jpeg_scan);
}

proof fn lemma_prepend_segments_twice(a: Seq<SegmentModel>, c: Seq<SegmentModel>, w: JpegScan)
    ensures
        prepend_segments(a, prepend_segments(c, w)) == prepend_segments(a + c, w),
{
    if let JpegScan::Segments(ms) = w {
        assert(a + (c + ms) =~= (a + c) + ms);
    }
}

proof fn lemma_scan_end_shift(b: Seq<u8>, x: u8, j: int)
    requires
        0 <= j,
    ensures
        scan_end(seq![x] + b, j + 1) == scan_end(b, j) + 1,
    decreases b.len() - j,
{
    let c = seq![x] + b;
    if j + 1 < b.len() {
        assert(c[j + 1] == b[j] && c[j + 2] == b[j + 1]);
        if !(b[j] == 0xFF && b[j + 1] != 0 && !(0xD0 <= b[j + 1] <= 0xD7)) {
            lemma_scan_end_shift(b, x, j + 1);
        }
    }
}

proof fn lemma_scan_shift(b: Seq<u8>, x: u8, i: int)
    requires
        0 <= i,
    ensures
        jpeg_scan(seq![x] + b, i + 1) == jpeg_scan(b, i),
    decreases b.len() - i,
{
    let c = seq![x] + b;
    lemma_scan_unfold(c, i + 1);
    lemma_scan_unfold(b, i);
    if i < b.len() {
        assert(c[i + 1] == b[i]);
        assert(c.skip(i + 1) =~= b.skip(i));
        if b[i] != 0xFF {
            lemma_scan_shift(b, x, i + 1);
        } else if segment_in_bounds(b.skip(i)) {
            if let Ok(m) = parse_segment(b.skip(i)) {
                let next = i + 2 + m.1;
                lemma_scan_end(b, next);
                if m.0 == 0xDA {
                    lemma_scan_end_shift(b, x, next);
                    lemma_scan_shift(b, x, scan_end(b, next));
                } else {
                    lemma_scan_shift(b, x, next);
                }
            }
        }
    }
}

/// Bytes before the first marker do not matter: a stream with one more byte
/// other than `0xFF` in front has the same segments, and fails or reaches
/// past its end in the same way.
pub proof fn lemma_scan_skips_leading_byte(b: Seq<u8>, x: u8)
    requires
        x != 0xFF,
    ensures
        jpeg_scan(seq![x] + b, 0) == jpeg_scan(b, 0),
{
    let c = seq![x] + b;
    lemma_scan_unfold(c, 0);
    lemma_scan_shift(b, x, 0);
}

/// The marker segments of a JPEG stream.
#[derive(Debug)]
pub struct JpegImageChunks {
    image: Vec<JpegChunk>,
}

impl JpegImageChunks {
    pub closed spec fn segments(&self) -> Seq<SegmentModel> {
        self.image@.map_values(|c: JpegChunk| c.model())
    }

    /// The segments, in stream order.
    pub fn chunks(&self) -> (c: &[JpegChunk])
        ensures
            c@.map_values(|x: JpegChunk| x.model()) == self.segments(),
    {
        self.image.as_slice()
    }

    /// Reads the marker segments of `bytes`.
    pub fn new(bytes: &[u8]) -> (r: Result<JpegImageChunks, ImageError>)
        requires
            !(jpeg_scan(bytes@, 0) is OutOfBounds),
        ensures
            match jpeg_scan(bytes@, 0) {
                JpegScan::Segments(ms) => r matches Ok(c) && c.segments() == ms,
                JpegScan::Failed(e) => r matches Err(x) && is_custom(x, segment_error_text(e)),
                JpegScan::OutOfBounds => false,
            },
    {
        let total = bytes.len();
        let mut chunks: Vec<JpegChunk> = Vec::new();
        let mut i: usize = 0;
        while i < bytes.len()
            invariant
                total == bytes@.len(),
                !(jpeg_scan(bytes@, 0) is OutOfBounds),
                jpeg_scan(bytes@, 0) == prepend_segments(
                    chunks@.map_values(|c: JpegChunk| c.model()),
                    jpeg_scan(bytes@, i as int),
                ),
            decreases total - i,
        {
            let ghost before = chunks@.map_values(|c: JpegChunk| c.model());
            proof {
                lemma_scan_unfold(bytes@, i as int);
            }
            if bytes[i] != 0xFF {
                i += 1;
                continue;
            }
            let rest = vstd::slice::slice_subrange(bytes, i, total);
            assert(rest@ == bytes@.skip(i as int));
            let chunk = match JpegChunk::new(rest) {
                Ok(c) => c,
                Err(e) => return Err(e),
            };
            let ghost m = chunk.model();
            i += 2 + chunk.length as usize;
            if chunk.indicator == 0xDA {
                let ghost j0 = i as int;
                while i < bytes.len() - 1
                    invariant
                        total == bytes@.len(),
                        total >= 1,
                        j0 <= i <= total,
                        scan_end(bytes@, j0) == scan_end(bytes@, i as int),
                    ensures
                        scan_end(bytes@, j0) == i,
                    decreases total - i,
                {
                    if bytes[i] == 0xFF && bytes[i + 1] != 0x00 && !(0xD0 <= bytes[i + 1]
                        && bytes[i + 1] <= 0xD7) {
                        break;
                    }
                    i += 1;
                }
            }
            chunks.push(chunk);
            proof {
                lemma_prepend_segments_twice(before, seq![m], jpeg_scan(bytes@, i as int));
                assert(chunks@.map_values(|c: JpegChunk| c.model()) =~= before + seq![m]);
            }
        }
        proof {
            lemma_scan_unfold(bytes@, i as int);
            assert(chunks@.map_values(|c: JpegChunk| c.model()) + seq![] =~= chunks@.map_values(
                |c: JpegChunk| c.model(),
            ));
        }
        Ok(JpegImageChunks { image: chunks })
    }
}


impl JpegImageChunks {
    /// Reads the marker segments of `bytes` when no segment reaches past the
    /// end; `None` when one does.
    pub fn new_checked(bytes: &[u8]) -> (r: Option<Result<JpegImageChunks, ImageError>>)
        ensures
            r is None <==> jpeg_scan(bytes@, 0) is OutOfBounds,
            r matches Some(res) ==> match jpeg_scan(bytes@, 0) {
                JpegScan::Segments(ms) => res matches Ok(c) && c.segments() == ms,
                JpegScan::Failed(e) => res matches Err(x) && is_custom(x, segment_error_text(e)),
                JpegScan::OutOfBounds => false,
            },
    {
        if jpeg_is_decodable(bytes) {
            Some(JpegImageChunks::new(bytes))
        } else {
            None
        }
    }
}

/// Whether reading the marker segments of `bytes` stays in bounds: no length
/// field is below 2 or reaches past the end of the stream.
pub fn jpeg_is_decodable(bytes: &[u8]) -> (ok: bool)
    ensures
        ok == !(jpeg_scan(bytes@, 0) is OutOfBounds),
{
    let total = bytes.len();
    let mut i: usize = 0;
    while i < total
        invariant
            total == bytes@.len(),
            (jpeg_scan(bytes@, 0) is OutOfBounds) == (jpeg_scan(bytes@, i as int) is OutOfBounds),
        decreases total - i,
    {
        proof {
            lemma_scan_unfold(bytes@, i as int);
        }
        if bytes[i] != 0xFF {
            i += 1;
            continue;
        }
        let ghost s = bytes@.skip(i as int);
        if total - i < 4 {
            return true;
        }
        assert(s[1] == bytes@[i + 1]);
        let indicator = bytes[i + 1];
        if 0xD0 <= indicator && indicator <= 0xD9 {
            i += 2;
            continue;
        }
        if !(indicator == 0xC0 || indicator == 0xC2 || indicator == 0xC4 || indicator == 0xDB
            || indicator == 0xDD || indicator == 0xDA || indicator == 0xFE || (0xE0 <= indicator
            && indicator <= 0xEF)) {
            return true;
        }
        assert(s[2] == bytes@[i + 2] && s[3] == bytes@[i + 3]);
        let length = read_be_u16(bytes, i + 2);
        assert(length == be_u16(s, 2));
        if length < 2 || length as usize > total - i - 2 {
            return false;
        }
        i += 2 + length as usize;
        if indicator == 0xDA {
            let ghost j0 = i as int;
            while i < bytes.len() - 1
                invariant
                    total == bytes@.len(),
                    total >= 1,
                    j0 <= i <= total,
                    scan_end(bytes@, j0) == scan_end(bytes@, i as int),
                ensures
                    scan_end(bytes@, j0) == i,
                decreases total - i,
            {
                if bytes[i] == 0xFF && bytes[i + 1] != 0x00 && !(0xD0 <= bytes[i + 1] && bytes[i
                    + 1] <= 0xD7) {
                    break;
                }
                i += 1;
            }
        }
    }
    proof {
        lemma_scan_unfold(bytes@, i as int);
    }
    true
}


/// The segment scan always moves forward: after a segment read at `i` it goes
/// on at least two bytes further (past the marker, the length field and the
/// data, and for SOS past the entropy-coded data), so it ends on every stream.
pub proof fn lemma_scan_moves_forward(b: Seq<u8>, i: int)
    requires
        0 <= i < b.len(),
        b[i] == 0xFF,
        segment_in_bounds(b.skip(i)),
    ensures
        parse_segment(b.skip(i)) matches Ok(m) ==> {
            let next = i + 2 + m.1;
            (if m.0 == 0xDA {
                scan_end(b, next)
            } else {
                next
            }) >= i + 2
        },
{
    if let Ok(m) = parse_segment(b.skip(i)) {
        lemma_scan_end(b, i + 2 + m.1);
    }
}

/// Every segment of a completed scan is well formed: a standalone marker has
/// length 0 and no data, and a segment with a length field has exactly
/// `length - 2` data bytes.
pub proof fn lemma_scan_segments_well_formed(b: Seq<u8>, i: int)
    ensures
        jpeg_scan(b, i) matches JpegScan::Segments(ms) ==> forall|k: int|
            0 <= k < ms.len() ==> {
                let m = #[trigger] ms[k];
                &&& (m.2 is None <==> is_standalone_marker(m.0))
                &&& (m.2 is None ==> m.1 == 0)
                &&& (m.2 matches Some(d) ==> has_length_field(m.0) && d.len() + 2 == m.1)
            },
    decreases b.len() - i,
{
    lemma_scan_unfold(b, i);
    if 0 <= i < b.len() {
        if b[i] != 0xFF {
            lemma_scan_segments_well_formed(b, i + 1);
        } else if segment_in_bounds(b.skip(i)) {
            if let Ok(m) = parse_segment(b.skip(i)) {
                let next = i + 2 + m.1;
                lemma_scan_end(b, next);
                let after = if m.0 == 0xDA {
                    scan_end(b, next)
                } else {
                    next
                };
                lemma_scan_segments_well_formed(b, after);
                if let JpegScan::Segments(rest) = jpeg_scan(b, after) {
                    assert forall|k: int| 0 <= k < rest.len() + 1 implies {
                        let m2 = #[trigger] (seq![m] + rest)[k];
                        &&& (m2.2 is None <==> is_standalone_marker(m2.0))
                        &&& (m2.2 is None ==> m2.1 == 0)
                        &&& (m2.2 matches Some(d) ==> has_length_field(m2.0) && d.len() + 2 == m2.1)
                    } by {
                        if k > 0 {
                            assert((seq![m] + rest)[k] == rest[k - 1]);
                        }
                    }
                }
            }
        }
    }
}

/// The first two bytes of `s` as an array, by std's `TryFrom<&[T]> for [T; N]`.
/// Trusted: as std documents, the conversion succeeds exactly when the slice
/// has two elements, and then copies them; otherwise it returns the error.
#[verifier::external_body]
fn slice_to_pair(s: &[u8]) -> (r: Result<[u8; 2], std::array::TryFromSliceError>)
    ensures
        r is Ok <==> s@.len() == 2,
        r matches Ok(a) ==> a@ == s@,
{
    <[u8; 2]>::try_from(s)
}

/// One component of a frame header.
#[derive(Debug)]
pub struct Component {
    id: u8,
    sampling_factors: u8,
    quantization_id: u8,
}

impl Component {
    pub closed spec fn spec_id(&self) -> u8 {
        self.id
    }

    pub closed spec fn spec_sampling_factors(&self) -> u8 {
        self.sampling_factors
    }

    pub closed spec fn spec_quantization_id(&self) -> u8 {
        self.quantization_id
    }

    #[verifier::when_used_as_spec(spec_id)]
    pub fn id(&self) -> (v: u8)
        ensures
            v == self.spec_id(),
    {
        self.id
    }

    #[verifier::when_used_as_spec(spec_sampling_factors)]
    pub fn sampling_factors(&self) -> (v: u8)
        ensures
            v == self.spec_sampling_factors(),
    {
        self.sampling_factors
    }

    #[verifier::when_used_as_spec(spec_quantization_id)]
    pub fn quantization_id(&self) -> (v: u8)
        ensures
            v == self.spec_quantization_id(),
    {
        self.quantization_id
    }

    /// Whether this component is the one stored at `bytes[i..i + 3]`.
    pub open spec fn decodes(&self, bytes: Seq<u8>, i: int) -> bool {
        &&& self.id() == bytes[i]
        &&& self.sampling_factors() == bytes[i + 1]
        &&& self.quantization_id() == bytes[i + 2]
    }

    /// Reads a component from its three bytes.
    pub fn new(bytes: &[u8]) -> (c: Component)
        requires
            bytes@.len() >= 3,
        ensures
            c.decodes(bytes@, 0),
    {
        Component { id: bytes[0], sampling_factors: bytes[1], quantization_id: bytes[2] }
    }

    /// Reads `count` components of three bytes each; `bytes` must hold 3 times
    /// `count` bytes, give or take less than one component.
    pub fn new_components(bytes: &[u8], count: u8) -> (r: Result<Vec<Component>, ImageError>)
        requires
            count != 0,
            bytes@.len() / (count as nat) == 3 ==> count <= 85,
        ensures
            bytes@.len() / (count as nat) != 3 ==> (r matches Err(e) && is_custom(
                e,
                decimal_text(bytes@.len() as u64) + " / "@ + decimal_text(count as u64)
                    + " does not equal 3"@,
            )),
            bytes@.len() / (count as nat) == 3 ==> (r matches Ok(v) && v@.len() == count && forall|
                i: int,
            |
                0 <= i < count ==> #[trigger] v@[i].decodes(bytes@, 3 * i)),
    {
        if bytes.len() / count as usize != 3 {
            let text = join_text(format_decimal(bytes.len() as u64).as_str(), " / ");
            let text = join_text(text.as_str(), format_decimal(count as u64).as_str());
            let text = join_text(text.as_str(), " does not equal 3");
            return Err(ImageError::CustomError(text));
        }
        proof {
            vstd::arithmetic::div_mod::lemma_fundamental_div_mod(bytes@.len() as int, count as int);
        }
        let mut components: Vec<Component> = Vec::new();
        let mut i: u8 = 0;
        while i < count
            invariant
                count <= 85,
                3 * count <= bytes@.len(),
                i <= count,
                components@.len() == i,
                forall|k: int| 0 <= k < i ==> #[trigger] components@[k].decodes(bytes@, 3 * k),
            decreases count - i,
        {
            let new_component = Component::new(
                vstd::slice::slice_subrange(bytes, (i * 3) as usize, (i * 3 + 3) as usize),
            );
            components.push(new_component);
            i = i + 1;
        }
        Ok(components)
    }
}

/// A component read from the bytes at `i` holds them in order: its id is
/// byte `i`, its sampling factors byte `i + 1` and its quantization table id
/// byte `i + 2`.
pub proof fn lemma_component_fields(c: Component, bytes: Seq<u8>, i: int)
    requires
        c.decodes(bytes, i),
    ensures
        c.id() == bytes[i],
        c.sampling_factors() == bytes[i + 1],
        c.quantization_id() == bytes[i + 2],
{
}

/// A frame header (SOF segment).
#[derive(Debug)]
#[allow(dead_code)]
pub struct JpegHeader {
    precision: u8,
    height: u16,
    width: u16,
    component_count: u8,
    components: Vec<Component>,
}

impl JpegHeader {
    /// Reads a frame header from its segment. The height is read from the
    /// one-byte range `data[1..2]`, whose conversion to a two-byte array fails,
    /// so every segment with data yields `ImageError::TryFrom`.
    pub fn new(chunk: JpegChunk) -> (r: Result<JpegHeader, ImageError>)
        requires
            chunk.model().2 matches Some(d) ==> d.len() >= 2,
        ensures
            match chunk.model().2 {
                None => r matches Err(e) && is_custom(e, "no data in jpeg header segment"@),
                Some(_) => r matches Err(e) && e is TryFrom,
            },
    {
        let data = match chunk.data {
            Some(data) => data,
            None => {
                return Err(
                    ImageError::CustomError(String::from_str("no data in jpeg header segment")),
                );
            },
        };
        let precision = data[0];
        let height = match slice_to_pair(vstd::slice::slice_subrange(data.as_slice(), 1, 2)) {
            Ok(pair) => (pair[0] as u16) * 0x100 + (pair[1] as u16),
            Err(e) => return Err(ImageError::TryFrom(e)),
        };
        let width = match slice_to_pair(vstd::slice::slice_subrange(data.as_slice(), 2, 4)) {
            Ok(pair) => (pair[0] as u16) * 0x100 + (pair[1] as u16),
            Err(e) => return Err(ImageError::TryFrom(e)),
        };
        let component_count = data[4];
        let components = match Component::new_components(
            vstd::slice::slice_subrange(data.as_slice(), 5, data.len()),
            data[4],
        ) {
            Ok(c) => c,
            Err(e) => return Err(e),
        };
        Ok(JpegHeader {
            precision: precision,
            height: height,
            width: width,
            component_count: component_count,
            components: components,
        })
    }
}

/// A quantization table (DQT segment).
#[derive(Debug)]
pub struct QuantizationTable {
    length: u16,
    precision_table_id: u8,
    table: [u16; 64],
}

/// The inputs on which `QuantizationTable::new` stays in bounds: a DQT segment
/// with data has a precision byte; with precision 0 it has at most 64 more
/// bytes, with precision 1 at least 2 more.
pub open spec fn quantization_in_bounds(m: SegmentModel) -> bool {
    m.0 == 0xDB && m.2 is Some ==> {
        let d = m.2->0;
        &&& d.len() >= 1
        &&& d[0] == 0 ==> d.len() <= 65
        &&& d[0] == 1 ==> d.len() >= 3
    }
}

impl QuantizationTable {
    pub closed spec fn spec_length(&self) -> u16 {
        self.length
    }

    pub closed spec fn spec_precision_table_id(&self) -> u8 {
        self.precision_table_id
    }

    pub closed spec fn spec_table(&self) -> [u16; 64] {
        self.table
    }

    #[verifier::when_used_as_spec(spec_length)]
    pub fn length(&self) -> (v: u16)
        ensures
            v == self.spec_length(),
    {
        self.length
    }

    #[verifier::when_used_as_spec(spec_precision_table_id)]
    pub fn precision_table_id(&self) -> (v: u8)
        ensures
            v == self.spec_precision_table_id(),
    {
        self.precision_table_id
    }

    #[verifier::when_used_as_spec(spec_table)]
    pub fn table(&self) -> (v: [u16; 64])
        ensures
            v == self.spec_table(),
    {
        self.table
    }

    /// Reads a quantization table from its segment: a precision byte, then 64
    /// big-endian 16-bit entries for precision 1.
    pub fn new(chunk: JpegChunk) -> (r: Result<QuantizationTable, ImageError>)
        requires
            quantization_in_bounds(chunk.model()),
        ensures
            ({
                let m = chunk.model();
                if m.0 != 0xDB {
                    r matches Err(e) && is_custom(
                        e,
                        upper_hex_text(m.0 as u64) + " is not the quantization table"@,
                    )
                } else {
                    match m.2 {
                        None => r matches Err(e) && is_custom(
                            e,
                            upper_hex_text(m.0 as u64) + " held no data"@,
                        ),
                        Some(d) => if d[0] == 0 {
                            r matches Err(e) && is_custom(e, "need at least 64 bytes of data"@)
                        } else if d[0] == 1 {
                            if d.len() - 3 <= 128 {
                                r matches Err(e) && is_custom(e, "need at least 128 bytes of data"@)
                            } else {
                                r matches Ok(t) && t.length() == be_u16(d, 0)
                                    && t.precision_table_id() == 1 && forall|i: int|
                                    0 <= i < 64 ==> #[trigger] t.table()@[i] == be_u16(d, 1 + 2 * i)
                            }
                        } else {
                            r matches Err(e) && is_custom(
                                e,
                                "invalid quantization precision: "@ + decimal_text(d[0] as u64),
                            )
                        },
                    }
                }
            }),
    {
        if chunk.indicator != 0xDB {
            let text = join_text(format_upper_hex(chunk.indicator as u64).as_str(), " is not the quantization table");
            return Err(ImageError::CustomError(text));
        }
        let data = match chunk.get_data() {
            Ok(d) => d,
            Err(e) => return Err(e),
        };
        let precision = data[0];
        let table: [u16; 64] = if precision == 0 {
            if data.len() - 1 <= 64 {
                return Err(
                    ImageError::CustomError(String::from_str("need at least 64 bytes of data")),
                );
            }
            // Entries past the 64th would not fit in the table; `quantization_in_bounds`
            // leaves out the inputs that reach this loop.
            let mut arr = [0u16; 64];
            let mut i: usize = 0;
            while i < data.len() - 1
                invariant
                    data@.len() <= 65,
                    i <= data@.len() - 1,
                decreases data@.len() - 1 - i,
            {
                arr[i] = data[1 + i] as u16;
                i = i + 1;
            }
            arr
        } else if precision == 1 {
            if data.len() - 3 <= 128 {
                return Err(
                    ImageError::CustomError(String::from_str("need at least 128 bytes of data")),
                );
            }
            let mut arr = [0u16; 64];
            let mut i: usize = 0;
            while i < 64
                invariant
                    data@.len() > 131,
                    i <= 64,
                    forall|k: int| 0 <= k < i ==> #[trigger] arr@[k] == be_u16(data@, 1 + 2 * k),
                decreases 64 - i,
            {
                arr[i] = read_be_u16(data.as_slice(), 1 + 2 * i);
                i = i + 1;
            }
            arr
        } else {
            let text = join_text("invalid quantization precision: ", format_decimal(precision as u64).as_str());
            return Err(ImageError::CustomError(text));
        };
        Ok(QuantizationTable {
            length: read_be_u16(data.as_slice(), 0),
            precision_table_id: precision,
            table: table,
        })
    }
}

/// Builds the marker segments of a stream into an image; it yields no pixels yet.
pub fn build_jpeg(chunks: JpegImageChunks) -> (r: Result<Vec<[u16; 4]>, ImageError>)
    ensures
        r matches Ok(px) && px@.len() == 0,
{
    let pixels: Vec<[u16; 4]> = Vec::new();
    let _frame_start1 = find_segment(&chunks, 0xC0);
    let _frame_start2 = find_segment(&chunks, 0xC2);
    Ok(pixels)
}

/// The index of the first segment with marker `indicator`.
fn find_segment(chunks: &JpegImageChunks, indicator: u8) -> (r: Option<usize>)
    ensures
        match r {
            Some(i) => i < chunks.segments().len() && chunks.segments()[i as int].0 == indicator
                && forall|k: int| 0 <= k < i ==> chunks.segments()[k].0 != indicator,
            None => forall|k: int|
                0 <= k < chunks.segments().len() ==> chunks.segments()[k].0 != indicator,
        },
{
    let mut i: usize = 0;
    while i < chunks.image.len()
        invariant
            i <= chunks.image@.len(),
            forall|k: int| 0 <= k < i ==> chunks.segments()[k].0 != indicator,
        decreases chunks.image@.len() - i,
    {
        if chunks.image[i].indicator == indicator {
            return Some(i);
        }
        i = i + 1;
    }
    None
}


/// Reads the entropy-coded data bit by bit, most significant bit first.
#[derive(Debug)]
pub struct BitReader<'a> {
    data: &'a [u8],
    byte_pos: usize,
    bit_pos: u8,
}

/// What reading one bit does: yields the bit and the next position, stops at
/// a marker (with the byte position it reached), or reaches past the data.
pub enum BitStep {
    Bit(u8, usize, u8),
    Marker(usize),
    OutOfBounds,
}

/// The bit at bit position `bit_pos` (0 is the most significant) of byte `byte_pos`.
pub open spec fn bit_of(data: Seq<u8>, byte_pos: int, bit_pos: u8) -> u8 {
    (data[byte_pos] >> ((7 - bit_pos) as u8)) & 1
}

/// One bit read from `data` at position (`byte_pos`, `bit_pos`). With
/// `bit_pos` 8 the reader first moves to the next byte; when that byte is
/// `0xFF`, the byte after it must be `0x00`, which the reader moves onto.
pub open spec fn read_bit_step(data: Seq<u8>, byte_pos: usize, bit_pos: u8) -> BitStep {
    if bit_pos == 8 {
        let p = byte_pos + 1;
        if p >= data.len() {
            BitStep::OutOfBounds
        } else if data[p] == 0xFF {
            if p + 1 >= data.len() {
                BitStep::OutOfBounds
            } else if data[p + 1] != 0x00 {
                BitStep::Marker(p as usize)
            } else {
                BitStep::Bit(bit_of(data, p + 1, 0), (p + 1) as usize, 1)
            }
        } else {
            BitStep::Bit(bit_of(data, p, 0), p as usize, 1)
        }
    } else if byte_pos >= data.len() {
        BitStep::OutOfBounds
    } else {
        BitStep::Bit(bit_of(data, byte_pos as int, bit_pos), byte_pos, (bit_pos + 1) as u8)
    }
}

/// Reading a bit moves the reader forward: it yields 0 or 1 and a position
/// later in the data, with a bit position of 1 to 8; at a marker it stops on
/// the byte after the one it was at.
pub proof fn lemma_read_bit_advances(data: Seq<u8>, byte_pos: usize, bit_pos: u8)
    requires
        bit_pos <= 8,
        data.len() <= usize::MAX,
    ensures
        read_bit_step(data, byte_pos, bit_pos) matches BitStep::Bit(b, p, q) ==> {
            &&& b <= 1
            &&& 1 <= q <= 8
            &&& (p > byte_pos || (p == byte_pos && q > bit_pos))
            &&& p < data.len()
        },
        read_bit_step(data, byte_pos, bit_pos) matches BitStep::Marker(p) ==> p == byte_pos + 1,
{
    if let BitStep::Bit(b, p, q) = read_bit_step(data, byte_pos, bit_pos) {
        let byte = data[p as int];
        let shift: u8 = if bit_pos == 8 {
            7
        } else {
            (7 - bit_pos) as u8
        };
        assert(b == (byte >> shift) & 1);
        assert((byte >> shift) & 1 <= 1) by (bit_vector);
    }
}

impl<'a> BitReader<'a> {
    /// The bytes being read.
    pub closed spec fn data_seq(&self) -> Seq<u8> {
        self.data@
    }

    pub closed spec fn spec_byte_pos(&self) -> usize {
        self.byte_pos
    }

    pub closed spec fn spec_bit_pos(&self) -> u8 {
        self.bit_pos
    }

    #[verifier::when_used_as_spec(spec_byte_pos)]
    pub fn byte_pos(&self) -> (v: usize)
        ensures
            v == self.spec_byte_pos(),
    {
        self.byte_pos
    }

    #[verifier::when_used_as_spec(spec_bit_pos)]
    pub fn bit_pos(&self) -> (v: u8)
        ensures
            v == self.spec_bit_pos(),
    {
        self.bit_pos
    }

    /// The reader's invariant: the bit position is 0 to 8.
    pub open spec fn wf(&self) -> bool {
        self.bit_pos() <= 8
    }

    /// A reader positioned before the first bit of the byte after `data[0]`.
    pub fn new(data: &'a [u8]) -> (r: Self)
        ensures
            r.data_seq() == data@,
            r.byte_pos() == 0,
            r.bit_pos() == 8,
            r.wf(),
    {
        BitReader { data, byte_pos: 0, bit_pos: 8 }
    }

    /// Reads the next bit.
    pub fn read_bit(&mut self) -> (r: Result<u8, ImageError>)
        requires
            old(self).wf(),
            !(read_bit_step(old(self).data_seq(), old(self).byte_pos(), old(self).bit_pos()) is OutOfBounds),
        ensures
            final(self).wf(),
            final(self).data_seq() == old(self).data_seq(),
            match read_bit_step(old(self).data_seq(), old(self).byte_pos(), old(self).bit_pos()) {
                BitStep::Bit(b, p, q) => r == Ok::<u8, ImageError>(b) && final(self).byte_pos() == p
                    && final(self).bit_pos() == q,
                BitStep::Marker(p) => r matches Err(e) && is_custom(e, "unexpected marker"@)
                    && final(self).byte_pos() == p && final(self).bit_pos() == 8,
                BitStep::OutOfBounds => false,
            },
            r matches Ok(b) ==> b <= 1,
    {
        let _len = self.data.len();
        if self.bit_pos == 8 {
            self.byte_pos += 1;
            if self.data[self.byte_pos] == 0xFF {
                if self.data[self.byte_pos + 1] != 0x00 {
                    return Err(ImageError::CustomError(String::from_str("unexpected marker")));
                }
                self.byte_pos += 1;
            }
            self.bit_pos = 0;
        }
        let byte = self.data[self.byte_pos];
        let shift = 7 - self.bit_pos;
        let bit = (byte >> shift) & 1;
        assert((byte >> shift) & 1 <= 1) by (bit_vector);
        self.bit_pos += 1;
        Ok(bit)
    }

    /// Whether reading the next bit stays within the data.
    pub fn next_bit_in_bounds(&self) -> (ok: bool)
        ensures
            ok == !(read_bit_step(self.data_seq(), self.byte_pos(), self.bit_pos()) is OutOfBounds),
    {
        let len = self.data.len();
        if self.bit_pos == 8 {
            if len == 0 || self.byte_pos >= len - 1 {
                return false;
            }
            let p = self.byte_pos + 1;
            if self.data[p] == 0xFF && p + 1 >= len {
                return false;
            }
            true
        } else {
            self.byte_pos < len
        }
    }

    /// Reads the next bit when it lies within the data; `None`, with the
    /// reader unchanged, when it does not.
    pub fn read_bit_checked(&mut self) -> (r: Option<Result<u8, ImageError>>)
        requires
            old(self).wf(),
        ensures
            final(self).wf(),
            final(self).data_seq() == old(self).data_seq(),
            r is None <==> read_bit_step(old(self).data_seq(), old(self).byte_pos(), old(self).bit_pos()) is OutOfBounds,
            r is None ==> final(self).byte_pos() == old(self).byte_pos() && final(self).bit_pos()
                == old(self).bit_pos(),
            r matches Some(res) ==> match read_bit_step(old(self).data_seq(), old(self).byte_pos(), old(self).bit_pos()) {
                BitStep::Bit(b, p, q) => res == Ok::<u8, ImageError>(b) && final(self).byte_pos() == p
                    && final(self).bit_pos() == q,
                BitStep::Marker(p) => res matches Err(e) && is_custom(e, "unexpected marker"@)
                    && final(self).byte_pos() == p && final(self).bit_pos() == 8,
                BitStep::OutOfBounds => false,
            },
    {
        if self.next_bit_in_bounds() {
            Some(self.read_bit())
        } else {
            None
        }
    }
}

/// A Huffman table (DHT segment) in canonical form.
#[derive(Debug)]
pub struct HuffmanTable {
    count: [u8; 16],
    class: u8,
    id: u8,
    min_code: [i32; 16],
    val_offset: [i32; 16],
    symbols: Vec<u8>,
}

/// The first canonical code of length `i + 1` when the code counts are `count`.
pub open spec fn huffman_code(count: Seq<u8>, i: int) -> int
    decreases i,
{
    if i <= 0 {
        0
    } else {
        (huffman_code(count, i - 1) + count[i - 1]) * 2
    }
}

/// The number of symbols with codes shorter than `i + 1` bits.
pub open spec fn huffman_value_index(count: Seq<u8>, i: int) -> int
    decreases i,
{
    if i <= 0 {
        0
    } else {
        huffman_value_index(count, i - 1) + count[i - 1]
    }
}

/// The largest value `huffman_code` can reach after `i` steps.
pub open spec fn huffman_code_cap(i: int) -> int
    decreases i,
{
    if i <= 0 {
        0
    } else {
        (huffman_code_cap(i - 1) + 255) * 2
    }
}

proof fn lemma_huffman_code_cap(i: int)
    requires
        0 <= i <= 16,
    ensures
        0 <= huffman_code_cap(i) <= huffman_code_cap(16),
        huffman_code_cap(16) == 33422850,
    decreases 16 - i,
{
    reveal_with_fuel(huffman_code_cap, 17);
    if i < 16 {
        lemma_huffman_code_cap(i + 1);
    }
}

proof fn lemma_huffman_bounds(count: Seq<u8>, i: int)
    requires
        0 <= i <= 16,
        count.len() == 16,
    ensures
        0 <= huffman_code(count, i) <= huffman_code_cap(i),
        0 <= huffman_value_index(count, i) <= 255 * i,
    decreases i,
{
    if i > 0 {
        lemma_huffman_bounds(count, i - 1);
    }
}

/// The first code of length `i + 1`, or `i32::MAX` when no code has that length.
pub open spec fn canonical_min_code(count: Seq<u8>, i: int) -> int {
    if count[i] > 0 {
        huffman_code(count, i)
    } else {
        i32::MAX as int
    }
}

/// The offset from a code of length `i + 1` to its symbol's index, or 0 when
/// no code has that length.
pub open spec fn canonical_val_offset(count: Seq<u8>, i: int) -> int {
    if count[i] > 0 {
        huffman_value_index(count, i) - huffman_code(count, i)
    } else {
        0
    }
}

/// The first code and value offset of each code length for the code counts `count`.
#[verifier::spinoff_prover]
fn canonical_codes(count: &[u8; 16]) -> (r: ([i32; 16], [i32; 16]))
    ensures
        forall|k: int|
            0 <= k < 16 ==> {
                &&& #[trigger] r.0@[k] == canonical_min_code(count@, k)
                &&& r.1@[k] == canonical_val_offset(count@, k)
                &&& (r.0@[k] == i32::MAX || 0 <= r.0@[k] <= 33422850)
                &&& -33422850 <= r.1@[k] <= 4080
            },
{
    let mut min_code = [i32::MAX; 16];
    let mut val_offset = [0i32; 16];
    let mut code: i32 = 0;
    let mut val_index: i32 = 0;
    let mut i: usize = 0;
    while i < 16
        invariant
            i <= 16,
            code == huffman_code(count@, i as int),
            val_index == huffman_value_index(count@, i as int),
            forall|k: int|
                0 <= k < i ==> {
                    &&& #[trigger] min_code@[k] == canonical_min_code(count@, k)
                    &&& val_offset@[k] == canonical_val_offset(count@, k)
                },
            forall|k: int| i <= k < 16 ==> #[trigger] min_code@[k] == i32::MAX && val_offset@[k] == 0,
        decreases 16 - i,
    {
        proof {
            lemma_huffman_bounds(count@, i as int);
            lemma_huffman_bounds(count@, i + 1);
            lemma_huffman_code_cap(i as int);
            lemma_huffman_code_cap(i + 1);
        }
        let ghost old_min = min_code@;
        let ghost old_off = val_offset@;
        if count[i] > 0 {
            min_code[i] = code;
            val_offset[i] = val_index - code;
        }
        assert(min_code@ == (if count@[i as int] > 0 {
            old_min.update(i as int, canonical_min_code(count@, i as int) as i32)
        } else {
            old_min
        }));
        assert(val_offset@ == (if count@[i as int] > 0 {
            old_off.update(i as int, canonical_val_offset(count@, i as int) as i32)
        } else {
            old_off
        }));
        val_index += count[i] as i32;
        let sum = code + count[i] as i32;
        assert(sum << 1 == sum * 2) by (bit_vector)
            requires
                0 <= sum <= 33422850,
        ;
        code = sum << 1;
        i = i + 1;
        assert forall|k: int| 0 <= k < i implies {
            &&& #[trigger] min_code@[k] == canonical_min_code(count@, k)
            &&& val_offset@[k] == canonical_val_offset(count@, k)
        } by {
            if k < i - 1 {
                assert(min_code@[k] == old_min[k]);
                assert(val_offset@[k] == old_off[k]);
            } else {
                if count@[k] > 0 {
                    assert(min_code@[k] == canonical_min_code(count@, k) as i32);
                    assert(val_offset@[k] == canonical_val_offset(count@, k) as i32);
                } else {
                    assert(min_code@[k] == old_min[k]);
                    assert(val_offset@[k] == old_off[k]);
                }
            }
        }
        assert forall|k: int| i <= k < 16 implies #[trigger] min_code@[k] == i32::MAX
            && val_offset@[k] == 0 by {
            assert(min_code@[k] == old_min[k]);
            assert(val_offset@[k] == old_off[k]);
        }
    }
    assert forall|k: int| 0 <= k < 16 implies {
        &&& #[trigger] min_code@[k] == canonical_min_code(count@, k)
        &&& val_offset@[k] == canonical_val_offset(count@, k)
        &&& (min_code@[k] == i32::MAX || 0 <= min_code@[k] <= 33422850)
        &&& -33422850 <= val_offset@[k] <= 4080
    } by {
        lemma_huffman_bounds(count@, k);
        lemma_huffman_code_cap(k);
    }
    (min_code, val_offset)
}

impl HuffmanTable {
    pub closed spec fn spec_count(&self) -> [u8; 16] {
        self.count
    }

    pub closed spec fn spec_class(&self) -> u8 {
        self.class
    }

    pub closed spec fn spec_id(&self) -> u8 {
        self.id
    }

    pub closed spec fn spec_min_code(&self) -> [i32; 16] {
        self.min_code
    }

    pub closed spec fn spec_val_offset(&self) -> [i32; 16] {
        self.val_offset
    }

    /// The symbols, in code order.
    pub closed spec fn symbol_seq(&self) -> Seq<u8> {
        self.symbols@
    }

    #[verifier::when_used_as_spec(spec_count)]
    pub fn count(&self) -> (v: [u8; 16])
        ensures
            v == self.spec_count(),
    {
        self.count
    }

    #[verifier::when_used_as_spec(spec_class)]
    pub fn class(&self) -> (v: u8)
        ensures
            v == self.spec_class(),
    {
        self.class
    }

    #[verifier::when_used_as_spec(spec_id)]
    pub fn id(&self) -> (v: u8)
        ensures
            v == self.spec_id(),
    {
        self.id
    }

    #[verifier::when_used_as_spec(spec_min_code)]
    pub fn min_code(&self) -> (v: [i32; 16])
        ensures
            v == self.spec_min_code(),
    {
        self.min_code
    }

    #[verifier::when_used_as_spec(spec_val_offset)]
    pub fn val_offset(&self) -> (v: [i32; 16])
        ensures
            v == self.spec_val_offset(),
    {
        self.val_offset
    }

    pub fn symbols(&self) -> (v: &[u8])
        ensures
            v@ == self.symbol_seq(),
    {
        self.symbols.as_slice()
    }

    /// The table's invariant: each length either has no codes (`i32::MAX`) or
    /// a first code and value offset within the bounds that 16 counts of at
    /// most 255 allow.
    pub open spec fn wf(&self) -> bool {
        forall|i: int|
            0 <= i < 16 ==> {
                &&& (#[trigger] self.min_code()@[i] == i32::MAX || 0 <= self.min_code()@[i]
                    <= 33422850)
                &&& -33422850 <= self.val_offset()@[i] <= 4080
            }
    }

    /// Whether the first codes and value offsets are the canonical ones of the
    /// code counts.
    pub open spec fn is_canonical(&self) -> bool {
        forall|i: int|
            0 <= i < 16 ==> {
                &&& #[trigger] self.min_code()@[i] == canonical_min_code(self.count()@, i)
                &&& self.val_offset()@[i] == canonical_val_offset(self.count()@, i)
            }
    }

    /// Whether this table is the one that the DHT data `d` describes.
    pub open spec fn decodes(&self, d: Seq<u8>) -> bool {
        &&& self.class() == d[0] >> 4
        &&& self.id() == d[0] & 0x0F
        &&& self.symbol_seq() == d.skip(16)
        &&& self.count()@ == d.subrange(1, 16).push(0)
        &&& self.is_canonical()
    }

    /// Reads a Huffman table from its segment: a class and id byte, the code
    /// counts of lengths 1 to 15 (the count of length 16 stays 0), then the symbols.
    pub fn new(chunk: JpegChunk) -> (r: Result<HuffmanTable, ImageError>)
        requires
            chunk.model().0 == 0xC4 && chunk.model().2 is Some ==> chunk.model().2->0.len() >= 16,
        ensures
            ({
                let m = chunk.model();
                if m.0 != 0xC4 {
                    r matches Err(e) && is_custom(
                        e,
                        upper_hex_text(m.0 as u64) + " is not the huffman table"@,
                    )
                } else {
                    match m.2 {
                        None => r matches Err(e) && is_custom(
                            e,
                            upper_hex_text(m.0 as u64) + " held no data"@,
                        ),
                        Some(d) => r matches Ok(t) && t.wf() && t.decodes(d),
                    }
                }
            }),
    {
        if chunk.indicator != 0xC4 {
            let text = join_text(format_upper_hex(chunk.indicator as u64).as_str(), " is not the huffman table");
            return Err(ImageError::CustomError(text));
        }
        let _length = chunk.length;
        let data = match chunk.get_data() {
            Ok(d) => d,
            Err(e) => return Err(e),
        };
        let class_and_id = data[0];
        let class = class_and_id >> 4;
        let id = class_and_id & 0x0F;
        let mut count = [0u8; 16];
        let mut i: usize = 0;
        while i < 15
            invariant
                data@.len() >= 16,
                i <= 15,
                forall|k: int| 0 <= k < i ==> #[trigger] count@[k] == data@[1 + k],
                count@[15] == 0,
            decreases 15 - i,
        {
            count[i] = data[1 + i];
            i = i + 1;
        }
        assert(count@ =~= data@.subrange(1, 16).push(0));
        let values: Vec<u8> = vstd::slice::slice_to_vec(
            vstd::slice::slice_subrange(data.as_slice(), 16, data.len()),
        );
        assert(values@ =~= data@.skip(16));
        let (min_code, val_offset) = canonical_codes(&count);
        Ok(
            HuffmanTable {
                count: count,
                class: class,
                id: id,
                min_code: min_code,
                val_offset: val_offset,
                symbols: values,
            },
        )
    }
}


/// A table read from DHT data `d` holds what the data gives: the class is the
/// high nibble of `d[0]` and the id its low nibble, the code counts of lengths
/// 1 to 15 are the bytes `d[1]` to `d[15]` (no code has length 16), and the
/// symbols are the bytes from `d[16]` on, in order.
pub proof fn lemma_table_from_data(t: HuffmanTable, d: Seq<u8>)
    requires
        d.len() >= 16,
        t.decodes(d),
    ensures
        t.class() == d[0] / 16,
        t.id() == d[0] % 16,
        forall|i: int| 0 <= i < 15 ==> #[trigger] t.count()@[i] == d[1 + i],
        t.count()@[15] == 0,
        t.symbol_seq().len() == d.len() - 16,
        forall|k: int| 0 <= k < d.len() - 16 ==> #[trigger] t.symbol_seq()[k] == d[16 + k],
{
    let x = d[0];
    assert(x >> 4 == x / 16) by (bit_vector);
    assert(x & 0x0F == x % 16) by (bit_vector);
    assert forall|i: int| 0 <= i < 15 implies #[trigger] t.count()@[i] == d[1 + i] by {
        assert(d.subrange(1, 16).push(0)[i] == d.subrange(1, 16)[i]);
    }
    assert(t.count()@ == d.subrange(1, 16).push(0));
    assert(t.count()@[15] == d.subrange(1, 16).push(0)[15]);
}

/// Where decoding one Huffman symbol ends: with the symbol and the reader
/// position after it, at a marker, after 16 bits without a code, or past the data.
pub enum DecodeOutcome {
    Symbol(u8, usize, u8),
    Marker(usize),
    InvalidCode(usize, u8),
    OutOfBounds,
}

/// Decoding with table `t` from code length `i + 1` on, `code` holding the bits
/// read so far: each bit extends the code, which names a symbol once it lies
/// among the codes of its length.
pub open spec fn decode_from(
    t: HuffmanTable,
    data: Seq<u8>,
    byte_pos: usize,
    bit_pos: u8,
    i: int,
    code: int,
) -> DecodeOutcome
    decreases 16 - i,
{
    if i < 0 || i >= 16 {
        DecodeOutcome::InvalidCode(byte_pos, bit_pos)
    } else {
        match read_bit_step(data, byte_pos, bit_pos) {
            BitStep::OutOfBounds => DecodeOutcome::OutOfBounds,
            BitStep::Marker(p) => DecodeOutcome::Marker(p),
            BitStep::Bit(b, p, q) => {
                let c = 2 * code + b;
                let first = t.min_code()@[i];
                if first == i32::MAX {
                    decode_from(t, data, p, q, i + 1, c)
                } else if first <= c < first + t.count()@[i] {
                    let index = t.val_offset()@[i] + c;
                    if index < 0 || index >= t.symbol_seq().len() {
                        DecodeOutcome::OutOfBounds
                    } else {
                        DecodeOutcome::Symbol(t.symbol_seq()[index], p, q)
                    }
                } else {
                    decode_from(t, data, p, q, i + 1, c)
                }
            },
        }
    }
}

impl HuffmanTable {
    /// Decodes the next symbol from `bits`.
    pub fn decode_symbol(&self, bits: &mut BitReader) -> (r: Result<u8, ImageError>)
        requires
            self.wf(),
            old(bits).wf(),
            !(decode_from(
                *self,
                old(bits).data_seq(),
                old(bits).byte_pos(),
                old(bits).bit_pos(),
                0,
                0,
            ) is OutOfBounds),
        ensures
            final(bits).wf(),
            final(bits).data_seq() == old(bits).data_seq(),
            match decode_from(*self, old(bits).data_seq(), old(bits).byte_pos(), old(bits).bit_pos(), 0, 0) {
                DecodeOutcome::Symbol(s, p, q) => r == Ok::<u8, ImageError>(s)
                    && final(bits).byte_pos() == p && final(bits).bit_pos() == q,
                DecodeOutcome::Marker(p) => r matches Err(e) && is_custom(e, "unexpected marker"@)
                    && final(bits).byte_pos() == p && final(bits).bit_pos() == 8,
                DecodeOutcome::InvalidCode(p, q) => r matches Err(e) && is_custom(
                    e,
                    "invalid huffman code"@,
                ) && final(bits).byte_pos() == p && final(bits).bit_pos() == q,
                DecodeOutcome::OutOfBounds => false,
            },
    {
        let ghost outcome = decode_from(
            *self,
            bits.data_seq(),
            bits.byte_pos(),
            bits.bit_pos(),
            0,
            0,
        );
        let ghost data = bits.data_seq();
        proof {
            vstd::arithmetic::power2::lemma2_to64();
        }
        let mut code: i32 = 0;
        let mut i: usize = 0;
        while i < 16
            invariant
                self.wf(),
                bits.wf(),
                bits.data_seq() == data,
                data == old(bits).data_seq(),
                outcome == decode_from(
                    *self,
                    old(bits).data_seq(),
                    old(bits).byte_pos(),
                    old(bits).bit_pos(),
                    0,
                    0,
                ),
                i <= 16,
                0 <= code < vstd::arithmetic::power2::pow2(i as nat),
                vstd::arithmetic::power2::pow2(16) == 65536,
                !(outcome is OutOfBounds),
                outcome == decode_from(*self, data, bits.byte_pos(), bits.bit_pos(), i as int, code as int),
            decreases 16 - i,
        {
            proof {
                vstd::arithmetic::power2::lemma_pow2_unfold((i + 1) as nat);
                if i + 1 < 16 {
                    vstd::arithmetic::power2::lemma_pow2_strictly_increases((i + 1) as nat, 16);
                }
            }
            let bit = match bits.read_bit() {
                Ok(b) => b,
                Err(e) => return Err(e),
            };
            let shifted = (code << 1) | bit as i32;
            assert(shifted == code * 2 + bit) by (bit_vector)
                requires
                    0 <= code < 32768,
                    bit <= 1,
                    shifted == (code << 1) | bit as i32,
            ;
            code = shifted;
            if self.min_code[i] == i32::MAX {
                i += 1;
                continue;
            }
            if code >= self.min_code[i] && code < self.min_code[i] + self.count[i] as i32 {
                let index = (self.val_offset[i] + code) as usize;
                return Ok(self.symbols[index]);
            }
            i += 1;
        }
        Err(ImageError::CustomError(String::from_str("invalid huffman code")))
    }
}


impl HuffmanTable {
    /// Whether decoding the next symbol from `probe` stays within the data and
    /// the symbols; `probe` is moved along as decoding goes.
    fn decode_in_bounds(&self, probe: &mut BitReader) -> (ok: bool)
        requires
            self.wf(),
            old(probe).wf(),
        ensures
            ok == !(decode_from(
                *self,
                old(probe).data_seq(),
                old(probe).byte_pos(),
                old(probe).bit_pos(),
                0,
                0,
            ) is OutOfBounds),
    {
        let ghost outcome = decode_from(
            *self,
            probe.data_seq(),
            probe.byte_pos(),
            probe.bit_pos(),
            0,
            0,
        );
        let ghost data = probe.data_seq();
        proof {
            vstd::arithmetic::power2::lemma2_to64();
        }
        let mut code: i32 = 0;
        let mut i: usize = 0;
        while i < 16
            invariant
                self.wf(),
                probe.wf(),
                probe.data_seq() == data,
                data == old(probe).data_seq(),
                outcome == decode_from(
                    *self,
                    old(probe).data_seq(),
                    old(probe).byte_pos(),
                    old(probe).bit_pos(),
                    0,
                    0,
                ),
                i <= 16,
                0 <= code < pow2(i as nat),
                pow2(16) == 65536,
                outcome == decode_from(*self, data, probe.byte_pos(), probe.bit_pos(), i as int, code as int),
            decreases 16 - i,
        {
            proof {
                lemma_pow2_unfold((i + 1) as nat);
                if i + 1 < 16 {
                    vstd::arithmetic::power2::lemma_pow2_strictly_increases((i + 1) as nat, 16);
                }
            }
            if !probe.next_bit_in_bounds() {
                return false;
            }
            let bit = match probe.read_bit() {
                Ok(b) => b,
                Err(_) => return true,
            };
            let shifted = (code << 1) | bit as i32;
            assert(shifted == code * 2 + bit) by (bit_vector)
                requires
                    0 <= code < 32768,
                    bit <= 1,
                    shifted == (code << 1) | bit as i32,
            ;
            code = shifted;
            if self.min_code[i] == i32::MAX {
                i += 1;
                continue;
            }
            if code >= self.min_code[i] && code < self.min_code[i] + self.count[i] as i32 {
                let index = self.val_offset[i] + code;
                return index >= 0 && (index as usize) < self.symbols.len();
            }
            i += 1;
        }
        true
    }

    /// Decodes the next symbol from `bits` when decoding stays within the data
    /// and the symbols; `None`, with the reader unchanged, when it does not.
    pub fn decode_symbol_checked(&self, bits: &mut BitReader) -> (r: Option<Result<u8, ImageError>>)
        requires
            self.wf(),
            old(bits).wf(),
        ensures
            final(bits).wf(),
            final(bits).data_seq() == old(bits).data_seq(),
            r is None <==> decode_from(*self, old(bits).data_seq(), old(bits).byte_pos(), old(bits).bit_pos(), 0, 0) is OutOfBounds,
            r is None ==> final(bits).byte_pos() == old(bits).byte_pos() && final(bits).bit_pos()
                == old(bits).bit_pos(),
            r matches Some(res) ==> match decode_from(*self, old(bits).data_seq(), old(bits).byte_pos(), old(bits).bit_pos(), 0, 0) {
                DecodeOutcome::Symbol(s, p, q) => res == Ok::<u8, ImageError>(s)
                    && final(bits).byte_pos() == p && final(bits).bit_pos() == q,
                DecodeOutcome::Marker(p) => res matches Err(e) && is_custom(e, "unexpected marker"@)
                    && final(bits).byte_pos() == p && final(bits).bit_pos() == 8,
                DecodeOutcome::InvalidCode(p, q) => res matches Err(e) && is_custom(
                    e,
                    "invalid huffman code"@,
                ) && final(bits).byte_pos() == p && final(bits).bit_pos() == q,
                DecodeOutcome::OutOfBounds => false,
            },
    {
        let mut probe = BitReader { data: bits.data, byte_pos: bits.byte_pos, bit_pos: bits.bit_pos };
        if self.decode_in_bounds(&mut probe) {
            Some(self.decode_symbol(bits))
        } else {
            None
        }
    }
}

/// The next `n` bits that a reader at (`byte_pos`, `bit_pos`) yields, first bit
/// first, with the position after them; `None` when a marker or the end of the
/// data comes first.
pub open spec fn bits_read(data: Seq<u8>, byte_pos: usize, bit_pos: u8, n: nat) -> Option<
    (Seq<u8>, usize, u8),
>
    decreases n,
{
    if n == 0 {
        Some((Seq::empty(), byte_pos, bit_pos))
    } else {
        match read_bit_step(data, byte_pos, bit_pos) {
            BitStep::Bit(b, p, q) => match bits_read(data, p, q, (n - 1) as nat) {
                Some((rest, p2, q2)) => Some((seq![b] + rest, p2, q2)),
                None => None,
            },
            _ => None,
        }
    }
}

/// The number that the bits `bs` spell, most significant bit first.
pub open spec fn bits_value(bs: Seq<u8>) -> int
    decreases bs.len(),
{
    if bs.len() == 0 {
        0
    } else {
        bs[0] * pow2((bs.len() - 1) as nat) + bits_value(bs.drop_first())
    }
}

proof fn lemma_bit_of_is_binary(data: Seq<u8>, byte_pos: int, bit_pos: u8)
    ensures
        bit_of(data, byte_pos, bit_pos) <= 1,
{
    let x = data[byte_pos];
    let s = (7 - bit_pos) as u8;
    assert((x >> s) & 1 <= 1) by (bit_vector);
}

/// `n` bits read from a reader spell a number below `2^n`.
proof fn lemma_bits_read_value(data: Seq<u8>, byte_pos: usize, bit_pos: u8, n: nat)
    requires
        bits_read(data, byte_pos, bit_pos, n) is Some,
    ensures
        ({
            let bs = bits_read(data, byte_pos, bit_pos, n).unwrap().0;
            bs.len() == n && 0 <= bits_value(bs) < pow2(n)
        }),
    decreases n,
{
    lemma_pow2_pos(n);
    if n > 0 {
        if let BitStep::Bit(b, p, q) = read_bit_step(data, byte_pos, bit_pos) {
            lemma_bits_read_value(data, p, q, (n - 1) as nat);
            let rest = bits_read(data, p, q, (n - 1) as nat).unwrap().0;
            let bs = bits_read(data, byte_pos, bit_pos, n).unwrap().0;
            assert(bs == seq![b] + rest);
            assert(bs.drop_first() =~= rest);
            assert(b <= 1) by {
                if bit_pos == 8 {
                    let p0 = byte_pos + 1;
                    if data[p0] == 0xFF {
                        lemma_bit_of_is_binary(data, p0 + 1, 0);
                    } else {
                        lemma_bit_of_is_binary(data, p0, 0);
                    }
                } else {
                    lemma_bit_of_is_binary(data, byte_pos as int, bit_pos);
                }
            }
            lemma_pow2_unfold(n);
            let half = pow2((n - 1) as nat);
            let v = bits_value(rest);
            assert(0 <= b * half + v < 2 * half) by (nonlinear_arith)
                requires
                    b <= 1,
                    0 <= v < half,
            ;
        }
    }
}

/// The bits of one byte after a byte boundary: reading on from bit position
/// `q` of byte `p` (not past its end) yields the low `8 - q` bits of the byte,
/// most significant first, and stops at the end of that byte.
proof fn lemma_read_rest_of_byte(data: Seq<u8>, p: usize, q: u8)
    requires
        1 <= q <= 8,
        p < data.len(),
    ensures
        bits_read(data, p, q, (8 - q) as nat) matches Some((bits, p2, q2)) && p2 == p && q2 == 8
            && bits_value(bits) == (data[p as int] as int) % (pow2((8 - q) as nat) as int),
    decreases 8 - q,
{
    vstd::arithmetic::power2::lemma2_to64();
    let x = data[p as int];
    if q == 8 {
        assert(bits_value(Seq::<u8>::empty()) == 0);
    } else {
        lemma_read_rest_of_byte(data, p, (q + 1) as u8);
        let b = bit_of(data, p as int, q);
        lemma_bits_read_value(data, p, (q + 1) as u8, (7 - q) as nat);
        let tail = bits_read(data, p, (q + 1) as u8, (7 - q) as nat).unwrap().0;
        let bits = seq![b] + tail;
        assert(bits_read(data, p, q, (8 - q) as nat).unwrap().0 == bits);
        assert(bits.drop_first() =~= tail);
        assert(bits_value(bits) == b * pow2((7 - q) as nat) + bits_value(tail));
        let s = (7 - q) as u8;
        if q == 1 {
            assert((((x >> 6u8) & 1) * 64 + x % 64) as int == x % 128) by (bit_vector);
        } else if q == 2 {
            assert((((x >> 5u8) & 1) * 32 + x % 32) as int == x % 64) by (bit_vector);
        } else if q == 3 {
            assert((((x >> 4u8) & 1) * 16 + x % 16) as int == x % 32) by (bit_vector);
        } else if q == 4 {
            assert((((x >> 3u8) & 1) * 8 + x % 8) as int == x % 16) by (bit_vector);
        } else if q == 5 {
            assert((((x >> 2u8) & 1) * 4 + x % 4) as int == x % 8) by (bit_vector);
        } else if q == 6 {
            assert((((x >> 1u8) & 1) * 2 + x % 2) as int == x % 4) by (bit_vector);
        } else {
            assert((((x >> 0u8) & 1) * 1 + x % 1) as int == x % 2) by (bit_vector);
        }
    }
}

/// A reader at a byte boundary reads the next byte, when it is not `0xFF`, as
/// eight bits that spell it, most significant first, and stops at the end of
/// that byte.
pub proof fn lemma_read_whole_byte(data: Seq<u8>, byte_pos: usize)
    requires
        byte_pos + 1 < data.len(),
        data.len() <= usize::MAX,
        data[byte_pos + 1] != 0xFF,
    ensures
        bits_read(data, byte_pos, 8, 8) matches Some((bits, p, q)) && p == byte_pos + 1 && q == 8
            && bits_value(bits) == data[byte_pos + 1],
{
    vstd::arithmetic::power2::lemma2_to64();
    let p = (byte_pos + 1) as usize;
    let x = data[p as int];
    lemma_read_rest_of_byte(data, p, 1);
    let b = bit_of(data, p as int, 0);
    lemma_bits_read_value(data, p, 1, 7);
    let tail = bits_read(data, p, 1, 7).unwrap().0;
    let bits = seq![b] + tail;
    assert(bits_read(data, byte_pos, 8, 8).unwrap().0 == bits);
    assert(bits.drop_first() =~= tail);
    assert(bits_value(bits) == b * pow2(7) + bits_value(tail));
    assert((((x >> 7u8) & 1) * 128 + x % 128) as int == x) by (bit_vector);
}

/// A stuffed `0xFF`: at a byte boundary, when the next byte is `0xFF` and the
/// one after it `0x00`, the reader moves past the `0xFF` onto the `0x00` byte,
/// yields its eight bits (all zero) and stops at the end of it.
pub proof fn lemma_read_stuffed_byte(data: Seq<u8>, byte_pos: usize)
    requires
        byte_pos + 2 < data.len(),
        data.len() <= usize::MAX,
        data[byte_pos + 1] == 0xFF,
        data[byte_pos + 2] == 0x00,
    ensures
        bits_read(data, byte_pos, 8, 8) matches Some((bits, p, q)) && p == byte_pos + 2 && q == 8
            && bits_value(bits) == 0,
{
    vstd::arithmetic::power2::lemma2_to64();
    let p = (byte_pos + 2) as usize;
    let x = data[p as int];
    lemma_read_rest_of_byte(data, p, 1);
    let b = bit_of(data, p as int, 0);
    lemma_bits_read_value(data, p, 1, 7);
    let tail = bits_read(data, p, 1, 7).unwrap().0;
    let bits = seq![b] + tail;
    assert(bits_read(data, byte_pos, 8, 8).unwrap().0 == bits);
    assert(bits.drop_first() =~= tail);
    assert(bits_value(bits) == b * pow2(7) + bits_value(tail));
    assert((((x >> 7u8) & 1) * 128 + x % 128) as int == x) by (bit_vector);
    assert(x == 0);
}

/// At a byte boundary, a `0xFF` followed by a byte other than `0x00` is a
/// marker: reading stops there, on the `0xFF` byte, and yields no bit.
pub proof fn lemma_read_stops_at_marker(data: Seq<u8>, byte_pos: usize)
    requires
        byte_pos + 2 < data.len(),
        data.len() <= usize::MAX,
        data[byte_pos + 1] == 0xFF,
        data[byte_pos + 2] != 0x00,
    ensures
        read_bit_step(data, byte_pos, 8) == BitStep::Marker((byte_pos + 1) as usize),
        bits_read(data, byte_pos, 8, 1) is None,
{
}

/// Each first code is at least the codes before it, doubled once per
/// length: the first code of length `j + 1` is at least the code after the
/// last one of length `i + 1`, shifted left by `j - i` bits.
proof fn lemma_huffman_code_grows(count: Seq<u8>, i: int, j: int)
    requires
        0 <= i < j <= 16,
        count.len() == 16,
    ensures
        huffman_code(count, j) >= (huffman_code(count, i) + count[i]) * pow2((j - i) as nat),
    decreases j - i,
{
    lemma_pow2_unfold((j - i) as nat);
    if j == i + 1 {
        assert(pow2(0) == 1) by {
            vstd::arithmetic::power2::lemma2_to64();
        }
    } else {
        lemma_huffman_code_grows(count, i, j - 1);
        lemma_huffman_bounds(count, j - 1);
        let base = huffman_code(count, i) + count[i];
        let below = huffman_code(count, j - 1);
        let half = pow2((j - 1 - i) as nat);
        assert(huffman_code(count, j) == (below + count[j - 1]) * 2);
        assert((below + count[j - 1]) * 2 >= base * (2 * half)) by (nonlinear_arith)
            requires
                below >= base * half,
                count[j - 1] >= 0,
        ;
    }
}

/// The canonical code is prefix free: no code of length `i + 1` is the first
/// `i + 1` bits of a code of a greater length `j + 1`. The codes of a length
/// are `huffman_code(count, i)` and the `count[i] - 1` numbers after it, and
/// the first code of the shortest used length is 0.
pub proof fn lemma_canonical_code_prefix_free(count: Seq<u8>, i: int, j: int, x: int, y: int)
    requires
        count.len() == 16,
        0 <= i < j < 16,
        huffman_code(count, i) <= x < huffman_code(count, i) + count[i],
        huffman_code(count, j) <= y < huffman_code(count, j) + count[j],
    ensures
        y / (pow2((j - i) as nat) as int) != x,
{
    lemma_huffman_code_grows(count, i, j);
    let p = pow2((j - i) as nat) as int;
    lemma_pow2_pos((j - i) as nat);
    let next = huffman_code(count, i) + count[i];
    assert(next * p == p * next) by (nonlinear_arith);
    vstd::arithmetic::div_mod::lemma_div_is_ordered(p * next, y, p);
    vstd::arithmetic::div_mod::lemma_div_multiples_vanish(next, p);
    assert(y / p >= next);
}

/// Symbols are numbered in code order: those of the shortest length come
/// first, and the symbols of length `i + 2` start right after the
/// `count[i]` symbols of length `i + 1`.
pub proof fn lemma_symbols_in_code_order(count: Seq<u8>, i: int)
    requires
        count.len() == 16,
        0 <= i < 16,
    ensures
        huffman_value_index(count, 0) == 0,
        huffman_value_index(count, i + 1) == huffman_value_index(count, i) + count[i],
{
}

/// Before the first length that has codes, every first code is 0, so the
/// shortest code is all zeros.
pub proof fn lemma_first_code_is_zero(count: Seq<u8>, i: int)
    requires
        count.len() == 16,
        0 <= i < 16,
        forall|j: int| 0 <= j < i ==> #[trigger] count[j] == 0,
    ensures
        huffman_code(count, i) == 0,
    decreases i,
{
    if i > 0 {
        lemma_first_code_is_zero(count, i - 1);
    }
}

/// Decoding from code length `i + 1` on, when the bits consumed so far
/// (`code`) followed by the next `l + 1 - i` bits spell the canonical code of
/// symbol `k`, of length `l + 1`.
proof fn lemma_decode_canonical_from(
    t: HuffmanTable,
    data: Seq<u8>,
    byte_pos: usize,
    bit_pos: u8,
    l: int,
    k: int,
    i: int,
    code: int,
    rest: Seq<u8>,
    end_byte: usize,
    end_bit: u8,
)
    requires
        t.is_canonical(),
        0 <= i <= l < 16,
        huffman_value_index(t.count()@, l) <= k < huffman_value_index(t.count()@, l)
            + t.count()@[l],
        k < t.symbol_seq().len(),
        bits_read(data, byte_pos, bit_pos, (l + 1 - i) as nat) == Some((rest, end_byte, end_bit)),
        code * pow2((l + 1 - i) as nat) + bits_value(rest) == huffman_code(t.count()@, l) + (k
            - huffman_value_index(t.count()@, l)),
    ensures
        decode_from(t, data, byte_pos, bit_pos, i, code) == DecodeOutcome::Symbol(
            t.symbol_seq()[k],
            end_byte,
            end_bit,
        ),
    decreases l - i,
{
    let count = t.count()@;
    let n = (l + 1 - i) as nat;
    let target = huffman_code(count, l) + (k - huffman_value_index(count, l));
    if let BitStep::Bit(b, p, q) = read_bit_step(data, byte_pos, bit_pos) {
        let tail = bits_read(data, p, q, (n - 1) as nat).unwrap().0;
        assert(rest == seq![b] + tail);
        assert(rest.drop_first() =~= tail);
        lemma_bits_read_value(data, p, q, (n - 1) as nat);
        lemma_pow2_unfold(n);
        let half = pow2((n - 1) as nat);
        let c = 2 * code + b;
        let v = bits_value(tail);
        assert(c * half + v == target) by (nonlinear_arith)
            requires
                code * (2 * half) + (b * half + v) == target,
                c == 2 * code + b,
        ;
        lemma_huffman_bounds(count, i);
        lemma_huffman_bounds(count, l);
        lemma_huffman_code_cap(i);
        lemma_huffman_code_cap(l);
        assert(t.min_code()@[i] == canonical_min_code(count, i));
        assert(t.val_offset()@[i] == canonical_val_offset(count, i));
        if i == l {
            assert(half == 1) by {
                vstd::arithmetic::power2::lemma2_to64();
            }
            assert(v == 0);
            assert(c * half == c) by (nonlinear_arith)
                requires
                    half == 1,
            ;
            assert(c == target);
        } else {
            lemma_huffman_code_grows(count, i, l);
            let base = huffman_code(count, i) + count[i];
            assert(c >= base) by (nonlinear_arith)
                requires
                    c * half + v == target,
                    target >= base * half,
                    0 <= v < half,
                    half > 0,
            ;
            lemma_decode_canonical_from(t, data, p, q, l, k, i + 1, c, tail, end_byte, end_bit);
        }
    }
}

/// Decoding inverts the canonical Huffman code: when the next `l + 1` bits that
/// the reader yields spell the canonical code of symbol `k` (the code of length
/// `l + 1` that lies `k - huffman_value_index(count, l)` past the first code of
/// that length), decoding yields symbol `k` and leaves the reader just after
/// those bits.
pub proof fn lemma_decode_inverts_canonical_code(
    t: HuffmanTable,
    data: Seq<u8>,
    byte_pos: usize,
    bit_pos: u8,
    l: int,
    k: int,
    bits: Seq<u8>,
    end_byte: usize,
    end_bit: u8,
)
    requires
        t.is_canonical(),
        0 <= l < 16,
        huffman_value_index(t.count()@, l) <= k < huffman_value_index(t.count()@, l)
            + t.count()@[l],
        k < t.symbol_seq().len(),
        bits_read(data, byte_pos, bit_pos, (l + 1) as nat) == Some((bits, end_byte, end_bit)),
        bits_value(bits) == huffman_code(t.count()@, l) + (k - huffman_value_index(
            t.count()@,
            l,
        )),
    ensures
        decode_from(t, data, byte_pos, bit_pos, 0, 0) == DecodeOutcome::Symbol(
            t.symbol_seq()[k],
            end_byte,
            end_bit,
        ),
{
    lemma_decode_canonical_from(t, data, byte_pos, bit_pos, l, k, 0, 0, bits, end_byte, end_bit);
}

} // verus!
