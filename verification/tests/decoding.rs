use imgdecode::bmp::{bmp_is_decodable, BitMapImageHeader, BmpImage, Rgb};
use imgdecode::detect::{classify_mime_type, detect_format, DetectedFormat};
use imgdecode::error::ImageError;
use imgdecode::image_types::ImageTypes;
use imgdecode::jpeg::{
    build_jpeg, jpeg_is_decodable, BitReader, Component, HuffmanTable, JpegChunk, JpegHeader, JpegImageChunks,
    QuantizationTable,
};
use imgdecode::pixels::Pixels;
use imgdecode::png::{crc_outcome, png_is_decodable, PngImageChunks, IDAT, IHDR, PLTE};
use imgdecode::text::join_text;

fn custom_text(e: ImageError) -> String {
    match e {
        ImageError::CustomError(s) => s,
        other => panic!("expected a custom error, got {:?}", other),
    }
}

fn bmp_header_bytes(bpp: u16, compression: u32, colors: u32) -> Vec<u8> {
    let mut b = Vec::new();
    b.extend_from_slice(&40u32.to_le_bytes());
    b.extend_from_slice(&2i32.to_le_bytes());
    b.extend_from_slice(&(-1i32).to_le_bytes());
    b.extend_from_slice(&1u16.to_le_bytes());
    b.extend_from_slice(&bpp.to_le_bytes());
    b.extend_from_slice(&compression.to_le_bytes());
    b.extend_from_slice(&0u32.to_le_bytes());
    b.extend_from_slice(&2835u32.to_le_bytes());
    b.extend_from_slice(&2836u32.to_le_bytes());
    b.extend_from_slice(&colors.to_le_bytes());
    b.extend_from_slice(&7u32.to_le_bytes());
    b
}

#[test]
fn bmp_header_fields_are_little_endian() {
    let bytes = bmp_header_bytes(24, 0, 0);
    let h = BitMapImageHeader::new(&bytes).unwrap();
    assert_eq!(h.size(), 40);
    assert_eq!(h.width(), 2);
    assert_eq!(h.height(), -1);
    assert_eq!(h.number_of_color_planes(), 1);
    assert_eq!(h.bits_per_pixel(), 24);
    assert_eq!(h.compression_method_raw(), 0);
    assert_eq!(h.image_size(), 0);
    assert_eq!(h.horizontal_resolution(), 2835);
    assert_eq!(h.vertical_resolution(), 2836);
    assert_eq!(h.color_count(), 0);
    assert_eq!(h.important_color_count(), 7);
}

#[test]
fn bmp_header_reads_only_the_first_forty_bytes() {
    let mut bytes = bmp_header_bytes(8, 1, 2);
    bytes.extend_from_slice(&[0xFF; 10]);
    let h = BitMapImageHeader::new(&bytes).unwrap();
    assert_eq!(h.bits_per_pixel(), 8);
    assert_eq!(h.compression_method_raw(), 1);
    assert_eq!(h.color_count(), 2);
    assert_eq!(h.important_color_count(), 7);
}

#[test]
fn bmp_unencoded_pixels_come_last_first_in_bgr_order() {
    let mut buffer = bmp_header_bytes(24, 0, 0);
    buffer.extend_from_slice(&[1, 2, 3, 4, 5, 6, 9]);
    let h = BitMapImageHeader::new(&buffer).unwrap();
    let img = BmpImage::new(h, &buffer).unwrap();
    assert_eq!(
        img.pixels(),
        &[Rgb { red: 6, green: 5, blue: 4 }, Rgb { red: 3, green: 2, blue: 1 }][..]
    );
    assert_eq!(img.header().bits_per_pixel(), 24);
}

#[test]
fn bmp_thirty_two_bit_pixels_skip_the_fourth_byte() {
    let mut buffer = bmp_header_bytes(32, 0, 0);
    buffer.extend_from_slice(&[10, 20, 30, 40, 50, 60, 70, 80]);
    let h = BitMapImageHeader::new(&buffer).unwrap();
    let img = BmpImage::new(h, &buffer).unwrap();
    assert_eq!(
        img.pixels(),
        &[Rgb { red: 70, green: 60, blue: 50 }, Rgb { red: 30, green: 20, blue: 10 }][..]
    );
}

#[test]
fn bmp_no_whole_pixel_gives_no_pixels() {
    let mut buffer = bmp_header_bytes(24, 0, 0);
    buffer.extend_from_slice(&[1, 2]);
    let h = BitMapImageHeader::new(&buffer).unwrap();
    let img = BmpImage::new(h, &buffer).unwrap();
    assert!(img.pixels().is_empty());
}

#[test]
fn bmp_run_length_with_palette_yields_no_pixels() {
    let mut buffer = bmp_header_bytes(8, 1, 2);
    buffer.extend_from_slice(&[0, 0, 255, 0, 255, 255, 255, 0, 1, 1]);
    let h = BitMapImageHeader::new(&buffer).unwrap();
    let img = BmpImage::new(h, &buffer).unwrap();
    assert!(img.pixels().is_empty());
    let mut buffer = bmp_header_bytes(4, 13, 1);
    buffer.extend_from_slice(&[0, 0, 255, 0]);
    let h = BitMapImageHeader::new(&buffer).unwrap();
    assert!(BmpImage::new(h, &buffer).unwrap().pixels().is_empty());
}

#[test]
fn bmp_run_length_without_palette_is_an_error() {
    let mut buffer = bmp_header_bytes(24, 2, 0);
    buffer.extend_from_slice(&[1, 2, 3]);
    let h = BitMapImageHeader::new(&buffer).unwrap();
    let e = BmpImage::new(h, &buffer).unwrap_err();
    assert_eq!(custom_text(e), "no palette to decode RLE encoded bmp with");
    let mut buffer = bmp_header_bytes(24, 12, 0);
    buffer.extend_from_slice(&[1, 2, 3]);
    let h = BitMapImageHeader::new(&buffer).unwrap();
    assert_eq!(
        custom_text(BmpImage::new(h, &buffer).unwrap_err()),
        "no palette to decode RLE encoded bmp with"
    );
}

#[test]
fn bmp_sixteen_bit_unencoded_pixels_follow_the_palette() {
    let mut buffer = bmp_header_bytes(16, 0, 1);
    buffer.extend_from_slice(&[1, 2, 3, 0]);
    buffer.extend_from_slice(&[10, 11, 12, 13, 14]);
    let h = BitMapImageHeader::new(&buffer).unwrap();
    assert!(bmp_is_decodable(&h, &buffer));
    let img = BmpImage::new(h, &buffer).unwrap();
    assert_eq!(
        img.pixels(),
        &[Rgb { red: 14, green: 13, blue: 12 }, Rgb { red: 12, green: 11, blue: 10 }][..]
    );
}

#[test]
fn bmp_eight_bit_unencoded_without_data_gives_no_pixels() {
    let mut buffer = bmp_header_bytes(8, 0, 2);
    buffer.extend_from_slice(&[0, 0, 255, 0, 255, 255, 255, 0]);
    let h = BitMapImageHeader::new(&buffer).unwrap();
    assert!(bmp_is_decodable(&h, &buffer));
    assert!(BmpImage::new(h, &buffer).unwrap().pixels().is_empty());
}

#[test]
fn bmp_decodable_checks_every_bound() {
    let mut buffer = bmp_header_bytes(24, 0, 0);
    buffer.extend_from_slice(&[1, 2, 3]);
    assert!(bmp_is_decodable(&BitMapImageHeader::new(&buffer).unwrap(), &buffer));
    let mut buffer = bmp_header_bytes(16, 0, 1);
    buffer.extend_from_slice(&[1, 2, 3, 0, 10, 11, 12, 13]);
    assert!(!bmp_is_decodable(&BitMapImageHeader::new(&buffer).unwrap(), &buffer));
    let mut buffer = bmp_header_bytes(8, 0, 1);
    buffer.extend_from_slice(&[1, 2, 3, 0, 10]);
    assert!(!bmp_is_decodable(&BitMapImageHeader::new(&buffer).unwrap(), &buffer));
    let mut buffer = bmp_header_bytes(4, 0, 1);
    buffer.extend_from_slice(&[1, 2, 3, 0]);
    assert!(!bmp_is_decodable(&BitMapImageHeader::new(&buffer).unwrap(), &buffer));
    let mut buffer = bmp_header_bytes(8, 1, 3);
    buffer.extend_from_slice(&[1, 2, 3, 0, 4, 5, 6, 0]);
    assert!(!bmp_is_decodable(&BitMapImageHeader::new(&buffer).unwrap(), &buffer));
    let mut buffer = bmp_header_bytes(24, 3, 0);
    buffer.extend_from_slice(&[1, 2, 3]);
    assert!(!bmp_is_decodable(&BitMapImageHeader::new(&buffer).unwrap(), &buffer));
    let mut header = bmp_header_bytes(24, 0, 0);
    header[0] = 60;
    assert!(!bmp_is_decodable(&BitMapImageHeader::new(&header).unwrap(), &header));
}

fn png_stream(stored: [u8; 4]) -> Vec<u8> {
    let mut b = Vec::new();
    b.extend_from_slice(&14u32.to_be_bytes());
    b.extend_from_slice(b"IHDR");
    b.extend_from_slice(&[0, 0, 0, 5, 0, 0, 0, 7, 0xAA, 8, 3, 0, 0, 1]);
    b.extend_from_slice(&[0, 0, 0, 0]);
    b.extend_from_slice(b"IEND");
    b.extend_from_slice(&stored);
    b
}

#[test]
fn png_chunk_type_constants() {
    assert_eq!(IHDR, u32::from_be_bytes(*b"IHDR"));
    assert_eq!(PLTE, u32::from_be_bytes(*b"PLTE"));
    assert_eq!(IDAT, u32::from_be_bytes(*b"IDAT"));
}

#[test]
fn png_first_chunk_must_be_ihdr() {
    let mut b = png_stream([0xDE, 0xAD, 0xBE, 0xEF]);
    b[4..8].copy_from_slice(b"IDAT");
    let e = PngImageChunks::new(&b).unwrap_err();
    assert_eq!(custom_text(e), "Png: first chunk was not the header chunk");
    let short = [0u8, 0, 0, 0, b'I', b'D', b'A', b'T'];
    assert!(png_is_decodable(&short));
    assert_eq!(
        custom_text(PngImageChunks::new(&short).unwrap_err()),
        "Png: first chunk was not the header chunk"
    );
}

#[test]
fn png_crc_mismatch_reports_both_values() {
    let b = png_stream([0xDE, 0xAD, 0xBE, 0xEF]);
    assert!(png_is_decodable(&b));
    let e = PngImageChunks::new(&b).unwrap_err();
    let computed = crc::Crc::<u32>::new(&crc::CRC_32_ISO_HDLC).checksum(b"IEND");
    assert_eq!(computed, 0xae426082);
    assert_eq!(
        custom_text(e),
        "PNG header CRC mismatch: computed 0xae426082, stored 0xdeadbeef"
    );
    match PngImageChunks::new_checked(&b) {
        Some(Err(e)) => assert_eq!(
            custom_text(e),
            "PNG header CRC mismatch: computed 0xae426082, stored 0xdeadbeef"
        ),
        other => panic!("unexpected {:?}", other),
    }
}

#[test]
fn png_walk_past_the_end_is_refused() {
    let mut b = png_stream([0xDE, 0xAD, 0xBE, 0xEF]);
    b.truncate(30);
    assert!(!png_is_decodable(&b));
    assert!(PngImageChunks::new_checked(&b).is_none());
    let b = png_stream([0xAE, 0x42, 0x60, 0x82]);
    assert!(!png_is_decodable(&b));
    assert!(PngImageChunks::new_checked(&b).is_none());
    assert!(PngImageChunks::new_checked(&[0, 0, 0]).is_none());
    let mut b = png_stream([0xDE, 0xAD, 0xBE, 0xEF]);
    b[3] = 13;
    assert!(PngImageChunks::new_checked(&b).is_none());
}

#[test]
fn jpeg_segments_of_a_small_stream() {
    let bytes = [0xFF, 0xD8, 0xFF, 0xD9, 0x00, 0x00];
    let chunks = JpegImageChunks::new(&bytes).unwrap();
    let list = chunks.chunks();
    assert_eq!(list.len(), 2);
    assert_eq!(list[0].indicator(), 0xD8);
    assert_eq!(list[0].length(), 0);
    assert_eq!(list[1].indicator(), 0xD9);
    assert!(build_jpeg(chunks).unwrap().is_empty());
}

#[test]
fn jpeg_segment_with_length_field_keeps_its_data() {
    let bytes = [0x12, 0xFF, 0xE0, 0x00, 0x04, 0xAB, 0xCD, 0xFF, 0xD9, 0x00, 0x00];
    let chunks = JpegImageChunks::new(&bytes).unwrap();
    let list = chunks.chunks();
    assert_eq!(list.len(), 2);
    assert_eq!(list[0].indicator(), 0xE0);
    assert_eq!(list[0].length(), 4);
    let c = JpegChunk::new(&bytes[1..]).unwrap();
    assert_eq!(c.get_data().unwrap(), vec![0xAB, 0xCD]);
}

#[test]
fn jpeg_scan_data_is_skipped_up_to_the_next_marker() {
    let bytes = [
        0xFF, 0xDA, 0x00, 0x03, 0x01, 0x11, 0xFF, 0x00, 0xFF, 0xD3, 0x22, 0xFF, 0xD9, 0x00,
        0x00,
    ];
    let chunks = JpegImageChunks::new(&bytes).unwrap();
    let list = chunks.chunks();
    assert_eq!(list.len(), 2);
    assert_eq!(list[0].indicator(), 0xDA);
    assert_eq!(list[0].length(), 3);
    assert_eq!(list[1].indicator(), 0xD9);
}

#[test]
fn jpeg_short_tail_is_an_error() {
    let bytes = [0xFF, 0xD8, 0xFF, 0xD9];
    let e = JpegImageChunks::new(&bytes).unwrap_err();
    assert_eq!(custom_text(e), "invalid chunk length: 2");
}

#[test]
fn jpeg_unknown_marker_is_an_error() {
    let e = JpegChunk::new(&[0xFF, 0x01, 0x00, 0x00]).unwrap_err();
    assert_eq!(custom_text(e), "invalid indicator: 0x1");
    let e = JpegImageChunks::new(&[0x00, 0xFF, 0xC8, 0x00, 0x02]).unwrap_err();
    assert_eq!(custom_text(e), "invalid indicator: 0xC8");
}

#[test]
fn jpeg_standalone_marker_holds_no_data() {
    let c = JpegChunk::new(&[0xFF, 0xD8, 0x00, 0x00]).unwrap();
    assert_eq!(c.indicator(), 0xD8);
    assert_eq!(custom_text(c.get_data().unwrap_err()), "0xD8 held no data");
}

#[test]
fn jpeg_frame_header_height_conversion_fails() {
    let c = JpegChunk::new(&[0xFF, 0xC0, 0x00, 0x0B, 8, 0, 16, 0, 16, 1, 1, 0x11, 0]).unwrap();
    match JpegHeader::new(c) {
        Err(ImageError::TryFrom(_)) => {}
        other => panic!("unexpected {:?}", other),
    }
    let c = JpegChunk::new(&[0xFF, 0xD9, 0x00, 0x00]).unwrap();
    assert_eq!(
        custom_text(JpegHeader::new(c).unwrap_err()),
        "no data in jpeg header segment"
    );
}

#[test]
fn detect_too_few_bytes() {
    let e = detect_format(&[0x89, 0x50, 0x4E, 0x47]).unwrap_err();
    assert_eq!(custom_text(e), "file too small");
}

#[test]
fn detect_png_and_jpeg() {
    let mut png = vec![0x89, 0x50, 0x4E, 0x47, 0x0D, 0x0A, 0x1A, 0x0A];
    png.resize(36, 0);
    assert_eq!(detect_format(&png).unwrap(), DetectedFormat::Png);
    let mut jpeg = vec![0xFF, 0xD8, 0xFF, 0xE0];
    jpeg.resize(36, 0);
    assert_eq!(detect_format(&jpeg).unwrap(), DetectedFormat::Jpeg);
}

#[test]
fn detect_bmp_is_unsupported() {
    let mut bmp = vec![b'B', b'M', 0x3E, 0, 0, 0, 0, 0, 0, 0, 0x36, 0, 0, 0, 40, 0];
    bmp.resize(36, 0);
    assert_eq!(
        custom_text(detect_format(&bmp).unwrap_err()),
        "unsupported file type: image/bmp"
    );
}

#[test]
fn classify_mime_types() {
    assert_eq!(classify_mime_type(Some("image/png".to_string())).unwrap(), DetectedFormat::Png);
    assert_eq!(classify_mime_type(Some("image/jpeg".to_string())).unwrap(), DetectedFormat::Jpeg);
    assert_eq!(classify_mime_type(Some("image/bmg".to_string())).unwrap(), DetectedFormat::Bmp);
    assert_eq!(
        custom_text(classify_mime_type(Some("image/gif".to_string())).unwrap_err()),
        "unsupported file type: image/gif"
    );
    assert_eq!(custom_text(classify_mime_type(None).unwrap_err()), "unsupported file type");
}

#[test]
fn joined_text() {
    assert_eq!(join_text("ab", "cd"), "abcd");
    assert_eq!(join_text("", "cd"), "cd");
}

#[test]
fn decimal_and_hex_texts_in_messages() {
    let e = JpegChunk::new(&[0xFF, 0xD8, 0x00]).unwrap_err();
    assert_eq!(custom_text(e), "invalid chunk length: 3");
    let e = JpegChunk::new(&[0xFF, 0xFF, 0x00, 0x00]).unwrap_err();
    assert_eq!(custom_text(e), "invalid indicator: 0xFF");
    let c = JpegChunk::new(&[0xFF, 0xD0, 0x00, 0x00]).unwrap();
    assert_eq!(custom_text(c.get_data().unwrap_err()), "0xD0 held no data");
}

#[test]
fn pixel_and_type_values() {
    assert_eq!(Pixels::Rgb(1, 2, 3), Pixels::Rgb(1, 2, 3));
    assert_ne!(Pixels::Gray(1), Pixels::BigGray(1));
    assert_eq!(ImageTypes::Bmp, ImageTypes::Bmp);
}

fn segment(marker: u8, data: &[u8]) -> JpegChunk {
    let mut bytes = vec![0xFF, marker];
    bytes.extend_from_slice(&((data.len() + 2) as u16).to_be_bytes());
    bytes.extend_from_slice(data);
    JpegChunk::new(&bytes).unwrap()
}

#[test]
fn quantization_table_with_sixteen_bit_entries() {
    let mut data = vec![1u8];
    for i in 0..131u32 {
        data.push(i as u8);
    }
    let t = QuantizationTable::new(segment(0xDB, &data)).unwrap();
    assert_eq!(t.precision_table_id(), 1);
    assert_eq!(t.length(), 0x0100);
    let table = t.table();
    assert_eq!(table[0], 0x0001);
    assert_eq!(table[1], 0x0203);
    assert_eq!(table[63], (126u16 << 8) | 127);
}

#[test]
fn quantization_table_errors() {
    let e = QuantizationTable::new(segment(0xDB, &[0, 1, 2, 3])).unwrap_err();
    assert_eq!(custom_text(e), "need at least 64 bytes of data");
    let e = QuantizationTable::new(segment(0xDB, &[1; 131])).unwrap_err();
    assert_eq!(custom_text(e), "need at least 128 bytes of data");
    let e = QuantizationTable::new(segment(0xDB, &[2, 0, 0])).unwrap_err();
    assert_eq!(custom_text(e), "invalid quantization precision: 2");
    let e = QuantizationTable::new(segment(0xC4, &[1, 0, 0])).unwrap_err();
    assert_eq!(custom_text(e), "0xC4 is not the quantization table");
    let standalone = JpegChunk::new(&[0xFF, 0xD9, 0, 0]).unwrap();
    let e = QuantizationTable::new(standalone).unwrap_err();
    assert_eq!(custom_text(e), "0xD9 is not the quantization table");
}

fn small_huffman_table() -> HuffmanTable {
    let mut data = vec![0x10u8, 0, 2, 1];
    data.extend_from_slice(&[0; 12]);
    data.extend_from_slice(&[0xA, 0xB, 0xC]);
    HuffmanTable::new(segment(0xC4, &data)).unwrap()
}

#[test]
fn huffman_table_canonical_codes() {
    let t = small_huffman_table();
    assert_eq!(t.class(), 1);
    assert_eq!(t.id(), 0);
    assert_eq!(t.count()[..4], [0, 2, 1, 0]);
    assert_eq!(t.count()[15], 0);
    let min = t.min_code();
    assert_eq!(min[0], i32::MAX);
    assert_eq!(min[1], 0);
    assert_eq!(min[2], 4);
    assert_eq!(min[3], i32::MAX);
    let off = t.val_offset();
    assert_eq!(off[1], 0);
    assert_eq!(off[2], -2);
    assert_eq!(off[3], 0);
    assert_eq!(t.symbols(), &[0xA, 0xB, 0xC][..]);
}

#[test]
fn huffman_table_errors() {
    let e = HuffmanTable::new(segment(0xDB, &[0; 16])).unwrap_err();
    assert_eq!(custom_text(e), "0xDB is not the huffman table");
}

#[test]
fn huffman_symbols_decode_from_bits() {
    let t = small_huffman_table();
    let data = [0x00u8, 0b0110_0000, 0b0000_0000];
    let mut bits = BitReader::new(&data);
    assert_eq!(t.decode_symbol(&mut bits).unwrap(), 0xB);
    assert_eq!((bits.byte_pos(), bits.bit_pos()), (1, 2));
    assert_eq!(t.decode_symbol(&mut bits).unwrap(), 0xC);
    assert_eq!((bits.byte_pos(), bits.bit_pos()), (1, 5));
    assert_eq!(t.decode_symbol(&mut bits).unwrap(), 0xA);
    assert_eq!((bits.byte_pos(), bits.bit_pos()), (1, 7));
}

#[test]
fn huffman_code_without_symbol_is_invalid() {
    let t = small_huffman_table();
    let data = [0x00u8, 0xEE, 0xEE, 0xEE];
    let mut bits = BitReader::new(&data);
    assert_eq!(custom_text(t.decode_symbol(&mut bits).unwrap_err()), "invalid huffman code");
    assert_eq!((bits.byte_pos(), bits.bit_pos()), (2, 8));
}

#[test]
fn bit_reader_skips_stuffed_zero_and_stops_at_markers() {
    let data = [0x00u8, 0xFF, 0x00, 0x80];
    let mut bits = BitReader::new(&data);
    assert_eq!((bits.byte_pos(), bits.bit_pos()), (0, 8));
    assert_eq!(bits.read_bit().unwrap(), 0);
    assert_eq!((bits.byte_pos(), bits.bit_pos()), (2, 1));
    let data = [0x00u8, 0x80];
    let mut bits = BitReader::new(&data);
    assert_eq!(bits.read_bit().unwrap(), 1);
    assert_eq!(bits.read_bit().unwrap(), 0);
    let data = [0x00u8, 0xFF, 0xD9];
    let mut bits = BitReader::new(&data);
    assert_eq!(custom_text(bits.read_bit().unwrap_err()), "unexpected marker");
    assert_eq!((bits.byte_pos(), bits.bit_pos()), (1, 8));
}

#[test]
fn frame_components() {
    let bytes = [1, 0x22, 0, 2, 0x11, 1, 3, 0x11, 1];
    let c = Component::new_components(&bytes, 3).unwrap();
    assert_eq!(c.len(), 3);
    assert_eq!((c[1].id(), c[1].sampling_factors(), c[1].quantization_id()), (2, 0x11, 1));
    let e = Component::new_components(&bytes, 2).unwrap_err();
    assert_eq!(custom_text(e), "9 / 2 does not equal 3");
    let one = Component::new(&[7, 8, 9]);
    assert_eq!((one.id(), one.sampling_factors(), one.quantization_id()), (7, 8, 9));
}

#[test]
fn huffman_decoding_inverts_the_canonical_code() {
    let mut data = vec![0x00u8, 0, 1, 2, 3];
    data.extend_from_slice(&[0; 11]);
    let symbols = [0x11u8, 0x22, 0x33, 0x44, 0x55, 0x66];
    data.extend_from_slice(&symbols);
    let t = HuffmanTable::new(segment(0xC4, &data)).unwrap();
    let count = t.count();
    let min = t.min_code();
    let mut bits: Vec<u8> = Vec::new();
    for k in 0..symbols.len() {
        let mut first_index = 0usize;
        let mut l = 0usize;
        while k >= first_index + count[l] as usize {
            first_index += count[l] as usize;
            l += 1;
        }
        let code = min[l] as usize + (k - first_index);
        for j in (0..=l).rev() {
            bits.push(((code >> j) & 1) as u8);
        }
    }
    assert_eq!(bits.len(), 20);
    let mut stream = vec![0x00u8];
    for chunk in bits.chunks(8) {
        let mut byte = 0u8;
        for (j, b) in chunk.iter().enumerate() {
            byte |= b << (7 - j);
        }
        stream.push(byte);
    }
    let mut reader = BitReader::new(&stream);
    for s in symbols {
        assert_eq!(t.decode_symbol(&mut reader).unwrap(), s);
    }
    assert_eq!((reader.byte_pos(), reader.bit_pos()), (3, 4));
}

#[test]
fn jpeg_checked_reading_refuses_segments_past_the_end() {
    let long = [0xFF, 0xD8, 0xFF, 0xDB, 0x00, 0x10, 0x00];
    assert!(!jpeg_is_decodable(&long));
    assert!(JpegImageChunks::new_checked(&long).is_none());
    let tiny_length = [0xFF, 0xE0, 0x00, 0x01, 0x00];
    assert!(!jpeg_is_decodable(&tiny_length));
    let good = [0xFF, 0xD8, 0xFF, 0xD9, 0x00, 0x00];
    assert!(jpeg_is_decodable(&good));
    let chunks = JpegImageChunks::new_checked(&good).unwrap().unwrap();
    assert_eq!(chunks.chunks().len(), 2);
    let unknown = [0x00, 0xFF, 0xC8, 0x00, 0x02];
    assert!(jpeg_is_decodable(&unknown));
    let e = JpegImageChunks::new_checked(&unknown).unwrap().unwrap_err();
    assert_eq!(custom_text(e), "invalid indicator: 0xC8");
}

#[test]
fn bit_reader_checked_reading() {
    let data = [0x00u8];
    let mut bits = BitReader::new(&data);
    assert!(!bits.next_bit_in_bounds());
    assert!(bits.read_bit_checked().is_none());
    assert_eq!((bits.byte_pos(), bits.bit_pos()), (0, 8));
    let data = [0x00u8, 0xFF];
    let mut bits = BitReader::new(&data);
    assert!(bits.read_bit_checked().is_none());
    let data = [0x00u8, 0x80];
    let mut bits = BitReader::new(&data);
    assert_eq!(bits.read_bit_checked().unwrap().unwrap(), 1);
    assert_eq!((bits.byte_pos(), bits.bit_pos()), (1, 1));
}

#[test]
fn huffman_checked_decoding() {
    let t = small_huffman_table();
    let data = [0x00u8];
    let mut bits = BitReader::new(&data);
    assert!(t.decode_symbol_checked(&mut bits).is_none());
    assert_eq!((bits.byte_pos(), bits.bit_pos()), (0, 8));
    let data = [0x00u8, 0b0110_0000];
    let mut bits = BitReader::new(&data);
    assert_eq!(t.decode_symbol_checked(&mut bits).unwrap().unwrap(), 0xB);
    assert_eq!((bits.byte_pos(), bits.bit_pos()), (1, 2));
    let mut short = vec![0x10u8, 0, 2, 1];
    short.extend_from_slice(&[0; 12]);
    short.extend_from_slice(&[0xA, 0xB]);
    let t = HuffmanTable::new(segment(0xC4, &short)).unwrap();
    let data = [0x00u8, 0b1000_0000];
    let mut bits = BitReader::new(&data);
    assert!(t.decode_symbol_checked(&mut bits).is_none());
    assert_eq!((bits.byte_pos(), bits.bit_pos()), (0, 8));
}

#[test]
fn jpeg_runs_of_standalone_markers_end() {
    let bytes = [0xFF, 0xD8, 0xFF, 0xD8, 0xFF, 0xD8, 0x00, 0x00];
    let chunks = JpegImageChunks::new(&bytes).unwrap();
    assert_eq!(chunks.chunks().len(), 3);
    assert!(chunks.chunks().iter().all(|c| c.indicator() == 0xD8 && c.length() == 0));
}

#[test]
fn crc_outcome_compares_the_two_checksums() {
    assert!(crc_outcome(0xcbf43926, 0xcbf43926).is_ok());
    let e = crc_outcome(0xcbf43926, 0x1a).unwrap_err();
    assert_eq!(custom_text(e), "PNG header CRC mismatch: computed 0xcbf43926, stored 0x0000001a");
}
