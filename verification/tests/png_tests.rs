use std::io::Write;

use flate2::write::ZlibEncoder;
use flate2::Compression;

use png_reader::crc::crc32;
use png_reader::decoder::decode_png;
use png_reader::error::PngError;
use png_reader::image::{parse_png, PngImage};
use png_reader::parser::{
    check_if_png, collect_idat_data, parse_palette, Chunk, ChunkType, Color, ColorType,
    CompressionMethod, FilterMethod, InterlaceMethod,
};
use png_reader::recon::{paeth_predictor, reconstruct};

const SIGNATURE: [u8; 8] = [0x89, 0x50, 0x4E, 0x47, 0x0D, 0x0A, 0x1A, 0x0A];

fn chunk(tag: &[u8; 4], payload: &[u8]) -> Vec<u8> {
    let mut out = Vec::new();
    out.extend_from_slice(&(payload.len() as u32).to_be_bytes());
    out.extend_from_slice(tag);
    out.extend_from_slice(payload);
    let mut checked = Vec::new();
    checked.extend_from_slice(tag);
    checked.extend_from_slice(payload);
    out.extend_from_slice(&crc32(&checked).to_be_bytes());
    out
}

fn ihdr_payload(width: u32, height: u32, bit_depth: u8, color: u8, interlace: u8) -> Vec<u8> {
    let mut p = Vec::new();
    p.extend_from_slice(&width.to_be_bytes());
    p.extend_from_slice(&height.to_be_bytes());
    p.push(bit_depth);
    p.push(color);
    p.push(0); // compression
    p.push(0); // filter
    p.push(interlace);
    p
}

fn zlib(data: &[u8]) -> Vec<u8> {
    let mut e = ZlibEncoder::new(Vec::new(), Compression::default());
    e.write_all(data).unwrap();
    e.finish().unwrap()
}

/// A complete indexed-color PNG: signature, IHDR, PLTE, one IDAT, IEND.
fn indexed_png(width: u32, height: u32, bit_depth: u8, palette: &[u8], raw: &[u8]) -> Vec<u8> {
    let mut buf = SIGNATURE.to_vec();
    buf.extend_from_slice(&chunk(b"IHDR", &ihdr_payload(width, height, bit_depth, 3, 0)));
    buf.extend_from_slice(&chunk(b"PLTE", palette));
    buf.extend_from_slice(&chunk(b"IDAT", &zlib(raw)));
    buf.extend_from_slice(&chunk(b"IEND", &[]));
    buf
}

#[test]
fn crc32_standard_check_values() {
    assert_eq!(crc32(b""), 0);
    assert_eq!(crc32(b"123456789"), 0xCBF43926);
    assert_eq!(crc32(b"IEND"), 0xAE426082);
}

#[test]
fn signature_mismatch_fails_not_a_png() {
    // Any buffer whose first 8 bytes differ from the signature fails
    // with NotAPng, regardless of remaining content.
    assert!(matches!(check_if_png(b"not a png at all"), Err(PngError::NotAPng)));
    assert!(matches!(check_if_png(&[]), Err(PngError::NotAPng)));
    assert!(matches!(check_if_png(&SIGNATURE[..7]), Err(PngError::NotAPng)));
    let mut almost = SIGNATURE.to_vec();
    almost[3] ^= 0x01;
    almost.extend_from_slice(&chunk(b"IEND", &[]));
    assert!(matches!(parse_png(&almost), Err(PngError::NotAPng)));
    assert!(check_if_png(&SIGNATURE).is_ok());
}

#[test]
fn crc_mutation_anywhere_in_tag_or_payload_fails_checksum() {
    // Mutating any single byte inside a chunk's tag+payload makes
    // framing fail with ChecksumFailure.
    let png = indexed_png(1, 1, 8, &[255, 0, 0], &[0, 0]);
    // The IHDR chunk starts at offset 8: 4 length bytes, then 4 tag
    // bytes and 13 payload bytes, all checksummed.
    for i in 12..12 + 4 + 13 {
        let mut corrupt = png.clone();
        corrupt[i] ^= 0x40;
        match parse_png(&corrupt) {
            Err(PngError::ChecksumFailure) => {}
            other => panic!("offset {}: expected ChecksumFailure, got {:?}", i, other),
        }
    }
}

#[test]
fn paeth_predictor_ties_and_formula() {
    // Ties resolve a, then b, then c.
    assert_eq!(paeth_predictor(10, 10, 10), 10);
    // p = -255; distances are |p-a| = 255, |p-b| = 255, |p-c| = 510,
    // so the tie between a and b resolves to a.
    assert_eq!(paeth_predictor(0, 0, 255), 0);
    assert_eq!(paeth_predictor(3, 4, 5), 3);
    // b strictly closest.
    assert_eq!(paeth_predictor(100, 2, 100), 2);
    // c strictly closest.
    assert_eq!(paeth_predictor(255, 255, 250), 255);
    assert_eq!(paeth_predictor(10, 200, 150), 10);
}

fn apply_filter(t: u8, raw: &[[u8; 2]; 2]) -> Vec<u8> {
    let mut data = Vec::new();
    for row in 0..2 {
        data.push(t);
        for i in 0..2 {
            let x = raw[row][i];
            let a = if i > 0 { raw[row][i - 1] } else { 0 };
            let b = if row > 0 { raw[row - 1][i] } else { 0 };
            let c = if row > 0 && i > 0 { raw[row - 1][i - 1] } else { 0 };
            let pred: u8 = match t {
                0 => 0,
                1 => a,
                2 => b,
                3 => ((a as u16 + b as u16) / 2) as u8,
                4 => paeth_predictor(a as i32, b as i32, c as i32) as u8,
                _ => unreachable!(),
            };
            data.push(x.wrapping_sub(pred));
        }
    }
    data
}

#[test]
fn filter_round_trip_all_five_types() {
    // Filtering a synthetic 2x2 8-bit grayscale image and then
    // reconstructing must reproduce the raw bytes, for each filter type.
    let raw = [[10u8, 20u8], [30u8, 40u8]];
    for t in 0..=4u8 {
        let filtered = apply_filter(t, &raw);
        let rec = reconstruct(&filtered, 2, 2, 8, ColorType::Grayscale).unwrap();
        assert_eq!(rec, vec![10, 20, 30, 40], "filter type {}", t);
    }
}

#[test]
fn reconstruct_rejects_unknown_filter_type() {
    // Two scanlines; the second one carries filter type 9.
    let data = [0u8, 1, 2, 9, 3, 4];
    match reconstruct(&data, 2, 2, 8, ColorType::Grayscale) {
        Err(PngError::FilterNotSupported(9)) => {}
        other => panic!("expected FilterNotSupported(9), got {:?}", other),
    }
}

#[test]
fn reconstruct_rejects_short_data() {
    // 2x2 8-bit grayscale needs 2 scanlines of 3 bytes; 5 bytes is short.
    let data = [0u8, 1, 2, 0, 3];
    match reconstruct(&data, 2, 2, 8, ColorType::Grayscale) {
        Err(PngError::WrongFormat(s)) => assert_eq!(s, "truncated"),
        other => panic!("expected WrongFormat(truncated), got {:?}", other),
    }
}

fn indexed_image(width: u32, height: u32, bit_depth: u8, palette: Vec<Color>, data: Vec<u8>) -> PngImage {
    PngImage {
        width,
        height,
        bit_depth,
        color_type: ColorType::IndexedColor,
        compression_method: CompressionMethod::DeflateInflate,
        filter_method: FilterMethod::FiveTypeAdaptive,
        interlace_method: InterlaceMethod::NoInterlace,
        palette: Some(palette),
        data,
    }
}

#[test]
fn bit_packing_msb_first() {
    // For bit_depth 1, the scanline byte 0b10110000 with width 4
    // decodes to the indices 1, 0, 1, 1 (most significant bit first).
    let c0 = Color { red: 0, green: 0, blue: 0 };
    let c1 = Color { red: 255, green: 255, blue: 255 };
    let img = indexed_image(4, 1, 1, vec![c0, c1], vec![0b1011_0000]);
    let grid = decode_png(&img).unwrap();
    assert_eq!(grid, vec![vec![c1, c0, c1, c1]]);
}

#[test]
fn indexed_decode_single_pixel() {
    // A 1x1 image, bit depth 8, palette [{255,0,0}], one reconstructed
    // byte 0x00 decodes to [[{255,0,0}]].
    let red = Color { red: 255, green: 0, blue: 0 };
    let img = indexed_image(1, 1, 8, vec![red], vec![0x00]);
    let grid = decode_png(&img).unwrap();
    assert_eq!(grid, vec![vec![red]]);
}

#[test]
fn indexed_decode_rejects_out_of_range_index() {
    let red = Color { red: 255, green: 0, blue: 0 };
    let img = indexed_image(1, 1, 8, vec![red], vec![0x01]);
    assert!(decode_png(&img).is_none());
}

#[test]
fn decode_rejects_inconsistent_data_length() {
    let red = Color { red: 255, green: 0, blue: 0 };
    let img = indexed_image(1, 1, 8, vec![red], vec![0x00, 0x00]);
    assert!(decode_png(&img).is_none());
}

#[test]
fn truncated_buffer_fails_without_reading_out_of_bounds() {
    // A valid signature and a valid IHDR chunk, but no IEND.
    let mut buf = SIGNATURE.to_vec();
    buf.extend_from_slice(&chunk(b"IHDR", &ihdr_payload(1, 1, 8, 3, 0)));
    match parse_png(&buf) {
        Err(PngError::WrongFormat(s)) => assert_eq!(s, "truncated"),
        other => panic!("expected WrongFormat(truncated), got {:?}", other),
    }
}

#[test]
fn interlaced_image_fails_not_supported() {
    // IHDR with interlace_code 1 fails with NotSupported("interlacing"),
    // independent of the chunk content that follows.
    let mut buf = SIGNATURE.to_vec();
    buf.extend_from_slice(&chunk(b"IHDR", &ihdr_payload(1, 1, 8, 3, 1)));
    buf.extend_from_slice(&chunk(b"IDAT", &[1, 2, 3]));
    buf.extend_from_slice(&chunk(b"IEND", &[]));
    match parse_png(&buf) {
        Err(PngError::NotSupported(s)) => assert_eq!(s, "interlacing"),
        other => panic!("expected NotSupported(interlacing), got {:?}", other),
    }
}

#[test]
fn header_code_violations_each_fail_wrong_format() {
    let cases: [(Vec<u8>, &str); 4] = [
        (ihdr_payload(1, 1, 8, 5, 0), "Invalid color type"),
        ({ let mut p = ihdr_payload(1, 1, 8, 3, 0); p[10] = 1; p }, "Invalid compression method"),
        ({ let mut p = ihdr_payload(1, 1, 8, 3, 0); p[11] = 2; p }, "Invalid filter method"),
        (ihdr_payload(1, 1, 8, 3, 7), "Invalid interlace method"),
    ];
    for (payload, expected) in cases {
        let mut buf = SIGNATURE.to_vec();
        buf.extend_from_slice(&chunk(b"IHDR", &payload));
        buf.extend_from_slice(&chunk(b"IEND", &[]));
        match parse_png(&buf) {
            Err(PngError::WrongFormat(s)) => assert_eq!(s, expected),
            other => panic!("expected WrongFormat({}), got {:?}", expected, other),
        }
    }
}

#[test]
fn non_indexed_color_fails_not_supported() {
    let mut buf = SIGNATURE.to_vec();
    buf.extend_from_slice(&chunk(b"IHDR", &ihdr_payload(1, 1, 8, 0, 0)));
    buf.extend_from_slice(&chunk(b"IEND", &[]));
    match parse_png(&buf) {
        Err(PngError::NotSupported(s)) => assert_eq!(s, "only indexed color supported"),
        other => panic!("expected NotSupported, got {:?}", other),
    }
}

#[test]
fn first_chunk_not_ihdr_fails() {
    let mut buf = SIGNATURE.to_vec();
    buf.extend_from_slice(&chunk(b"PLTE", &[1, 2, 3]));
    buf.extend_from_slice(&chunk(b"IEND", &[]));
    match parse_png(&buf) {
        Err(PngError::WrongFormat(s)) => assert_eq!(s, "First chunk type != IHDR"),
        other => panic!("unexpected {:?}", other),
    }
}

#[test]
fn ihdr_wrong_length_fails() {
    let mut buf = SIGNATURE.to_vec();
    buf.extend_from_slice(&chunk(b"IHDR", &[0; 12]));
    buf.extend_from_slice(&chunk(b"IEND", &[]));
    match parse_png(&buf) {
        Err(PngError::WrongFormat(s)) => assert_eq!(s, "IHDR chunk len != 13"),
        other => panic!("unexpected {:?}", other),
    }
}

#[test]
fn ihdr_without_payload_fails() {
    let mut buf = SIGNATURE.to_vec();
    buf.extend_from_slice(&chunk(b"IHDR", &[]));
    buf.extend_from_slice(&chunk(b"IEND", &[]));
    match parse_png(&buf) {
        Err(PngError::WrongFormat(s)) => assert_eq!(s, "IHDR chunk has no chunk data"),
        other => panic!("unexpected {:?}", other),
    }
}

#[test]
fn missing_palette_fails_for_indexed() {
    let mut buf = SIGNATURE.to_vec();
    buf.extend_from_slice(&chunk(b"IHDR", &ihdr_payload(1, 1, 8, 3, 0)));
    buf.extend_from_slice(&chunk(b"IDAT", &zlib(&[0, 0])));
    buf.extend_from_slice(&chunk(b"IEND", &[]));
    match parse_png(&buf) {
        Err(PngError::WrongFormat(s)) => assert_eq!(s, "PLTE chunk missing"),
        other => panic!("unexpected {:?}", other),
    }
}

#[test]
fn empty_palette_fails_for_indexed() {
    let mut buf = SIGNATURE.to_vec();
    buf.extend_from_slice(&chunk(b"IHDR", &ihdr_payload(1, 1, 8, 3, 0)));
    buf.extend_from_slice(&chunk(b"PLTE", &[]));
    buf.extend_from_slice(&chunk(b"IDAT", &zlib(&[0, 0])));
    buf.extend_from_slice(&chunk(b"IEND", &[]));
    match parse_png(&buf) {
        Err(PngError::WrongFormat(s)) => assert_eq!(s, "PLTE chunk missing"),
        other => panic!("unexpected {:?}", other),
    }
}

#[test]
fn malformed_idat_fails_decompression() {
    let buf = {
        let mut b = SIGNATURE.to_vec();
        b.extend_from_slice(&chunk(b"IHDR", &ihdr_payload(1, 1, 8, 3, 0)));
        b.extend_from_slice(&chunk(b"PLTE", &[255, 0, 0]));
        b.extend_from_slice(&chunk(b"IDAT", &[0xFF, 0xFF, 0xFF, 0xFF]));
        b.extend_from_slice(&chunk(b"IEND", &[]));
        b
    };
    assert!(matches!(parse_png(&buf), Err(PngError::DecompressionFailed)));
}

#[test]
fn end_to_end_indexed_decode() {
    // A 2x2 indexed image with a 3-entry palette; raw scanlines are
    // [filter 0, 0, 1] and [filter 0, 2, 0]. The IDAT payload is
    // zlib-compressed, so a pipeline that handed the compressed bytes
    // through unchanged could not produce these pixels.
    let palette = [255, 0, 0, 0, 255, 0, 0, 0, 255];
    let raw = [0u8, 0, 1, 0, 2, 0];
    let png = indexed_png(2, 2, 8, &palette, &raw);
    let img = parse_png(&png).unwrap();
    assert_eq!(img.width, 2);
    assert_eq!(img.height, 2);
    assert_eq!(img.bit_depth, 8);
    assert_eq!(img.data, vec![0, 1, 2, 0]);
    let grid = decode_png(&img).unwrap();
    let red = Color { red: 255, green: 0, blue: 0 };
    let green = Color { red: 0, green: 255, blue: 0 };
    let blue = Color { red: 0, green: 0, blue: 255 };
    assert_eq!(grid, vec![vec![red, green], vec![blue, red]]);
    // For all valid inputs the decoded grid is height rows of width
    // pixels.
    assert_eq!(grid.len() as u32, img.height);
    for row in &grid {
        assert_eq!(row.len() as u32, img.width);
    }
}

#[test]
fn end_to_end_sub_filtered_idat_split_across_chunks() {
    // One 4x1 scanline with the Sub filter, its compressed stream split
    // over two IDAT chunks that the aggregator must concatenate in order.
    let palette = [10, 10, 10, 20, 20, 20, 30, 30, 30, 40, 40, 40];
    let raw = [1u8, 0, 1, 1, 1]; // filter 1; reconstructs to 0,1,2,3
    let z = zlib(&raw);
    let (z1, z2) = z.split_at(z.len() / 2);
    let mut buf = SIGNATURE.to_vec();
    buf.extend_from_slice(&chunk(b"IHDR", &ihdr_payload(4, 1, 8, 3, 0)));
    buf.extend_from_slice(&chunk(b"PLTE", &palette));
    buf.extend_from_slice(&chunk(b"IDAT", z1));
    buf.extend_from_slice(&chunk(b"IDAT", z2));
    buf.extend_from_slice(&chunk(b"IEND", &[]));
    let img = parse_png(&buf).unwrap();
    assert_eq!(img.data, vec![0, 1, 2, 3]);
}

#[test]
fn ancillary_chunks_pass_through_framing() {
    let palette = [255, 0, 0];
    let mut buf = SIGNATURE.to_vec();
    buf.extend_from_slice(&chunk(b"IHDR", &ihdr_payload(1, 1, 8, 3, 0)));
    buf.extend_from_slice(&chunk(b"tEXt", b"comment\x00hello"));
    buf.extend_from_slice(&chunk(b"PLTE", &palette));
    buf.extend_from_slice(&chunk(b"IDAT", &zlib(&[0, 0])));
    buf.extend_from_slice(&chunk(b"IEND", &[]));
    let img = parse_png(&buf).unwrap();
    assert_eq!(img.data, vec![0]);
}

fn gray_image(width: u32, bit_depth: u8, data: Vec<u8>) -> PngImage {
    PngImage {
        width,
        height: 1,
        bit_depth,
        color_type: ColorType::Grayscale,
        compression_method: CompressionMethod::DeflateInflate,
        filter_method: FilterMethod::FiveTypeAdaptive,
        interlace_method: InterlaceMethod::NoInterlace,
        palette: None,
        data,
    }
}

#[test]
fn grayscale_decode_rescales_sub_byte_depths() {
    let gray = |v: u8| Color { red: v, green: v, blue: v };
    let img1 = gray_image(4, 1, vec![0b1011_0000]);
    assert_eq!(decode_png(&img1).unwrap(), vec![vec![gray(255), gray(0), gray(255), gray(255)]]);
    let img2 = gray_image(4, 2, vec![0b1101_0010]);
    assert_eq!(
        decode_png(&img2).unwrap(),
        vec![vec![gray(255), gray(85), gray(0), gray(170)]]
    );
    let img4 = gray_image(2, 4, vec![0xAF]);
    assert_eq!(decode_png(&img4).unwrap(), vec![vec![gray(170), gray(255)]]);
    let img8 = gray_image(2, 8, vec![7, 200]);
    assert_eq!(decode_png(&img8).unwrap(), vec![vec![gray(7), gray(200)]]);
}

fn tc_image(width: u32, bit_depth: u8, color_type: ColorType, data: Vec<u8>) -> PngImage {
    PngImage {
        width,
        height: 1,
        bit_depth,
        color_type,
        compression_method: CompressionMethod::DeflateInflate,
        filter_method: FilterMethod::FiveTypeAdaptive,
        interlace_method: InterlaceMethod::NoInterlace,
        palette: None,
        data,
    }
}

#[test]
fn truecolor_decode_reads_rgb_and_skips_alpha() {
    let base = tc_image(2, 8, ColorType::Truecolor, vec![1, 2, 3, 4, 5, 6]);
    assert_eq!(
        decode_png(&base).unwrap(),
        vec![vec![
            Color { red: 1, green: 2, blue: 3 },
            Color { red: 4, green: 5, blue: 6 },
        ]]
    );
    let with_alpha = tc_image(2, 8, ColorType::TrueColorWithAlpha, vec![1, 2, 3, 9, 4, 5, 6, 9]);
    assert_eq!(
        decode_png(&with_alpha).unwrap(),
        vec![vec![
            Color { red: 1, green: 2, blue: 3 },
            Color { red: 4, green: 5, blue: 6 },
        ]]
    );
    // 16-bit channels: only the first byte of each channel is read.
    let deep = tc_image(1, 16, ColorType::Truecolor, vec![1, 2, 3, 4, 5, 6]);
    assert_eq!(decode_png(&deep).unwrap(), vec![vec![Color { red: 1, green: 3, blue: 5 }]]);
}

#[test]
fn grayscale_with_alpha_is_not_decoded() {
    let img = PngImage {
        width: 1,
        height: 1,
        bit_depth: 8,
        color_type: ColorType::GrayScaleWithAlpha,
        compression_method: CompressionMethod::DeflateInflate,
        filter_method: FilterMethod::FiveTypeAdaptive,
        interlace_method: InterlaceMethod::NoInterlace,
        palette: None,
        data: vec![0, 0],
    };
    assert!(decode_png(&img).is_none());
}

#[test]
fn parse_palette_reads_first_plte_chunk() {
    let chunks = vec![
        Chunk { length: 0, chunk_type: ChunkType::Ihrd, chunk_data: None },
        Chunk {
            length: 6,
            chunk_type: ChunkType::Plte,
            chunk_data: Some(vec![1, 2, 3, 4, 5, 6]),
        },
        Chunk {
            length: 3,
            chunk_type: ChunkType::Plte,
            chunk_data: Some(vec![7, 8, 9]),
        },
    ];
    let pal = parse_palette(&chunks).unwrap();
    assert_eq!(
        pal,
        vec![
            Color { red: 1, green: 2, blue: 3 },
            Color { red: 4, green: 5, blue: 6 },
        ]
    );
}

#[test]
fn parse_palette_absent_or_ragged_is_none() {
    let no_plte = vec![Chunk { length: 0, chunk_type: ChunkType::Iend, chunk_data: None }];
    assert!(parse_palette(&no_plte).is_none());
    let ragged = vec![Chunk {
        length: 4,
        chunk_type: ChunkType::Plte,
        chunk_data: Some(vec![1, 2, 3, 4]),
    }];
    assert!(parse_palette(&ragged).is_none());
}

#[test]
fn collect_idat_concatenates_in_order() {
    let chunks = vec![
        Chunk { length: 2, chunk_type: ChunkType::Idat, chunk_data: Some(vec![1, 2]) },
        Chunk {
            length: 4,
            chunk_type: ChunkType::Ancillary(b"tEXt".to_vec()),
            chunk_data: Some(vec![9, 9, 9, 9]),
        },
        Chunk { length: 3, chunk_type: ChunkType::Idat, chunk_data: Some(vec![3, 4, 5]) },
        Chunk { length: 0, chunk_type: ChunkType::Idat, chunk_data: None },
    ];
    assert_eq!(collect_idat_data(chunks), vec![1, 2, 3, 4, 5]);
}

#[test]
fn chunk_from_buffer_rejects_short_buffer() {
    let buf = vec![0u8; 10];
    match Chunk::from_buffer_index(0, &buf) {
        Err(PngError::WrongFormat(s)) => assert_eq!(s, "truncated"),
        other => panic!("unexpected {:?}", other),
    }
}

#[test]
fn zero_width_image_decodes_to_empty_rows() {
    let red = Color { red: 255, green: 0, blue: 0 };
    let img = indexed_image(0, 2, 8, vec![red], vec![]);
    let grid = decode_png(&img).unwrap();
    assert_eq!(grid, vec![Vec::<Color>::new(), Vec::<Color>::new()]);
}

#[test]
fn zero_height_image_decodes_to_no_rows() {
    let red = Color { red: 255, green: 0, blue: 0 };
    let img = indexed_image(3, 0, 8, vec![red], vec![]);
    let grid = decode_png(&img).unwrap();
    assert_eq!(grid, Vec::<Vec<Color>>::new());
}

#[test]
fn ragged_palette_counts_as_missing() {
    // A PLTE payload that is not a whole number of RGB triples cannot be
    // used; an indexed image then fails as if the palette were missing.
    let mut buf = SIGNATURE.to_vec();
    buf.extend_from_slice(&chunk(b"IHDR", &ihdr_payload(1, 1, 8, 3, 0)));
    buf.extend_from_slice(&chunk(b"PLTE", &[255, 0, 0, 7]));
    buf.extend_from_slice(&chunk(b"IDAT", &zlib(&[0, 0])));
    buf.extend_from_slice(&chunk(b"IEND", &[]));
    match parse_png(&buf) {
        Err(PngError::WrongFormat(s)) => assert_eq!(s, "PLTE chunk missing"),
        other => panic!("unexpected {:?}", other),
    }
}

#[test]
fn error_messages_describe_each_kind() {
    assert_eq!(PngError::NotAPng.message(), "File is not png format");
    assert_eq!(PngError::ChecksumFailure.message(), "Checksum incorrect");
    assert_eq!(
        PngError::WrongFormat("truncated".to_string()).message(),
        "Incorrect png format: truncated"
    );
    assert_eq!(PngError::DecompressionFailed.message(), "Decompression failed!");
    assert_eq!(
        PngError::NotSupported("interlacing".to_string()).message(),
        "Not supported: interlacing"
    );
    assert_eq!(PngError::CouldNotReadFile.message(), "Could not read the file");
    assert_eq!(PngError::FilterNotSupported(9).message(), "Filter type not supported");
}
