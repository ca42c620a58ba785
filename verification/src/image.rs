//! Header interpretation and the parsing pipeline: from a raw PNG buffer
//! to a `PngImage` holding the header metadata, the palette, and the
//! reconstructed (defiltered) image data.

use vstd::prelude::*;
use crate::error::{ErrorModel, PngError};
use crate::inflate::{decompress, inflate_of};
use crate::parser::{
    be_u32_at, check_if_png, chunk_crc_ok, chunk_fits, chunk_len, collect_idat_data, frame_from,
    frame_reaches, idat_data_of, is_png_signature, lemma_frame_detects_corruption,
    lemma_reaches_le, models_of, palette_of, parse_chunks, parse_palette, read_be_u32, ChunkModel,
    ChunkType, Color, ColorType, CompressionMethod, FilterMethod, FrameOutcome, InterlaceMethod,
};
use crate::recon::{recon_outcome, reconstruct};

verus! {

/// A parsed PNG image: the header metadata, the palette when present,
/// and the reconstructed image data (raw sample bytes, filter-type bytes
/// removed; not yet decoded to RGB values).
#[derive(Debug)]
pub struct PngImage {
    pub width: u32,
    pub height: u32,
    pub bit_depth: u8,
    pub color_type: ColorType,
    pub compression_method: CompressionMethod,
    pub filter_method: FilterMethod,
    pub interlace_method: InterlaceMethod,
    pub palette: Option<Vec<Color>>,
    pub data: Vec<u8>,
}

/// The mathematical shape of a `PngImage`.
pub struct ImageModel {
    pub width: u32,
    pub height: u32,
    pub bit_depth: u8,
    pub color_type: ColorType,
    pub compression_method: CompressionMethod,
    pub filter_method: FilterMethod,
    pub interlace_method: InterlaceMethod,
    pub palette: Option<Seq<Color>>,
    pub data: Seq<u8>,
}

impl View for PngImage {
    type V = ImageModel;

    open spec fn view(&self) -> ImageModel {
        ImageModel {
            width: self.width,
            height: self.height,
            bit_depth: self.bit_depth,
            color_type: self.color_type,
            compression_method: self.compression_method,
            filter_method: self.filter_method,
            interlace_method: self.interlace_method,
            palette: match self.palette {
                Some(p) => Some(p@),
                None => None,
            },
            data: self.data@,
        }
    }
}

/// The color model named by a header color-type code.
pub open spec fn color_type_of_code(code: u8) -> Option<ColorType> {
    if code == 0 {
        Some(ColorType::Grayscale)
    } else if code == 2 {
        Some(ColorType::Truecolor)
    } else if code == 3 {
        Some(ColorType::IndexedColor)
    } else if code == 4 {
        Some(ColorType::GrayScaleWithAlpha)
    } else if code == 6 {
        Some(ColorType::TrueColorWithAlpha)
    } else {
        None
    }
}

/// What interpreting a framed chunk sequence yields: the image, or the
/// first violation, checked in pipeline order. The mandatory first chunk
/// must be a 13-byte `Ihrd`; each header code must belong to its closed
/// enumeration; interlacing and color models other than indexed are
/// recognized but not supported; an indexed image must carry a non-empty
/// palette; the aggregated image data must inflate and reconstruct.
pub open spec fn interpret_chunks(cs: Seq<ChunkModel>) -> Result<ImageModel, ErrorModel> {
    if cs.len() == 0 || !(cs[0].chunk_type is Ihrd) {
        Err(ErrorModel::WrongFormat("First chunk type != IHDR"@))
    } else if cs[0].data.len() == 0 {
        Err(ErrorModel::WrongFormat("IHDR chunk has no chunk data"@))
    } else if cs[0].data.len() != 13 {
        Err(ErrorModel::WrongFormat("IHDR chunk len != 13"@))
    } else {
        let h = cs[0].data;
        if color_type_of_code(h[9]) is None {
            Err(ErrorModel::WrongFormat("Invalid color type"@))
        } else if h[10] != 0 {
            Err(ErrorModel::WrongFormat("Invalid compression method"@))
        } else if h[11] != 0 {
            Err(ErrorModel::WrongFormat("Invalid filter method"@))
        } else if h[12] != 0 && h[12] != 1 {
            Err(ErrorModel::WrongFormat("Invalid interlace method"@))
        } else if h[12] == 1 {
            Err(ErrorModel::NotSupported("interlacing"@))
        } else if !(color_type_of_code(h[9]) == Some(ColorType::IndexedColor)) {
            Err(ErrorModel::NotSupported("only indexed color supported"@))
        } else {
            let width = be_u32_at(h, 0);
            let height = be_u32_at(h, 4);
            let bit_depth = h[8];
            match palette_of(cs) {
                None => Err(ErrorModel::WrongFormat("PLTE chunk missing"@)),
                Some(p) => if p.len() == 0 {
                    Err(ErrorModel::WrongFormat("PLTE chunk missing"@))
                } else {
                    match inflate_of(idat_data_of(cs)) {
                        None => Err(ErrorModel::DecompressionFailed),
                        Some(inflated) => match recon_outcome(
                            inflated,
                            width,
                            height,
                            bit_depth,
                            ColorType::IndexedColor,
                        ) {
                            Err(e) => Err(e),
                            Ok(data) => Ok(
                                ImageModel {
                                    width,
                                    height,
                                    bit_depth,
                                    color_type: ColorType::IndexedColor,
                                    compression_method: CompressionMethod::DeflateInflate,
                                    filter_method: FilterMethod::FiveTypeAdaptive,
                                    interlace_method: InterlaceMethod::NoInterlace,
                                    palette: Some(p),
                                    data,
                                },
                            ),
                        },
                    }
                },
            }
        }
    }
}

/// What parsing a raw buffer yields: signature check, framing with CRC
/// validation, then chunk interpretation.
pub open spec fn parse_outcome(buf: Seq<u8>) -> Result<ImageModel, ErrorModel> {
    if !is_png_signature(buf) {
        Err(ErrorModel::NotAPng)
    } else {
        match frame_from(buf, 8) {
            FrameOutcome::Truncated => Err(ErrorModel::WrongFormat("truncated"@)),
            FrameOutcome::BadChecksum => Err(ErrorModel::ChecksumFailure),
            FrameOutcome::Chunks(cs) => interpret_chunks(cs),
        }
    }
}

/// Any buffer whose first eight bytes differ from the fixed PNG
/// signature is rejected with `NotAPng`, whatever the remaining content.
pub proof fn lemma_bad_signature_rejected(buf: Seq<u8>)
    requires
        !is_png_signature(buf),
    ensures
        parse_outcome(buf) == Err::<ImageModel, ErrorModel>(ErrorModel::NotAPng),
{
}

/// Mutating any single byte inside the tag or payload of a chunk that
/// framing visits — with the rest of the buffer unchanged — makes
/// parsing fail with `ChecksumFailure`.
pub proof fn lemma_parse_detects_corruption(buf1: Seq<u8>, buf2: Seq<u8>, idx: int, i: int)
    requires
        is_png_signature(buf1),
        buf1.len() == buf2.len(),
        frame_reaches(buf1, 8, idx),
        chunk_fits(buf1, idx),
        chunk_crc_ok(buf1, idx),
        idx + 4 <= i < idx + 8 + chunk_len(buf1, idx),
        buf1[i] != buf2[i],
        forall|j: int| 0 <= j < buf1.len() && j != i ==> buf1[j] == buf2[j],
    ensures
        parse_outcome(buf2) == Err::<ImageModel, ErrorModel>(ErrorModel::ChecksumFailure),
{
    lemma_reaches_le(buf1, 8, idx);
    assert(forall|j: int| 0 <= j < 8 ==> buf1[j] == buf2[j]);
    assert(is_png_signature(buf2));
    lemma_frame_detects_corruption(buf1, buf2, idx, i);
}

proof fn lemma_frame_chunks_nonempty(buf: Seq<u8>, idx: int)
    requires
        frame_from(buf, idx) is Chunks,
    ensures
        frame_from(buf, idx)->Chunks_0.len() >= 1,
    decreases buf.len() - idx,
{
}

/// Parse the contents of a PNG buffer and return a `PngImage` holding
/// the parsed metadata, the palette and the reconstructed image data.
/// This does not include conversion from raw samples to RGB values, only
/// framing, header interpretation, decompression and reconstruction.
pub fn parse_png(buffer: &Vec<u8>) -> (r: Result<PngImage, PngError>)
    ensures
        match parse_outcome(buffer@) {
            Ok(m) => (r matches Ok(img) && img@ == m),
            Err(e) => (r matches Err(pe) && pe@ == e),
        },
{
    match check_if_png(buffer.as_slice()) {
        Ok(_) => {},
        Err(e) => {
            return Err(e);
        },
    }
    let chunks = match parse_chunks(buffer) {
        Ok(cs) => cs,
        Err(e) => {
            return Err(e);
        },
    };
    let ghost cs = models_of(chunks@);
    proof {
        lemma_frame_chunks_nonempty(buffer@, 8);
        assert(cs[0] == chunks@[0]@);
    }

    // The mandatory first chunk is a 13-byte IHDR.
    if !matches!(chunks[0].chunk_type, ChunkType::Ihrd) {
        return Err(PngError::WrongFormat("First chunk type != IHDR".to_owned()));
    }
    let ihdr_data = match &chunks[0].chunk_data {
        None => {
            return Err(PngError::WrongFormat("IHDR chunk has no chunk data".to_owned()));
        },
        Some(d) => d,
    };
    if ihdr_data.len() == 0 {
        return Err(PngError::WrongFormat("IHDR chunk has no chunk data".to_owned()));
    }
    if ihdr_data.len() != 13 {
        return Err(PngError::WrongFormat("IHDR chunk len != 13".to_owned()));
    }

    // The header fields, big-endian, with each code validated against
    // its closed enumeration.
    let width = read_be_u32(ihdr_data, 0);
    let height = read_be_u32(ihdr_data, 4);
    let bit_depth = ihdr_data[8];
    let color_code = ihdr_data[9];
    let color_type = if color_code == 0 {
        ColorType::Grayscale
    } else if color_code == 2 {
        ColorType::Truecolor
    } else if color_code == 3 {
        ColorType::IndexedColor
    } else if color_code == 4 {
        ColorType::GrayScaleWithAlpha
    } else if color_code == 6 {
        ColorType::TrueColorWithAlpha
    } else {
        return Err(PngError::WrongFormat("Invalid color type".to_owned()));
    };
    if ihdr_data[10] != 0 {
        return Err(PngError::WrongFormat("Invalid compression method".to_owned()));
    }
    let compression_method = CompressionMethod::DeflateInflate;
    if ihdr_data[11] != 0 {
        return Err(PngError::WrongFormat("Invalid filter method".to_owned()));
    }
    let filter_method = FilterMethod::FiveTypeAdaptive;
    let interlace_code = ihdr_data[12];
    if interlace_code != 0 && interlace_code != 1 {
        return Err(PngError::WrongFormat("Invalid interlace method".to_owned()));
    }
    // Adam7 interlacing is recognized but not supported.
    if interlace_code == 1 {
        return Err(PngError::NotSupported("interlacing".to_owned()));
    }
    let interlace_method = InterlaceMethod::NoInterlace;
    // This pipeline only supports indexed-color images end to end.
    if !matches!(color_type, ColorType::IndexedColor) {
        return Err(PngError::NotSupported("only indexed color supported".to_owned()));
    }

    // An indexed image must carry a non-empty palette.
    let palette = match parse_palette(&chunks) {
        Some(p) => p,
        None => {
            return Err(PngError::WrongFormat("PLTE chunk missing".to_owned()));
        },
    };
    if palette.len() == 0 {
        return Err(PngError::WrongFormat("PLTE chunk missing".to_owned()));
    }

    // Aggregate the image data, inflate it and reverse the filtering.
    let idat_data = collect_idat_data(chunks);
    let decompressed = match decompress(&idat_data) {
        Ok(d) => d,
        Err(e) => {
            return Err(e);
        },
    };
    let data = match reconstruct(
        decompressed.as_slice(),
        width,
        height,
        bit_depth,
        ColorType::IndexedColor,
    ) {
        Ok(d) => d,
        Err(e) => {
            return Err(e);
        },
    };

    Ok(
        PngImage {
            width,
            height,
            bit_depth,
            color_type,
            compression_method,
            filter_method,
            interlace_method,
            palette: Some(palette),
            data,
        },
    )
}

} // verus!
