//! Pixel decoding: interpreting reconstructed sample bytes according to
//! the color model and bit depth, producing a row-major grid of RGB
//! colors. Sub-byte samples are packed most-significant-bit first within
//! each byte; a final partial byte may hold unused padding bits.

use vstd::prelude::*;
use vstd::arithmetic::div_mod::lemma_fundamental_div_mod_converse;
use crate::image::{ImageModel, PngImage};
use crate::parser::{Color, ColorType};

verus! {

/// The sample mask for a sub-byte or byte-wide bit depth.
pub open spec fn spec_mask(depth: nat) -> u32 {
    if depth == 1 {
        1
    } else if depth == 2 {
        3
    } else if depth == 4 {
        15
    } else if depth == 8 {
        255
    } else {
        0
    }
}

/// Bytes per scanline for one sample channel: `ceil(width * depth / 8)`.
pub open spec fn spec_bps1(width: u32, depth: u8) -> nat {
    ((width * depth + 7) / 8) as nat
}

/// The raw sample value at `(row, col)`: `depth` bits, packed
/// most-significant-bit first within each scanline byte.
pub open spec fn sample_at(d: Seq<u8>, bps: nat, depth: nat, row: int, col: int) -> u8 {
    let bit = col * depth;
    let sh = (8 - depth - (bit % 8)) as u32;
    (((d[row * bps + bit / 8] as u32) >> sh) & spec_mask(depth)) as u8
}

/// Whether every sample of the image lies below `limit`.
pub open spec fn samples_in_range(
    d: Seq<u8>,
    bps: nat,
    depth: nat,
    width: nat,
    height: nat,
    limit: int,
) -> bool {
    forall|r: int, c: int|
        0 <= r < height && 0 <= c < width ==> (sample_at(d, bps, depth, r, c) as int) < limit
}

/// One decoded row of an indexed-color image: each sample looks the
/// palette up by position.
pub open spec fn indexed_row_spec(
    d: Seq<u8>,
    bps: nat,
    depth: nat,
    pal: Seq<Color>,
    width: nat,
    row: int,
) -> Seq<Color> {
    Seq::new(width, |c: int| pal[sample_at(d, bps, depth, row, c) as int])
}

/// The decoded grid of an indexed-color image.
pub open spec fn indexed_grid(
    d: Seq<u8>,
    bps: nat,
    depth: nat,
    pal: Seq<Color>,
    width: nat,
    height: nat,
) -> Seq<Seq<Color>> {
    Seq::new(height, |r: int| indexed_row_spec(d, bps, depth, pal, width, r))
}

/// The depth-dependent multiplier rescaling a raw grayscale sample to an
/// 8-bit intensity.
pub open spec fn spec_scale(depth: nat) -> u8 {
    if depth == 1 {
        255
    } else if depth == 2 {
        85
    } else if depth == 4 {
        17
    } else if depth == 8 {
        1
    } else {
        0
    }
}

/// One decoded row of a grayscale image: each rescaled sample replicated
/// into red, green and blue.
pub open spec fn gray_row_spec(d: Seq<u8>, bps: nat, depth: nat, width: nat, row: int) -> Seq<
    Color,
> {
    Seq::new(
        width,
        |c: int|
            {
                let v = (sample_at(d, bps, depth, row, c) * spec_scale(depth)) as u8;
                Color { red: v, green: v, blue: v }
            },
    )
}

/// The decoded grid of a grayscale image.
pub open spec fn gray_grid(d: Seq<u8>, bps: nat, depth: nat, width: nat, height: nat) -> Seq<
    Seq<Color>,
> {
    Seq::new(height, |r: int| gray_row_spec(d, bps, depth, width, r))
}

/// Bytes per pixel sample group of a truecolor model: three channels, or
/// four when an alpha channel is present.
pub open spec fn spec_bpp(ct: ColorType) -> nat {
    match ct {
        ColorType::Truecolor => 3,
        ColorType::TrueColorWithAlpha => 4,
        _ => 0,
    }
}

/// Bytes per scanline of a truecolor image.
pub open spec fn tc_bps(width: u32, depth: u8, bpp: nat) -> nat {
    (bpp * width * (depth / 8)) as nat
}

/// One decoded truecolor pixel: the first byte of each of the first
/// three channels; alpha bytes, if present, are skipped.
pub open spec fn tc_pixel(d: Seq<u8>, bps: nat, bpc: nat, bpp: nat, row: int, c: int) -> Color {
    let base = row * bps + c * (bpc * bpp);
    Color { red: d[base], green: d[base + bpc], blue: d[base + 2 * bpc] }
}

/// One decoded row of a truecolor image.
pub open spec fn tc_row_spec(d: Seq<u8>, bps: nat, bpc: nat, bpp: nat, width: nat, row: int) -> Seq<
    Color,
> {
    Seq::new(width, |c: int| tc_pixel(d, bps, bpc, bpp, row, c))
}

/// The decoded grid of a truecolor image.
pub open spec fn tc_grid(d: Seq<u8>, bps: nat, bpc: nat, bpp: nat, width: nat, height: nat) -> Seq<
    Seq<Color>,
> {
    Seq::new(height, |r: int| tc_row_spec(d, bps, bpc, bpp, width, r))
}

/// Whether `depth` is a packed sample depth the bit unpacker handles.
pub open spec fn is_packed_depth(depth: u8) -> bool {
    depth == 1 || depth == 2 || depth == 4 || depth == 8
}

/// What pixel decoding of a parsed image yields: the decoded grid when
/// the color model is supported and the image's data is consistent with
/// its header (valid bit depth for the model, data length matching
/// `height` scanlines, and — for indexed color — a palette that every
/// sample indexes in range), `None` otherwise.
pub open spec fn decode_outcome(m: ImageModel) -> Option<Seq<Seq<Color>>> {
    match m.color_type {
        ColorType::IndexedColor => {
            let bps = spec_bps1(m.width, m.bit_depth);
            if is_packed_depth(m.bit_depth) && m.palette is Some && m.data.len() == m.height * bps
                && samples_in_range(
                m.data,
                bps,
                m.bit_depth as nat,
                m.width as nat,
                m.height as nat,
                m.palette->0.len() as int,
            ) {
                Some(
                    indexed_grid(
                        m.data,
                        bps,
                        m.bit_depth as nat,
                        m.palette->0,
                        m.width as nat,
                        m.height as nat,
                    ),
                )
            } else {
                None
            }
        },
        ColorType::Grayscale => {
            let bps = spec_bps1(m.width, m.bit_depth);
            if is_packed_depth(m.bit_depth) && m.data.len() == m.height * bps {
                Some(gray_grid(m.data, bps, m.bit_depth as nat, m.width as nat, m.height as nat))
            } else {
                None
            }
        },
        ColorType::Truecolor | ColorType::TrueColorWithAlpha => {
            let bpp = spec_bpp(m.color_type);
            let bps = tc_bps(m.width, m.bit_depth, bpp);
            if (m.bit_depth == 8 || m.bit_depth == 16) && m.data.len() == m.height * bps {
                Some(
                    tc_grid(
                        m.data,
                        bps,
                        (m.bit_depth / 8) as nat,
                        bpp,
                        m.width as nat,
                        m.height as nat,
                    ),
                )
            } else {
                None
            }
        },
        ColorType::GrayScaleWithAlpha => None,
    }
}

/// Compute the sample mask for a packed bit depth.
fn mask_for(depth: u8) -> (m: u32)
    requires
        is_packed_depth(depth),
    ensures
        m == spec_mask(depth as nat),
        m <= 255,
{
    if depth == 1 {
        1
    } else if depth == 2 {
        3
    } else if depth == 4 {
        15
    } else {
        255
    }
}

/// Unpack the `width` packed samples of one scanline, most significant
/// bits first.
fn unpack_row(data: &Vec<u8>, bps: usize, depth: u8, width: usize, row: usize) -> (samples: Vec<u8>)
    requires
        is_packed_depth(depth),
        width * depth <= bps * 8,
        row * bps + bps <= data@.len(),
    ensures
        samples@.len() == width,
        forall|c: int|
            0 <= c < width ==> samples@[c] == sample_at(
                data@,
                bps as nat,
                depth as nat,
                row as int,
                c,
            ),
{
    let ghost d = data@;
    let dn = data.len();
    let mask = mask_for(depth);
    proof {
        assert((8int - 1) % 1 == 0 && (8int - 2) % 2 == 0 && (8int - 4) % 4 == 0 && (8int - 8) % 8
            == 0);
    }
    let mut samples: Vec<u8> = Vec::new();
    let mut col: usize = 0;
    let mut byte_off: usize = 0;
    let mut shift: u32 = 8 - depth as u32;
    while col < width
        invariant
            d == data@,
            dn == d.len(),
            is_packed_depth(depth),
            mask == spec_mask(depth as nat),
            mask <= 255,
            width * depth <= bps * 8,
            row * bps + bps <= d.len(),
            col <= width,
            samples@.len() == col,
            forall|c: int|
                0 <= c < col ==> samples@[c] == sample_at(d, bps as nat, depth as nat, row as int, c),
            col * depth == byte_off * 8 + (8 - depth - shift),
            0 <= shift <= 8 - depth,
            (shift as int) % (depth as int) == 0,
        decreases width - col,
    {
        proof {
            assert(col * depth < width * depth) by (nonlinear_arith)
                requires
                    col < width,
                    depth > 0,
            ;
            assert(byte_off < bps);
            assert(row * bps + byte_off < row * bps + bps);
        }
        let idx = row * bps + byte_off;
        let byte = data[idx];
        proof {
            assert((((byte as u32) >> shift) & mask) <= mask) by (bit_vector);
        }
        let v: u8 = (((byte as u32) >> shift) & mask) as u8;
        proof {
            let bit = (col * depth) as int;
            lemma_fundamental_div_mod_converse(bit, 8, byte_off as int, 8 - depth - shift);
            assert(bit / 8 == byte_off as int && bit % 8 == 8 - depth - shift);
            assert(v == sample_at(d, bps as nat, depth as nat, row as int, col as int));
        }
        samples.push(v);
        proof {
            assert((col + 1) * depth == col * depth + depth) by (nonlinear_arith);
        }
        col += 1;
        if shift >= depth as u32 {
            shift = shift - depth as u32;
        } else {
            proof {
                assert(shift == 0);
            }
            byte_off += 1;
            shift = 8 - depth as u32;
        }
    }
    samples
}

/// Check that every sample of the image indexes below `limit`.
fn indexed_samples_ok(
    data: &Vec<u8>,
    bps: usize,
    depth: u8,
    width: usize,
    height: usize,
    limit: usize,
) -> (b: bool)
    requires
        is_packed_depth(depth),
        width * depth <= bps * 8,
        height * bps <= data@.len(),
    ensures
        b == samples_in_range(
            data@,
            bps as nat,
            depth as nat,
            width as nat,
            height as nat,
            limit as int,
        ),
{
    let ghost d = data@;
    let mut r: usize = 0;
    while r < height
        invariant
            d == data@,
            is_packed_depth(depth),
            width * depth <= bps * 8,
            height * bps <= d.len(),
            r <= height,
            forall|rr: int, c: int|
                0 <= rr < r && 0 <= c < width ==> (sample_at(
                    d,
                    bps as nat,
                    depth as nat,
                    rr,
                    c,
                ) as int) < limit,
        decreases height - r,
    {
        proof {
            assert((r + 1) * bps <= height * bps) by (nonlinear_arith)
                requires
                    r < height,
                    bps >= 0,
            ;
            assert((r + 1) * bps == r * bps + bps) by (nonlinear_arith);
        }
        let samples = unpack_row(data, bps, depth, width, r);
        let mut c: usize = 0;
        while c < width
            invariant
                d == data@,
                r < height,
                c <= width,
                samples@.len() == width,
                forall|cc: int|
                    0 <= cc < width ==> samples@[cc] == sample_at(
                        d,
                        bps as nat,
                        depth as nat,
                        r as int,
                        cc,
                    ),
                forall|cc: int|
                    0 <= cc < c ==> (sample_at(d, bps as nat, depth as nat, r as int, cc) as int)
                        < limit,
            decreases width - c,
        {
            if samples[c] as usize >= limit {
                proof {
                    let rr = r as int;
                    let cc = c as int;
                    assert(0 <= rr < height && 0 <= cc < width);
                    assert((sample_at(d, bps as nat, depth as nat, rr, cc) as int) >= limit);
                    assert(!samples_in_range(
                        d,
                        bps as nat,
                        depth as nat,
                        width as nat,
                        height as nat,
                        limit as int,
                    ));
                }
                return false;
            }
            c += 1;
        }
        r += 1;
    }
    true
}

proof fn lemma_sample_bounded(d: Seq<u8>, bps: nat, depth: nat, row: int, col: int)
    requires
        depth == 1 || depth == 2 || depth == 4 || depth == 8,
    ensures
        (sample_at(d, bps, depth, row, col) as u32) <= spec_mask(depth),
{
    let bit = col * depth;
    let x = d[row * bps + bit / 8] as u32;
    let sh = (8 - depth - (bit % 8)) as u32;
    let m = spec_mask(depth);
    assert(m <= 255 ==> ((x >> sh) & m) <= m) by (bit_vector);
}

proof fn lemma_ceil_div8(x: int)
    requires
        x >= 0,
    ensures
        8 * ((x + 7) / 8) >= x,
{
    assert(x + 7 == 8 * ((x + 7) / 8) + ((x + 7) % 8));
}

/// Decode the pixels of a parsed image in indexed-color format: each
/// raw sample is a palette index; the result holds one row per
/// scanline and one color per pixel.
pub fn png_indexed_color_to_pixels(png_file: &PngImage) -> (r: Vec<Vec<Color>>)
    requires
        is_packed_depth(png_file.bit_depth),
        png_file@.palette is Some,
        png_file@.data.len() == png_file.height * spec_bps1(png_file.width, png_file.bit_depth),
        samples_in_range(
            png_file@.data,
            spec_bps1(png_file.width, png_file.bit_depth),
            png_file.bit_depth as nat,
            png_file.width as nat,
            png_file.height as nat,
            png_file@.palette->0.len() as int,
        ),
    ensures
        r@.len() == png_file.height,
        forall|i: int|
            0 <= i < r@.len() ==> r@[i]@ == indexed_row_spec(
                png_file@.data,
                spec_bps1(png_file.width, png_file.bit_depth),
                png_file.bit_depth as nat,
                png_file@.palette->0,
                png_file.width as nat,
                i,
            ),
{
    let ghost d = png_file@.data;
    let ghost bpsg = spec_bps1(png_file.width, png_file.bit_depth);
    let depth = png_file.bit_depth;
    let w = png_file.width as usize;
    let h = png_file.height as usize;
    proof {
        assert((png_file.width as int) * (depth as int) <= 0xFFFFFFFFi64 * 255) by (nonlinear_arith)
            requires
                png_file.width <= 0xFFFFFFFFu32,
                depth <= 255,
        ;
    }
    let bps64: u64 = ((png_file.width as u64) * (depth as u64) + 7) / 8;
    proof {
        assert(bps64 == bpsg);
    }
    let mut res: Vec<Vec<Color>> = Vec::new();
    if h == 0 {
        return res;
    }
    let dn = png_file.data.len();
    proof {
        assert(1 * bps64 <= (h as int) * bps64) by (nonlinear_arith)
            requires
                1 <= h as int,
                bps64 >= 0,
        ;
        assert((h as int) * bps64 == d.len());
    }
    let bps = bps64 as usize;
    let palette = png_file.palette.as_ref().unwrap();
    let ghost pal = png_file@.palette->0;
    let pal_len = palette.len();
    proof {
        lemma_ceil_div8((png_file.width as int) * (depth as int));
        assert(w * depth == (png_file.width as int) * (depth as int));
    }
    let mut r_idx: usize = 0;
    while r_idx < h
        invariant
            d == png_file@.data,
            pal == png_file@.palette->0,
            palette@ == pal,
            pal_len == pal.len(),
            dn == d.len(),
            is_packed_depth(depth),
            depth == png_file.bit_depth,
            bps == bpsg,
            bpsg == spec_bps1(png_file.width, png_file.bit_depth),
            w == png_file.width,
            h == png_file.height,
            w * depth <= bps * 8,
            d.len() == h * bps,
            samples_in_range(d, bps as nat, depth as nat, w as nat, h as nat, pal_len as int),
            r_idx <= h,
            res@.len() == r_idx,
            forall|i: int|
                0 <= i < r_idx ==> res@[i]@ == indexed_row_spec(
                    d,
                    bps as nat,
                    depth as nat,
                    pal,
                    w as nat,
                    i,
                ),
        decreases h - r_idx,
    {
        proof {
            assert((r_idx + 1) * bps <= h * bps) by (nonlinear_arith)
                requires
                    r_idx < h,
                    bps >= 0,
            ;
            assert((r_idx + 1) * bps == r_idx * bps + bps) by (nonlinear_arith);
        }
        let samples = unpack_row(&png_file.data, bps, depth, w, r_idx);
        let mut scanline: Vec<Color> = Vec::new();
        let mut c: usize = 0;
        while c < w
            invariant
                d == png_file@.data,
                palette@ == pal,
                pal_len == pal.len(),
                r_idx < h,
                c <= w,
                samples@.len() == w,
                forall|cc: int|
                    0 <= cc < w ==> samples@[cc] == sample_at(
                        d,
                        bps as nat,
                        depth as nat,
                        r_idx as int,
                        cc,
                    ),
                samples_in_range(d, bps as nat, depth as nat, w as nat, h as nat, pal_len as int),
                scanline@.len() == c,
                forall|cc: int|
                    0 <= cc < c ==> scanline@[cc] == pal[sample_at(
                        d,
                        bps as nat,
                        depth as nat,
                        r_idx as int,
                        cc,
                    ) as int],
            decreases w - c,
        {
            let s_val = samples[c] as usize;
            proof {
                assert((sample_at(d, bps as nat, depth as nat, r_idx as int, c as int) as int)
                    < pal_len);
            }
            scanline.push(palette[s_val]);
            c += 1;
        }
        proof {
            assert(scanline@ =~= indexed_row_spec(
                d,
                bps as nat,
                depth as nat,
                pal,
                w as nat,
                r_idx as int,
            ));
        }
        res.push(scanline);
        r_idx += 1;
    }
    res
}

/// Decode the pixels of a parsed image in grayscale format: each raw
/// sample is linearly rescaled to an 8-bit intensity and replicated
/// into red, green and blue.
pub fn png_grayscale_to_pixels(png_file: &PngImage) -> (r: Vec<Vec<Color>>)
    requires
        is_packed_depth(png_file.bit_depth),
        png_file@.data.len() == png_file.height * spec_bps1(png_file.width, png_file.bit_depth),
    ensures
        r@.len() == png_file.height,
        forall|i: int|
            0 <= i < r@.len() ==> r@[i]@ == gray_row_spec(
                png_file@.data,
                spec_bps1(png_file.width, png_file.bit_depth),
                png_file.bit_depth as nat,
                png_file.width as nat,
                i,
            ),
{
    let ghost d = png_file@.data;
    let ghost bpsg = spec_bps1(png_file.width, png_file.bit_depth);
    let depth = png_file.bit_depth;
    let w = png_file.width as usize;
    let h = png_file.height as usize;
    let scale_factor: u8 = if depth == 1 {
        255
    } else if depth == 2 {
        85
    } else if depth == 4 {
        17
    } else {
        1
    };
    proof {
        assert((png_file.width as int) * (depth as int) <= 0xFFFFFFFFi64 * 255) by (nonlinear_arith)
            requires
                png_file.width <= 0xFFFFFFFFu32,
                depth <= 255,
        ;
    }
    let bps64: u64 = ((png_file.width as u64) * (depth as u64) + 7) / 8;
    proof {
        assert(bps64 == bpsg);
    }
    let mut res: Vec<Vec<Color>> = Vec::new();
    if h == 0 {
        return res;
    }
    let dn = png_file.data.len();
    proof {
        assert(1 * bps64 <= (h as int) * bps64) by (nonlinear_arith)
            requires
                1 <= h as int,
                bps64 >= 0,
        ;
        assert((h as int) * bps64 == d.len());
        lemma_ceil_div8((png_file.width as int) * (depth as int));
        assert(w * depth == (png_file.width as int) * (depth as int));
    }
    let bps = bps64 as usize;
    let mut r_idx: usize = 0;
    while r_idx < h
        invariant
            d == png_file@.data,
            is_packed_depth(depth),
            depth == png_file.bit_depth,
            scale_factor == spec_scale(depth as nat),
            bps == bpsg,
            bpsg == spec_bps1(png_file.width, png_file.bit_depth),
            w == png_file.width,
            h == png_file.height,
            w * depth <= bps * 8,
            d.len() == h * bps,
            r_idx <= h,
            res@.len() == r_idx,
            forall|i: int|
                0 <= i < r_idx ==> res@[i]@ == gray_row_spec(
                    d,
                    bps as nat,
                    depth as nat,
                    w as nat,
                    i,
                ),
        decreases h - r_idx,
    {
        proof {
            assert((r_idx + 1) * bps <= h * bps) by (nonlinear_arith)
                requires
                    r_idx < h,
                    bps >= 0,
            ;
            assert((r_idx + 1) * bps == r_idx * bps + bps) by (nonlinear_arith);
        }
        let samples = unpack_row(&png_file.data, bps, depth, w, r_idx);
        let mut scanline: Vec<Color> = Vec::new();
        let mut c: usize = 0;
        while c < w
            invariant
                d == png_file@.data,
                is_packed_depth(depth),
                scale_factor == spec_scale(depth as nat),
                r_idx < h,
                c <= w,
                samples@.len() == w,
                forall|cc: int|
                    0 <= cc < w ==> samples@[cc] == sample_at(
                        d,
                        bps as nat,
                        depth as nat,
                        r_idx as int,
                        cc,
                    ),
                scanline@.len() == c,
                forall|cc: int|
                    0 <= cc < c ==> scanline@[cc] == gray_row_spec(
                        d,
                        bps as nat,
                        depth as nat,
                        w as nat,
                        r_idx as int,
                    )[cc],
            decreases w - c,
        {
            let s_val = samples[c];
            proof {
                lemma_sample_bounded(d, bps as nat, depth as nat, r_idx as int, c as int);
                assert(spec_mask(depth as nat) * spec_scale(depth as nat) == 255);
                assert((s_val as int) * (scale_factor as int) <= spec_mask(depth as nat) * (
                scale_factor as int)) by (nonlinear_arith)
                    requires
                        0 <= s_val as int <= spec_mask(depth as nat),
                        scale_factor as int >= 0,
                ;
            }
            let v: u8 = s_val * scale_factor;
            scanline.push(Color { red: v, green: v, blue: v });
            c += 1;
        }
        proof {
            assert(scanline@ =~= gray_row_spec(d, bps as nat, depth as nat, w as nat, r_idx as int));
        }
        res.push(scanline);
        r_idx += 1;
    }
    res
}

/// Decode the pixels of a parsed image in truecolor format, reading the
/// first byte of each of the red, green and blue channels; alpha
/// channel bytes, when present, are skipped.
pub fn png_truecolor_to_pixels(png_file: &PngImage) -> (r: Vec<Vec<Color>>)
    requires
        png_file.color_type is Truecolor || png_file.color_type is TrueColorWithAlpha,
        png_file.bit_depth == 8 || png_file.bit_depth == 16,
        png_file@.data.len() == png_file.height * tc_bps(
            png_file.width,
            png_file.bit_depth,
            spec_bpp(png_file.color_type),
        ),
    ensures
        r@.len() == png_file.height,
        forall|i: int|
            0 <= i < r@.len() ==> r@[i]@ == tc_row_spec(
                png_file@.data,
                tc_bps(png_file.width, png_file.bit_depth, spec_bpp(png_file.color_type)),
                (png_file.bit_depth / 8) as nat,
                spec_bpp(png_file.color_type),
                png_file.width as nat,
                i,
            ),
{
    let ghost d = png_file@.data;
    let ghost bpsg = tc_bps(png_file.width, png_file.bit_depth, spec_bpp(png_file.color_type));
    let w = png_file.width as usize;
    let h = png_file.height as usize;
    let bpc: usize = (png_file.bit_depth / 8) as usize;
    let bpp: usize = if matches!(png_file.color_type, ColorType::Truecolor) {
        3
    } else {
        4
    };
    proof {
        assert((bpp as int) * (png_file.width as int) * (bpc as int) <= 4 * 0xFFFFFFFFi64 * 2)
            by (nonlinear_arith)
            requires
                png_file.width <= 0xFFFFFFFFu32,
                bpp <= 4,
                bpc <= 2,
        ;
    }
    let bps64: u64 = (bpp as u64) * (png_file.width as u64) * (bpc as u64);
    proof {
        assert(bps64 == bpsg);
    }
    let mut res: Vec<Vec<Color>> = Vec::new();
    if h == 0 {
        return res;
    }
    let dn = png_file.data.len();
    proof {
        assert(1 * bps64 <= (h as int) * bps64) by (nonlinear_arith)
            requires
                1 <= h as int,
                bps64 >= 0,
        ;
        assert((h as int) * bps64 == d.len());
    }
    let bps = bps64 as usize;
    let mut r_idx: usize = 0;
    while r_idx < h
        invariant
            d == png_file@.data,
            dn == d.len(),
            bps == bpsg,
            bpsg == tc_bps(png_file.width, png_file.bit_depth, spec_bpp(png_file.color_type)),
            w == png_file.width,
            h == png_file.height,
            bpc == png_file.bit_depth / 8,
            1 <= bpc <= 2,
            3 <= bpp <= 4,
            bpp == spec_bpp(png_file.color_type),
            bps == bpp * w * bpc,
            d.len() == h * bps,
            r_idx <= h,
            res@.len() == r_idx,
            forall|i: int|
                0 <= i < r_idx ==> res@[i]@ == tc_row_spec(
                    d,
                    bps as nat,
                    bpc as nat,
                    bpp as nat,
                    w as nat,
                    i,
                ),
        decreases h - r_idx,
    {
        proof {
            assert((r_idx + 1) * bps <= h * bps) by (nonlinear_arith)
                requires
                    r_idx < h,
                    bps >= 0,
            ;
            assert((r_idx + 1) * bps == r_idx * bps + bps) by (nonlinear_arith);
        }
        let row_start = r_idx * bps;
        let mut scanline: Vec<Color> = Vec::new();
        let mut c: usize = 0;
        while c < w
            invariant
                d == png_file@.data,
                dn == d.len(),
                r_idx < h,
                c <= w,
                1 <= bpc <= 2,
                3 <= bpp <= 4,
                bps == bpp * w * bpc,
                d.len() == h * bps,
                row_start == r_idx * bps,
                r_idx * bps + bps <= h * bps,
                scanline@.len() == c,
                forall|cc: int|
                    0 <= cc < c ==> scanline@[cc] == tc_pixel(
                        d,
                        bps as nat,
                        bpc as nat,
                        bpp as nat,
                        r_idx as int,
                        cc,
                    ),
            decreases w - c,
        {
            proof {
                assert((c as int) * ((bpc * bpp) as int) + 2 * bpc < (w as int) * ((bpc
                    * bpp) as int)) by (nonlinear_arith)
                    requires
                        c < w,
                        1 <= bpc <= 2,
                        3 <= bpp <= 4,
                ;
                assert((w as int) * ((bpc * bpp) as int) == (bpp * w * bpc) as int)
                    by (nonlinear_arith);
            }
            let pixel_off = c * (bpc * bpp);
            let red: u8 = png_file.data[row_start + pixel_off];
            let green: u8 = png_file.data[row_start + pixel_off + bpc];
            let blue: u8 = png_file.data[row_start + pixel_off + bpc * 2];
            scanline.push(Color { red, green, blue });
            c += 1;
        }
        proof {
            assert(scanline@ =~= tc_row_spec(
                d,
                bps as nat,
                bpc as nat,
                bpp as nat,
                w as nat,
                r_idx as int,
            ));
        }
        res.push(scanline);
        r_idx += 1;
    }
    res
}

/// Decode a parsed image to its grid of RGB colors with the decoder
/// matching its color model. Returns `None` when the color model is
/// unsupported, and when the image's data or palette is inconsistent
/// with its header.
pub fn decode_png(png_image: &PngImage) -> (r: Option<Vec<Vec<Color>>>)
    ensures
        match decode_outcome(png_image@) {
            Some(g) => (r matches Some(v) && v@.len() == g.len() && (forall|i: int|
                0 <= i < g.len() ==> v@[i]@ == g[i])),
            None => r is None,
        },
{
    let depth = png_image.bit_depth;
    match png_image.color_type {
        ColorType::Truecolor | ColorType::TrueColorWithAlpha => {
            if !(depth == 8 || depth == 16) {
                return None;
            }
            let bpc: u64 = (depth / 8) as u64;
            let bpp: u64 = if matches!(png_image.color_type, ColorType::Truecolor) {
                3
            } else {
                4
            };
            proof {
                assert((bpp as int) * (png_image.width as int) * (bpc as int) <= 4
                    * 0xFFFFFFFFi64 * 2) by (nonlinear_arith)
                    requires
                        png_image.width <= 0xFFFFFFFFu32,
                        bpp <= 4,
                        bpc <= 2,
                ;
            }
            let bps64: u64 = bpp * (png_image.width as u64) * bpc;
            proof {
                assert((png_image.height as int) * (bps64 as int) <= 0xFFFFFFFFi128
                    * 0xFFFFFFFFFFFFFFFFi128) by (nonlinear_arith)
                    requires
                        png_image.height <= 0xFFFFFFFFu32,
                        bps64 <= 0xFFFFFFFFFFFFFFFFu64,
                ;
            }
            if (png_image.data.len() as u128) != (png_image.height as u128) * (bps64 as u128) {
                return None;
            }
            Some(png_truecolor_to_pixels(png_image))
        },
        ColorType::IndexedColor => {
            if !(depth == 1 || depth == 2 || depth == 4 || depth == 8) {
                return None;
            }
            proof {
                assert((png_image.width as int) * (depth as int) <= 0xFFFFFFFFi64 * 255)
                    by (nonlinear_arith)
                    requires
                        png_image.width <= 0xFFFFFFFFu32,
                        depth <= 255,
                ;
            }
            let bps64: u64 = ((png_image.width as u64) * (depth as u64) + 7) / 8;
            proof {
                assert((png_image.height as int) * (bps64 as int) <= 0xFFFFFFFFi128
                    * 0xFFFFFFFFFFFFFFFFi128) by (nonlinear_arith)
                    requires
                        png_image.height <= 0xFFFFFFFFu32,
                        bps64 <= 0xFFFFFFFFFFFFFFFFu64,
                ;
            }
            if (png_image.data.len() as u128) != (png_image.height as u128) * (bps64 as u128) {
                return None;
            }
            let palette = match &png_image.palette {
                Some(p) => p,
                None => {
                    return None;
                },
            };
            if png_image.height > 0 {
                proof {
                    assert(1 * bps64 <= (png_image.height as int) * bps64) by (nonlinear_arith)
                        requires
                            1 <= png_image.height as int,
                            bps64 >= 0,
                    ;
                    lemma_ceil_div8((png_image.width as int) * (depth as int));
                }
                let bps = bps64 as usize;
                if !indexed_samples_ok(
                    &png_image.data,
                    bps,
                    depth,
                    png_image.width as usize,
                    png_image.height as usize,
                    palette.len(),
                ) {
                    return None;
                }
            }
            Some(png_indexed_color_to_pixels(png_image))
        },
        ColorType::Grayscale => {
            if !(depth == 1 || depth == 2 || depth == 4 || depth == 8) {
                return None;
            }
            proof {
                assert((png_image.width as int) * (depth as int) <= 0xFFFFFFFFi64 * 255)
                    by (nonlinear_arith)
                    requires
                        png_image.width <= 0xFFFFFFFFu32,
                        depth <= 255,
                ;
            }
            let bps64: u64 = ((png_image.width as u64) * (depth as u64) + 7) / 8;
            proof {
                assert((png_image.height as int) * (bps64 as int) <= 0xFFFFFFFFi128
                    * 0xFFFFFFFFFFFFFFFFi128) by (nonlinear_arith)
                    requires
                        png_image.height <= 0xFFFFFFFFu32,
                        bps64 <= 0xFFFFFFFFFFFFFFFFu64,
                ;
            }
            if (png_image.data.len() as u128) != (png_image.height as u128) * (bps64 as u128) {
                return None;
            }
            Some(png_grayscale_to_pixels(png_image))
        },
        ColorType::GrayScaleWithAlpha => None,
    }
}

/// Every decoded image has exactly `height` rows and every row exactly
/// `width` pixels.
pub proof fn lemma_decoded_dimensions(m: ImageModel)
    requires
        decode_outcome(m) is Some,
    ensures
        decode_outcome(m)->0.len() == m.height,
        forall|i: int| 0 <= i < m.height ==> decode_outcome(m)->0[i].len() == m.width,
{
}

} // verus!
