//! Scanline reconstruction: reversing the per-scanline adaptive
//! filtering applied before compression. Each scanline of the inflated
//! data is one filter-type byte followed by the filtered sample bytes;
//! each byte is reconstructed from its filtered value and up to three
//! previously reconstructed neighbor bytes.

use vstd::prelude::*;
use vstd::arithmetic::div_mod::lemma_fundamental_div_mod_converse;
use vstd::slice::slice_index_get;
use crate::error::{ErrorModel, PngError};
use crate::parser::ColorType;

verus! {

/// Number of channels (samples per pixel) of a color model.
pub open spec fn channels_of(c: ColorType) -> nat {
    match c {
        ColorType::Grayscale => 1,
        ColorType::Truecolor => 3,
        ColorType::IndexedColor => 1,
        ColorType::GrayScaleWithAlpha => 2,
        ColorType::TrueColorWithAlpha => 4,
    }
}

/// Bits per pixel: each channel is `bit_depth` bits wide.
pub open spec fn bits_per_pixel(c: ColorType, bit_depth: u8) -> nat {
    (channels_of(c) * bit_depth) as nat
}

/// Bytes needed to store one scanline, excluding the filter-type byte.
pub open spec fn spec_bytes_per_scanline(width: u32, c: ColorType, bit_depth: u8) -> nat {
    ((width * bits_per_pixel(c, bit_depth) + 7) / 8) as nat
}

/// The Paeth predictor: whichever of `a`, `b`, `c` is closest to
/// `a + b - c`, ties resolving to `a`, then `b`, then `c`.
pub open spec fn spec_paeth(a: int, b: int, c: int) -> int {
    let p = a + b - c;
    let pa = if p >= a {
        p - a
    } else {
        a - p
    };
    let pb = if p >= b {
        p - b
    } else {
        b - p
    };
    let pc = if p >= c {
        p - c
    } else {
        c - p
    };
    if pa <= pb && pa <= pc {
        a
    } else if pb <= pc {
        b
    } else {
        c
    }
}

/// The reconstructed value of one byte from its filtered value `fx` and
/// the reconstructed neighbors `a` (left), `b` (above), `c` (above
/// left), all arithmetic modulo 256.
pub open spec fn recon_byte_val(ft: u8, fx: u8, a: u8, b: u8, c: u8) -> u8 {
    if ft == 0 {
        fx
    } else if ft == 1 {
        ((fx + a) % 256) as u8
    } else if ft == 2 {
        ((fx + b) % 256) as u8
    } else if ft == 3 {
        ((fx + (a + b) / 2) % 256) as u8
    } else {
        ((fx + spec_paeth(a as int, b as int, c as int)) % 256) as u8
    }
}

/// The filter-type byte of scanline `s`.
pub open spec fn filter_type_at(d: Seq<u8>, bps: nat, s: int) -> u8 {
    d[s * (bps + 1)]
}

/// The reconstructed byte at flat position `k` (scanline `k / bps`, byte
/// `k % bps`), given the `k` bytes already reconstructed.
pub open spec fn recon_next(d: Seq<u8>, bps: nat, prev: Seq<u8>, k: int) -> u8 {
    let s = k / (bps as int);
    let i = k % (bps as int);
    let ft = filter_type_at(d, bps, s);
    let fx = d[s * (bps + 1) + 1 + i];
    let a = if i > 0 {
        prev[k - 1]
    } else {
        0u8
    };
    let b = if s > 0 {
        prev[k - bps]
    } else {
        0u8
    };
    let c = if s > 0 && i > 0 {
        prev[k - bps - 1]
    } else {
        0u8
    };
    recon_byte_val(ft, fx, a, b, c)
}

/// The first `n` bytes of the reconstructed image data.
pub open spec fn recon_seq(d: Seq<u8>, bps: nat, n: nat) -> Seq<u8>
    decreases n,
{
    if n == 0 {
        Seq::<u8>::empty()
    } else {
        let prev = recon_seq(d, bps, (n - 1) as nat);
        prev.push(recon_next(d, bps, prev, n - 1))
    }
}

/// The smallest scanline index at or after `s` whose filter-type byte is
/// not one of the five defined filters.
pub open spec fn first_bad_filter(d: Seq<u8>, bps: nat, height: nat, s: nat) -> Option<int>
    decreases height - s,
{
    if s >= height {
        None
    } else if filter_type_at(d, bps, s as int) > 4 {
        Some(s as int)
    } else {
        first_bad_filter(d, bps, height, s + 1)
    }
}

proof fn lemma_first_bad_none(d: Seq<u8>, bps: nat, height: nat, j: nat)
    requires
        j <= height,
        forall|t: int| j <= t < height ==> filter_type_at(d, bps, t) <= 4,
    ensures
        first_bad_filter(d, bps, height, j) is None,
    decreases height - j,
{
    if j < height {
        lemma_first_bad_none(d, bps, height, j + 1);
    }
}

proof fn lemma_first_bad_some(d: Seq<u8>, bps: nat, height: nat, j: nat, s: int)
    requires
        j <= s < height,
        forall|t: int| j <= t < s ==> filter_type_at(d, bps, t) <= 4,
        filter_type_at(d, bps, s) > 4,
    ensures
        first_bad_filter(d, bps, height, j) == Some(s),
    decreases s - j,
{
    if j < s {
        lemma_first_bad_some(d, bps, height, j + 1, s);
    }
}

/// What reconstruction of `d` yields: the defiltered bytes, a truncation
/// failure when `d` holds fewer than `height` whole scanlines, or the
/// first invalid filter-type byte.
pub open spec fn recon_outcome(
    d: Seq<u8>,
    width: u32,
    height: u32,
    bit_depth: u8,
    color_type: ColorType,
) -> Result<Seq<u8>, ErrorModel> {
    let bps = spec_bytes_per_scanline(width, color_type, bit_depth);
    if d.len() < height * (bps + 1) {
        Err(ErrorModel::WrongFormat("truncated"@))
    } else if bps > 0 && first_bad_filter(d, bps, height as nat, 0) is Some {
        Err(
            ErrorModel::FilterNotSupported(
                filter_type_at(d, bps, first_bad_filter(d, bps, height as nat, 0)->0),
            ),
        )
    } else {
        Ok(recon_seq(d, bps, (height * bps) as nat))
    }
}

/// The Paeth filter predictor over byte values.
pub fn paeth_predictor(a: i32, b: i32, c: i32) -> (r: i32)
    requires
        0 <= a <= 255,
        0 <= b <= 255,
        0 <= c <= 255,
    ensures
        r == spec_paeth(a as int, b as int, c as int),
{
    let p = a + b - c;
    let pa = if p >= a {
        p - a
    } else {
        a - p
    };
    let pb = if p >= b {
        p - b
    } else {
        b - p
    };
    let pc = if p >= c {
        p - c
    } else {
        c - p
    };
    if pa <= pb && pa <= pc {
        a
    } else if pb <= pc {
        b
    } else {
        c
    }
}

/// The reconstructed byte to the left of the current byte in the
/// scanline, or 0 at the start of a scanline.
pub fn get_a(scanline_idx: usize, bytes_per_scanline: usize, byte_idx: usize, rec: &[u8]) -> (r:
    i32)
    requires
        byte_idx > 0 ==> scanline_idx * bytes_per_scanline + byte_idx - 1 < rec@.len(),
    ensures
        r == if byte_idx > 0 {
            rec@[scanline_idx * bytes_per_scanline + byte_idx - 1] as int
        } else {
            0
        },
{
    let n = rec.len();
    if byte_idx > 0 {
        *slice_index_get(rec, scanline_idx * bytes_per_scanline + byte_idx - 1) as i32
    } else {
        0
    }
}

/// The reconstructed byte at the same offset in the previous scanline,
/// or 0 on the first scanline.
pub fn get_b(scanline_idx: usize, bytes_per_scanline: usize, byte_idx: usize, rec: &[u8]) -> (r:
    i32)
    requires
        scanline_idx > 0 ==> (scanline_idx - 1) * bytes_per_scanline + byte_idx < rec@.len(),
    ensures
        r == if scanline_idx > 0 {
            rec@[(scanline_idx - 1) * bytes_per_scanline + byte_idx] as int
        } else {
            0
        },
{
    let n = rec.len();
    if scanline_idx > 0 {
        *slice_index_get(rec, (scanline_idx - 1) * bytes_per_scanline + byte_idx) as i32
    } else {
        0
    }
}

/// The reconstructed byte diagonally up and left of the current byte, or
/// 0 on the first scanline and at the start of a scanline.
pub fn get_c(scanline_idx: usize, bytes_per_scanline: usize, byte_idx: usize, rec: &[u8]) -> (r:
    i32)
    requires
        scanline_idx > 0 && byte_idx > 0 ==> (scanline_idx - 1) * bytes_per_scanline + byte_idx - 1
            < rec@.len(),
    ensures
        r == if scanline_idx > 0 && byte_idx > 0 {
            rec@[(scanline_idx - 1) * bytes_per_scanline + byte_idx - 1] as int
        } else {
            0
        },
{
    let n = rec.len();
    if scanline_idx > 0 && byte_idx > 0 {
        *slice_index_get(rec, (scanline_idx - 1) * bytes_per_scanline + byte_idx - 1) as i32
    } else {
        0
    }
}

/// Compute the number of channels of a color model.
fn channels(c: ColorType) -> (n: u8)
    ensures
        n == channels_of(c),
{
    match c {
        ColorType::Grayscale => 1,
        ColorType::Truecolor => 3,
        ColorType::IndexedColor => 1,
        ColorType::GrayScaleWithAlpha => 2,
        ColorType::TrueColorWithAlpha => 4,
    }
}

/// Reverse the per-scanline filtering of the inflated image data,
/// producing the raw sample bytes with the filter-type bytes removed.
/// Fails with `WrongFormat("truncated")` when the data holds fewer than
/// `height` whole scanlines, and with `FilterNotSupported` at the first
/// scanline whose filter-type byte is outside 0..=4.
#[verifier::rlimit(100)]
pub fn reconstruct(data: &[u8], width: u32, height: u32, bit_depth: u8, color_type: ColorType) -> (r:
    Result<Vec<u8>, PngError>)
    ensures
        match recon_outcome(data@, width, height, bit_depth, color_type) {
            Ok(s) => r matches Ok(v) && v@ == s,
            Err(e) => (r matches Err(pe) && pe@ == e),
        },
{
    let ghost d = data@;
    let ch = channels(color_type);
    proof {
        assert((width as int) * (ch as int) * (bit_depth as int) <= 0xFFFFFFFFu32 * 4 * 255)
            by (nonlinear_arith)
            requires
                width <= 0xFFFFFFFFu32,
                0 <= ch <= 4,
                0 <= bit_depth <= 255,
        ;
        assert((width as int) * ((ch as int) * (bit_depth as int)) == (width as int) * (
        ch as int) * (bit_depth as int)) by (nonlinear_arith);
    }
    let bits: u64 = (width as u64) * (ch as u64) * (bit_depth as u64);
    let bps64: u64 = (bits + 7) / 8;
    let ghost bps = spec_bytes_per_scanline(width, color_type, bit_depth);
    proof {
        assert(bps64 == bps);
    }
    proof {
        assert((height as int) * ((bps64 as int) + 1) <= 0xFFFFFFFFi64 * 0x2000000000001i128)
            by (nonlinear_arith)
            requires
                height <= 0xFFFFFFFFu32,
                bps64 <= 0x2000000000000u64,
        ;
    }
    let needed: u128 = (height as u128) * (bps64 as u128 + 1);
    if (data.len() as u128) < needed {
        return Err(PngError::WrongFormat("truncated".to_owned()));
    }
    if height == 0 {
        let empty: Vec<u8> = Vec::new();
        return Ok(empty);
    }
    proof {
        assert((bps + 1) * 1 <= (bps + 1) * (height as int)) by (nonlinear_arith)
            requires
                1 <= height as int,
        ;
        assert((bps + 1) * (height as int) == (height as int) * (bps + 1)) by (nonlinear_arith);
    }
    let bps_us: usize = bps64 as usize;
    let h: usize = height as usize;
    let dn: usize = data.len();
    let mut res: Vec<u8> = Vec::new();
    let mut byte_count: usize = 0;
    let mut s: usize = 0;
    while s < h
        invariant
            d == data@,
            h == height,
            bps_us == bps,
            bps == spec_bytes_per_scanline(width, color_type, bit_depth),
            d.len() >= (height as int) * (bps + 1),
            s <= h,
            dn == d.len(),
            byte_count == s * (bps + 1),
            res@.len() == s * bps,
            res@ == recon_seq(d, bps, (s * bps) as nat),
            bps > 0 ==> forall|t: int| 0 <= t < s ==> filter_type_at(d, bps, t) <= 4,
        decreases h - s,
    {
        proof {
            assert((s + 1) * (bps + 1) <= (h as int) * (bps + 1)) by (nonlinear_arith)
                requires
                    s < h,
                    bps >= 0,
            ;
            assert((s + 1) * (bps + 1) == s * (bps + 1) + (bps + 1)) by (nonlinear_arith);
        }
        let ft = *slice_index_get(data, byte_count);
        byte_count += 1;
        proof {
            assert(ft == filter_type_at(d, bps, s as int));
        }
        if bps_us > 0 && ft > 4 {
            proof {
                lemma_first_bad_some(d, bps, height as nat, 0, s as int);
            }
            return Err(PngError::FilterNotSupported(ft));
        }
        let mut i: usize = 0;
        while i < bps_us
            invariant
                d == data@,
                h == height,
                bps_us == bps,
                bps == spec_bytes_per_scanline(width, color_type, bit_depth),
                d.len() >= (height as int) * (bps + 1),
                s < h,
                i <= bps,
                dn == d.len(),
                byte_count == s * (bps + 1) + 1 + i,
                (s + 1) * (bps + 1) <= (h as int) * (bps + 1),
                (s + 1) * (bps + 1) == s * (bps + 1) + (bps + 1),
                res@.len() == s * bps + i,
                res@ == recon_seq(d, bps, (s * bps + i) as nat),
                ft == filter_type_at(d, bps, s as int),
                bps > 0 ==> ft <= 4,
                bps > 0 ==> forall|t: int| 0 <= t < s ==> filter_type_at(d, bps, t) <= 4,
            decreases bps_us - i,
        {
            let x = *slice_index_get(data, byte_count) as i32;
            byte_count += 1;
            proof {
                assert(s * bps + i < s * bps + bps);
                assert(s * bps + bps == (s + 1) * bps) by (nonlinear_arith);
                assert((s + 1) * bps <= (h as int) * bps) by (nonlinear_arith)
                    requires
                        s < h,
                        bps >= 0,
                ;
                assert((h as int) * bps <= (h as int) * (bps + 1)) by (nonlinear_arith)
                    requires
                        h >= 0,
                ;
                assert((s + 1) * bps <= (h as int) * (bps + 1));
                if s > 0 {
                    assert((s - 1) * bps + i < s * bps + i) by (nonlinear_arith)
                        requires
                            bps > 0,
                            s > 0,
                    ;
                    assert((s - 1) * bps == s * bps - bps) by (nonlinear_arith);
                }
            }
            let a = get_a(s, bps_us, i, res.as_slice());
            let b = get_b(s, bps_us, i, res.as_slice());
            let c = get_c(s, bps_us, i, res.as_slice());
            let filt_x: i32 = if ft == 0 {
                x
            } else if ft == 1 {
                x + a
            } else if ft == 2 {
                x + b
            } else if ft == 3 {
                x + (a + b) / 2
            } else {
                x + paeth_predictor(a, b, c)
            };
            proof {
                assert(bps > 0);
                assert(filt_x & 0xFF == filt_x % 256) by (bit_vector)
                    requires
                        0 <= filt_x < 1024,
                ;
            }
            let v: u8 = (filt_x & 0xFF) as u8;
            proof {
                let k = (s * bps + i) as int;
                lemma_fundamental_div_mod_converse(k, bps as int, s as int, i as int);
                assert(k / (bps as int) == s as int && k % (bps as int) == i as int);
                assert(v == recon_next(d, bps, res@, k));
                assert(recon_seq(d, bps, (k + 1) as nat) == recon_seq(d, bps, k as nat).push(
                    recon_next(d, bps, recon_seq(d, bps, k as nat), k),
                ));
            }
            res.push(v);
            i += 1;
        }
        proof {
            assert((s + 1) * bps == s * bps + bps) by (nonlinear_arith);
            assert((s + 1) * (bps + 1) == s * (bps + 1) + (bps + 1)) by (nonlinear_arith);
        }
        s += 1;
    }
    proof {
        if bps > 0 {
            lemma_first_bad_none(d, bps, height as nat, 0);
        }
        assert(res@ == recon_seq(d, bps, ((height as int) * bps) as nat)) by {
            assert(s * bps == (h as int) * bps);
        };
    }
    Ok(res)
}

} // verus!
