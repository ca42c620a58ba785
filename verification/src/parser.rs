//! Chunk framing: splitting a PNG buffer into its length-prefixed,
//! type-tagged, checksummed chunks, verifying each chunk's CRC-32.

use vstd::prelude::*;
use vstd::slice::{slice_index_get, slice_subrange, slice_to_vec};
use crate::crc::{crc32, lemma_crc32_detects_single_byte_change, spec_crc32};
use crate::error::{ErrorModel, PngError};

verus! {

/// The tag of a chunk: the four recognized critical tags, or the four raw
/// tag bytes of an unrecognized (ancillary) chunk.
#[derive(Debug)]
pub enum ChunkType {
    Ihrd,
    Plte,
    Idat,
    Iend,
    Ancillary(Vec<u8>),
}

/// The mathematical shape of a `ChunkType`.
pub enum TagModel {
    Ihrd,
    Plte,
    Idat,
    Iend,
    Ancillary(Seq<u8>),
}

impl View for ChunkType {
    type V = TagModel;

    open spec fn view(&self) -> TagModel {
        match self {
            ChunkType::Ihrd => TagModel::Ihrd,
            ChunkType::Plte => TagModel::Plte,
            ChunkType::Idat => TagModel::Idat,
            ChunkType::Iend => TagModel::Iend,
            ChunkType::Ancillary(name) => TagModel::Ancillary(name@),
        }
    }
}

/// A raw chunk of a PNG file. A chunk with `length == 0` carries no
/// payload; otherwise the payload holds exactly `length` bytes.
#[derive(Debug)]
pub struct Chunk {
    pub length: u32,
    pub chunk_type: ChunkType,
    pub chunk_data: Option<Vec<u8>>,
}

/// The mathematical shape of a `Chunk`: an absent payload is the empty
/// byte sequence.
pub struct ChunkModel {
    pub length: u32,
    pub chunk_type: TagModel,
    pub data: Seq<u8>,
}

impl View for Chunk {
    type V = ChunkModel;

    open spec fn view(&self) -> ChunkModel {
        ChunkModel {
            length: self.length,
            chunk_type: self.chunk_type@,
            data: match self.chunk_data {
                Some(d) => d@,
                None => Seq::<u8>::empty(),
            },
        }
    }
}

/// The big-endian 32-bit value stored at byte offset `i`.
pub open spec fn be_u32_at(s: Seq<u8>, i: int) -> u32 {
    ((s[i] as int) * 0x1000000 + (s[i + 1] as int) * 0x10000 + (s[i + 2] as int) * 0x100 + (s[i
        + 3] as int)) as u32
}

/// The tag named by four raw tag bytes.
pub open spec fn tag_model_of(s: Seq<u8>) -> TagModel {
    if s.len() == 4 && s[0] == 0x49u8 && s[1] == 0x48u8 && s[2] == 0x44u8 && s[3] == 0x52u8 {
        TagModel::Ihrd
    } else if s.len() == 4 && s[0] == 0x50u8 && s[1] == 0x4Cu8 && s[2] == 0x54u8 && s[3] == 0x45u8 {
        TagModel::Plte
    } else if s.len() == 4 && s[0] == 0x49u8 && s[1] == 0x44u8 && s[2] == 0x41u8 && s[3] == 0x54u8 {
        TagModel::Idat
    } else if s.len() == 4 && s[0] == 0x49u8 && s[1] == 0x45u8 && s[2] == 0x4Eu8 && s[3] == 0x44u8 {
        TagModel::Iend
    } else {
        TagModel::Ancillary(s)
    }
}

/// The payload length the chunk at `idx` declares.
pub open spec fn chunk_len(buf: Seq<u8>, idx: int) -> int {
    be_u32_at(buf, idx) as int
}

/// Whether the chunk at `idx` lies entirely within the buffer: the fixed
/// twelve bytes (length, tag, CRC) and the declared payload.
pub open spec fn chunk_fits(buf: Seq<u8>, idx: int) -> bool {
    &&& idx + 12 <= buf.len()
    &&& idx + 12 + chunk_len(buf, idx) <= buf.len()
}

/// Whether the stored CRC of the chunk at `idx` matches the checksum of
/// its tag and payload.
pub open spec fn chunk_crc_ok(buf: Seq<u8>, idx: int) -> bool {
    spec_crc32(buf.subrange(idx + 4, idx + 8 + chunk_len(buf, idx))) == be_u32_at(
        buf,
        idx + 8 + chunk_len(buf, idx),
    )
}

/// The chunk stored at `idx`.
pub open spec fn chunk_model_at(buf: Seq<u8>, idx: int) -> ChunkModel {
    ChunkModel {
        length: be_u32_at(buf, idx),
        chunk_type: tag_model_of(buf.subrange(idx + 4, idx + 8)),
        data: buf.subrange(idx + 8, idx + 8 + chunk_len(buf, idx)),
    }
}

/// What framing a buffer from offset `idx` onward yields: the chunks up
/// to and including the first `Iend`, or the first failure.
pub enum FrameOutcome {
    Chunks(Seq<ChunkModel>),
    Truncated,
    BadChecksum,
}

/// Frame the buffer from `idx`: read chunks one after the other until an
/// `Iend` chunk; fail if a chunk runs past the buffer or its CRC is wrong.
pub open spec fn frame_from(buf: Seq<u8>, idx: int) -> FrameOutcome
    decreases buf.len() - idx,
{
    if !chunk_fits(buf, idx) {
        FrameOutcome::Truncated
    } else if !chunk_crc_ok(buf, idx) {
        FrameOutcome::BadChecksum
    } else {
        let c = chunk_model_at(buf, idx);
        if c.chunk_type is Iend {
            FrameOutcome::Chunks(seq![c])
        } else {
            match frame_from(buf, idx + 12 + chunk_len(buf, idx)) {
                FrameOutcome::Chunks(rest) => FrameOutcome::Chunks(seq![c] + rest),
                other => other,
            }
        }
    }
}

/// Whether framing from `at` visits a chunk starting at `idx`: every
/// chunk before it fits, passes its checksum, and is not an `Iend`.
pub open spec fn frame_reaches(buf: Seq<u8>, at: int, idx: int) -> bool
    decreases buf.len() - at,
{
    if at == idx {
        true
    } else if !chunk_fits(buf, at) || !chunk_crc_ok(buf, at) {
        false
    } else if chunk_model_at(buf, at).chunk_type is Iend {
        false
    } else {
        frame_reaches(buf, at + 12 + chunk_len(buf, at), idx)
    }
}

pub(crate) proof fn lemma_reaches_le(buf: Seq<u8>, at: int, idx: int)
    requires
        frame_reaches(buf, at, idx),
    ensures
        at <= idx,
    decreases buf.len() - at,
{
    if at != idx {
        lemma_reaches_le(buf, at + 12 + chunk_len(buf, at), idx);
    }
}

proof fn lemma_corruption_helper(buf1: Seq<u8>, buf2: Seq<u8>, at: int, idx: int, i: int)
    requires
        0 <= at,
        buf1.len() == buf2.len(),
        frame_reaches(buf1, at, idx),
        chunk_fits(buf1, idx),
        chunk_crc_ok(buf1, idx),
        idx + 4 <= i < idx + 8 + chunk_len(buf1, idx),
        buf1[i] != buf2[i],
        forall|j: int| 0 <= j < buf1.len() && j != i ==> buf1[j] == buf2[j],
    ensures
        frame_from(buf2, at) == FrameOutcome::BadChecksum,
    decreases buf1.len() - at,
{
    if at == idx {
        let l = chunk_len(buf1, idx);
        assert(buf1[idx] == buf2[idx] && buf1[idx + 1] == buf2[idx + 1] && buf1[idx + 2] == buf2[idx
            + 2] && buf1[idx + 3] == buf2[idx + 3]);
        assert(be_u32_at(buf2, idx) == be_u32_at(buf1, idx));
        assert(chunk_len(buf2, idx) == l);
        assert(chunk_fits(buf2, idx));
        let r1 = buf1.subrange(idx + 4, idx + 8 + l);
        let r2 = buf2.subrange(idx + 4, idx + 8 + l);
        let k = i - (idx + 4);
        assert(r1[k] == buf1[i] && r2[k] == buf2[i]);
        assert(forall|j: int| 0 <= j < r1.len() && j != k ==> r1[j] == r2[j]) by {
            assert(forall|j: int|
                0 <= j < r1.len() && j != k ==> r1[j] == buf1[idx + 4 + j] && r2[j] == buf2[idx + 4
                    + j] && idx + 4 + j != i);
        };
        lemma_crc32_detects_single_byte_change(r1, r2, k);
        assert(buf1[idx + 8 + l] == buf2[idx + 8 + l] && buf1[idx + 9 + l] == buf2[idx + 9 + l]
            && buf1[idx + 10 + l] == buf2[idx + 10 + l] && buf1[idx + 11 + l] == buf2[idx + 11
            + l]);
        assert(be_u32_at(buf2, idx + 8 + l) == be_u32_at(buf1, idx + 8 + l));
        assert(!chunk_crc_ok(buf2, idx));
    } else {
        lemma_reaches_le(buf1, at, idx);
        let l = chunk_len(buf1, at);
        let next = at + 12 + l;
        lemma_reaches_le(buf1, next, idx);
        assert(next <= idx);
        assert(idx + 12 <= buf1.len());
        assert(forall|j: int| at <= j < next ==> buf1[j] == buf2[j]);
        assert(buf1[at] == buf2[at] && buf1[at + 1] == buf2[at + 1] && buf1[at + 2] == buf2[at + 2]
            && buf1[at + 3] == buf2[at + 3]);
        assert(be_u32_at(buf2, at) == be_u32_at(buf1, at));
        assert(chunk_len(buf2, at) == l);
        assert(chunk_fits(buf2, at));
        assert(buf2.subrange(at + 4, at + 8 + l) =~= buf1.subrange(at + 4, at + 8 + l));
        assert(be_u32_at(buf2, at + 8 + l) == be_u32_at(buf1, at + 8 + l));
        assert(chunk_crc_ok(buf2, at));
        assert(buf2.subrange(at + 4, at + 8) =~= buf1.subrange(at + 4, at + 8));
        assert(chunk_model_at(buf2, at).chunk_type == chunk_model_at(buf1, at).chunk_type);
        lemma_corruption_helper(buf1, buf2, next, idx, i);
    }
}

/// Mutating any single byte inside the tag or payload of a chunk that
/// framing visits — while the rest of the buffer, its declared length
/// and its stored CRC stay as they were — makes framing of the whole
/// buffer fail with a checksum failure.
pub proof fn lemma_frame_detects_corruption(buf1: Seq<u8>, buf2: Seq<u8>, idx: int, i: int)
    requires
        buf1.len() == buf2.len(),
        frame_reaches(buf1, 8, idx),
        chunk_fits(buf1, idx),
        chunk_crc_ok(buf1, idx),
        idx + 4 <= i < idx + 8 + chunk_len(buf1, idx),
        buf1[i] != buf2[i],
        forall|j: int| 0 <= j < buf1.len() && j != i ==> buf1[j] == buf2[j],
    ensures
        frame_from(buf2, 8) == FrameOutcome::BadChecksum,
{
    lemma_corruption_helper(buf1, buf2, 8, idx, i);
}

/// The models of a sequence of chunks.
pub open spec fn models_of(v: Seq<Chunk>) -> Seq<ChunkModel> {
    v.map_values(|c: Chunk| c@)
}

/// Prepending already-read chunks to the outcome of framing the rest.
pub open spec fn combine(prefix: Seq<ChunkModel>, rest: FrameOutcome) -> FrameOutcome {
    match rest {
        FrameOutcome::Chunks(cs) => FrameOutcome::Chunks(prefix + cs),
        other => other,
    }
}

proof fn lemma_combine_assoc(ms: Seq<ChunkModel>, c: ChunkModel, rest: FrameOutcome)
    ensures
        combine(ms, combine(seq![c], rest)) == combine(ms.push(c), rest),
{
    match rest {
        FrameOutcome::Chunks(cs) => {
            assert(ms + (seq![c] + cs) =~= ms.push(c) + cs);
        },
        _ => {},
    }
}

/// Whether the buffer begins with the fixed eight-byte PNG signature.
pub open spec fn is_png_signature(s: Seq<u8>) -> bool {
    &&& s.len() >= 8
    &&& s[0] == 0x89u8
    &&& s[1] == 0x50u8
    &&& s[2] == 0x4Eu8
    &&& s[3] == 0x47u8
    &&& s[4] == 0x0Du8
    &&& s[5] == 0x0Au8
    &&& s[6] == 0x1Au8
    &&& s[7] == 0x0Au8
}

/// Check the PNG magic header: `Ok(())` exactly when the buffer starts
/// with the fixed signature, `Err(NotAPng)` otherwise.
pub fn check_if_png(buffer_with_image: &[u8]) -> (r: Result<(), PngError>)
    ensures
        r is Ok <==> is_png_signature(buffer_with_image@),
        r is Err ==> (r matches Err(e) && e@ == ErrorModel::NotAPng),
{
    let b = buffer_with_image;
    if b.len() >= 8 && *slice_index_get(b, 0) == 0x89 && *slice_index_get(b, 1) == 0x50
        && *slice_index_get(b, 2) == 0x4E && *slice_index_get(b, 3) == 0x47 && *slice_index_get(
        b,
        4,
    ) == 0x0D && *slice_index_get(b, 5) == 0x0A && *slice_index_get(b, 6) == 0x1A
        && *slice_index_get(b, 7) == 0x0A {
        Ok(())
    } else {
        Err(PngError::NotAPng)
    }
}

/// Read the big-endian 32-bit value at `idx`.
pub fn read_be_u32(buf: &Vec<u8>, idx: usize) -> (r: u32)
    requires
        idx + 4 <= buf@.len(),
    ensures
        r == be_u32_at(buf@, idx as int),
{
    let n = buf.len();
    (buf[idx] as u32) * 0x1000000 + (buf[idx + 1] as u32) * 0x10000 + (buf[idx + 2] as u32) * 0x100
        + (buf[idx + 3] as u32)
}

/// Map four raw tag bytes to the chunk tag they name.
fn tag_of_bytes(b0: u8, b1: u8, b2: u8, b3: u8) -> (r: ChunkType)
    ensures
        r@ == tag_model_of(seq![b0, b1, b2, b3]),
{
    proof {
        assert(seq![b0, b1, b2, b3].len() == 4);
    }
    if b0 == 0x49 && b1 == 0x48 && b2 == 0x44 && b3 == 0x52 {
        ChunkType::Ihrd
    } else if b0 == 0x50 && b1 == 0x4C && b2 == 0x54 && b3 == 0x45 {
        ChunkType::Plte
    } else if b0 == 0x49 && b1 == 0x44 && b2 == 0x41 && b3 == 0x54 {
        ChunkType::Idat
    } else if b0 == 0x49 && b1 == 0x45 && b2 == 0x4E && b3 == 0x44 {
        ChunkType::Iend
    } else {
        let name: Vec<u8> = vec![b0, b1, b2, b3];
        proof {
            assert(name@ =~= seq![b0, b1, b2, b3]);
        }
        ChunkType::Ancillary(name)
    }
}

impl Chunk {
    /// Read the chunk stored at `idx`: its declared length, tag, payload
    /// and CRC. Fails with `WrongFormat("truncated")` when the chunk runs
    /// past the buffer, and with `ChecksumFailure` when the stored CRC does
    /// not match the checksum of the tag and payload.
    pub fn from_buffer_index(idx: usize, buf: &Vec<u8>) -> (r: Result<Chunk, PngError>)
        ensures
            !chunk_fits(buf@, idx as int) ==> (r matches Err(e) && e@ == ErrorModel::WrongFormat(
                "truncated"@,
            )),
            chunk_fits(buf@, idx as int) && !chunk_crc_ok(buf@, idx as int) ==> r == Err::<
                Chunk,
                PngError,
            >(PngError::ChecksumFailure),
            chunk_fits(buf@, idx as int) && chunk_crc_ok(buf@, idx as int) ==> (r matches Ok(c)
                && c@ == chunk_model_at(buf@, idx as int)),
    {
        if buf.len() < 12 || idx > buf.len() - 12 {
            return Err(PngError::WrongFormat("truncated".to_owned()));
        }
        let length = read_be_u32(buf, idx);
        if length as usize > buf.len() - 12 - idx {
            return Err(PngError::WrongFormat("truncated".to_owned()));
        }
        let len = length as usize;

        let chunk_type = tag_of_bytes(buf[idx + 4], buf[idx + 5], buf[idx + 6], buf[idx + 7]);
        proof {
            assert(seq![buf@[idx + 4], buf@[idx + 5], buf@[idx + 6], buf@[idx + 7]] =~= buf@
                .subrange(idx + 4, idx + 8));
        }

        let chunk_data = if length > 0 {
            Some(slice_to_vec(slice_subrange(buf.as_slice(), idx + 8, idx + 8 + len)))
        } else {
            None
        };

        let crc = read_be_u32(buf, idx + 8 + len);
        let computed = crc32(slice_subrange(buf.as_slice(), idx + 4, idx + 8 + len));
        if computed != crc {
            return Err(PngError::ChecksumFailure);
        }

        let c = Chunk { length, chunk_type, chunk_data };
        proof {
            if length == 0 {
                assert(c@.data =~= buf@.subrange(idx + 8, idx + 8 + chunk_len(buf@, idx as int)));
            }
        }
        Ok(c)
    }
}

/// Parse all chunks of a PNG buffer, in file order, starting at byte
/// offset 8 and stopping at the first `Iend` chunk. Ancillary chunks are
/// kept; downstream stages select what they need. Fails with
/// `WrongFormat("truncated")` when the buffer ends before an `Iend`
/// chunk, and with `ChecksumFailure` at the first chunk whose CRC is
/// wrong.
pub fn parse_chunks(img_buf: &Vec<u8>) -> (r: Result<Vec<Chunk>, PngError>)
    ensures
        frame_from(img_buf@, 8) matches FrameOutcome::Chunks(cs) ==> (r matches Ok(v) && models_of(
            v@,
        ) == cs),
        frame_from(img_buf@, 8) is Truncated ==> (r matches Err(e) && e@ == ErrorModel::WrongFormat(
            "truncated"@,
        )),
        frame_from(img_buf@, 8) is BadChecksum ==> r == Err::<Vec<Chunk>, PngError>(
            PngError::ChecksumFailure,
        ),
{
    let n = img_buf.len();
    let mut res: Vec<Chunk> = Vec::new();
    let mut idx: usize = 8;

    loop
        invariant
            n == img_buf@.len(),
            8 <= idx,
            idx == 8 || idx <= img_buf@.len(),
            frame_from(img_buf@, 8) == combine(models_of(res@), frame_from(img_buf@, idx as int)),
        decreases img_buf@.len() + 12 - idx,
    {
        let ghost ms = models_of(res@);
        let c = match Chunk::from_buffer_index(idx, img_buf) {
            Ok(c) => c,
            Err(e) => {
                return Err(e);
            },
        };
        proof {
            assert(chunk_fits(img_buf@, idx as int) && chunk_crc_ok(img_buf@, idx as int));
        }
        let ghost cm = chunk_model_at(img_buf@, idx as int);
        let is_end = matches!(c.chunk_type, ChunkType::Iend);
        proof {
            assert(c@.length == cm.length);
            assert(idx + 12 + c.length as int <= n as int);
        }
        let next = idx + 12 + (c.length as usize);
        res.push(c);
        proof {
            assert(models_of(res@) =~= ms.push(cm));
        }
        if is_end {
            proof {
                assert(frame_from(img_buf@, idx as int) == FrameOutcome::Chunks(seq![cm]));
                assert(ms + seq![cm] =~= ms.push(cm));
            }
            return Ok(res);
        }
        proof {
            assert(frame_from(img_buf@, idx as int) == combine(
                seq![cm],
                frame_from(img_buf@, next as int),
            ));
            lemma_combine_assoc(ms, cm, frame_from(img_buf@, next as int));
        }
        idx = next;
    }
}

/// The color model of the image.
#[derive(Debug, Clone, Copy, PartialEq, Eq, Structural)]
pub enum ColorType {
    Grayscale,
    Truecolor,
    IndexedColor,
    GrayScaleWithAlpha,
    TrueColorWithAlpha,
}

/// The compression method named by the header; only deflate/inflate is
/// defined.
#[derive(Debug, Clone, Copy, PartialEq, Eq, Structural)]
pub enum CompressionMethod {
    DeflateInflate,
}

/// The filter method named by the header; only five-type adaptive
/// filtering is defined.
#[derive(Debug, Clone, Copy, PartialEq, Eq, Structural)]
pub enum FilterMethod {
    FiveTypeAdaptive,
}

/// The interlace method named by the header.
#[derive(Debug, Clone, Copy, PartialEq, Eq, Structural)]
pub enum InterlaceMethod {
    NoInterlace,
    Adam7Interlace,
}

/// An RGB color.
#[derive(Debug, Clone, Copy, PartialEq, Eq, Structural)]
pub struct Color {
    pub red: u8,
    pub green: u8,
    pub blue: u8,
}

/// The colors stored in a palette payload: one per consecutive 3-byte
/// group.
pub open spec fn triples_of(d: Seq<u8>) -> Seq<Color> {
    Seq::new((d.len() / 3) as nat, |i: int| Color { red: d[3 * i], green: d[3 * i + 1], blue: d[3 * i + 2] })
}

/// The palette the chunk sequence carries: the entries of the first
/// `Plte` chunk. Absent when there is no `Plte` chunk, and when the first
/// one's payload is not a whole number of 3-byte entries.
pub open spec fn palette_of(ms: Seq<ChunkModel>) -> Option<Seq<Color>>
    decreases ms.len(),
{
    if ms.len() == 0 {
        None
    } else if ms[0].chunk_type is Plte {
        if ms[0].data.len() % 3 == 0 {
            Some(triples_of(ms[0].data))
        } else {
            None
        }
    } else {
        palette_of(ms.subrange(1, ms.len() as int))
    }
}

proof fn lemma_palette_skip(ms: Seq<ChunkModel>, i: int)
    requires
        0 <= i <= ms.len(),
        forall|j: int| 0 <= j < i ==> !(ms[j].chunk_type is Plte),
    ensures
        palette_of(ms) == palette_of(ms.subrange(i, ms.len() as int)),
    decreases i,
{
    if i == 0 {
        assert(ms.subrange(0, ms.len() as int) =~= ms);
    } else {
        let rest = ms.subrange(1, ms.len() as int);
        assert(!(ms[0].chunk_type is Plte));
        assert(forall|j: int| 0 <= j < i - 1 ==> rest[j] == ms[j + 1]);
        lemma_palette_skip(rest, i - 1);
        assert(rest.subrange(i - 1, rest.len() as int) =~= ms.subrange(i, ms.len() as int));
    }
}

/// Find the first `Plte` chunk and parse its payload into the ordered
/// color table, one entry per 3-byte group. Returns `None` when no `Plte`
/// chunk is present, and when the payload of the first one is not a whole
/// number of entries.
pub fn parse_palette(chunks: &Vec<Chunk>) -> (r: Option<Vec<Color>>)
    ensures
        match palette_of(models_of(chunks@)) {
            Some(p) => r matches Some(v) && v@ == p,
            None => r is None,
        },
{
    let ghost ms = models_of(chunks@);
    let n = chunks.len();
    let mut i: usize = 0;
    while i < n
        invariant
            n == chunks@.len(),
            i <= n,
            ms == models_of(chunks@),
            forall|j: int| 0 <= j < i ==> !(ms[j].chunk_type is Plte),
        decreases n - i,
    {
        if matches!(chunks[i].chunk_type, ChunkType::Plte) {
            proof {
                lemma_palette_skip(ms, i as int);
                assert(ms.subrange(i as int, ms.len() as int)[0] == ms[i as int]);
            }
            let mut res: Vec<Color> = Vec::new();
            match &chunks[i].chunk_data {
                None => {
                    proof {
                        assert(ms[i as int].data.len() == 0);
                        assert(triples_of(ms[i as int].data) =~= Seq::<Color>::empty());
                    }
                    return Some(res);
                },
                Some(color_data) => {
                    let ghost d = color_data@;
                    proof {
                        assert(ms[i as int].data == d);
                    }
                    let m = color_data.len();
                    if m % 3 != 0 {
                        return None;
                    }
                    let entries = m / 3;
                    proof {
                        assert(m == 3 * (m / 3));
                    }
                    let mut e: usize = 0;
                    while e < entries
                        invariant
                            m == d.len(),
                            m == 3 * entries,
                            e <= entries,
                            d == color_data@,
                            res@.len() == e,
                            forall|k: int| 0 <= k < res@.len() ==> res@[k] == triples_of(d)[k],
                        decreases entries - e,
                    {
                        let idx = 3 * e;
                        res.push(
                            Color {
                                red: color_data[idx],
                                green: color_data[idx + 1],
                                blue: color_data[idx + 2],
                            },
                        );
                        e += 1;
                    }
                    proof {
                        assert(res@ =~= triples_of(d));
                    }
                    return Some(res);
                },
            }
        }
        i += 1;
    }
    proof {
        lemma_palette_skip(ms, n as int);
        assert(ms.subrange(n as int, ms.len() as int) =~= Seq::<ChunkModel>::empty());
    }
    None
}

/// The concatenation, in file order, of the payloads of the `Idat`
/// chunks.
pub open spec fn idat_data_of(ms: Seq<ChunkModel>) -> Seq<u8>
    decreases ms.len(),
{
    if ms.len() == 0 {
        Seq::<u8>::empty()
    } else {
        idat_contrib(ms[0]) + idat_data_of(ms.subrange(1, ms.len() as int))
    }
}

/// What one chunk contributes to the aggregated image data.
pub open spec fn idat_contrib(m: ChunkModel) -> Seq<u8> {
    if m.chunk_type is Idat {
        m.data
    } else {
        Seq::<u8>::empty()
    }
}

proof fn lemma_idat_take_push(ms: Seq<ChunkModel>, i: int)
    requires
        0 <= i < ms.len(),
    ensures
        idat_data_of(ms.subrange(0, i + 1)) == idat_data_of(ms.subrange(0, i)) + idat_contrib(
            ms[i],
        ),
    decreases i,
{
    if i == 0 {
        assert(ms.subrange(0, 1)[0] == ms[0]);
        assert(ms.subrange(0, 1).subrange(1, 1) =~= Seq::<ChunkModel>::empty());
        assert(ms.subrange(0, 0) =~= Seq::<ChunkModel>::empty());
        assert(idat_data_of(Seq::<ChunkModel>::empty()) == Seq::<u8>::empty());
        assert(idat_data_of(ms.subrange(0, 1)) == idat_contrib(ms[0]) + idat_data_of(
            ms.subrange(0, 1).subrange(1, 1),
        ));
        assert(idat_contrib(ms[0]) + Seq::<u8>::empty() =~= idat_contrib(ms[0]));
        assert(Seq::<u8>::empty() + idat_contrib(ms[0]) =~= idat_contrib(ms[0]));
    } else {
        let rest = ms.subrange(1, ms.len() as int);
        lemma_idat_take_push(rest, i - 1);
        assert(rest.subrange(0, i) =~= ms.subrange(0, i + 1).subrange(1, i + 1));
        assert(rest.subrange(0, i - 1) =~= ms.subrange(0, i).subrange(1, i));
        assert(ms.subrange(0, i + 1)[0] == ms[0]);
        assert(ms.subrange(0, i)[0] == ms[0]);
        assert(rest[i - 1] == ms[i]);
        assert(idat_data_of(ms.subrange(0, i + 1)) == idat_contrib(ms[0]) + idat_data_of(
            rest.subrange(0, i),
        ));
        assert(idat_data_of(ms.subrange(0, i)) == idat_contrib(ms[0]) + idat_data_of(
            rest.subrange(0, i - 1),
        ));
        assert((idat_contrib(ms[0]) + idat_data_of(rest.subrange(0, i - 1))) + idat_contrib(ms[i])
            =~= idat_contrib(ms[0]) + (idat_data_of(rest.subrange(0, i - 1)) + idat_contrib(
            ms[i],
        )));
    }
}

/// Concatenate, in file order, the payloads of all `Idat` chunks into a
/// single contiguous buffer.
pub fn collect_idat_data(chunks: Vec<Chunk>) -> (r: Vec<u8>)
    ensures
        r@ == idat_data_of(models_of(chunks@)),
{
    let ghost ms = models_of(chunks@);
    let mut res: Vec<u8> = Vec::new();
    let n = chunks.len();
    let mut i: usize = 0;
    while i < n
        invariant
            n == chunks@.len(),
            i <= n,
            ms == models_of(chunks@),
            res@ == idat_data_of(ms.subrange(0, i as int)),
        decreases n - i,
    {
        if matches!(chunks[i].chunk_type, ChunkType::Idat) {
            match &chunks[i].chunk_data {
                Some(d) => {
                    let ghost r0 = res@;
                    let m = d.len();
                    let mut j: usize = 0;
                    while j < m
                        invariant
                            m == d@.len(),
                            j <= m,
                            d@ == chunks@[i as int]@.data,
                            i < chunks@.len(),
                            res@ == r0 + d@.subrange(0, j as int),
                        decreases m - j,
                    {
                        res.push(d[j]);
                        proof {
                            assert(r0 + d@.subrange(0, j + 1) =~= (r0 + d@.subrange(0, j as int)).push(
                                d@[j as int],
                            ));
                        }
                        j += 1;
                    }
                    proof {
                        assert(d@.subrange(0, m as int) =~= d@);
                    }
                },
                None => {},
            }
        }
        proof {
            lemma_idat_take_push(ms, i as int);
            if !(ms[i as int].chunk_type is Idat) || chunks@[i as int].chunk_data is None {
                assert(res@ =~= idat_data_of(ms.subrange(0, i + 1)));
            }
        }
        i += 1;
    }
    proof {
        assert(ms.subrange(0, n as int) =~= ms);
    }
    res
}

} // verus!
