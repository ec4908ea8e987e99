//! The decoder: header checks, one plane per channel parsed block by block, then the
//! optional trailer.
use vstd::prelude::*;
use vstd::arithmetic::div_mod::lemma_fundamental_div_mod_converse;
use crate::block::Block;
use crate::blockizer::{blocks_across, num_blocks};
use crate::container::{u32_at, u32_le, header_bytes, trailer_bytes, parse_trailer, parse_icc_trailer, lemma_u32_le_roundtrip, HEADER_SIZE, LEGACY_HEADER_SIZE};
use crate::encoder::{records, transformed, planes_bytes, plane_bytes, plane_blocks, encoded_stream, effective_quality, version_for};
use crate::entropy::lemma_block_record_roundtrip;
use crate::blockizer::{plane_block, clamp_coord, lemma_index_in_bounds};
use crate::dct::{idct, idct_spec, dct_spec, descale, lemma_dct_constant_block, lemma_idct_dc_only, lemma_descale_round, lemma_row_sums_dc};
use crate::entropy::{parse_ac, parse_block, decode_rle_one_block};
use crate::quant::{dequantize, dequantize_spec, quantize_spec, quant_table_for_quality, quant_table_spec, lemma_quantize_error, lemma_quant_table_range, trunc_div, table_positive};

verus! {

/// Largest width or height the decoder accepts.
pub const MAX_DIMENSION: u32 = 65536;

/// Quality assumed when the stream's quality byte is 0 or absent.
pub const DEFAULT_DECODE_QUALITY: u8 = 50;

/// Why a stream could not be decoded.
#[derive(Clone, Copy, Debug, PartialEq, Eq)]
pub enum DecodeError {
    /// The stream does not start with `B G`.
    BadMagic,
    /// The version byte is not one this decoder reads.
    BadVersion,
    /// A dimension is zero or above `MAX_DIMENSION`.
    InvalidDims,
    /// The output buffer holds fewer than `width * height * channels` bytes.
    CapacityExceeded,
    /// The stream ends early: in the header or inside a plane.
    Malformed,
}

/// What the header of a stream says.
#[derive(Clone, Copy, Debug, PartialEq, Eq)]
pub struct StreamHeader {
    /// 1, 3 or 4.
    pub channels: usize,
    pub width: usize,
    pub height: usize,
    /// The quality the tables are derived from (a stored 0 already replaced by 50).
    pub quality: u8,
    /// 12, or 11 for a legacy header without the quality byte.
    pub header_size: usize,
}

/// An image that was decoded: its dimensions and channel count, and the color profile
/// that its trailer carries, if any.
#[derive(Debug)]
pub struct DecodedImage {
    pub width: u32,
    pub height: u32,
    pub channels: u32,
    pub icc: Option<Vec<u8>>,
}

/// The header of `buf`, or the error it gives.
pub open spec fn header_spec(buf: Seq<u8>) -> Result<StreamHeader, DecodeError> {
    if buf.len() < LEGACY_HEADER_SIZE {
        Err(DecodeError::Malformed)
    } else if buf[0] != 0x42 || buf[1] != 0x47 {
        Err(DecodeError::BadMagic)
    } else if buf[2] != 1 && buf[2] != 2 && buf[2] != 3 {
        Err(DecodeError::BadVersion)
    } else {
        let w = u32_at(buf, 3);
        let h = u32_at(buf, 7);
        if w == 0 || h == 0 || w > MAX_DIMENSION || h > MAX_DIMENSION {
            Err(DecodeError::InvalidDims)
        } else {
            let stored: u8 = if buf.len() >= HEADER_SIZE { buf[11] } else { 0 };
            Ok(StreamHeader {
                channels: if buf[2] == 1 { 1 } else if buf[2] == 2 { 3 } else { 4 },
                width: w as usize,
                height: h as usize,
                quality: if stored == 0 { DEFAULT_DECODE_QUALITY } else { stored },
                header_size: if buf.len() >= HEADER_SIZE { HEADER_SIZE } else { LEGACY_HEADER_SIZE },
            })
        }
    }
}

/// Parse `n` consecutive block records at `pos`: the blocks and the position after them.
pub open spec fn parse_plane(buf: Seq<u8>, pos: int, n: int) -> Option<(Seq<Seq<i16>>, int)>
    decreases n,
{
    if n <= 0 {
        Some((Seq::empty(), pos))
    } else {
        match parse_plane(buf, pos, n - 1) {
            None => None,
            Some((bs, p)) => match parse_block(buf, p) {
                None => None,
                Some((b, q)) => Some((bs.push(b), q)),
            },
        }
    }
}

/// Parse `c` consecutive planes of `n` blocks each at `pos`.
pub open spec fn parse_planes(buf: Seq<u8>, pos: int, n: int, c: int) -> Option<(Seq<Seq<Seq<i16>>>, int)>
    decreases c,
{
    if c <= 0 {
        Some((Seq::empty(), pos))
    } else {
        match parse_planes(buf, pos, n, c - 1) {
            None => None,
            Some((ps, p)) => match parse_plane(buf, p, n) {
                None => None,
                Some((bs, q)) => Some((ps.push(bs), q)),
            },
        }
    }
}

/// The planes of a stream whose header is `hdr`, and the position after them.
pub open spec fn stream_planes(buf: Seq<u8>, hdr: StreamHeader) -> Option<(Seq<Seq<Seq<i16>>>, int)> {
    parse_planes(buf, hdr.header_size as int, num_blocks(hdr.width as int, hdr.height as int), hdr.channels as int)
}

/// The centered samples of a block of quantized coefficients.
pub open spec fn reconstruct(blk: Seq<i16>, t: Seq<i16>) -> Seq<i16> {
    idct_spec(dequantize_spec(blk, t))
}

/// A centered sample moved back to 0..=255.
pub open spec fn to_pixel(v: i16) -> u8 {
    let p = v + 128;
    if p < 0 {
        0
    } else if p > 255 {
        255
    } else {
        p as u8
    }
}

/// Pixel `k` (row-major) of a plane of width `w`, from its quantized blocks.
pub open spec fn plane_pixel(bs: Seq<Seq<i16>>, t: Seq<i16>, w: int, k: int) -> u8 {
    let px = k % w;
    let py = k / w;
    to_pixel(reconstruct(bs[(py / 8) * blocks_across(w) + px / 8], t)[(py % 8) * 8 + px % 8])
}

/// Index of channel `c` of pixel `k` in an interleaved buffer.
pub open spec fn slot(k: int, stride: int, c: int) -> int {
    k * stride + c
}

proof fn lemma_slot(k1: int, c1: int, k2: int, c2: int, stride: int)
    requires
        0 <= c1 < stride,
        0 <= c2 < stride,
        0 <= k1,
        0 <= k2,
        slot(k1, stride, c1) == slot(k2, stride, c2),
    ensures
        k1 == k2,
        c1 == c2,
{
    lemma_fundamental_div_mod_converse(slot(k1, stride, c1), stride, k1, c1);
    lemma_fundamental_div_mod_converse(slot(k2, stride, c2), stride, k2, c2);
}

proof fn lemma_slot_bound(k: int, c: int, n: int, stride: int)
    requires
        0 <= c < stride,
        0 <= k < n,
    ensures
        0 <= slot(k, stride, c) < n * stride,
{
    assert(0 <= k * stride + c < n * stride) by (nonlinear_arith)
        requires
            0 <= c < stride,
            0 <= k < n,
    ;
}

/// Read and check the header.
pub fn parse_header(buffer: &[u8]) -> (r: Result<StreamHeader, DecodeError>)
    ensures
        r == header_spec(buffer@),
{
    if buffer.len() < LEGACY_HEADER_SIZE {
        return Err(DecodeError::Malformed);
    }
    if buffer[0] != 0x42 || buffer[1] != 0x47 {
        return Err(DecodeError::BadMagic);
    }
    let version = buffer[2];
    if version != 1 && version != 2 && version != 3 {
        return Err(DecodeError::BadVersion);
    }
    let width = buffer[3] as u32 + 256 * buffer[4] as u32 + 65536 * buffer[5] as u32 + 16777216 * buffer[6] as u32;
    let height = buffer[7] as u32 + 256 * buffer[8] as u32 + 65536 * buffer[9] as u32 + 16777216 * buffer[10] as u32;
    if width == 0 || height == 0 || width > MAX_DIMENSION || height > MAX_DIMENSION {
        return Err(DecodeError::InvalidDims);
    }
    let (header_size, stored) = if buffer.len() >= HEADER_SIZE {
        (HEADER_SIZE, buffer[11])
    } else {
        (LEGACY_HEADER_SIZE, 0u8)
    };
    Ok(StreamHeader {
        channels: if version == 1 { 1 } else if version == 2 { 3 } else { 4 },
        width: width as usize,
        height: height as usize,
        quality: if stored == 0 { DEFAULT_DECODE_QUALITY } else { stored },
        header_size,
    })
}

/// Parse the `num_blocks` block records of one plane at `pos`.
pub fn decode_rle_to_blocks(buffer: &[u8], pos: usize, num_blocks: usize) -> (r: Option<(Vec<Block>, usize)>)
    ensures
        r.is_some() == parse_plane(buffer@, pos as int, num_blocks as int).is_some(),
        r matches Some((bs, p)) ==> parse_plane(buffer@, pos as int, num_blocks as int)
            == Some((Seq::new(bs@.len(), |i: int| bs@[i].data@), p as int)),
{
    let mut blocks: Vec<Block> = Vec::new();
    let mut p = pos;
    assert(Seq::new(blocks@.len(), |i: int| blocks@[i].data@) =~= Seq::<Seq<i16>>::empty());
    for n in 0..num_blocks
        invariant
            parse_plane(buffer@, pos as int, n as int) == Some((Seq::new(blocks@.len(), |i: int| blocks@[i].data@), p as int)),
    {
        let ghost prev = Seq::new(blocks@.len(), |i: int| blocks@[i].data@);
        match decode_rle_one_block(buffer, p) {
            None => {
                proof {
                    lemma_parse_plane_none_after(buffer@, pos as int, n + 1, num_blocks as int);
                }
                return None;
            },
            Some((block, next)) => {
                blocks.push(block);
                p = next;
                assert(Seq::new(blocks@.len(), |i: int| blocks@[i].data@) =~= prev.push(block.data@));
            },
        }
    }
    Some((blocks, p))
}

proof fn lemma_parse_plane_len(buf: Seq<u8>, pos: int, n: int)
    requires
        0 <= n,
    ensures
        parse_plane(buf, pos, n) matches Some((bs, p)) ==> bs.len() == n,
    decreases n,
{
    if n > 0 {
        lemma_parse_plane_len(buf, pos, n - 1);
    }
}

proof fn lemma_parse_plane_none_after(buf: Seq<u8>, pos: int, n: int, m: int)
    requires
        0 <= n <= m,
        parse_plane(buf, pos, n).is_none(),
    ensures
        parse_plane(buf, pos, m).is_none(),
    decreases m - n,
{
    if n < m {
        lemma_parse_plane_none_after(buf, pos, n + 1, m);
    }
}

/// Decode one plane at `pos` into channel `offset` of `out` (`stride` bytes per pixel):
/// parse its blocks, dequantize and inverse-transform them, and write the pixels that lie
/// inside the image. Returns the position after the plane.
#[verifier::spinoff_prover]
pub fn decode_one_plane_strided(
    buffer: &[u8],
    pos: usize,
    w: usize,
    h: usize,
    quant_table: &[i16; 64],
    out: &mut [u8],
    stride: usize,
    offset: usize,
) -> (r: Option<usize>)
    requires
        0 < w,
        0 < h,
        offset < stride,
        w * h * stride <= old(out)@.len(),
    ensures
        final(out)@.len() == old(out)@.len(),
        r.is_some() == parse_plane(buffer@, pos as int, num_blocks(w as int, h as int)).is_some(),
        r is None ==> final(out)@ == old(out)@,
        r matches Some(p) ==> {
            let bs = parse_plane(buffer@, pos as int, num_blocks(w as int, h as int)).unwrap().0;
            &&& parse_plane(buffer@, pos as int, num_blocks(w as int, h as int)).unwrap().1 == p
            &&& forall|k: int| 0 <= k < w * h ==>
                #[trigger] final(out)@[slot(k, stride as int, offset as int)] == plane_pixel(bs, quant_table@, w as int, k)
            &&& forall|k: int, c: int| 0 <= k < w * h && 0 <= c < stride && c != offset ==>
                #[trigger] final(out)@[slot(k, stride as int, c)] == old(out)@[slot(k, stride as int, c)]
            &&& forall|i: int| w * h * stride <= i < old(out)@.len() ==> #[trigger] final(out)@[i] == old(out)@[i]
        },
{
    let bw: usize = w / 8 + if w % 8 != 0 { 1 } else { 0 };
    let bh: usize = h / 8 + if h % 8 != 0 { 1 } else { 0 };
    assert(bw == blocks_across(w as int));
    assert(bh == blocks_across(h as int));
    let ghost n = num_blocks(w as int, h as int);
    assert(w * h <= w * h * stride) by (nonlinear_arith)
        requires
            1 <= stride,
            0 < w,
            0 < h,
    ;
    assert(bw <= w && bh <= h);
    assert(bw * bh <= w * h) by (nonlinear_arith)
        requires
            0 <= bw <= w,
            0 <= bh <= h,
    ;
    let out_len = out.len();
    assert(bw * bh <= out_len);
    let nb = bw * bh;
    assert(nb == n) by (nonlinear_arith)
        requires
            nb == bw * bh,
            n == blocks_across(w as int) * blocks_across(h as int),
            bw == blocks_across(w as int),
            bh == blocks_across(h as int),
    ;
    let (mut blocks, next) = match decode_rle_to_blocks(buffer, pos, nb) {
        None => return None,
        Some(x) => x,
    };
    let ghost bs = Seq::new(blocks@.len(), |i: int| blocks@[i].data@);
    proof {
        lemma_parse_plane_len(buffer@, pos as int, n);
    }
    let nblk = blocks.len();
    for i in 0..nblk
        invariant
            nblk == blocks@.len(),
            bs.len() == blocks@.len(),
            forall|j: int| 0 <= j < i ==> #[trigger] blocks@[j].data@ == reconstruct(bs[j], quant_table@),
            forall|j: int| i <= j < blocks@.len() ==> #[trigger] blocks@[j].data@ == bs[j],
    {
        let mut b = blocks[i];
        dequantize(&mut b.data, quant_table);
        idct(&mut b);
        blocks[i] = b;
    }
    let ghost o0 = out@;
    let mut py: usize = 0;
    while py < h
        invariant
            0 < w,
            0 < h,
            offset < stride,
            w * h * stride <= o0.len(),
            out_len == o0.len(),
            bw * bh <= out_len,
            w * h <= w * h * stride,
            out@.len() == o0.len(),
            py <= h,
            bw == blocks_across(w as int),
            bh == blocks_across(h as int),
            blocks@.len() == bw * bh,
            bs.len() == bw * bh,
            forall|j: int| 0 <= j < bw * bh ==> #[trigger] blocks@[j].data@ == reconstruct(bs[j], quant_table@),
            forall|k: int| 0 <= k < py * w ==>
                #[trigger] out@[slot(k, stride as int, offset as int)] == plane_pixel(bs, quant_table@, w as int, k),
            forall|k: int, c: int| 0 <= k < w * h && 0 <= c < stride && (c != offset || k >= py * w) ==>
                #[trigger] out@[slot(k, stride as int, c)] == o0[slot(k, stride as int, c)],
            forall|i: int| w * h * stride <= i < o0.len() ==> #[trigger] out@[i] == o0[i],
        decreases h - py,
    {
        let mut px: usize = 0;
        assert(py * w + w <= w * h) by (nonlinear_arith)
            requires
                py < h,
        ;
        while px < w
            invariant
                0 < w,
                0 < h,
                offset < stride,
                w * h * stride <= o0.len(),
                out_len == o0.len(),
                bw * bh <= out_len,
                w * h <= w * h * stride,
                out@.len() == o0.len(),
                py < h,
                px <= w,
                py * w + w <= w * h,
                bw == blocks_across(w as int),
                bh == blocks_across(h as int),
                blocks@.len() == bw * bh,
                bs.len() == bw * bh,
                forall|j: int| 0 <= j < bw * bh ==> #[trigger] blocks@[j].data@ == reconstruct(bs[j], quant_table@),
                forall|k: int| 0 <= k < py * w + px ==>
                    #[trigger] out@[slot(k, stride as int, offset as int)] == plane_pixel(bs, quant_table@, w as int, k),
                forall|k: int, c: int| 0 <= k < w * h && 0 <= c < stride && (c != offset || k >= py * w + px) ==>
                    #[trigger] out@[slot(k, stride as int, c)] == o0[slot(k, stride as int, c)],
                forall|i: int| w * h * stride <= i < o0.len() ==> #[trigger] out@[i] == o0[i],
            decreases w - px,
        {
            let ghost k = py * w + px;
            let by = py / 8;
            let bx = px / 8;
            assert(by < bh && bx < bw);
            proof {
                lemma_fundamental_div_mod_converse(k as int, w as int, py as int, px as int);
                assert(0 <= by * bw + bx < bw * bh && 0 <= by * bw) by (nonlinear_arith)
                    requires
                        0 <= by < bh,
                        0 <= bx < bw,
                ;
                assert(0 <= py * w && py * w + px < w * h) by (nonlinear_arith)
                    requires
                        0 <= px < w,
                        0 <= py,
                        py * w + w <= w * h,
                ;
                lemma_slot_bound(k as int, offset as int, (w * h) as int, stride as int);
                assert(0 <= k * stride <= k * stride + offset) by (nonlinear_arith)
                    requires
                        0 <= k,
                        0 <= offset,
                        0 < stride,
                ;
            }
            let bi = by * bw + bx;
            let v = blocks[bi].data[(py % 8) * 8 + px % 8];
            let pixel: u8 = if v < -128 {
                0
            } else if v > 127 {
                255
            } else {
                (v + 128) as u8
            };
            assert(pixel == plane_pixel(bs, quant_table@, w as int, k as int));
            let idx = (py * w + px) * stride + offset;
            let ghost prev = out@;
            out[idx] = pixel;
            proof {
                assert(out@ == prev.update(idx as int, pixel));
                assert forall|k2: int, c: int| 0 <= k2 < w * h && 0 <= c < stride && (c != offset || k2 >= k + 1) implies
                    #[trigger] out@[slot(k2, stride as int, c)] == o0[slot(k2, stride as int, c)] by {
                    lemma_slot_bound(k2, c, (w * h) as int, stride as int);
                    if slot(k2, stride as int, c) == idx {
                        lemma_slot(k2, c, k as int, offset as int, stride as int);
                    }
                    assert(prev[slot(k2, stride as int, c)] == o0[slot(k2, stride as int, c)]);
                }
                assert forall|k2: int| 0 <= k2 < k + 1 implies
                    #[trigger] out@[slot(k2, stride as int, offset as int)] == plane_pixel(bs, quant_table@, w as int, k2) by {
                    if k2 != k {
                        lemma_slot_bound(k2, offset as int, (w * h) as int, stride as int);
                        if slot(k2, stride as int, offset as int) == idx {
                            lemma_slot(k2, offset as int, k as int, offset as int, stride as int);
                        }
                        assert(prev[slot(k2, stride as int, offset as int)] == plane_pixel(bs, quant_table@, w as int, k2));
                    }
                }
            }
            px = px + 1;
        }
        assert((py + 1) * w == py * w + w) by (nonlinear_arith);
        py = py + 1;
    }
    assert(py * w == w * h) by (nonlinear_arith)
        requires
            py == h,
    ;
    assert(bs =~= parse_plane(buffer@, pos as int, n).unwrap().0);
    assert(forall|k: int| 0 <= k < w * h ==>
        #[trigger] out@[slot(k, stride as int, offset as int)] == plane_pixel(bs, quant_table@, w as int, k));
    assert(forall|k: int, c: int| 0 <= k < w * h && 0 <= c < stride && c != offset ==>
        #[trigger] out@[slot(k, stride as int, c)] == o0[slot(k, stride as int, c)]);
    Some(next)
}

/// What decoding `buf` into an output buffer of `out_len` bytes gives: the header, the
/// quantized blocks of each plane and the position after the planes, or the error.
pub open spec fn decode_outcome(buf: Seq<u8>, out_len: int) -> Result<(StreamHeader, Seq<Seq<Seq<i16>>>, int), DecodeError> {
    match header_spec(buf) {
        Err(e) => Err(e),
        Ok(hdr) => if out_len < hdr.width * hdr.height * hdr.channels {
            Err(DecodeError::CapacityExceeded)
        } else {
            match stream_planes(buf, hdr) {
                None => Err(DecodeError::Malformed),
                Some((ps, end)) => Ok((hdr, ps, end)),
            }
        },
    }
}

/// The pixels of a decoded stream hold, at channel `c` of pixel `k`, the reconstruction of
/// plane `c`.
pub open spec fn pixels_match(out: Seq<u8>, hdr: StreamHeader, ps: Seq<Seq<Seq<i16>>>) -> bool {
    forall|c: int, k: int| 0 <= c < hdr.channels && 0 <= k < hdr.width * hdr.height ==>
        #[trigger] out[slot(k, hdr.channels as int, c)]
            == plane_pixel(ps[c], quant_table_spec(hdr.quality as int), hdr.width as int, k)
}

proof fn lemma_parse_planes_none_after(buf: Seq<u8>, pos: int, n: int, c: int, m: int)
    requires
        0 <= c <= m,
        parse_planes(buf, pos, n, c).is_none(),
    ensures
        parse_planes(buf, pos, n, m).is_none(),
    decreases m - c,
{
    if c < m {
        lemma_parse_planes_none_after(buf, pos, n, c + 1, m);
    }
}

/// Decode a stream into `out_pixels` (channels interleaved, row-major). On success the
/// result gives the dimensions, the channel count and the embedded color profile, if any.
/// Header errors and a short output buffer leave `out_pixels` untouched, and a successful
/// decode leaves every byte past `width * height * channels` as it was.
pub fn decode(buffer: &[u8], out_pixels: &mut [u8]) -> (r: Result<DecodedImage, DecodeError>)
    ensures
        final(out_pixels)@.len() == old(out_pixels)@.len(),
        r is Err <==> decode_outcome(buffer@, old(out_pixels)@.len() as int) is Err,
        r matches Err(e) ==> decode_outcome(buffer@, old(out_pixels)@.len() as int) == Err::<(StreamHeader, Seq<Seq<Seq<i16>>>, int), DecodeError>(e),
        header_spec(buffer@) is Err ==> final(out_pixels)@ == old(out_pixels)@,
        header_spec(buffer@) matches Ok(hdr) && old(out_pixels)@.len() < hdr.width * hdr.height * hdr.channels
            ==> final(out_pixels)@ == old(out_pixels)@,
        r matches Ok(img) ==> forall|i: int|
            img.width * img.height * img.channels <= i < old(out_pixels)@.len() ==> #[trigger] final(out_pixels)@[i] == old(out_pixels)@[i],
        decode_outcome(buffer@, old(out_pixels)@.len() as int) matches Ok((hdr, ps, end)) ==> {
            &&& r matches Ok(img)
            &&& img.width == hdr.width
            &&& img.height == hdr.height
            &&& img.channels == hdr.channels
            &&& (img.icc is Some <==> parse_trailer(buffer@, end) is Some)
            &&& (img.icc matches Some(v) ==> v@ == parse_trailer(buffer@, end).unwrap().0)
            &&& pixels_match(final(out_pixels)@, hdr, ps)
        },
{
    let hdr = match parse_header(buffer) {
        Err(e) => return Err(e),
        Ok(hdr) => hdr,
    };
    let w = hdr.width;
    let h = hdr.height;
    let ch = hdr.channels;
    assert(1 <= w <= 65536 && 1 <= h <= 65536 && 1 <= ch <= 4);
    assert(w * h <= 0x1_0000_0000 && w * h * ch <= 0x4_0000_0000) by (nonlinear_arith)
        requires
            1 <= w <= 65536,
            1 <= h <= 65536,
            1 <= ch <= 4,
    ;
    let required: u64 = (w as u64) * (h as u64) * (ch as u64);
    if (out_pixels.len() as u64) < required {
        return Err(DecodeError::CapacityExceeded);
    }
    let table = quant_table_for_quality(hdr.quality);
    let ghost n = num_blocks(w as int, h as int);
    let ghost o0 = out_pixels@;
    let ghost mut ps: Seq<Seq<Seq<i16>>> = Seq::empty();
    let mut pos = hdr.header_size;
    for c in 0..ch
        invariant
            hdr == header_spec(buffer@).unwrap(),
            header_spec(buffer@) is Ok,
            w == hdr.width,
            h == hdr.height,
            ch == hdr.channels,
            1 <= w,
            1 <= h,
            1 <= ch <= 4,
            w * h * ch <= o0.len(),
            o0 == old(out_pixels)@,
            out_pixels@.len() == o0.len(),
            table@ == quant_table_spec(hdr.quality as int),
            n == num_blocks(w as int, h as int),
            ps.len() == c,
            parse_planes(buffer@, hdr.header_size as int, n, c as int) == Some((ps, pos as int)),
            forall|c2: int, k: int| 0 <= c2 < c && 0 <= k < w * h ==>
                #[trigger] out_pixels@[slot(k, ch as int, c2)] == plane_pixel(ps[c2], table@, w as int, k),
            forall|i: int| w * h * ch <= i < o0.len() ==> #[trigger] out_pixels@[i] == o0[i],
    {
        let ghost before = out_pixels@;
        match decode_one_plane_strided(buffer, pos, w, h, &table, out_pixels, ch, c) {
            None => {
                proof {
                    lemma_parse_planes_none_after(buffer@, hdr.header_size as int, n, c + 1, ch as int);
                }
                return Err(DecodeError::Malformed);
            },
            Some(p) => {
                proof {
                    let bs = parse_plane(buffer@, pos as int, n).unwrap().0;
                    assert forall|c2: int, k: int| 0 <= c2 < c + 1 && 0 <= k < w * h implies
                        #[trigger] out_pixels@[slot(k, ch as int, c2)] == plane_pixel(ps.push(bs)[c2], table@, w as int, k) by {
                        if c2 < c {
                            assert(out_pixels@[slot(k, ch as int, c2)] == before[slot(k, ch as int, c2)]);
                            assert(before[slot(k, ch as int, c2)] == plane_pixel(ps[c2], table@, w as int, k));
                        }
                    }
                    ps = ps.push(bs);
                }
                pos = p;
            },
        }
    }
    let icc = match parse_icc_trailer(buffer, pos) {
        Some((data, _)) => Some(data),
        None => None,
    };
    Ok(DecodedImage { width: w as u32, height: h as u32, channels: ch as u32, icc })
}

/// Decode a grayscale stream into `out_pixels`; the dimensions on success. A stream of
/// another channel count fails with `BadVersion` (after its pixels were written).
pub fn decode_grayscale(buffer: &[u8], out_pixels: &mut [u8]) -> (r: Result<(u32, u32), DecodeError>)
    ensures
        decode_outcome(buffer@, old(out_pixels)@.len() as int) matches Err(e) ==> r == Err::<(u32, u32), DecodeError>(e),
        decode_outcome(buffer@, old(out_pixels)@.len() as int) matches Ok((hdr, ps, end)) ==> {
            &&& hdr.channels != 1 ==> r == Err::<(u32, u32), DecodeError>(DecodeError::BadVersion)
            &&& hdr.channels == 1 ==> r == Ok::<(u32, u32), DecodeError>((hdr.width as u32, hdr.height as u32))
            &&& pixels_match(final(out_pixels)@, hdr, ps)
        },
{
    match decode(buffer, out_pixels) {
        Err(e) => Err(e),
        Ok(img) => if img.channels == 1 {
            Ok((img.width, img.height))
        } else {
            Err(DecodeError::BadVersion)
        },
    }
}

/// A parse result kept only where it ends within the first `n` bytes.
pub open spec fn within<T>(r: Option<(T, int)>, n: int) -> Option<(T, int)> {
    match r {
        Some((x, e)) => if e <= n { Some((x, e)) } else { None },
        None => None,
    }
}

/// `a` is a prefix of `b`.
pub open spec fn is_prefix(a: Seq<u8>, b: Seq<u8>) -> bool {
    a.len() <= b.len() && forall|i: int| 0 <= i < a.len() ==> a[i] == b[i]
}

proof fn lemma_parse_ac_end(buf: Seq<u8>, pos: int, ac: int, blk: Seq<i16>)
    ensures
        parse_ac(buf, pos, ac, blk) matches Some((r, e)) ==> pos + 3 <= e <= buf.len(),
    decreases buf.len() - pos,
{
    if pos >= 0 && pos + 3 <= buf.len() {
        let run = buf[pos];
        let a = if ac + run > 64 { 64 } else { ac + run };
        if a < 64 {
            lemma_parse_ac_end(buf, pos + 3, a + 1, blk.update(crate::zigzag::zz(a), crate::entropy::i16_from_le(buf[pos + 1], buf[pos + 2])));
        } else {
            lemma_parse_ac_end(buf, pos + 3, 64, blk);
        }
    }
}

proof fn lemma_parse_ac_prefix(a: Seq<u8>, b: Seq<u8>, pos: int, ac: int, blk: Seq<i16>)
    requires
        is_prefix(a, b),
    ensures
        parse_ac(a, pos, ac, blk) == within(parse_ac(b, pos, ac, blk), a.len() as int),
    decreases b.len() - pos,
{
    lemma_parse_ac_end(b, pos, ac, blk);
    if pos >= 0 && pos + 3 <= a.len() {
        let run = b[pos];
        let level = crate::entropy::i16_from_le(b[pos + 1], b[pos + 2]);
        let m = if ac + run > 64 { 64 } else { ac + run };
        if m < 64 {
            lemma_parse_ac_prefix(a, b, pos + 3, m + 1, blk.update(crate::zigzag::zz(m), level));
        } else {
            lemma_parse_ac_prefix(a, b, pos + 3, 64, blk);
        }
    }
}

proof fn lemma_parse_block_end(buf: Seq<u8>, pos: int)
    ensures
        parse_block(buf, pos) matches Some((r, e)) ==> pos + 5 <= e <= buf.len(),
{
    if pos >= 0 && pos + 2 <= buf.len() {
        lemma_parse_ac_end(buf, pos + 2, 1, crate::block::zero_block().update(crate::zigzag::zz(0),
            crate::entropy::i16_from_le(buf[pos], buf[pos + 1])));
    }
}

proof fn lemma_parse_block_prefix(a: Seq<u8>, b: Seq<u8>, pos: int)
    requires
        is_prefix(a, b),
    ensures
        parse_block(a, pos) == within(parse_block(b, pos), a.len() as int),
{
    lemma_parse_block_end(b, pos);
    if pos >= 0 && pos + 2 <= a.len() {
        lemma_parse_ac_prefix(a, b, pos + 2, 1, crate::block::zero_block().update(crate::zigzag::zz(0),
            crate::entropy::i16_from_le(b[pos], b[pos + 1])));
    }
}

proof fn lemma_parse_plane_end(buf: Seq<u8>, pos: int, n: int)
    ensures
        parse_plane(buf, pos, n) matches Some((r, e)) ==> pos <= e && (n >= 1 ==> pos + 5 <= e) && (n >= 1 ==> e <= buf.len()),
    decreases n,
{
    if n > 0 {
        lemma_parse_plane_end(buf, pos, n - 1);
        if let Some((bs, p)) = parse_plane(buf, pos, n - 1) {
            lemma_parse_block_end(buf, p);
        }
    }
}

proof fn lemma_parse_plane_prefix(a: Seq<u8>, b: Seq<u8>, pos: int, n: int)
    requires
        is_prefix(a, b),
        0 <= pos <= a.len(),
    ensures
        parse_plane(a, pos, n) == within(parse_plane(b, pos, n), a.len() as int),
    decreases n,
{
    if n > 0 {
        lemma_parse_plane_prefix(a, b, pos, n - 1);
        lemma_parse_plane_end(b, pos, n - 1);
        lemma_parse_plane_end(b, pos, n);
        if let Some((bs, p)) = parse_plane(b, pos, n - 1) {
            lemma_parse_block_prefix(a, b, p);
            lemma_parse_block_end(b, p);
        }
    }
}

proof fn lemma_parse_planes_end(buf: Seq<u8>, pos: int, n: int, c: int)
    requires
        n >= 1,
    ensures
        parse_planes(buf, pos, n, c) matches Some((r, e)) ==> pos <= e && (c >= 1 ==> pos + 5 <= e && e <= buf.len()),
    decreases c,
{
    if c > 0 {
        lemma_parse_planes_end(buf, pos, n, c - 1);
        if let Some((ps, p)) = parse_planes(buf, pos, n, c - 1) {
            lemma_parse_plane_end(buf, p, n);
        }
    }
}

proof fn lemma_parse_planes_prefix(a: Seq<u8>, b: Seq<u8>, pos: int, n: int, c: int)
    requires
        is_prefix(a, b),
        0 <= pos <= a.len(),
        n >= 1,
    ensures
        parse_planes(a, pos, n, c) == within(parse_planes(b, pos, n, c), a.len() as int),
    decreases c,
{
    if c > 0 {
        lemma_parse_planes_prefix(a, b, pos, n, c - 1);
        lemma_parse_planes_end(b, pos, n, c - 1);
        lemma_parse_planes_end(b, pos, n, c);
        if let Some((ps, p)) = parse_planes(b, pos, n, c - 1) {
            if p <= a.len() {
                lemma_parse_plane_prefix(a, b, p, n);
            }
            lemma_parse_plane_end(b, p, n);
        }
    }
}

proof fn lemma_num_blocks_positive(w: int, h: int)
    requires
        1 <= w,
        1 <= h,
    ensures
        num_blocks(w, h) >= 1,
{
    assert(blocks_across(w) >= 1 && blocks_across(h) >= 1);
    assert(blocks_across(w) * blocks_across(h) >= 1) by (nonlinear_arith)
        requires
            blocks_across(w) >= 1,
            blocks_across(h) >= 1,
    ;
}

/// A stream that decodes ends its planes at least 5 bytes after a full 12-byte header.
proof fn lemma_decoded_stream_shape(s: Seq<u8>, out_len: int)
    requires
        decode_outcome(s, out_len) is Ok,
    ensures
        decode_outcome(s, out_len) matches Ok((hdr, ps, end)) ==> {
            &&& hdr.header_size == HEADER_SIZE
            &&& HEADER_SIZE + 5 <= end <= s.len()
        },
{
    let hdr = header_spec(s).unwrap();
    lemma_num_blocks_positive(hdr.width as int, hdr.height as int);
    lemma_parse_planes_end(s, hdr.header_size as int, num_blocks(hdr.width as int, hdr.height as int), hdr.channels as int);
}

/// Bytes after the planes of a stream that decodes, such as a trailer chunk of an
/// unknown type, change neither the header nor a single coefficient of the planes, so
/// the decoded pixels are the same.
pub proof fn lemma_suffix_keeps_planes(s: Seq<u8>, extra: Seq<u8>, out_len: int)
    requires
        decode_outcome(s, out_len) is Ok,
    ensures
        decode_outcome(s + extra, out_len) == decode_outcome(s, out_len),
{
    lemma_decoded_stream_shape(s, out_len);
    let b = s + extra;
    let hdr = header_spec(s).unwrap();
    assert(is_prefix(s, b));
    assert(header_spec(b) == header_spec(s));
    lemma_num_blocks_positive(hdr.width as int, hdr.height as int);
    lemma_parse_planes_prefix(s, b, hdr.header_size as int, num_blocks(hdr.width as int, hdr.height as int), hdr.channels as int);
}

/// Cutting 1 to `s.len()` bytes off the end of a stream that decodes and has nothing after
/// its planes leaves a stream that fails as malformed.
pub proof fn lemma_truncated_stream_is_malformed(s: Seq<u8>, out_len: int, k: int)
    requires
        decode_outcome(s, out_len) matches Ok((hdr, ps, end)) && end == s.len(),
        1 <= k <= s.len(),
    ensures
        decode_outcome(s.subrange(0, s.len() - k), out_len) == Err::<(StreamHeader, Seq<Seq<Seq<i16>>>, int), DecodeError>(DecodeError::Malformed),
{
    lemma_decoded_stream_shape(s, out_len);
    let a = s.subrange(0, s.len() - k);
    let hdr = header_spec(s).unwrap();
    let n = num_blocks(hdr.width as int, hdr.height as int);
    lemma_num_blocks_positive(hdr.width as int, hdr.height as int);
    assert(is_prefix(a, s));
    if a.len() >= HEADER_SIZE {
        assert(header_spec(a) == header_spec(s));
        lemma_parse_planes_prefix(a, s, hdr.header_size as int, n, hdr.channels as int);
    } else if a.len() == LEGACY_HEADER_SIZE {
        let legacy = header_spec(a).unwrap();
        assert(legacy.width == hdr.width && legacy.height == hdr.height && legacy.channels == hdr.channels);
        lemma_parse_planes_end(a, LEGACY_HEADER_SIZE as int, n, hdr.channels as int);
    }
}

/// The quantized blocks that an encoder writes for the first `c` channels.
pub open spec fn coded_planes(img: Seq<u8>, w: int, h: int, stride: int, t: Seq<i16>, c: int) -> Seq<Seq<Seq<i16>>> {
    Seq::new(c as nat, |ch: int| Seq::new(num_blocks(w, h) as nat, |i: int| transformed(plane_block(img, w, h, stride, ch, i), t)))
}

proof fn lemma_parse_records(bs: Seq<Seq<i16>>, t: Seq<i16>, n: int, pre: Seq<u8>, rest: Seq<u8>)
    requires
        0 <= n,
    ensures
        parse_plane(pre + records(bs, t, n) + rest, pre.len() as int, n)
            == Some((Seq::new(n as nat, |i: int| transformed(bs[i], t)), (pre.len() + records(bs, t, n).len()) as int)),
    decreases n,
{
    if n == 0 {
        assert(Seq::new(0, |i: int| transformed(bs[i], t)) =~= Seq::<Seq<i16>>::empty());
    } else {
        let rec = crate::entropy::block_record(transformed(bs[n - 1], t));
        let prev = records(bs, t, n - 1);
        let buf = pre + records(bs, t, n) + rest;
        assert(buf =~= pre + prev + (rec + rest));
        lemma_parse_records(bs, t, n - 1, pre, rec + rest);
        assert(buf =~= (pre + prev) + rec + rest);
        lemma_block_record_roundtrip(transformed(bs[n - 1], t), pre + prev, rest);
        assert(Seq::new((n - 1) as nat, |i: int| transformed(bs[i], t)).push(transformed(bs[n - 1], t))
            =~= Seq::new(n as nat, |i: int| transformed(bs[i], t)));
    }
}

proof fn lemma_parse_coded_planes(img: Seq<u8>, w: int, h: int, stride: int, t: Seq<i16>, c: int, pre: Seq<u8>, rest: Seq<u8>)
    requires
        0 <= c,
        0 <= num_blocks(w, h),
    ensures
        parse_planes(pre + planes_bytes(img, w, h, stride, t, c) + rest, pre.len() as int, num_blocks(w, h), c)
            == Some((coded_planes(img, w, h, stride, t, c), (pre.len() + planes_bytes(img, w, h, stride, t, c).len()) as int)),
    decreases c,
{
    let n = num_blocks(w, h);
    if c == 0 {
        assert(coded_planes(img, w, h, stride, t, 0) =~= Seq::<Seq<Seq<i16>>>::empty());
    } else {
        let pb = plane_bytes(img, w, h, stride, c - 1, t);
        let prev = planes_bytes(img, w, h, stride, t, c - 1);
        let buf = pre + planes_bytes(img, w, h, stride, t, c) + rest;
        assert(buf =~= pre + prev + (pb + rest));
        lemma_parse_coded_planes(img, w, h, stride, t, c - 1, pre, pb + rest);
        assert(buf =~= (pre + prev) + pb + rest);
        lemma_parse_records(plane_blocks(img, w, h, stride, c - 1), t, n, pre + prev, rest);
        let blocks = Seq::new(n as nat, |i: int| transformed(plane_blocks(img, w, h, stride, c - 1)[i], t));
        assert(blocks =~= coded_planes(img, w, h, stride, t, c)[c - 1]);
        assert(coded_planes(img, w, h, stride, t, c - 1).push(blocks) =~= coded_planes(img, w, h, stride, t, c));
    }
}

proof fn lemma_header_of_encoded(channels: int, w: int, h: int, q: u8, rest: Seq<u8>)
    requires
        channels == 1 || channels == 3 || channels == 4,
        1 <= w <= MAX_DIMENSION,
        1 <= h <= MAX_DIMENSION,
        q != 0,
    ensures
        header_spec(header_bytes(version_for(channels), w as u32, h as u32, q) + rest) == Ok::<StreamHeader, DecodeError>(
            StreamHeader { channels: channels as usize, width: w as usize, height: h as usize, quality: q, header_size: HEADER_SIZE }),
{
    let s = header_bytes(version_for(channels), w as u32, h as u32, q) + rest;
    lemma_u32_le_roundtrip(w as u32);
    lemma_u32_le_roundtrip(h as u32);
    assert(u32_at(s, 3) == u32_at(u32_le(w as u32), 0));
    assert(u32_at(s, 7) == u32_at(u32_le(h as u32), 0));
    assert(s[11] == q);
}

proof fn lemma_trailer_of_encoded(pre: Seq<u8>, profile: Seq<u8>)
    requires
        profile.len() <= u32::MAX,
    ensures
        parse_trailer(pre + trailer_bytes(profile), pre.len() as int) == if profile.len() == 0 {
            None
        } else {
            Some((profile, (pre.len() + trailer_bytes(profile).len()) as int))
        },
{
    let s = pre + trailer_bytes(profile);
    let end = pre.len() as int;
    if profile.len() > 0 {
        lemma_u32_le_roundtrip(profile.len() as u32);
        assert(u32_at(s, end + 4) == u32_at(u32_le(profile.len() as u32), 0));
        assert(s.subrange(end + 8, s.len() as int) =~= profile);
    }
}

/// Decoding what an encoder wrote gives back its header, exactly the quantized blocks of
/// every channel, the position where the planes end, and the color profile, if one was
/// embedded.
#[verifier::spinoff_prover]
#[verifier::rlimit(40)]
pub proof fn lemma_decode_encoded(img: Seq<u8>, w: int, h: int, channels: int, quality: u8, profile: Seq<u8>, out_len: int)
    requires
        channels == 1 || channels == 3 || channels == 4,
        1 <= w <= MAX_DIMENSION,
        1 <= h <= MAX_DIMENSION,
        w * h * channels <= out_len,
        profile.len() <= u32::MAX,
    ensures
        ({
            let s = encoded_stream(img, w, h, channels, quality, profile);
            let q = effective_quality(quality);
            let hdr = StreamHeader {
                channels: channels as usize,
                width: w as usize,
                height: h as usize,
                quality: q,
                header_size: HEADER_SIZE,
            };
            let end = s.len() - trailer_bytes(profile).len();
            &&& decode_outcome(s, out_len) == Ok::<(StreamHeader, Seq<Seq<Seq<i16>>>, int), DecodeError>(
                (hdr, coded_planes(img, w, h, channels, quant_table_spec(q as int), channels), end))
            &&& parse_trailer(s, end) == if profile.len() == 0 {
                None
            } else {
                Some((profile, s.len() as int))
            }
        }),
{
    let s = encoded_stream(img, w, h, channels, quality, profile);
    let q = effective_quality(quality);
    let t = quant_table_spec(q as int);
    let head = header_bytes(version_for(channels), w as u32, h as u32, q);
    let planes = planes_bytes(img, w, h, channels, t, channels);
    let tr = trailer_bytes(profile);
    lemma_num_blocks_positive(w, h);
    assert(s =~= head + (planes + tr));
    lemma_header_of_encoded(channels, w, h, q, planes + tr);
    lemma_parse_coded_planes(img, w, h, channels, t, channels, head, tr);
    assert(s =~= (head + planes) + tr);
    lemma_trailer_of_encoded(head + planes, profile);
}

proof fn lemma_uniform_block(img: Seq<u8>, w: int, h: int, g: u8, bi: int)
    requires
        1 <= w,
        1 <= h,
        0 <= bi,
        forall|i: int| 0 <= i < w * h ==> #[trigger] img[i] == g,
    ensures
        forall|i: int| 0 <= i < 64 ==> #[trigger] plane_block(img, w, h, 1, 0, bi)[i] == g - 128,
        plane_block(img, w, h, 1, 0, bi).len() == 64,
{
    let bw = blocks_across(w);
    let bx = (bi % bw) * 8;
    let by = (bi / bw) * 8;
    assert(bw >= 1);
    assert(bx >= 0 && by >= 0) by (nonlinear_arith)
        requires
            bw >= 1,
            bi >= 0,
            bx == (bi % bw) * 8,
            by == (bi / bw) * 8,
    ;
    assert forall|i: int| 0 <= i < 64 implies #[trigger] plane_block(img, w, h, 1, 0, bi)[i] == g - 128 by {
        let ix = clamp_coord(bx + i % 8, w);
        let iy = clamp_coord(by + i / 8, h);
        lemma_index_in_bounds(ix, iy, w, h, 1, 0);
        assert((iy * w + ix) * 1 + 0 == iy * w + ix);
    }
}

/// Encoding a uniform gray image and decoding it gives every pixel within
/// `(t + 3) / 8` of the gray level, where `t` is the DC entry of the quantization table
/// that the quality selects.
pub proof fn lemma_uniform_gray_round_trip(img: Seq<u8>, w: int, h: int, quality: u8, g: u8, out: Seq<u8>)
    requires
        1 <= w <= MAX_DIMENSION,
        1 <= h <= MAX_DIMENSION,
        w * h <= img.len(),
        w * h <= out.len(),
        forall|i: int| 0 <= i < w * h ==> #[trigger] img[i] == g,
        decode_outcome(encoded_stream(img, w, h, 1, quality, Seq::empty()), out.len() as int) matches Ok((hdr, ps, end))
            && pixels_match(out, hdr, ps),
    ensures
        forall|k: int| 0 <= k < w * h ==> {
            let t0 = quant_table_spec(effective_quality(quality) as int)[0];
            -(t0 + 3) <= 8 * (#[trigger] out[k] - g) <= t0 + 3
        },
{
    let q = effective_quality(quality);
    let t = quant_table_spec(q as int);
    lemma_decode_encoded(img, w, h, 1, quality, Seq::empty(), out.len() as int);
    lemma_quant_table_range(q as int);
    let ps = coded_planes(img, w, h, 1, t, 1);
    let bw = blocks_across(w);
    let bh = blocks_across(h);
    assert forall|k: int| 0 <= k < w * h implies {
        let t0 = quant_table_spec(effective_quality(quality) as int)[0];
        -(t0 + 3) <= 8 * (#[trigger] out[k] - g) <= t0 + 3
    } by {
        assert(slot(k, 1, 0) == k);
        assert(out[slot(k, 1, 0)] == plane_pixel(ps[0], t, w, k));
        let px = k % w;
        let py = k / w;
        assert(0 <= py < h) by (nonlinear_arith)
            requires
                0 <= k < w * h,
                py == k / w,
                w >= 1,
        ;
        assert(0 <= px < w);
        let bi = (py / 8) * bw + px / 8;
        assert(0 <= bi < bw * bh) by (nonlinear_arith)
            requires
                0 <= py / 8 < bh,
                0 <= px / 8 < bw,
                bi == (py / 8) * bw + px / 8,
        ;
        assert(bw * bh == num_blocks(w, h));
        lemma_uniform_block(img, w, h, g, bi);
        let blk = plane_block(img, w, h, 1, 0, bi);
        assert(ps[0][bi] == transformed(blk, t));
        let a = g - 128;
        lemma_dct_constant_block(blk, a);
        let x = dct_spec(blk);
        lemma_quantize_error(x, t);
        let dq = dequantize_spec(quantize_spec(x, t), t);
        assert forall|i: int| 1 <= i < 64 implies #[trigger] dq[i] == 0 by {
            assert(x[i] == 0);
        }
        lemma_idct_dc_only(dq);
        let idx = (py % 8) * 8 + px % 8;
        assert(0 <= idx < 64);
        let smp = idct_spec(dq)[idx];
        assert(-4 <= 8 * smp - dq[0] <= 4);
        assert(-t[0] < x[0] - dq[0] < t[0]);
        assert(reconstruct(ps[0][bi], t) == idct_spec(dq));
    }
}

/// A block whose 64 samples all equal `a`.
pub open spec fn constant_block(a: int) -> Seq<i16> {
    Seq::new(64, |i: int| a as i16)
}

/// The DC level of a uniform block of centered value `a` under table `t`.
pub open spec fn uniform_level(a: int, t: Seq<i16>) -> int {
    trunc_div(8 * a, t[0] as int)
}

proof fn lemma_uniform_cycle(a: int, t: Seq<i16>)
    requires
        -128 <= a <= 127,
        table_positive(t),
        t[0] <= 255,
        t[0] % 8 == 0,
    ensures
        ({
            let m = uniform_level(a, t) * t[0] / 8;
            &&& -128 <= m <= 127
            &&& forall|i: int| 0 <= i < 64 ==> #[trigger] reconstruct(transformed(constant_block(a), t), t)[i] == m
            &&& transformed(constant_block(m), t) == transformed(constant_block(a), t)
        }),
{
    let t0 = t[0] as int;
    let l = uniform_level(a, t);
    let d = l * t0;
    let m = d / 8;
    assert(-1024 <= d <= 1016 && (a >= 0 ==> 0 <= d <= 8 * a) && (a < 0 ==> 8 * a <= d <= 0)) by (nonlinear_arith)
        requires
            -128 <= a <= 127,
            1 <= t0,
            l == trunc_div(8 * a, t0),
            d == l * t0,
    ;
    let k8 = t0 / 8;
    assert(t0 == 8 * k8);
    assert(d == 8 * (l * k8)) by (nonlinear_arith)
        requires
            t0 == 8 * k8,
            d == l * t0,
    ;
    lemma_fundamental_div_mod_converse(d, 8, l * k8, 0);
    assert(d == 8 * m);
    let x = dct_spec(constant_block(a));
    lemma_dct_constant_block(constant_block(a), a);
    let lv = quantize_spec(x, t);
    assert(lv[0] == l);
    assert forall|i: int| 1 <= i < 64 implies #[trigger] lv[i] == 0 by {
        assert(x[i] == 0);
    }
    let dq = dequantize_spec(lv, t);
    assert(dq[0] == d);
    assert forall|i: int| 1 <= i < 64 implies #[trigger] dq[i] == 0 by {
        assert(lv[i] * t[i] == 0);
    }
    lemma_row_sums_dc();
    assert forall|i: int| 0 <= i < 64 implies #[trigger] idct_spec(dq)[i] == m by {
        crate::dct::lemma_idct_dc_exact(dq, i, m);
    }
    assert(transformed(constant_block(a), t) == lv);
    let y = dct_spec(constant_block(m));
    lemma_dct_constant_block(constant_block(m), m);
    assert(y[0] == d);
    assert(trunc_div(d, t0) == l) by (nonlinear_arith)
        requires
            d == l * t0,
            t0 >= 1,
    ;
    assert(quantize_spec(y, t) =~= lv);
}

/// Re-encoding the pixels decoded from an encoded uniform gray image, at the same quality,
/// gives the same stream, provided the DC entry of the quantization table is a multiple
/// of 8.
pub proof fn lemma_uniform_gray_reencode(img: Seq<u8>, w: int, h: int, quality: u8, g: u8, out: Seq<u8>)
    requires
        1 <= w <= MAX_DIMENSION,
        1 <= h <= MAX_DIMENSION,
        w * h <= img.len(),
        w * h <= out.len(),
        forall|i: int| 0 <= i < w * h ==> #[trigger] img[i] == g,
        quant_table_spec(effective_quality(quality) as int)[0] % 8 == 0,
        decode_outcome(encoded_stream(img, w, h, 1, quality, Seq::empty()), out.len() as int) matches Ok((hdr, ps, end))
            && pixels_match(out, hdr, ps),
    ensures
        encoded_stream(out, w, h, 1, quality, Seq::empty()) == encoded_stream(img, w, h, 1, quality, Seq::empty()),
{
    let q = effective_quality(quality);
    let t = quant_table_spec(q as int);
    lemma_decode_encoded(img, w, h, 1, quality, Seq::empty(), out.len() as int);
    lemma_quant_table_range(q as int);
    let a = g - 128;
    lemma_uniform_cycle(a, t);
    let m = uniform_level(a, t) * t[0] / 8;
    let ps = coded_planes(img, w, h, 1, t, 1);
    let bw = blocks_across(w);
    let bh = blocks_across(h);
    let n = num_blocks(w, h);
    assert(bw * bh == n);
    assert forall|bi: int| 0 <= bi < n implies #[trigger] plane_block(img, w, h, 1, 0, bi) == constant_block(a) by {
        lemma_uniform_block(img, w, h, g, bi);
        assert(plane_block(img, w, h, 1, 0, bi) =~= constant_block(a));
    }
    assert forall|k: int| 0 <= k < w * h implies #[trigger] out[k] == m + 128 by {
        assert(slot(k, 1, 0) == k);
        assert(out[slot(k, 1, 0)] == plane_pixel(ps[0], t, w, k));
        let px = k % w;
        let py = k / w;
        assert(0 <= py < h) by (nonlinear_arith)
            requires
                0 <= k < w * h,
                py == k / w,
                w >= 1,
        ;
        let bi = (py / 8) * bw + px / 8;
        assert(0 <= bi < bw * bh) by (nonlinear_arith)
            requires
                0 <= py / 8 < bh,
                0 <= px / 8 < bw,
                bi == (py / 8) * bw + px / 8,
        ;
        assert(ps[0][bi] == transformed(constant_block(a), t));
        let idx = (py % 8) * 8 + px % 8;
        assert(reconstruct(transformed(constant_block(a), t), t)[idx] == m);
    }
    assert forall|bi: int| 0 <= bi < n implies #[trigger] plane_block(out, w, h, 1, 0, bi) == constant_block(m) by {
        lemma_uniform_block(out, w, h, (m + 128) as u8, bi);
        assert(plane_block(out, w, h, 1, 0, bi) =~= constant_block(m));
    }
    lemma_records_same(plane_blocks(out, w, h, 1, 0), plane_blocks(img, w, h, 1, 0), t, n);
    assert(planes_bytes(out, w, h, 1, t, 1) == planes_bytes(img, w, h, 1, t, 1)) by {
        assert(planes_bytes(out, w, h, 1, t, 0) == planes_bytes(img, w, h, 1, t, 0));
    }
}

proof fn lemma_records_same(bs1: Seq<Seq<i16>>, bs2: Seq<Seq<i16>>, t: Seq<i16>, n: int)
    requires
        forall|i: int| 0 <= i < n ==> #[trigger] transformed(bs1[i], t) == transformed(bs2[i], t),
    ensures
        records(bs1, t, n) == records(bs2, t, n),
    decreases n,
{
    if n > 0 {
        lemma_records_same(bs1, bs2, t, n - 1);
        assert(transformed(bs1[n - 1], t) == transformed(bs2[n - 1], t));
    }
}

} // verus!
