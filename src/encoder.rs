//! The encoder: header, one coded plane per channel, and an optional color-profile trailer.
use vstd::prelude::*;
use rayon::iter::{IntoParallelRefMutIterator, ParallelIterator};
use crate::bitstream::{written, lemma_written_append};
use crate::block::Block;
use crate::blockizer::{Blockizer, num_blocks, plane_block, blocks_across};
use crate::container::{header_bytes, trailer_bytes, profile_of, write_header_version, write_icc_trailer, HEADER_SIZE, CHUNK_HEAD_SIZE};
use crate::dct::{dct, dct_spec};
use crate::entropy::{block_record, encode_block_to_buffer, lemma_block_record_len, MAX_RECORD_LEN};
use crate::quant::{quantize, quantize_spec, quant_table_for_quality, quant_table_spec, table_positive, lemma_quant_table_range};

verus! {

/// Quality used when the caller passes 0.
pub const DEFAULT_ENCODE_QUALITY: u8 = 85;

/// Why an encoder failed.
#[derive(Clone, Copy, Debug, PartialEq, Eq)]
pub enum EncodeError {
    /// A dimension is zero or does not fit the header's 32-bit field.
    InvalidDims,
    /// The stream is longer than the output buffer; the cursor tells how long.
    CapacityExceeded,
}

/// The quality an encoder uses: 0 means the default, anything else is clamped to 1..=100.
pub open spec fn effective_quality(quality: u8) -> u8 {
    if quality == 0 {
        DEFAULT_ENCODE_QUALITY
    } else if quality > 100 {
        100
    } else {
        quality
    }
}

/// A block after the forward transform and quantization by `t`.
pub open spec fn transformed(b: Seq<i16>, t: Seq<i16>) -> Seq<i16> {
    quantize_spec(dct_spec(b), t)
}

/// The records of the first `n` blocks of `bs`, each transformed with `t`.
pub open spec fn records(bs: Seq<Seq<i16>>, t: Seq<i16>, n: int) -> Seq<u8>
    decreases n,
{
    if n <= 0 {
        Seq::empty()
    } else {
        records(bs, t, n - 1) + block_record(transformed(bs[n - 1], t))
    }
}

/// The blocks of channel `channel` of an image with `stride` bytes per pixel.
pub open spec fn plane_blocks(img: Seq<u8>, w: int, h: int, stride: int, channel: int) -> Seq<Seq<i16>> {
    Seq::new(num_blocks(w, h) as nat, |bi: int| plane_block(img, w, h, stride, channel, bi))
}

/// The coded plane of channel `channel`.
pub open spec fn plane_bytes(img: Seq<u8>, w: int, h: int, stride: int, channel: int, t: Seq<i16>) -> Seq<u8> {
    records(plane_blocks(img, w, h, stride, channel), t, num_blocks(w, h))
}

/// The coded planes of the first `c` channels, in channel order.
pub open spec fn planes_bytes(img: Seq<u8>, w: int, h: int, stride: int, t: Seq<i16>, c: int) -> Seq<u8>
    decreases c,
{
    if c <= 0 {
        Seq::empty()
    } else {
        planes_bytes(img, w, h, stride, t, c - 1) + plane_bytes(img, w, h, stride, c - 1, t)
    }
}

/// The version byte for a channel count: 1 for gray, 2 for RGB, 3 for RGBA.
pub open spec fn version_for(channels: int) -> u8 {
    if channels == 1 {
        1
    } else if channels == 3 {
        2
    } else {
        3
    }
}

/// The whole stream for an interleaved image of `channels` bytes per pixel.
pub open spec fn encoded_stream(img: Seq<u8>, w: int, h: int, channels: int, quality: u8, profile: Seq<u8>) -> Seq<u8> {
    let q = effective_quality(quality);
    header_bytes(version_for(channels), w as u32, h as u32, q)
        + planes_bytes(img, w, h, channels, quant_table_spec(q as int), channels)
        + trailer_bytes(profile)
}

/// An upper bound on the length of a stream, used to keep the `i32` cursor in range.
pub open spec fn stream_bound(w: int, h: int, channels: int, profile_len: int) -> int {
    HEADER_SIZE + channels * num_blocks(w, h) * MAX_RECORD_LEN + CHUNK_HEAD_SIZE + profile_len
}

/// Dimensions an encoder accepts.
pub open spec fn dims_valid(w: int, h: int) -> bool {
    1 <= w <= u32::MAX && 1 <= h <= u32::MAX
}

/// The block contents of a sequence of blocks.
pub open spec fn datas(bs: Seq<Block>) -> Seq<Seq<i16>> {
    Seq::new(bs.len(), |i: int| bs[i].data@)
}

proof fn lemma_records_len(bs: Seq<Seq<i16>>, t: Seq<i16>, n: int)
    requires
        0 <= n,
    ensures
        records(bs, t, n).len() <= MAX_RECORD_LEN * n,
    decreases n,
{
    if n > 0 {
        lemma_records_len(bs, t, n - 1);
        lemma_block_record_len(transformed(bs[n - 1], t));
    }
}

proof fn lemma_planes_len(img: Seq<u8>, w: int, h: int, stride: int, t: Seq<i16>, c: int)
    requires
        0 <= c,
        0 <= w,
        0 <= h,
    ensures
        planes_bytes(img, w, h, stride, t, c).len() <= c * num_blocks(w, h) * MAX_RECORD_LEN,
    decreases c,
{
    if c > 0 {
        lemma_planes_len(img, w, h, stride, t, c - 1);
        lemma_records_len(plane_blocks(img, w, h, stride, c - 1), t, num_blocks(w, h));
        let nb = num_blocks(w, h);
        assert((c - 1) * nb * MAX_RECORD_LEN + MAX_RECORD_LEN * nb == c * nb * MAX_RECORD_LEN) by (nonlinear_arith);
    }
}

/// Forward transform and quantization of one block, in place.
pub fn transform_block(block: &mut Block, table: &[i16; 64])
    requires
        table_positive(table@),
    ensures
        final(block).data@ == transformed(old(block).data@, table@),
{
    dct(block);
    quantize(&mut block.data, table);
}

/// Relies on rayon's `par_iter_mut` over a `Vec` and `ParallelIterator::for_each`: the
/// closure runs once on each element, in place, and the vector keeps its length.
#[verifier::external_body]
fn transform_blocks_parallel(blocks: &mut Vec<Block>, table: &[i16; 64])
    requires
        table_positive(table@),
    ensures
        final(blocks)@.len() == old(blocks)@.len(),
        forall|i: int| 0 <= i < old(blocks)@.len() ==>
            #[trigger] final(blocks)@[i].data@ == transformed(old(blocks)@[i].data@, table@),
{
    blocks.par_iter_mut().for_each(|b| transform_block(b, table));
}

/// Transform and quantize the blocks in place (in parallel), then write their records in
/// order.
fn encode_blocks(blocks: &mut Vec<Block>, table: &[i16; 64], out_buffer: &mut [u8], out_position: &mut i32)
    requires
        table_positive(table@),
        *old(out_position) + MAX_RECORD_LEN * old(blocks)@.len() <= i32::MAX,
    ensures
        final(out_buffer)@ == written(old(out_buffer)@, *old(out_position) as int,
            records(datas(old(blocks)@), table@, old(blocks)@.len() as int)),
        *final(out_position) == *old(out_position)
            + records(datas(old(blocks)@), table@, old(blocks)@.len() as int).len(),
        final(blocks)@.len() == old(blocks)@.len(),
        forall|i: int| 0 <= i < old(blocks)@.len() ==>
            #[trigger] final(blocks)@[i].data@ == transformed(old(blocks)@[i].data@, table@),
{
    let ghost bs = datas(blocks@);
    let ghost n = blocks@.len() as int;
    let ghost b0 = out_buffer@;
    let ghost p0 = *out_position as int;
    transform_blocks_parallel(blocks, table);
    proof {
        crate::bitstream::lemma_written_empty(b0, p0);
    }
    for i in 0..blocks.len()
        invariant
            n == blocks@.len(),
            bs.len() == n,
            forall|j: int| 0 <= j < n ==> #[trigger] blocks@[j].data@ == transformed(bs[j], table@),
            p0 + MAX_RECORD_LEN * n <= i32::MAX,
            out_buffer@ == written(b0, p0, records(bs, table@, i as int)),
            *out_position == p0 + records(bs, table@, i as int).len(),
            records(bs, table@, i as int).len() <= MAX_RECORD_LEN * i,
    {
        proof {
            lemma_records_len(bs, table@, i + 1);
            lemma_written_append(b0, p0, records(bs, table@, i as int), block_record(blocks@[i as int].data@));
            assert(MAX_RECORD_LEN * i + MAX_RECORD_LEN <= MAX_RECORD_LEN * n) by (nonlinear_arith)
                requires
                    i < n,
            ;
        }
        encode_block_to_buffer(&blocks[i], out_buffer, out_position);
    }
}

/// Cut channel `channel` into blocks and write its coded plane.
fn encode_one_plane(
    image: &[u8],
    width: usize,
    height: usize,
    stride: usize,
    channel: usize,
    table: &[i16; 64],
    out_buffer: &mut [u8],
    out_position: &mut i32,
)
    requires
        channel < stride,
        width * height * stride <= image@.len(),
        table_positive(table@),
        *old(out_position) + MAX_RECORD_LEN * num_blocks(width as int, height as int) <= i32::MAX,
    ensures
        final(out_buffer)@ == written(old(out_buffer)@, *old(out_position) as int,
            plane_bytes(image@, width as int, height as int, stride as int, channel as int, table@)),
        *final(out_position) == *old(out_position)
            + plane_bytes(image@, width as int, height as int, stride as int, channel as int, table@).len(),
{
    let blockizer = Blockizer::new(width, height);
    let mut blocks = blockizer.generate_blocks_interleaved(image, stride, channel);
    assert(datas(blocks@) =~= plane_blocks(image@, width as int, height as int, stride as int, channel as int));
    encode_blocks(&mut blocks, table, out_buffer, out_position);
}

/// Encode an interleaved image of `channels` bytes per pixel (1, 3 or 4).
fn encode_interleaved(
    image: &[u8],
    width: usize,
    height: usize,
    channels: usize,
    quality: u8,
    out_buffer: &mut [u8],
    out_position: &mut i32,
    icc: Option<&[u8]>,
) -> (r: Result<(), EncodeError>)
    requires
        channels == 1 || channels == 3 || channels == 4,
        width * height * channels <= image@.len(),
        0 <= *old(out_position),
        *old(out_position) + stream_bound(width as int, height as int, channels as int, profile_of(icc).len() as int) <= i32::MAX,
    ensures
        !dims_valid(width as int, height as int) ==> {
            &&& r == Err::<(), EncodeError>(EncodeError::InvalidDims)
            &&& final(out_buffer)@ == old(out_buffer)@
            &&& *final(out_position) == *old(out_position)
        },
        dims_valid(width as int, height as int) ==> {
            let s = encoded_stream(image@, width as int, height as int, channels as int, quality, profile_of(icc));
            &&& final(out_buffer)@ == written(old(out_buffer)@, *old(out_position) as int, s)
            &&& *final(out_position) == *old(out_position) + s.len()
            &&& (r is Ok <==> *final(out_position) <= old(out_buffer)@.len())
            &&& (r is Err ==> r == Err::<(), EncodeError>(EncodeError::CapacityExceeded))
        },
{
    if width == 0 || height == 0 || width > u32::MAX as usize || height > u32::MAX as usize {
        return Err(EncodeError::InvalidDims);
    }
    let ghost b0 = out_buffer@;
    let ghost p0 = *out_position as int;
    let ghost img = image@;
    let ghost w = width as int;
    let ghost h = height as int;
    let ghost nb = num_blocks(w, h);
    let q: u8 = if quality == 0 {
        DEFAULT_ENCODE_QUALITY
    } else if quality > 100 {
        100
    } else {
        quality
    };
    let version: u8 = if channels == 1 {
        1
    } else if channels == 3 {
        2
    } else {
        3
    };
    assert(0 <= nb) by (nonlinear_arith)
        requires
            nb == blocks_across(w) * blocks_across(h),
            blocks_across(w) == (w + 7) / 8,
            blocks_across(h) == (h + 7) / 8,
            w >= 1,
            h >= 1,
    ;
    assert(0 <= channels * nb * MAX_RECORD_LEN) by (nonlinear_arith)
        requires
            0 <= nb,
            channels >= 1,
    ;
    assert(crate::container::header_quality(q) == q);
    write_header_version(out_buffer, out_position, version, width as u32, height as u32, q);
    let table = quant_table_for_quality(q);
    proof {
        lemma_quant_table_range(q as int);
    }
    let ghost head = header_bytes(version, width as u32, height as u32, q);
    assert(head + planes_bytes(img, w, h, channels as int, table@, 0) =~= head);
    for c in 0..channels
        invariant
            img == image@,
            head.len() == HEADER_SIZE,
            w == width,
            h == height,
            nb == num_blocks(w, h),
            0 <= nb,
            channels == 1 || channels == 3 || channels == 4,
            width * height * channels <= image@.len(),
            table_positive(table@),
            p0 + stream_bound(w, h, channels as int, profile_of(icc).len() as int) <= i32::MAX,
            0 <= channels * nb * MAX_RECORD_LEN,
            out_buffer@ == written(b0, p0, head + planes_bytes(img, w, h, channels as int, table@, c as int)),
            *out_position == p0 + HEADER_SIZE + planes_bytes(img, w, h, channels as int, table@, c as int).len(),
    {
        proof {
            lemma_planes_len(img, w, h, channels as int, table@, c as int);
            assert(c * nb * MAX_RECORD_LEN + MAX_RECORD_LEN * nb <= channels * nb * MAX_RECORD_LEN) by (nonlinear_arith)
                requires
                    c < channels,
                    0 <= nb,
            ;
            let pb = plane_bytes(img, w, h, channels as int, c as int, table@);
            lemma_written_append(b0, p0, head + planes_bytes(img, w, h, channels as int, table@, c as int), pb);
            assert(head + planes_bytes(img, w, h, channels as int, table@, c as int) + pb
                =~= head + planes_bytes(img, w, h, channels as int, table@, c + 1));
        }
        encode_one_plane(image, width, height, channels, c, &table, out_buffer, out_position);
    }
    proof {
        lemma_planes_len(img, w, h, channels as int, table@, channels as int);
        lemma_written_append(b0, p0, head + planes_bytes(img, w, h, channels as int, table@, channels as int),
            trailer_bytes(profile_of(icc)));
    }
    write_icc_trailer(out_buffer, out_position, icc);
    assert(encoded_stream(img, w, h, channels as int, quality, profile_of(icc))
        =~= head + planes_bytes(img, w, h, channels as int, table@, channels as int) + trailer_bytes(profile_of(icc)));
    if (*out_position as usize) <= out_buffer.len() {
        Ok(())
    } else {
        Err(EncodeError::CapacityExceeded)
    }
}

/// Encode a grayscale image of `width * height` bytes. Quality 0 means 85.
pub fn encode_grayscale(
    image: &[u8],
    width: usize,
    height: usize,
    quality: u8,
    out_buffer: &mut [u8],
    out_position: &mut i32,
) -> (r: Result<(), EncodeError>)
    requires
        width * height <= image@.len(),
        0 <= *old(out_position),
        *old(out_position) + stream_bound(width as int, height as int, 1, 0) <= i32::MAX,
    ensures
        !dims_valid(width as int, height as int) ==> {
            &&& r == Err::<(), EncodeError>(EncodeError::InvalidDims)
            &&& final(out_buffer)@ == old(out_buffer)@
            &&& *final(out_position) == *old(out_position)
        },
        dims_valid(width as int, height as int) ==> {
            let s = encoded_stream(image@, width as int, height as int, 1, quality, Seq::empty());
            &&& final(out_buffer)@ == written(old(out_buffer)@, *old(out_position) as int, s)
            &&& *final(out_position) == *old(out_position) + s.len()
            &&& (r is Ok <==> *final(out_position) <= old(out_buffer)@.len())
            &&& (r is Err ==> r == Err::<(), EncodeError>(EncodeError::CapacityExceeded))
        },
{
    encode_interleaved(image, width, height, 1, quality, out_buffer, out_position, None)
}

/// Encode an RGB image (3 bytes per pixel, R G B), with an optional color profile.
/// Quality 0 means 85.
pub fn encode_rgb(
    image: &[u8],
    width: usize,
    height: usize,
    quality: u8,
    out_buffer: &mut [u8],
    out_position: &mut i32,
    icc: Option<&[u8]>,
) -> (r: Result<(), EncodeError>)
    requires
        width * height * 3 <= image@.len(),
        0 <= *old(out_position),
        *old(out_position) + stream_bound(width as int, height as int, 3, profile_of(icc).len() as int) <= i32::MAX,
    ensures
        !dims_valid(width as int, height as int) ==> {
            &&& r == Err::<(), EncodeError>(EncodeError::InvalidDims)
            &&& final(out_buffer)@ == old(out_buffer)@
            &&& *final(out_position) == *old(out_position)
        },
        dims_valid(width as int, height as int) ==> {
            let s = encoded_stream(image@, width as int, height as int, 3, quality, profile_of(icc));
            &&& final(out_buffer)@ == written(old(out_buffer)@, *old(out_position) as int, s)
            &&& *final(out_position) == *old(out_position) + s.len()
            &&& (r is Ok <==> *final(out_position) <= old(out_buffer)@.len())
            &&& (r is Err ==> r == Err::<(), EncodeError>(EncodeError::CapacityExceeded))
        },
{
    encode_interleaved(image, width, height, 3, quality, out_buffer, out_position, icc)
}

/// Encode an RGBA image (4 bytes per pixel, R G B A), with an optional color profile.
/// Quality 0 means 85.
pub fn encode_rgba(
    image: &[u8],
    width: usize,
    height: usize,
    quality: u8,
    out_buffer: &mut [u8],
    out_position: &mut i32,
    icc: Option<&[u8]>,
) -> (r: Result<(), EncodeError>)
    requires
        width * height * 4 <= image@.len(),
        0 <= *old(out_position),
        *old(out_position) + stream_bound(width as int, height as int, 4, profile_of(icc).len() as int) <= i32::MAX,
    ensures
        !dims_valid(width as int, height as int) ==> {
            &&& r == Err::<(), EncodeError>(EncodeError::InvalidDims)
            &&& final(out_buffer)@ == old(out_buffer)@
            &&& *final(out_position) == *old(out_position)
        },
        dims_valid(width as int, height as int) ==> {
            let s = encoded_stream(image@, width as int, height as int, 4, quality, profile_of(icc));
            &&& final(out_buffer)@ == written(old(out_buffer)@, *old(out_position) as int, s)
            &&& *final(out_position) == *old(out_position) + s.len()
            &&& (r is Ok <==> *final(out_position) <= old(out_buffer)@.len())
            &&& (r is Err ==> r == Err::<(), EncodeError>(EncodeError::CapacityExceeded))
        },
{
    encode_interleaved(image, width, height, 4, quality, out_buffer, out_position, icc)
}

} // verus!
