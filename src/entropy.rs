//! Per-block records: the DC coefficient, (run, level) pairs for the non-zero AC
//! coefficients in zigzag order, and an end-of-block marker.
use vstd::prelude::*;
use crate::bitstream::{written, lemma_written_append, write_byte};
use crate::block::{Block, zero_block};
use crate::zigzag::{ZIGZAG, zz, lemma_zigzag_permutation, lemma_equal_by_scan};
use crate::quant::{quantize_spec, dequantize_spec};

verus! {

/// Run byte of the end-of-block pair.
pub const EOB_RUN: u8 = 0xFF;

/// The longest record: DC, 63 pairs and the end-of-block pair.
pub const MAX_RECORD_LEN: usize = 194;

/// The two little-endian bytes of `v`.
pub open spec fn le16(v: i16) -> Seq<u8> {
    let w: int = if v < 0 { v + 0x10000 } else { v as int };
    seq![(w % 256) as u8, (w / 256) as u8]
}

/// The `i16` whose little-endian bytes are `lo`, `hi`.
pub open spec fn i16_from_le(lo: u8, hi: u8) -> i16 {
    let w: int = lo + 256 * hi;
    if w >= 0x8000 {
        (w - 0x10000) as i16
    } else {
        w as i16
    }
}

/// The end-of-block pair.
pub open spec fn eob_bytes() -> Seq<u8> {
    seq![EOB_RUN, 0u8, 0u8]
}

/// The (run, level) pairs of the AC coefficients from scan position `k` on, where `run`
/// zeros are pending. Trailing zeros produce nothing.
pub open spec fn ac_bytes(b: Seq<i16>, k: int, run: int) -> Seq<u8>
    decreases 64 - k,
{
    if k >= 64 {
        Seq::empty()
    } else if b[zz(k)] == 0 {
        ac_bytes(b, k + 1, run + 1)
    } else {
        seq![run as u8] + le16(b[zz(k)]) + ac_bytes(b, k + 1, 0)
    }
}

/// The record of a block of quantized coefficients.
pub open spec fn block_record(b: Seq<i16>) -> Seq<u8> {
    le16(b[zz(0)]) + ac_bytes(b, 1, 0) + eob_bytes()
}

/// Parse the (run, level) pairs at `pos`, with the next AC position `ac` and the block
/// filled so far. `None` when the buffer ends before the end-of-block pair.
pub open spec fn parse_ac(buf: Seq<u8>, pos: int, ac: int, blk: Seq<i16>) -> Option<(Seq<i16>, int)>
    decreases buf.len() - pos,
{
    if pos < 0 || pos + 3 > buf.len() {
        None
    } else {
        let run = buf[pos];
        let level = i16_from_le(buf[pos + 1], buf[pos + 2]);
        if run == EOB_RUN && level == 0 {
            Some((blk, pos + 3))
        } else {
            let a = if ac + run > 64 { 64 } else { ac + run };
            if a < 64 {
                parse_ac(buf, pos + 3, a + 1, blk.update(zz(a), level))
            } else {
                parse_ac(buf, pos + 3, 64, blk)
            }
        }
    }
}

/// Parse one block record at `pos`: the block and the position after the record.
pub open spec fn parse_block(buf: Seq<u8>, pos: int) -> Option<(Seq<i16>, int)> {
    if pos < 0 || pos + 2 > buf.len() {
        None
    } else {
        parse_ac(buf, pos + 2, 1, zero_block().update(zz(0), i16_from_le(buf[pos], buf[pos + 1])))
    }
}

/// The (run, level) pairs of `d[k..]` in storage order, with `run` zeros pending.
pub open spec fn rle_pairs(d: Seq<i16>, k: int, run: int) -> Seq<(u8, i16)>
    decreases d.len() - k,
{
    if k >= d.len() {
        Seq::empty()
    } else if d[k] == 0 {
        rle_pairs(d, k + 1, run + 1)
    } else {
        seq![(run as u8, d[k])] + rle_pairs(d, k + 1, 0)
    }
}

pub proof fn lemma_le16_roundtrip(v: i16)
    ensures
        le16(v).len() == 2,
        i16_from_le(le16(v)[0], le16(v)[1]) == v,
{
}

proof fn lemma_ac_bytes_len(b: Seq<i16>, k: int, run: int)
    requires
        1 <= k <= 64,
    ensures
        ac_bytes(b, k, run).len() <= 3 * (64 - k),
    decreases 64 - k,
{
    if k < 64 {
        lemma_ac_bytes_len(b, k + 1, run + 1);
        lemma_ac_bytes_len(b, k + 1, 0);
    }
}

/// A record is 5 to 194 bytes long.
pub proof fn lemma_block_record_len(b: Seq<i16>)
    ensures
        5 <= block_record(b).len() <= MAX_RECORD_LEN,
{
    lemma_ac_bytes_len(b, 1, 0);
}

fn le_bytes(v: i16) -> (r: (u8, u8))
    ensures
        seq![r.0, r.1] == le16(v),
{
    let w: u32 = if v < 0 { (v as i32 + 0x10000) as u32 } else { v as u32 };
    ((w % 256) as u8, (w / 256) as u8)
}

fn from_le(lo: u8, hi: u8) -> (r: i16)
    ensures
        r == i16_from_le(lo, hi),
{
    let w: i32 = lo as i32 + 256 * hi as i32;
    if w >= 0x8000 {
        (w - 0x10000) as i16
    } else {
        w as i16
    }
}

fn write_le16(buffer: &mut [u8], position: &mut i32, v: i16)
    requires
        *old(position) + 2 <= i32::MAX,
    ensures
        final(buffer)@ == written(old(buffer)@, *old(position) as int, le16(v)),
        *final(position) == *old(position) + 2,
{
    let (lo, hi) = le_bytes(v);
    let ghost b0 = buffer@;
    let ghost p0 = *position as int;
    write_byte(buffer, position, lo);
    write_byte(buffer, position, hi);
    proof {
        lemma_written_append(b0, p0, seq![lo], seq![hi]);
        assert(seq![lo] + seq![hi] =~= le16(v));
    }
}

fn write_pair(buffer: &mut [u8], position: &mut i32, run: u8, level: i16)
    requires
        *old(position) + 3 <= i32::MAX,
    ensures
        final(buffer)@ == written(old(buffer)@, *old(position) as int, seq![run] + le16(level)),
        *final(position) == *old(position) + 3,
{
    let ghost b0 = buffer@;
    let ghost p0 = *position as int;
    write_byte(buffer, position, run);
    write_le16(buffer, position, level);
    proof {
        lemma_written_append(b0, p0, seq![run], le16(level));
    }
}

/// Write the record of `block` at `*position` (bytes past the end of `buffer` are
/// dropped) and advance the cursor by the record's length.
pub fn encode_block_to_buffer(block: &Block, buffer: &mut [u8], position: &mut i32)
    requires
        *old(position) + MAX_RECORD_LEN <= i32::MAX,
    ensures
        final(buffer)@ == written(old(buffer)@, *old(position) as int, block_record(block.data@)),
        *final(position) == *old(position) + block_record(block.data@).len(),
{
    let ghost b = block.data@;
    let ghost b0 = buffer@;
    let ghost p0 = *position as int;
    proof {
        lemma_ac_bytes_len(b, 1, 0);
    }
    write_le16(buffer, position, block.data[ZIGZAG[0]]);
    let ghost head = le16(b[zz(0)]);
    let ghost mut emitted: Seq<u8> = Seq::empty();
    let mut zero_count: u8 = 0;
    assert(emitted + ac_bytes(b, 1, 0) =~= ac_bytes(b, 1, 0));
    assert(head + emitted =~= head);
    for i in 1..64usize
        invariant
            b == block.data@,
            p0 == *old(position) as int,
            b0 == old(buffer)@,
            head == le16(b[zz(0)]),
            p0 + MAX_RECORD_LEN <= i32::MAX,
            zero_count < i,
            emitted + ac_bytes(b, i as int, zero_count as int) == ac_bytes(b, 1, 0),
            ac_bytes(b, 1, 0).len() <= 189,
            buffer@ == written(b0, p0, head + emitted),
            *position == p0 + 2 + emitted.len(),
    {
        proof {
            lemma_ac_bytes_len(b, i as int, zero_count as int);
            lemma_ac_bytes_len(b, i + 1, 0);
        }
        let level = block.data[ZIGZAG[i]];
        if level == 0 {
            zero_count = zero_count + 1;
        } else {
            proof {
                lemma_written_append(b0, p0, head + emitted, seq![zero_count] + le16(level));
            }
            write_pair(buffer, position, zero_count, level);
            proof {
                assert(emitted + (seq![zero_count] + le16(level)) + ac_bytes(b, i + 1, 0)
                    =~= emitted + ac_bytes(b, i as int, zero_count as int));
                assert(head + emitted + (seq![zero_count] + le16(level))
                    =~= head + (emitted + (seq![zero_count] + le16(level))));
                emitted = emitted + (seq![zero_count] + le16(level));
            }
            zero_count = 0;
        }
    }
    assert(emitted =~= ac_bytes(b, 1, 0));
    let ghost b1 = buffer@;
    write_byte(buffer, position, EOB_RUN);
    write_byte(buffer, position, 0);
    write_byte(buffer, position, 0);
    proof {
        lemma_written_append(b0, p0, head + emitted, seq![EOB_RUN]);
        lemma_written_append(b0, p0, head + emitted + seq![EOB_RUN], seq![0u8]);
        lemma_written_append(b0, p0, head + emitted + seq![EOB_RUN] + seq![0u8], seq![0u8]);
        assert(head + emitted + seq![EOB_RUN] + seq![0u8] + seq![0u8] =~= block_record(b));
    }
}

/// The (run, level) pairs of the coefficients after the first, in storage order.
pub fn rle_encode(block: &Block) -> (r: Vec<(u8, i16)>)
    ensures
        r@ == rle_pairs(block.data@, 1, 0),
{
    let ghost d = block.data@;
    let mut result: Vec<(u8, i16)> = Vec::new();
    let mut zero_count: u8 = 0;
    assert(result@ + rle_pairs(d, 1, 0) =~= rle_pairs(d, 1, 0));
    for i in 1..64usize
        invariant
            d == block.data@,
            zero_count < i,
            result@ + rle_pairs(d, i as int, zero_count as int) == rle_pairs(d, 1, 0),
    {
        let coef = block.data[i];
        if coef == 0 {
            zero_count = zero_count + 1;
        } else {
            proof {
                assert(result@.push((zero_count, coef)) + rle_pairs(d, i + 1, 0)
                    =~= result@ + rle_pairs(d, i as int, zero_count as int));
            }
            result.push((zero_count, coef));
            zero_count = 0;
        }
    }
    assert(result@ =~= rle_pairs(d, 1, 0));
    result
}

/// Parse one block record at `pos`: the block and the position just after the record,
/// or `None` where the buffer ends before the record does.
pub fn decode_rle_one_block(buffer: &[u8], pos: usize) -> (r: Option<(Block, usize)>)
    ensures
        r.is_some() == parse_block(buffer@, pos as int).is_some(),
        r matches Some((b, p)) ==> parse_block(buffer@, pos as int) == Some((b.data@, p as int)),
{
    if pos > buffer.len() || buffer.len() - pos < 2 {
        return None;
    }
    let mut block = Block::new();
    block.data[ZIGZAG[0]] = from_le(buffer[pos], buffer[pos + 1]);
    let mut p = pos + 2;
    let mut ac_index: usize = 1;
    proof {
        lemma_zigzag_permutation();
    }
    loop
        invariant_except_break
            parse_block(buffer@, pos as int) == parse_ac(buffer@, p as int, ac_index as int, block.data@),
        invariant
            p <= buffer@.len(),
            1 <= ac_index <= 64,
            block.data@.len() == 64,
            forall|k: int| 0 <= k < 64 ==> 0 <= #[trigger] zz(k) < 64,
        ensures
            parse_block(buffer@, pos as int) == Some((block.data@, p as int)),
        decreases buffer@.len() - p,
    {
        if buffer.len() - p < 3 {
            return None;
        }
        let run = buffer[p];
        let level = from_le(buffer[p + 1], buffer[p + 2]);
        p = p + 3;
        if run == EOB_RUN && level == 0 {
            break;
        }
        ac_index = if ac_index + run as usize > 64 { 64 } else { ac_index + run as usize };
        if ac_index < 64 {
            block.data[ZIGZAG[ac_index]] = level;
            ac_index = ac_index + 1;
        }
    }
    Some((block, p))
}

proof fn lemma_parse_ac_record(b: Seq<i16>, k: int, run: int, buf: Seq<u8>, pos: int, blk: Seq<i16>)
    requires
        b.len() == 64,
        blk.len() == 64,
        1 <= k <= 64,
        0 <= run,
        1 <= k - run,
        forall|j: int| k - run <= j < k ==> b[#[trigger] zz(j)] == 0,
        forall|j: int| 0 <= j < k - run ==> blk[#[trigger] zz(j)] == b[zz(j)],
        forall|j: int| k - run <= j < 64 ==> blk[#[trigger] zz(j)] == 0,
        0 <= pos,
        pos + ac_bytes(b, k, run).len() + 3 <= buf.len(),
        forall|i: int|
            0 <= i < ac_bytes(b, k, run).len() + 3 ==> buf[pos + i] == #[trigger] (ac_bytes(b, k, run) + eob_bytes())[i],
    ensures
        parse_ac(buf, pos, k - run, blk) == Some((b, pos + ac_bytes(b, k, run).len() + 3)),
    decreases 64 - k,
{
    lemma_zigzag_permutation();
    let tail = ac_bytes(b, k, run) + eob_bytes();
    if k == 64 {
        assert(tail[0] == EOB_RUN && tail[1] == 0 && tail[2] == 0);
        assert(buf[pos] == EOB_RUN && buf[pos + 1] == 0 && buf[pos + 2] == 0);
        assert forall|j: int| 0 <= j < 64 implies blk[#[trigger] zz(j)] == b[zz(j)] by {
            if j >= k - run {
            }
        }
        lemma_equal_by_scan(blk, b);
    } else if b[zz(k)] == 0 {
        lemma_parse_ac_record(b, k + 1, run + 1, buf, pos, blk);
    } else {
        let v = b[zz(k)];
        let rest = ac_bytes(b, k + 1, 0);
        assert(ac_bytes(b, k, run) == seq![run as u8] + le16(v) + rest);
        assert(tail[0] == run as u8);
        assert(tail[1] == le16(v)[0]);
        assert(tail[2] == le16(v)[1]);
        assert(buf[pos] == run as u8);
        assert(buf[pos + 1] == le16(v)[0]);
        assert(buf[pos + 2] == le16(v)[1]);
        lemma_le16_roundtrip(v);
        let blk2 = blk.update(zz(k), v);
        assert forall|i: int| 0 <= i < rest.len() + 3 implies buf[pos + 3 + i] == #[trigger] (rest + eob_bytes())[i] by {
            assert(tail[3 + i] == (rest + eob_bytes())[i]);
        }
        assert forall|j: int| 0 <= j < k + 1 implies blk2[#[trigger] zz(j)] == b[zz(j)] by {
            if j != k {
                assert(zz(j) != zz(k));
            }
        }
        assert forall|j: int| k + 1 <= j < 64 implies blk2[#[trigger] zz(j)] == 0 by {
            assert(zz(j) != zz(k));
        }
        lemma_parse_ac_record(b, k + 1, 0, buf, pos + 3, blk2);
    }
}

/// Decoding a block's record gives the block back, wherever the record stands in a stream.
pub proof fn lemma_block_record_roundtrip(b: Seq<i16>, pre: Seq<u8>, rest: Seq<u8>)
    requires
        b.len() == 64,
    ensures
        parse_block(pre + block_record(b) + rest, pre.len() as int)
            == Some((b, (pre.len() + block_record(b).len()) as int)),
{
    lemma_zigzag_permutation();
    let buf = pre + block_record(b) + rest;
    let rec = block_record(b);
    let p = pre.len() as int;
    let dc = b[zz(0)];
    let ac = ac_bytes(b, 1, 0);
    lemma_le16_roundtrip(dc);
    assert(buf[p] == rec[0] && rec[0] == le16(dc)[0]);
    assert(buf[p + 1] == rec[1] && rec[1] == le16(dc)[1]);
    let blk0 = zero_block().update(zz(0), dc);
    assert forall|i: int| 0 <= i < ac.len() + 3 implies buf[p + 2 + i] == #[trigger] (ac + eob_bytes())[i] by {
        assert(buf[p + 2 + i] == rec[2 + i]);
    }
    assert forall|j: int| 1 <= j < 64 implies blk0[#[trigger] zz(j)] == 0 by {
        assert(zz(j) != zz(0));
    }
    lemma_parse_ac_record(b, 1, 0, buf, p + 2, blk0);
}

/// The all-ones quantization table, under which quantization changes nothing.
pub open spec fn identity_table() -> Seq<i16> {
    Seq::new(64, |i: int| 1i16)
}

/// With the all-ones table, quantizing a block, writing its record, parsing the record back
/// and dequantizing gives the block itself.
pub proof fn lemma_identity_table_roundtrip(b: Seq<i16>, pre: Seq<u8>, rest: Seq<u8>)
    requires
        b.len() == 64,
    ensures
        parse_block(pre + block_record(quantize_spec(b, identity_table())) + rest, pre.len() as int) matches Some((d, e))
            && dequantize_spec(d, identity_table()) == b
            && e == pre.len() + block_record(quantize_spec(b, identity_table())).len(),
{
    let q = quantize_spec(b, identity_table());
    assert(q =~= b);
    lemma_block_record_roundtrip(q, pre, rest);
    assert forall|i: int| 0 <= i < 64 implies #[trigger] dequantize_spec(b, identity_table())[i] == b[i] by {
        assert(identity_table()[i] == 1i16);
        assert(b[i] * identity_table()[i] == b[i] as int);
    }
    assert(dequantize_spec(b, identity_table()) =~= b);
}

} // verus!
