//! The stream container: a 12-byte header before the planes, and optional typed
//! trailer chunks after them.
use vstd::prelude::*;
use crate::bitstream::{written, lemma_written_append, write_byte, write_bytes};

verus! {

/// Size of the header that encoders write.
pub const HEADER_SIZE: usize = 12;

/// Size of the legacy header without the quality byte.
pub const LEGACY_HEADER_SIZE: usize = 11;

/// Size of a trailer chunk's head: signature, type and length.
pub const CHUNK_HEAD_SIZE: usize = 8;

/// Trailer chunk type of an embedded color profile.
pub const CHUNK_COLOR_PROFILE: u8 = 1;

/// The four little-endian bytes of `v`.
pub open spec fn u32_le(v: u32) -> Seq<u8> {
    seq![(v % 256) as u8, ((v / 256) % 256) as u8, ((v / 65536) % 256) as u8, (v / 16777216) as u8]
}

/// The `u32` stored little-endian at `buf[pos..pos + 4]`.
pub open spec fn u32_at(buf: Seq<u8>, pos: int) -> int {
    buf[pos] + 256 * buf[pos + 1] + 65536 * buf[pos + 2] + 16777216 * buf[pos + 3]
}

/// The header: magic `B G`, version, width and height as little-endian `u32`, quality.
pub open spec fn header_bytes(version: u8, width: u32, height: u32, quality: u8) -> Seq<u8> {
    seq![0x42u8, 0x47u8, version] + u32_le(width) + u32_le(height) + seq![quality]
}

/// The quality byte a header carries for `quality`: clamped to 1..=100, with 0 (no
/// quality given) written as 50, the quality a decoder assumes for it.
pub open spec fn header_quality(quality: u8) -> u8 {
    if quality == 0 {
        50
    } else if quality > 100 {
        100
    } else {
        quality
    }
}

/// The trailer that carries `profile`: one color-profile chunk, or nothing for an empty
/// profile.
pub open spec fn trailer_bytes(profile: Seq<u8>) -> Seq<u8> {
    if profile.len() == 0 {
        Seq::empty()
    } else {
        seq![0x42u8, 0x47u8, 0x78u8, CHUNK_COLOR_PROFILE] + u32_le(profile.len() as u32) + profile
    }
}

/// The payload of the first color-profile chunk in the chain of chunks at `pos`, and the
/// position after it. Chunks of other types are skipped; the chain ends at the first
/// position that does not hold a whole chunk with the signature `B G x`.
pub open spec fn parse_trailer(buf: Seq<u8>, pos: int) -> Option<(Seq<u8>, int)>
    decreases buf.len() - pos,
{
    if pos < 0 || pos + 8 > buf.len() {
        None
    } else if buf[pos] != 0x42 || buf[pos + 1] != 0x47 || buf[pos + 2] != 0x78 {
        None
    } else {
        let end = pos + 8 + u32_at(buf, pos + 4);
        if end > buf.len() {
            None
        } else if buf[pos + 3] == CHUNK_COLOR_PROFILE {
            Some((buf.subrange(pos + 8, end), end))
        } else {
            parse_trailer(buf, end)
        }
    }
}

pub proof fn lemma_u32_le_roundtrip(v: u32)
    ensures
        u32_le(v).len() == 4,
        u32_at(u32_le(v), 0) == v,
{
}

/// Write `v` as four little-endian bytes.
pub fn write_u32_le(buffer: &mut [u8], position: &mut i32, v: u32)
    requires
        *old(position) + 4 <= i32::MAX,
    ensures
        final(buffer)@ == written(old(buffer)@, *old(position) as int, u32_le(v)),
        *final(position) == *old(position) + 4,
{
    let bytes = [(v % 256) as u8, ((v / 256) % 256) as u8, ((v / 65536) % 256) as u8, (v / 16777216) as u8];
    assert(bytes@ =~= u32_le(v));
    write_bytes(buffer, position, &bytes);
}

/// Write the header of a stream with the given version and dimensions; the quality byte is
/// `quality` clamped to 1..=100, or 50 for 0.
pub fn write_header_version(
    out_buffer: &mut [u8],
    out_position: &mut i32,
    version: u8,
    width: u32,
    height: u32,
    quality: u8,
)
    requires
        *old(out_position) + HEADER_SIZE <= i32::MAX,
    ensures
        final(out_buffer)@ == written(old(out_buffer)@, *old(out_position) as int, header_bytes(version, width, height, header_quality(quality))),
        *final(out_position) == *old(out_position) + HEADER_SIZE,
{
    let ghost b0 = out_buffer@;
    let ghost p0 = *out_position as int;
    let magic = [0x42u8, 0x47u8, version];
    write_bytes(out_buffer, out_position, &magic);
    write_u32_le(out_buffer, out_position, width);
    write_u32_le(out_buffer, out_position, height);
    let stored: u8 = if quality == 0 {
        50
    } else if quality > 100 {
        100
    } else {
        quality
    };
    write_byte(out_buffer, out_position, stored);
    proof {
        lemma_written_append(b0, p0, magic@, u32_le(width));
        lemma_written_append(b0, p0, magic@ + u32_le(width), u32_le(height));
        lemma_written_append(b0, p0, magic@ + u32_le(width) + u32_le(height), seq![stored]);
        assert(magic@ + u32_le(width) + u32_le(height) + seq![stored] =~= header_bytes(version, width, height, stored));
    }
}

/// Append the trailer that carries `icc`: one color-profile chunk when a non-empty profile
/// is given, nothing otherwise.
pub fn write_icc_trailer(out_buffer: &mut [u8], out_position: &mut i32, icc: Option<&[u8]>)
    requires
        *old(out_position) + CHUNK_HEAD_SIZE + profile_of(icc).len() <= i32::MAX,
    ensures
        final(out_buffer)@ == written(old(out_buffer)@, *old(out_position) as int, trailer_bytes(profile_of(icc))),
        *final(out_position) == *old(out_position) + trailer_bytes(profile_of(icc)).len(),
{
    let ghost b0 = out_buffer@;
    let ghost p0 = *out_position as int;
    match icc {
        None => {
            proof {
                crate::bitstream::lemma_written_empty(b0, p0);
            }
        },
        Some(data) => {
            if data.len() == 0 {
                proof {
                    crate::bitstream::lemma_written_empty(b0, p0);
                }
                return;
            }
            let head = [0x42u8, 0x47u8, 0x78u8, CHUNK_COLOR_PROFILE];
            write_bytes(out_buffer, out_position, &head);
            write_u32_le(out_buffer, out_position, data.len() as u32);
            write_bytes(out_buffer, out_position, data);
            proof {
                lemma_written_append(b0, p0, head@, u32_le(data.len() as u32));
                lemma_written_append(b0, p0, head@ + u32_le(data.len() as u32), data@);
                assert(head@ + u32_le(data.len() as u32) + data@ =~= trailer_bytes(data@));
            }
        },
    }
}

/// The profile bytes of an optional profile; none is the empty profile.
pub open spec fn profile_of(icc: Option<&[u8]>) -> Seq<u8> {
    match icc {
        Some(d) => d@,
        None => Seq::empty(),
    }
}

fn read_u32_le(buffer: &[u8], pos: usize) -> (r: u32)
    requires
        pos + 4 <= buffer@.len(),
    ensures
        r == u32_at(buffer@, pos as int),
{
    buffer[pos] as u32 + 256 * buffer[pos + 1] as u32 + 65536 * buffer[pos + 2] as u32 + 16777216 * buffer[pos + 3] as u32
}

/// Find the first color-profile chunk in the trailer at `pos`: its payload and the
/// position after it.
pub fn parse_icc_trailer(buffer: &[u8], pos: usize) -> (r: Option<(Vec<u8>, usize)>)
    ensures
        r.is_some() == parse_trailer(buffer@, pos as int).is_some(),
        r matches Some((d, p)) ==> parse_trailer(buffer@, pos as int) == Some((d@, p as int)),
{
    let mut p = pos;
    loop
        invariant
            parse_trailer(buffer@, pos as int) == parse_trailer(buffer@, p as int),
        decreases buffer@.len() - p,
    {
        if p > buffer.len() || buffer.len() - p < CHUNK_HEAD_SIZE {
            return None;
        }
        if buffer[p] != 0x42 || buffer[p + 1] != 0x47 || buffer[p + 2] != 0x78 {
            return None;
        }
        let chunk_type = buffer[p + 3];
        let len = read_u32_le(buffer, p + 4) as usize;
        let start = p + CHUNK_HEAD_SIZE;
        if buffer.len() - start < len {
            return None;
        }
        let end = start + len;
        if chunk_type == CHUNK_COLOR_PROFILE {
            let mut payload: Vec<u8> = Vec::new();
            for i in start..end
                invariant
                    end <= buffer@.len(),
                    payload@ == buffer@.subrange(start as int, i as int),
            {
                payload.push(buffer[i]);
                assert(payload@ =~= buffer@.subrange(start as int, i + 1));
            }
            return Some((payload, end));
        }
        p = end;
    }
}

} // verus!
