//! Writing bytes at a cursor into a bounded buffer. The cursor always advances;
//! bytes that fall outside the buffer are dropped.
use vstd::prelude::*;

verus! {

/// `buf` after writing `data` starting at `pos`, keeping only the bytes that land
/// inside the buffer.
pub open spec fn written(buf: Seq<u8>, pos: int, data: Seq<u8>) -> Seq<u8> {
    Seq::new(buf.len(), |i: int| if pos <= i < pos + data.len() { data[i - pos] } else { buf[i] })
}

/// Writing two byte strings one after the other is writing their concatenation.
pub proof fn lemma_written_append(buf: Seq<u8>, pos: int, d1: Seq<u8>, d2: Seq<u8>)
    ensures
        written(written(buf, pos, d1), pos + d1.len(), d2) == written(buf, pos, d1 + d2),
{
    assert(written(written(buf, pos, d1), pos + d1.len(), d2) =~= written(buf, pos, d1 + d2));
}

/// Writing nothing changes nothing.
pub proof fn lemma_written_empty(buf: Seq<u8>, pos: int)
    ensures
        written(buf, pos, Seq::<u8>::empty()) == buf,
{
    assert(written(buf, pos, Seq::<u8>::empty()) =~= buf);
}

/// Write `value` at `*position` if that lies inside `buffer`, and advance the cursor by one.
pub fn write_byte(buffer: &mut [u8], position: &mut i32, value: u8)
    requires
        *old(position) < i32::MAX,
    ensures
        final(buffer)@ == written(old(buffer)@, *old(position) as int, seq![value]),
        *final(position) == *old(position) + 1,
{
    let pos = *position;
    if pos >= 0 && (pos as usize) < buffer.len() {
        buffer[pos as usize] = value;
    }
    *position = pos + 1;
    assert(buffer@ =~= written(old(buffer)@, pos as int, seq![value]));
}

/// Write `data` at `*position`, dropping what falls outside `buffer`, and advance the
/// cursor by `data.len()`.
pub fn write_bytes(buffer: &mut [u8], position: &mut i32, data: &[u8])
    requires
        *old(position) + data@.len() <= i32::MAX,
    ensures
        final(buffer)@ == written(old(buffer)@, *old(position) as int, data@),
        *final(position) == *old(position) + data@.len(),
{
    let ghost p0 = *position as int;
    proof {
        lemma_written_empty(buffer@, p0);
        assert(data@.subrange(0, 0) =~= Seq::<u8>::empty());
    }
    for j in 0..data.len()
        invariant
            p0 == *old(position) as int,
            p0 + data@.len() <= i32::MAX,
            *position == p0 + j,
            buffer@ == written(old(buffer)@, p0, data@.subrange(0, j as int)),
    {
        proof {
            lemma_written_append(old(buffer)@, p0, data@.subrange(0, j as int), seq![data@[j as int]]);
            assert(data@.subrange(0, j as int) + seq![data@[j as int]] =~= data@.subrange(0, j + 1));
        }
        write_byte(buffer, position, data[j]);
    }
    assert(data@.subrange(0, data@.len() as int) =~= data@);
}

} // verus!
