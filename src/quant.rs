//! Quantization tables and scalar quantization of coefficient blocks.
use vstd::prelude::*;
use crate::dct::sat16;

verus! {

/// The reference luminance table, in row-major spatial order.
pub const REFERENCE_TABLE: [i16; 64] = [
    16, 11, 10, 16, 24, 40, 51, 61,
    12, 12, 14, 19, 26, 58, 60, 55,
    14, 13, 16, 24, 40, 57, 69, 56,
    14, 17, 22, 29, 51, 87, 80, 62,
    18, 22, 37, 56, 68, 109, 103, 77,
    24, 35, 55, 64, 81, 104, 113, 92,
    49, 64, 78, 87, 103, 121, 120, 101,
    72, 92, 95, 98, 112, 100, 103, 99,
];

/// A quality value clamped to 1..=100.
pub open spec fn clamp_quality(q: int) -> int {
    if q < 1 {
        1
    } else if q > 100 {
        100
    } else {
        q
    }
}

/// One table entry scaled by quality `q`: `(base * q + 50) / 100` clamped to 1..=255.
pub open spec fn scaled_entry(base: int, q: int) -> int {
    let v = (base * q + 50) / 100;
    if v < 1 {
        1
    } else if v > 255 {
        255
    } else {
        v
    }
}

/// The quantization table for `quality` (clamped to 1..=100 first).
pub open spec fn quant_table_spec(quality: int) -> Seq<i16> {
    Seq::new(64, |i: int| scaled_entry(REFERENCE_TABLE@[i] as int, clamp_quality(quality)) as i16)
}

/// Every entry of `t` is positive.
pub open spec fn table_positive(t: Seq<i16>) -> bool {
    t.len() == 64 && forall|i: int| 0 <= i < 64 ==> #[trigger] t[i] > 0
}

/// Integer division truncating toward zero, for a positive divisor.
pub open spec fn trunc_div(a: int, d: int) -> int {
    if a >= 0 {
        a / d
    } else {
        -((-a) / d)
    }
}

/// Each coefficient divided by its table entry, truncating toward zero.
pub open spec fn quantize_spec(x: Seq<i16>, t: Seq<i16>) -> Seq<i16> {
    Seq::new(64, |i: int| trunc_div(x[i] as int, t[i] as int) as i16)
}

/// Each level multiplied by its table entry, saturated to `i16`.
pub open spec fn dequantize_spec(x: Seq<i16>, t: Seq<i16>) -> Seq<i16> {
    Seq::new(64, |i: int| sat16(x[i] * t[i]))
}

/// Every table that quality scaling produces has entries in 1..=255.
pub proof fn lemma_quant_table_range(quality: int)
    ensures
        forall|i: int| 0 <= i < 64 ==> 1 <= #[trigger] quant_table_spec(quality)[i] <= 255,
        table_positive(quant_table_spec(quality)),
{
}

/// The reference table.
pub fn default_quant_table() -> (r: [i16; 64])
    ensures
        r@ == REFERENCE_TABLE@,
{
    REFERENCE_TABLE
}

/// The reference table scaled by `quality`, which is clamped to 1..=100 first.
pub fn quant_table_for_quality(quality: u8) -> (r: [i16; 64])
    ensures
        r@ == quant_table_spec(quality as int),
{
    let q: i32 = if quality < 1 {
        1
    } else if quality > 100 {
        100
    } else {
        quality as i32
    };
    let base = default_quant_table();
    let mut out = [0i16; 64];
    for i in 0..64usize
        invariant
            base@ == REFERENCE_TABLE@,
            q == clamp_quality(quality as int),
            forall|j: int| 0 <= j < i ==> out@[j] == quant_table_spec(quality as int)[j],
    {
        let b = base[i] as i32;
        assert(0 <= b <= 121);
        assert(0 <= b * q <= 12100) by (nonlinear_arith)
            requires
                0 <= b <= 121,
                1 <= q <= 100,
        ;
        let v = (b * q + 50) / 100;
        let e: i32 = if v < 1 {
            1
        } else if v > 255 {
            255
        } else {
            v
        };
        out[i] = e as i16;
    }
    assert(out@ =~= quant_table_spec(quality as int));
    out
}

/// Quantize in place: each coefficient divided by its table entry, truncating toward zero.
pub fn quantize(block: &mut [i16; 64], table: &[i16; 64])
    requires
        table_positive(table@),
    ensures
        final(block)@ == quantize_spec(old(block)@, table@),
{
    let src = *block;
    for i in 0..64usize
        invariant
            table_positive(table@),
            src@ == old(block)@,
            forall|j: int| 0 <= j < i ==> block@[j] == quantize_spec(src@, table@)[j],
            forall|j: int| i <= j < 64 ==> block@[j] == src@[j],
    {
        let x = src[i] as i32;
        let d = table[i] as i32;
        assert(d > 0);
        let q: i32 = if x >= 0 {
            x / d
        } else {
            -((-x) / d)
        };
        assert(-32768 <= q <= 32767) by (nonlinear_arith)
            requires
                d >= 1,
                -32768 <= x <= 32767,
                q == trunc_div(x as int, d as int),
        ;
        block[i] = q as i16;
    }
    assert(block@ =~= quantize_spec(src@, table@));
}

/// Dequantize in place: each level multiplied by its table entry, saturated to `i16`.
pub fn dequantize(block: &mut [i16; 64], table: &[i16; 64])
    ensures
        final(block)@ == dequantize_spec(old(block)@, table@),
{
    let src = *block;
    for i in 0..64usize
        invariant
            src@ == old(block)@,
            forall|j: int| 0 <= j < i ==> block@[j] == dequantize_spec(src@, table@)[j],
            forall|j: int| i <= j < 64 ==> block@[j] == src@[j],
    {
        let x = src[i] as i32;
        let d = table[i] as i32;
        assert(-0x4000_0000 <= x * d <= 0x4000_0000) by (nonlinear_arith)
            requires
                -32768 <= x <= 32767,
                -32768 <= d <= 32767,
        ;
        let p = x * d;
        let r: i16 = if p > i16::MAX as i32 {
            i16::MAX
        } else if p < i16::MIN as i32 {
            i16::MIN
        } else {
            p as i16
        };
        block[i] = r;
    }
    assert(block@ =~= dequantize_spec(src@, table@));
}

/// Quantizing and then dequantizing keeps zero at zero, and moves any coefficient by
/// less than its table entry.
pub proof fn lemma_quantize_error(x: Seq<i16>, t: Seq<i16>)
    requires
        x.len() == 64,
        table_positive(t),
    ensures
        forall|i: int|
            0 <= i < 64 ==> {
                let r = #[trigger] dequantize_spec(quantize_spec(x, t), t)[i];
                &&& (x[i] == 0 ==> r == 0)
                &&& -t[i] < x[i] - r < t[i]
            },
{
    assert forall|i: int| 0 <= i < 64 implies {
        let r = #[trigger] dequantize_spec(quantize_spec(x, t), t)[i];
        &&& (x[i] == 0 ==> r == 0)
        &&& -t[i] < x[i] - r < t[i]
    } by {
        let a = x[i] as int;
        let d = t[i] as int;
        assert(d > 0);
        let q = trunc_div(a, d);
        if a >= 0 {
            assert(0 <= a - q * d < d && 0 <= q * d <= a) by (nonlinear_arith)
                requires
                    a >= 0,
                    d > 0,
                    q == a / d,
            ;
        } else {
            assert(0 <= (-a) - (-q) * d < d && 0 <= (-q) * d <= -a && q * d == -((-q) * d)) by (nonlinear_arith)
                requires
                    a < 0,
                    d > 0,
                    -q == (-a) / d,
            ;
        }
        assert(-32768 <= q <= 32767) by (nonlinear_arith)
            requires
                d >= 1,
                -32768 <= a <= 32767,
                q == trunc_div(a, d),
        ;
        assert(quantize_spec(x, t)[i] == q as i16);
        assert(-32768 <= q * d <= 32767);
        assert(dequantize_spec(quantize_spec(x, t), t)[i] == q * d);
        if a == 0 {
            assert(q == 0);
            assert(q * d == 0);
        }
    }
}

} // verus!
