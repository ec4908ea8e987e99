//! The 8x8 type-II DCT and its inverse, in fixed-point integer arithmetic.
//!
//! Both transforms are the orthonormal separable form
//! `F(u,v) = 1/4 C(u) C(v) sum_{x,y} f(x,y) cos((2x+1)u pi/16) cos((2y+1)v pi/16)`
//! with `C(0) = 1/sqrt 2` and `C(k) = 1` otherwise. The scaled cosines `C(u) cos(..)`
//! are held as integers with 30 fractional bits, so every product is exact and the
//! only rounding is the final one, to the nearest integer with halves away from zero.
use vstd::prelude::*;
use crate::block::Block;

verus! {

/// `COS[x * 8 + u] = round(2^30 * C(u) * cos((2x + 1) u pi / 16))`.
pub const COS: [i64; 64] = [
    759250125, 1053110176, 992008094, 892783698, 759250125, 596538995, 410903207, 209476638,
    759250125, 892783698, 410903207, -209476638, -759250125, -1053110176, -992008094, -596538995,
    759250125, 596538995, -410903207, -1053110176, -759250125, 209476638, 992008094, 892783698,
    759250125, 209476638, -992008094, -596538995, 759250125, 892783698, -410903207, -1053110176,
    759250125, -209476638, -992008094, 596538995, 759250125, -892783698, -410903207, 1053110176,
    759250125, -596538995, -410903207, 1053110176, -759250125, -209476638, 992008094, -892783698,
    759250125, -892783698, 410903207, 209476638, -759250125, 1053110176, -992008094, 596538995,
    759250125, -1053110176, 992008094, -892783698, 759250125, -596538995, 410903207, -209476638,
];

/// 2^62: the scale of a product of two table entries, times the factor 4 of the transform.
pub const SCALE: i128 = 0x4000_0000_0000_0000;

/// Half of `SCALE`, the rounding bias.
pub const HALF_SCALE: i128 = 0x2000_0000_0000_0000;

/// The fixed-point basis value for sample position `x` and frequency `u`.
pub open spec fn cosk(x: int, u: int) -> int {
    COS@[x * 8 + u] as int
}

/// The first `n` terms (in row-major sample order) of the forward sum for frequency (u, v).
pub open spec fn dct_sum(b: Seq<i16>, u: int, v: int, n: int) -> int
    decreases n,
{
    if n <= 0 {
        0
    } else {
        dct_sum(b, u, v, n - 1) + b[n - 1] as int * cosk((n - 1) % 8, u) * cosk((n - 1) / 8, v)
    }
}

/// The first `n` terms (in row-major coefficient order) of the inverse sum at sample (x, y).
pub open spec fn idct_sum(c: Seq<i16>, x: int, y: int, n: int) -> int
    decreases n,
{
    if n <= 0 {
        0
    } else {
        idct_sum(c, x, y, n - 1) + c[n - 1] as int * cosk(x, (n - 1) % 8) * cosk(y, (n - 1) / 8)
    }
}

/// `s / SCALE` rounded to the nearest integer, halves away from zero.
pub open spec fn descale(s: int) -> int {
    if s >= 0 {
        (s + HALF_SCALE) / (SCALE as int)
    } else {
        -((-s + HALF_SCALE) / (SCALE as int))
    }
}

/// `v` saturated to the range of `i16`.
pub open spec fn sat16(v: int) -> i16 {
    if v > i16::MAX {
        i16::MAX
    } else if v < i16::MIN {
        i16::MIN
    } else {
        v as i16
    }
}

/// The forward transform of a row-major block; coefficient (u, v) is at `v * 8 + u`.
pub open spec fn dct_spec(b: Seq<i16>) -> Seq<i16> {
    Seq::new(64, |i: int| sat16(descale(dct_sum(b, i % 8, i / 8, 64))))
}

/// The inverse transform of a row-major coefficient block; sample (x, y) is at `y * 8 + x`.
pub open spec fn idct_spec(c: Seq<i16>) -> Seq<i16> {
    Seq::new(64, |i: int| sat16(descale(idct_sum(c, i % 8, i / 8, 64))))
}

proof fn lemma_cos_bounds()
    ensures
        forall|i: int| 0 <= i < 64 ==> -0x4000_0000 <= #[trigger] COS@[i] <= 0x4000_0000,
{
}

proof fn lemma_term_bound(a: int, k1: int, k2: int)
    requires
        -0x8000 <= a <= 0x8000,
        -0x4000_0000 <= k1 <= 0x4000_0000,
        -0x4000_0000 <= k2 <= 0x4000_0000,
    ensures
        -0x800_0000_0000_0000_0000 <= a * k1 * k2 <= 0x800_0000_0000_0000_0000,
        -0x2000_0000_0000 <= a * k1 <= 0x2000_0000_0000,
{
    assert(-0x2000_0000_0000 <= a * k1 <= 0x2000_0000_0000) by (nonlinear_arith)
        requires
            -0x8000 <= a <= 0x8000,
            -0x4000_0000 <= k1 <= 0x4000_0000,
    ;
    assert(-0x800_0000_0000_0000_0000 <= (a * k1) * k2 <= 0x800_0000_0000_0000_0000) by (nonlinear_arith)
        requires
            -0x2000_0000_0000 <= a * k1 <= 0x2000_0000_0000,
            -0x4000_0000 <= k2 <= 0x4000_0000,
    ;
}

/// Round a fixed-point sum to the nearest integer and saturate it to `i16`.
fn descale_to_i16(s: i128) -> (r: i16)
    requires
        -0x2_0000_0000_0000_0000_0000 <= s <= 0x2_0000_0000_0000_0000_0000,
    ensures
        r == sat16(descale(s as int)),
{
    let q: i128 = if s >= 0 {
        (s + HALF_SCALE) / SCALE
    } else {
        -((-s + HALF_SCALE) / SCALE)
    };
    if q > i16::MAX as i128 {
        i16::MAX
    } else if q < i16::MIN as i128 {
        i16::MIN
    } else {
        q as i16
    }
}

/// One output of the forward transform: frequency (u, v).
fn dct_coefficient(data: &[i16; 64], u: usize, v: usize) -> (r: i16)
    requires
        u < 8,
        v < 8,
    ensures
        r == sat16(descale(dct_sum(data@, u as int, v as int, 64))),
{
    proof {
        lemma_cos_bounds();
    }
    let mut s: i128 = 0;
    for n in 0..64usize
        invariant
            u < 8,
            v < 8,
            s == dct_sum(data@, u as int, v as int, n as int),
            -(n as int) * 0x800_0000_0000_0000_0000 <= s <= (n as int) * 0x800_0000_0000_0000_0000,
            forall|i: int| 0 <= i < 64 ==> -0x4000_0000 <= #[trigger] COS@[i] <= 0x4000_0000,
    {
        let a = data[n] as i128;
        let k1 = COS[(n % 8) * 8 + u] as i128;
        let k2 = COS[(n / 8) * 8 + v] as i128;
        proof {
            lemma_term_bound(a as int, k1 as int, k2 as int);
        }
        s = s + a * k1 * k2;
    }
    descale_to_i16(s)
}

/// One output of the inverse transform: sample (x, y).
fn idct_sample(data: &[i16; 64], x: usize, y: usize) -> (r: i16)
    requires
        x < 8,
        y < 8,
    ensures
        r == sat16(descale(idct_sum(data@, x as int, y as int, 64))),
{
    proof {
        lemma_cos_bounds();
    }
    let mut s: i128 = 0;
    for n in 0..64usize
        invariant
            x < 8,
            y < 8,
            s == idct_sum(data@, x as int, y as int, n as int),
            -(n as int) * 0x800_0000_0000_0000_0000 <= s <= (n as int) * 0x800_0000_0000_0000_0000,
            forall|i: int| 0 <= i < 64 ==> -0x4000_0000 <= #[trigger] COS@[i] <= 0x4000_0000,
    {
        let a = data[n] as i128;
        let k1 = COS[x * 8 + n % 8] as i128;
        let k2 = COS[y * 8 + n / 8] as i128;
        proof {
            lemma_term_bound(a as int, k1 as int, k2 as int);
        }
        s = s + a * k1 * k2;
    }
    descale_to_i16(s)
}

/// Forward 8x8 DCT in place: centered samples to coefficients.
pub fn dct(block: &mut Block)
    ensures
        final(block).data@ == dct_spec(old(block).data@),
{
    let src = block.data;
    let mut out = [0i16; 64];
    for i in 0..64usize
        invariant
            src@ == old(block).data@,
            forall|j: int| 0 <= j < i ==> out@[j] == dct_spec(src@)[j],
    {
        out[i] = dct_coefficient(&src, i % 8, i / 8);
    }
    assert(out@ =~= dct_spec(src@));
    block.data = out;
}

/// Inverse 8x8 DCT in place: coefficients to centered samples (not clamped to a pixel range).
pub fn idct(block: &mut Block)
    ensures
        final(block).data@ == idct_spec(old(block).data@),
{
    let src = block.data;
    let mut out = [0i16; 64];
    for i in 0..64usize
        invariant
            src@ == old(block).data@,
            forall|j: int| 0 <= j < i ==> out@[j] == idct_spec(src@)[j],
    {
        out[i] = idct_sample(&src, i % 8, i / 8);
    }
    assert(out@ =~= idct_spec(src@));
    block.data = out;
}

/// The first `n` products of basis values for frequency (u, v), as in `dct_sum` with all
/// samples equal to one.
pub open spec fn basis_sum(u: int, v: int, n: int) -> int
    decreases n,
{
    if n <= 0 {
        0
    } else {
        basis_sum(u, v, n - 1) + cosk((n - 1) % 8, u) * cosk((n - 1) / 8, v)
    }
}

/// Sum over the eight sample positions of the basis values for frequency `u`.
pub open spec fn row_sum(u: int) -> int {
    cosk(0, u) + cosk(1, u) + cosk(2, u) + cosk(3, u) + cosk(4, u) + cosk(5, u) + cosk(6, u) + cosk(7, u)
}

/// `COS[x * 8]`, the same for every `x`.
pub const COS_DC: i64 = 759250125;

proof fn lemma_row_sums()
    ensures
        row_sum(0) == 8 * COS_DC,
        forall|u: int| 1 <= u < 8 ==> #[trigger] row_sum(u) == 0,
        forall|x: int| 0 <= x < 8 ==> #[trigger] cosk(x, 0) == COS_DC,
{
}

proof fn lemma_basis_row(u: int, v: int, j: int)
    requires
        0 <= j,
    ensures
        basis_sum(u, v, 8 * j + 8) == basis_sum(u, v, 8 * j) + row_sum(u) * cosk(j, v),
{
    let c = cosk(j, v);
    assert(basis_sum(u, v, 8 * j + 1) == basis_sum(u, v, 8 * j) + cosk(0, u) * c);
    assert(basis_sum(u, v, 8 * j + 2) == basis_sum(u, v, 8 * j + 1) + cosk(1, u) * c);
    assert(basis_sum(u, v, 8 * j + 3) == basis_sum(u, v, 8 * j + 2) + cosk(2, u) * c);
    assert(basis_sum(u, v, 8 * j + 4) == basis_sum(u, v, 8 * j + 3) + cosk(3, u) * c);
    assert(basis_sum(u, v, 8 * j + 5) == basis_sum(u, v, 8 * j + 4) + cosk(4, u) * c);
    assert(basis_sum(u, v, 8 * j + 6) == basis_sum(u, v, 8 * j + 5) + cosk(5, u) * c);
    assert(basis_sum(u, v, 8 * j + 7) == basis_sum(u, v, 8 * j + 6) + cosk(6, u) * c);
    assert(basis_sum(u, v, 8 * j + 8) == basis_sum(u, v, 8 * j + 7) + cosk(7, u) * c);
    let (k0, k1, k2, k3, k4, k5, k6, k7) = (cosk(0, u), cosk(1, u), cosk(2, u), cosk(3, u), cosk(4, u), cosk(5, u), cosk(6, u), cosk(7, u));
    assert(k0 * c + k1 * c + k2 * c + k3 * c + k4 * c + k5 * c + k6 * c + k7 * c
        == (k0 + k1 + k2 + k3 + k4 + k5 + k6 + k7) * c) by (nonlinear_arith);
}

proof fn lemma_basis_rows(u: int, v: int, j: int)
    requires
        0 <= j <= 8,
    ensures
        basis_sum(u, v, 8 * j) == row_sum(u) * (if j == 0 { 0 } else { basis_col(v, j) }),
    decreases j,
{
    if j > 0 {
        lemma_basis_rows(u, v, j - 1);
        lemma_basis_row(u, v, j - 1);
        if j == 1 {
            assert(basis_col(v, 0) == 0);
            assert(basis_col(v, 1) == cosk(0, v));
        } else {
            assert(basis_col(v, j) == basis_col(v, j - 1) + cosk(j - 1, v));
        }
        let r = row_sum(u);
        assert(r * basis_col(v, j) == r * (if j - 1 == 0 { 0 } else { basis_col(v, j - 1) }) + r * cosk(j - 1, v))
            by (nonlinear_arith)
            requires
                basis_col(v, j) == (if j - 1 == 0 { 0 } else { basis_col(v, j - 1) }) + cosk(j - 1, v),
        ;
    }
}

/// Sum of the basis values for frequency `v` over the first `j` positions.
pub open spec fn basis_col(v: int, j: int) -> int
    decreases j,
{
    if j <= 0 {
        0
    } else {
        basis_col(v, j - 1) + cosk(j - 1, v)
    }
}

proof fn lemma_dct_sum_constant(b: Seq<i16>, a: int, u: int, v: int, n: int)
    requires
        0 <= n <= 64,
        b.len() == 64,
        forall|i: int| 0 <= i < 64 ==> #[trigger] b[i] == a,
    ensures
        dct_sum(b, u, v, n) == a * basis_sum(u, v, n),
    decreases n,
{
    if n > 0 {
        lemma_dct_sum_constant(b, a, u, v, n - 1);
        let k1 = cosk((n - 1) % 8, u);
        let k2 = cosk((n - 1) / 8, v);
        assert(a * basis_sum(u, v, n - 1) + a * k1 * k2 == a * (basis_sum(u, v, n - 1) + k1 * k2)) by (nonlinear_arith);
    }
}

/// The forward transform of a block whose samples all equal `a` is `8 * a` at DC and zero
/// elsewhere.
pub proof fn lemma_dct_constant_block(b: Seq<i16>, a: int)
    requires
        -128 <= a <= 127,
        b.len() == 64,
        forall|i: int| 0 <= i < 64 ==> #[trigger] b[i] == a,
    ensures
        dct_spec(b)[0] == 8 * a,
        forall|i: int| 1 <= i < 64 ==> #[trigger] dct_spec(b)[i] == 0,
{
    lemma_row_sums();
    reveal_with_fuel(basis_col, 9);
    assert(COS_DC * COS_DC == 576460752312515625);
    assert forall|i: int| 0 <= i < 64 implies #[trigger] dct_spec(b)[i] == (if i == 0 { 8 * a } else { 0 }) by {
        let u = i % 8;
        let v = i / 8;
        lemma_dct_sum_constant(b, a, u, v, 64);
        lemma_basis_rows(u, v, 8);
        assert(basis_col(v, 8) == row_sum(v));
        if u == 0 && v == 0 {
            assert(basis_sum(0, 0, 64) == (8 * COS_DC) * (8 * COS_DC));
            let k = COS_DC as int;
            assert((8 * k) * (8 * k) == 64 * (k * k)) by (nonlinear_arith);
            let s = a * (64 * 576460752312515625);
            assert(s == 8 * a * SCALE + a * 581896768) by (nonlinear_arith)
                requires
                    s == a * (64 * 576460752312515625),
            ;
            lemma_descale_round(s);
        } else {
            assert(row_sum(u) == 0 || row_sum(v) == 0);
            assert(basis_sum(u, v, 64) == 0) by (nonlinear_arith)
                requires
                    basis_sum(u, v, 64) == row_sum(u) * basis_col(v, 8),
                    basis_col(v, 8) == row_sum(v),
                    row_sum(u) == 0 || row_sum(v) == 0,
            ;
            assert(a * 0 == 0);
        }
    }
}

/// `descale` rounds: the result times `SCALE` is within `HALF_SCALE` of the argument.
pub proof fn lemma_descale_round(s: int)
    ensures
        SCALE * descale(s) - HALF_SCALE <= s <= SCALE * descale(s) + HALF_SCALE,
{
}

proof fn lemma_idct_sum_dc_only(c: Seq<i16>, x: int, y: int, n: int)
    requires
        1 <= n <= 64,
        c.len() == 64,
        forall|i: int| 1 <= i < 64 ==> #[trigger] c[i] == 0,
    ensures
        idct_sum(c, x, y, n) == c[0] * cosk(x, 0) * cosk(y, 0),
    decreases n,
{
    if n == 1 {
        assert(idct_sum(c, x, y, 0) == 0);
    } else {
        lemma_idct_sum_dc_only(c, x, y, n - 1);
        assert(c[n - 1] == 0);
        assert(c[n - 1] as int * cosk(x, (n - 1) % 8) * cosk(y, (n - 1) / 8) == 0) by (nonlinear_arith)
            requires
                c[n - 1] == 0,
        ;
    }
}

/// The inverse transform of a block whose only non-zero coefficient is the DC value `d`
/// gives samples within half an integer of `d / 8`: `|8 * s - d| <= 4`.
pub proof fn lemma_idct_dc_only(c: Seq<i16>)
    requires
        c.len() == 64,
        forall|i: int| 1 <= i < 64 ==> #[trigger] c[i] == 0,
    ensures
        forall|i: int| 0 <= i < 64 ==> -4 <= 8 * #[trigger] idct_spec(c)[i] - c[0] <= 4,
{
    lemma_row_sums();
    assert forall|i: int| 0 <= i < 64 implies -4 <= 8 * #[trigger] idct_spec(c)[i] - c[0] <= 4 by {
        lemma_idct_sum_dc_only(c, i % 8, i / 8, 64);
        let d = c[0] as int;
        assert(cosk(i % 8, 0) == COS_DC && cosk(i / 8, 0) == COS_DC);
        assert(d * cosk(i % 8, 0) * cosk(i / 8, 0) == d * SCALE / 8 + d * 9092137) by (nonlinear_arith)
            requires
                cosk(i % 8, 0) == 759250125,
                cosk(i / 8, 0) == 759250125,
        ;
        let s = d * cosk(i % 8, 0) * cosk(i / 8, 0);
        lemma_descale_round(s);
        let q = descale(s);
        assert(-4 <= 8 * q - d <= 4);
    }
}

/// Every sample position has the same DC basis value.
pub proof fn lemma_row_sums_dc()
    ensures
        forall|x: int| 0 <= x < 8 ==> #[trigger] cosk(x, 0) == COS_DC,
{
    lemma_row_sums();
}

/// The inverse transform of a block whose only non-zero coefficient is a DC value `8 * m`
/// (with `|m| <= 128`) is `m` at every sample.
pub proof fn lemma_idct_dc_exact(c: Seq<i16>, i: int, m: int)
    requires
        c.len() == 64,
        0 <= i < 64,
        -128 <= m <= 128,
        c[0] == 8 * m,
        forall|j: int| 1 <= j < 64 ==> #[trigger] c[j] == 0,
    ensures
        idct_spec(c)[i] == m,
{
    lemma_row_sums();
    lemma_idct_sum_dc_only(c, i % 8, i / 8, 64);
    let d = c[0] as int;
    let s = d * cosk(i % 8, 0) * cosk(i / 8, 0);
    assert(s == m * SCALE + m * 72737096) by (nonlinear_arith)
        requires
            cosk(i % 8, 0) == 759250125,
            cosk(i / 8, 0) == 759250125,
            d == 8 * m,
            s == d * cosk(i % 8, 0) * cosk(i / 8, 0),
    ;
    lemma_descale_round(s);
}

} // verus!
