//! Zigzag scan order of an 8x8 block: the DC coefficient first, then the AC
//! coefficients in order of increasing spatial frequency.
use vstd::prelude::*;

verus! {

/// `ZIGZAG[k]` is the row-major spatial index of the k-th coefficient in the stream.
pub const ZIGZAG: [usize; 64] = [
     0,  1,  8, 16,  9,  2,  3, 10,
    17, 24, 32, 25, 18, 11,  4,  5,
    12, 19, 26, 33, 40, 48, 41, 34,
    27, 20, 13,  6,  7, 14, 21, 28,
    35, 42, 49, 56, 57, 50, 43, 36,
    29, 22, 15, 23, 30, 37, 44, 51,
    58, 59, 52, 45, 38, 31, 39, 46,
    53, 60, 61, 54, 47, 55, 62, 63,
];

/// The inverse permutation: `UNZIGZAG[s]` is the stream position of spatial index `s`.
pub const UNZIGZAG: [usize; 64] = [
     0,  1,  5,  6, 14, 15, 27, 28,
     2,  4,  7, 13, 16, 26, 29, 42,
     3,  8, 12, 17, 25, 30, 41, 43,
     9, 11, 18, 24, 31, 40, 44, 53,
    10, 19, 23, 32, 39, 45, 52, 54,
    20, 22, 33, 38, 46, 51, 55, 60,
    21, 34, 37, 47, 50, 56, 59, 61,
    35, 36, 48, 49, 57, 58, 62, 63,
];

/// Spatial index of the k-th coefficient in scan order.
pub open spec fn zz(k: int) -> int {
    ZIGZAG@[k] as int
}

/// The scan order is a permutation of 0..64.
pub proof fn lemma_zigzag_permutation()
    ensures
        forall|k: int| 0 <= k < 64 ==> 0 <= #[trigger] zz(k) < 64,
        forall|k: int| 0 <= k < 64 ==> #[trigger] UNZIGZAG@[zz(k)] == k,
        forall|s: int| 0 <= s < 64 ==> #[trigger] zz(UNZIGZAG@[s] as int) == s && UNZIGZAG@[s] < 64,
        forall|j: int, k: int| 0 <= j < 64 && 0 <= k < 64 && j != k ==> #[trigger] zz(j) != #[trigger] zz(k),
{
    assert forall|j: int, k: int| 0 <= j < 64 && 0 <= k < 64 && j != k implies #[trigger] zz(j) != #[trigger] zz(k) by {
        assert(UNZIGZAG@[zz(j)] == j);
        assert(UNZIGZAG@[zz(k)] == k);
    }
}

/// Two blocks that agree at every scan position are equal.
pub proof fn lemma_equal_by_scan(a: Seq<i16>, b: Seq<i16>)
    requires
        a.len() == 64,
        b.len() == 64,
        forall|k: int| 0 <= k < 64 ==> a[#[trigger] zz(k)] == b[zz(k)],
    ensures
        a == b,
{
    lemma_zigzag_permutation();
    assert forall|s: int| 0 <= s < 64 implies a[s] == b[s] by {
        let k = UNZIGZAG@[s] as int;
        assert(zz(k) == s);
    }
    assert(a =~= b);
}

} // verus!
