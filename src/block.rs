//! The 8x8 block of signed 16-bit samples or coefficients.
use vstd::prelude::*;

verus! {

/// 64 signed 16-bit values in row-major order (index = y * 8 + x).
#[derive(Clone, Copy)]
pub struct Block {
    pub data: [i16; 64],
}

/// The all-zero block content.
pub open spec fn zero_block() -> Seq<i16> {
    Seq::new(64, |i: int| 0i16)
}

impl Block {
    /// A block of zeros.
    pub fn new() -> (r: Block)
        ensures
            r.data@ == zero_block(),
    {
        let r = Block { data: [0i16; 64] };
        assert(r.data@ =~= zero_block());
        r
    }

    /// A block holding a copy of the 64 values of `slice`.
    pub fn from_slice(slice: &[i16]) -> (r: Block)
        requires
            slice@.len() == 64,
        ensures
            r.data@ == slice@,
    {
        let mut data = [0i16; 64];
        for i in 0..64usize
            invariant
                slice@.len() == 64,
                forall|j: int| 0 <= j < i ==> data@[j] == slice@[j],
        {
            data[i] = slice[i];
        }
        assert(data@ =~= slice@);
        Block { data }
    }
}

} // verus!
