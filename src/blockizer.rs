//! Cutting an image plane into centered 8x8 blocks in raster order, clamping to the
//! last row and column where the image is not a multiple of 8 wide or high.
use vstd::prelude::*;
use vstd::arithmetic::div_mod::lemma_fundamental_div_mod_converse;
use crate::block::Block;

verus! {

/// Number of 8-wide blocks that cover `n` pixels.
pub open spec fn blocks_across(n: int) -> int {
    (n + 7) / 8
}

/// Coordinate `v` clamped to the last valid one, `n - 1`.
pub open spec fn clamp_coord(v: int, n: int) -> int {
    if v < n - 1 {
        v
    } else {
        n - 1
    }
}

/// The centered block whose top-left pixel is (bx, by), read from channel `channel` of an
/// image of `w` x `h` pixels with `stride` bytes per pixel.
pub open spec fn block_at(img: Seq<u8>, w: int, h: int, stride: int, channel: int, bx: int, by: int) -> Seq<i16> {
    Seq::new(
        64,
        |i: int|
            (img[(clamp_coord(by + i / 8, h) * w + clamp_coord(bx + i % 8, w)) * stride + channel] as int
                - 128) as i16,
    )
}

/// The block with raster index `bi`.
pub open spec fn plane_block(img: Seq<u8>, w: int, h: int, stride: int, channel: int, bi: int) -> Seq<i16> {
    let bw = blocks_across(w);
    block_at(img, w, h, stride, channel, (bi % bw) * 8, (bi / bw) * 8)
}

/// Number of blocks of a `w` x `h` plane.
pub open spec fn num_blocks(w: int, h: int) -> int {
    blocks_across(w) * blocks_across(h)
}

/// Splits planes of a fixed size into blocks.
pub struct Blockizer {
    pub width: usize,
    pub height: usize,
}

pub(crate) proof fn lemma_index_in_bounds(ix: int, iy: int, w: int, h: int, stride: int, channel: int)
    requires
        0 <= ix < w,
        0 <= iy < h,
        0 <= channel < stride,
    ensures
        0 <= iy * w <= iy * w + ix < w * h,
        w * h <= w * h * stride,
        0 <= (iy * w + ix) * stride + channel < w * h * stride,
{
    assert(w * h <= (w * h) * stride) by (nonlinear_arith)
        requires
            0 <= ix < w,
            0 <= iy < h,
            1 <= stride,
    ;
    assert(0 <= iy * w + ix < w * h) by (nonlinear_arith)
        requires
            0 <= ix < w,
            0 <= iy < h,
    ;
    assert(0 <= (iy * w + ix) * stride + channel < (w * h) * stride) by (nonlinear_arith)
        requires
            0 <= iy * w + ix < w * h,
            0 <= channel < stride,
    ;
}

fn make_block(image: &[u8], w: usize, h: usize, stride: usize, channel: usize, bx: usize, by: usize) -> (r: Block)
    requires
        0 < w,
        0 < h,
        channel < stride,
        w * h * stride <= image@.len(),
        bx < w,
        by < h,
    ensures
        r.data@ == block_at(image@, w as int, h as int, stride as int, channel as int, bx as int, by as int),
{
    let n = image.len();
    let mut data = [0i16; 64];
    for i in 0..64usize
        invariant
            0 < w,
            0 < h,
            channel < stride,
            w * h * stride <= image@.len(),
            n == image@.len(),
            bx < w,
            by < h,
            forall|j: int| 0 <= j < i ==>
                data@[j] == #[trigger] block_at(image@, w as int, h as int, stride as int, channel as int, bx as int, by as int)[j],
    {
        let x = i % 8;
        let y = i / 8;
        let ix = if x < w - 1 - bx { bx + x } else { w - 1 };
        let iy = if y < h - 1 - by { by + y } else { h - 1 };
        proof {
            lemma_index_in_bounds(ix as int, iy as int, w as int, h as int, stride as int, channel as int);
        }
        let index = (iy * w + ix) * stride + channel;
        data[i] = (image[index] as i16) - 128;
    }
    assert(data@ =~= block_at(image@, w as int, h as int, stride as int, channel as int, bx as int, by as int));
    Block { data }
}

impl Blockizer {
    pub fn new(width: usize, height: usize) -> (r: Blockizer)
        ensures
            r.width == width,
            r.height == height,
    {
        Blockizer { width, height }
    }

    /// The blocks of channel `channel` of an interleaved image with `stride` bytes per
    /// pixel, in raster order.
    pub fn generate_blocks_interleaved(&self, image: &[u8], stride: usize, channel: usize) -> (r: Vec<Block>)
        requires
            channel < stride,
            self.width * self.height * stride <= image@.len(),
        ensures
            r@.len() == num_blocks(self.width as int, self.height as int),
            forall|bi: int| 0 <= bi < r@.len() ==>
                #[trigger] r@[bi].data@ == plane_block(image@, self.width as int, self.height as int, stride as int, channel as int, bi),
    {
        let w = self.width;
        let h = self.height;
        let mut blocks: Vec<Block> = Vec::new();
        if w == 0 || h == 0 {
            assert(num_blocks(w as int, h as int) == 0) by (nonlinear_arith)
                requires
                    w == 0 || h == 0,
                    num_blocks(w as int, h as int) == blocks_across(w as int) * blocks_across(h as int),
                    blocks_across(w as int) == (w + 7) / 8,
                    blocks_across(h as int) == (h + 7) / 8,
            ;
            return blocks;
        }
        let bw: usize = w / 8 + if w % 8 != 0 { 1 } else { 0 };
        let bh: usize = h / 8 + if h % 8 != 0 { 1 } else { 0 };
        assert(bw == blocks_across(w as int));
        assert(bh == blocks_across(h as int));
        let mut byi: usize = 0;
        while byi < bh
            invariant
                0 < w,
                0 < h,
                w == self.width,
                h == self.height,
                channel < stride,
                w * h * stride <= image@.len(),
                bw == blocks_across(w as int),
                bh == blocks_across(h as int),
                byi <= bh,
                blocks@.len() == byi * bw,
                forall|bi: int| 0 <= bi < blocks@.len() ==>
                    #[trigger] blocks@[bi].data@ == plane_block(image@, w as int, h as int, stride as int, channel as int, bi),
            decreases bh - byi,
        {
            let mut bxi: usize = 0;
            while bxi < bw
                invariant
                    0 < w,
                    0 < h,
                    w == self.width,
                    h == self.height,
                    channel < stride,
                    w * h * stride <= image@.len(),
                    bw == blocks_across(w as int),
                    bh == blocks_across(h as int),
                    byi < bh,
                    bxi <= bw,
                    blocks@.len() == byi * bw + bxi,
                    forall|bi: int| 0 <= bi < blocks@.len() ==>
                        #[trigger] blocks@[bi].data@ == plane_block(image@, w as int, h as int, stride as int, channel as int, bi),
                decreases bw - bxi,
            {
                let ghost k = blocks@.len() as int;
                proof {
                    lemma_fundamental_div_mod_converse(k, bw as int, byi as int, bxi as int);
                }
                let b = make_block(image, w, h, stride, channel, bxi * 8, byi * 8);
                blocks.push(b);
                bxi = bxi + 1;
            }
            proof {
                assert((byi + 1) * bw == byi * bw + bw) by (nonlinear_arith);
            }
            byi = byi + 1;
        }
        assert(bh * bw == bw * bh) by (nonlinear_arith);
        assert(blocks@.len() == num_blocks(w as int, h as int));
        blocks
    }

    /// The blocks of a single-channel plane, in raster order.
    pub fn generate_blocks(&self, image: &[u8]) -> (r: Vec<Block>)
        requires
            self.width * self.height <= image@.len(),
        ensures
            r@.len() == num_blocks(self.width as int, self.height as int),
            forall|bi: int| 0 <= bi < r@.len() ==>
                #[trigger] r@[bi].data@ == plane_block(image@, self.width as int, self.height as int, 1, 0, bi),
    {
        self.generate_blocks_interleaved(image, 1, 0)
    }

    /// The blocks of channel `channel` (0..3) of an interleaved RGB image.
    pub fn generate_blocks_rgb(&self, image: &[u8], channel: usize) -> (r: Vec<Block>)
        requires
            channel < 3,
            self.width * self.height * 3 <= image@.len(),
        ensures
            r@.len() == num_blocks(self.width as int, self.height as int),
            forall|bi: int| 0 <= bi < r@.len() ==>
                #[trigger] r@[bi].data@ == plane_block(image@, self.width as int, self.height as int, 3, channel as int, bi),
    {
        self.generate_blocks_interleaved(image, 3, channel)
    }

    /// The blocks of channel `channel` (0..4) of an interleaved RGBA image.
    pub fn generate_blocks_rgba(&self, image: &[u8], channel: usize) -> (r: Vec<Block>)
        requires
            channel < 4,
            self.width * self.height * 4 <= image@.len(),
        ensures
            r@.len() == num_blocks(self.width as int, self.height as int),
            forall|bi: int| 0 <= bi < r@.len() ==>
                #[trigger] r@[bi].data@ == plane_block(image@, self.width as int, self.height as int, 4, channel as int, bi),
    {
        self.generate_blocks_interleaved(image, 4, channel)
    }
}

} // verus!
