//! The data layout of the vec101 ternary-weight compute engine.
use vstd::prelude::*;
use vstd::std_specs::bits::axiom_u64_trailing_zeros;

verus! {

/// One compute block: 256 ternary weights as a bitmask of +1 weights and one of -1 weights.
#[allow(non_camel_case_types)]
#[derive(Debug, Clone, Copy)]
pub struct vec101_block {
    pub w_pos_bits: [u64; 4],
    pub w_neg_bits: [u64; 4],
}

/// Eight blocks with their scales and offsets, laid out to fill whole cache lines.
#[derive(Debug, Clone, Copy)]
pub struct Vec101SuperBlock {
    pub scales: [i16; 8],
    pub offsets: [i16; 8],
    pub _padding: [u8; 32],
    pub blocks: [vec101_block; 8],
}

/// The quantization types the engine handles.
#[derive(Debug, Clone, Copy, PartialEq, Eq, Structural)]
pub enum QuantType {
    Bit1_58,
}

/// Bit `i` of `w`.
pub open spec fn bit(w: u64, i: int) -> bool {
    (w >> (i as u64)) & 1u64 == 1u64
}

/// The ternary weight at position `p` (below 256) of a block, seen through the four
/// activation mask words from `mask[base]`: +1 where the masked positive bit is set,
/// otherwise -1 where the masked negative bit is set, otherwise 0.
pub open spec fn masked_weight(blk: vec101_block, mask: Seq<u64>, base: int, p: int) -> int {
    let m = mask[base + p / 64];
    if bit(blk.w_pos_bits[p / 64] & m, p % 64) {
        1
    } else if bit(blk.w_neg_bits[p / 64] & m, p % 64) {
        -1
    } else {
        0
    }
}

/// The sum over the first `n` positions of a block of weight times activation, the
/// activations read from `x[xbase..]`.
pub open spec fn block_dot(blk: vec101_block, mask: Seq<u64>, base: int, x: Seq<i8>, xbase: int, n: nat) -> int
    decreases n,
{
    if n == 0 {
        0
    } else {
        block_dot(blk, mask, base, x, xbase, (n - 1) as nat)
            + masked_weight(blk, mask, base, n - 1) * x[xbase + n - 1]
    }
}

/// Term `t` of a row: block `t % 8` of the row's super-block `t / 8`, its dot product
/// times the block's scale, divided by 256 rounding down.
pub open spec fn row_term(blocks: Seq<Vec101SuperBlock>, bpr: int, row: int, x: Seq<i8>, mask: Seq<u64>, t: int) -> int {
    let col = t / 8;
    let sb = t % 8;
    let sup = blocks[row * bpr + col];
    (block_dot(sup.blocks[sb], mask, col * 32 + sb * 4, x, col * 2048 + sb * 256, 256) * sup.scales[sb]) / 256
}

/// The sum of the first `n` terms of a row.
pub open spec fn row_acc(blocks: Seq<Vec101SuperBlock>, bpr: int, row: int, x: Seq<i8>, mask: Seq<u64>, n: nat) -> int
    decreases n,
{
    if n == 0 {
        0
    } else {
        row_acc(blocks, bpr, row, x, mask, (n - 1) as nat) + row_term(blocks, bpr, row, x, mask, n - 1)
    }
}

/// Every partial sum of a row fits in 32 bits.
pub open spec fn row_fits(blocks: Seq<Vec101SuperBlock>, bpr: int, row: int, x: Seq<i8>, mask: Seq<u64>) -> bool {
    forall|n: nat| n <= 8 * bpr ==> i32::MIN <= #[trigger] row_acc(blocks, bpr, row, x, mask, n) <= i32::MAX
}

/// What a row of the weight matrix yields: its sum times the row's scale, divided by
/// 65536 rounding down, kept to 32 bits.
pub open spec fn row_value(blocks: Seq<Vec101SuperBlock>, bpr: int, row: int, x: Seq<i8>, mask: Seq<u64>, scale: i32) -> i32 {
    ((row_acc(blocks, bpr, row, x, mask, (8 * bpr) as nat) * scale) / 65536) as i32
}

/// Reading 32 bits of a word from bit `s` (0 or 32): bit `k` of them is bit `s + k`.
proof fn lemma_half_word_bit(w: u64, s: u64, k: u32)
    requires
        s == 0 || s == 32,
        k < 32,
    ensures
        ((((w >> s) as u32) & (1u32 << k)) != 0) == bit(w, s + k),
{
    let kk = k as u64;
    assert(((((w >> s) as u32) & (1u32 << k)) != 0) == ((w >> (s + kk)) & 1u64 == 1u64)) by (bit_vector)
        requires s == 0u64 || s == 32u64, k < 32u32, kk == k as u64;
}

/// The dot product of one block with its activations, as the scalar kernel computes it:
/// 32 positions at a time, half a mask word each.
#[verifier::spinoff_prover]
fn block_dot_exec(blk: &vec101_block, x_mask: &[u64], base: usize, x: &[i8], xbase: usize) -> (r: i32)
    requires
        base + 4 <= x_mask.len(),
        xbase + 256 <= x.len(),
    ensures
        r == block_dot(*blk, x_mask@, base as int, x@, xbase as int, 256),
        -32768 <= r <= 32768,
{
    let mut micro_sum: i32 = 0;
    let mut sub: usize = 0;
    while sub < 8
        invariant
            sub <= 8,
            base + 4 <= x_mask.len(),
            xbase + 256 <= x.len(),
            micro_sum == block_dot(*blk, x_mask@, base as int, x@, xbase as int, (sub * 32) as nat),
            -128 * (sub * 32) <= micro_sum <= 128 * (sub * 32),
        decreases 8 - sub,
    {
        assert(sub / 2 < 4);
        let mask = x_mask[base + sub / 2];
        let u64_idx = sub / 2;
        let shift_amt: u64 = ((sub % 2) * 32) as u64;
        let w_pos_32 = (#[verifier::truncate] (((blk.w_pos_bits[u64_idx] & mask) >> shift_amt) as u32));
        let w_neg_32 = (#[verifier::truncate] (((blk.w_neg_bits[u64_idx] & mask) >> shift_amt) as u32));
        let mut k: u32 = 0;
        while k < 32
            invariant
                sub < 8,
                k <= 32,
                base + 4 <= x_mask.len(),
                xbase + 256 <= x.len(),
                mask == x_mask@[base + sub / 2],
                u64_idx == sub / 2,
                shift_amt == (sub % 2) * 32,
                w_pos_32 == ((blk.w_pos_bits[u64_idx as int] & mask) >> shift_amt) as u32,
                w_neg_32 == ((blk.w_neg_bits[u64_idx as int] & mask) >> shift_amt) as u32,
                micro_sum == block_dot(*blk, x_mask@, base as int, x@, xbase as int, (sub * 32 + k) as nat),
                -128 * (sub * 32 + k) <= micro_sum <= 128 * (sub * 32 + k),
            decreases 32 - k,
        {
            assert(sub * 32 + k < 256);
            let p = sub * 32 + (k as usize);
            let x_val = x[xbase + p] as i32;
            proof {
                lemma_half_word_bit(blk.w_pos_bits[u64_idx as int] & mask, shift_amt, k);
                lemma_half_word_bit(blk.w_neg_bits[u64_idx as int] & mask, shift_amt, k);
                assert(p / 64 == sub / 2 && p % 64 == shift_amt + k);
            }
            let ghost before = micro_sum;
            if (w_pos_32 & (1u32 << k)) != 0 {
                micro_sum = micro_sum + x_val;
            } else if (w_neg_32 & (1u32 << k)) != 0 {
                micro_sum = micro_sum - x_val;
            }
            proof {
                let pi = p as int;
                assert(block_dot(*blk, x_mask@, base as int, x@, xbase as int, (pi + 1) as nat)
                    == block_dot(*blk, x_mask@, base as int, x@, xbase as int, pi as nat)
                        + masked_weight(*blk, x_mask@, base as int, pi) * x@[xbase + pi]);
                assert(micro_sum == before + masked_weight(*blk, x_mask@, base as int, pi) * x@[xbase + pi]);
            }
            k = k + 1;
        }
        sub = sub + 1;
    }
    micro_sum
}

/// `(a * b) >> 8` for a block's dot product and scale: the product divided by 256,
/// rounding down.
fn scaled_term(micro_sum: i32, micro_scale: i32) -> (r: i32)
    requires
        -32768 <= micro_sum <= 32768,
        -32768 <= micro_scale <= 32767,
    ensures
        r == (micro_sum * micro_scale) / 256,
        -4194304 <= r <= 4194304,
{
    assert(-1073741824 <= micro_sum * micro_scale <= 1073741824) by (nonlinear_arith)
        requires -32768 <= micro_sum <= 32768, -32768 <= micro_scale <= 32767;
    let prod = micro_sum * micro_scale;
    let r = prod >> 8u32;
    assert(r as int == (prod as int) / 256) by (bit_vector)
        requires r == prod >> 8u32;
    r
}

/// The value one row of the weight matrix yields against the activations, as the
/// scalar GEMV kernel computes it: per super-block of the row and per block in it, the
/// dot product times the block's scale divided by 256, summed; then times the row's
/// scale, divided by 65536, kept to 32 bits.
pub fn scalar_gemv_row_value(row: usize, blocks: &[Vec101SuperBlock], blocks_per_row: usize,
    x: &[i8], x_mask: &[u64], scale: i32) -> (r: i32)
    requires
        (row + 1) * blocks_per_row <= blocks.len(),
        blocks_per_row * 2048 <= x.len(),
        blocks_per_row * 32 <= x_mask.len(),
        row_fits(blocks@, blocks_per_row as int, row as int, x@, x_mask@),
    ensures
        r == row_value(blocks@, blocks_per_row as int, row as int, x@, x_mask@, scale),
{
    let ghost bpr = blocks_per_row as int;
    let mut final_sum: i32 = 0;
    let mut col: usize = 0;
    while col < blocks_per_row
        invariant
            col <= blocks_per_row,
            (row + 1) * blocks_per_row <= blocks.len(),
            blocks_per_row * 2048 <= x.len(),
            blocks_per_row * 32 <= x_mask.len(),
            bpr == blocks_per_row as int,
            row_fits(blocks@, bpr, row as int, x@, x_mask@),
            final_sum == row_acc(blocks@, bpr, row as int, x@, x_mask@, (8 * col) as nat),
        decreases blocks_per_row - col,
    {
        assert(row * blocks_per_row + col < (row + 1) * blocks_per_row) by (nonlinear_arith)
            requires col < blocks_per_row;
        assert(row * blocks_per_row <= (row + 1) * blocks_per_row) by (nonlinear_arith);
        let block_idx = row * blocks_per_row + col;
        let w_super = &blocks[block_idx];
        assert(col * 2048 + 2048 <= blocks_per_row * 2048 && col * 32 + 32 <= blocks_per_row * 32) by (nonlinear_arith)
            requires col < blocks_per_row;
        let mut sub_blk: usize = 0;
        while sub_blk < 8
            invariant
                sub_blk <= 8,
                col < blocks_per_row,
                block_idx == row * blocks_per_row + col,
                *w_super == blocks@[block_idx as int],
                col * 2048 + 2048 <= x.len(),
                col * 32 + 32 <= x_mask.len(),
                bpr == blocks_per_row as int,
                row_fits(blocks@, bpr, row as int, x@, x_mask@),
                final_sum == row_acc(blocks@, bpr, row as int, x@, x_mask@, (8 * col + sub_blk) as nat),
            decreases 8 - sub_blk,
        {
            let micro_scale = w_super.scales[sub_blk] as i32;
            let micro_sum = block_dot_exec(&w_super.blocks[sub_blk], x_mask, col * 32 + sub_blk * 4, x,
                col * 2048 + sub_blk * 256);
            let term = scaled_term(micro_sum, micro_scale);
            proof {
                let t = 8 * col + sub_blk;
                assert(t / 8 == col && t % 8 == sub_blk);
                assert(term == row_term(blocks@, bpr, row as int, x@, x_mask@, t as int));
                assert(8 * col + sub_blk + 1 <= 8 * bpr);
                let n1 = (t + 1) as nat;
                assert(i32::MIN <= row_acc(blocks@, bpr, row as int, x@, x_mask@, n1) <= i32::MAX);
            }
            final_sum = final_sum + term;
            sub_blk = sub_blk + 1;
        }
        col = col + 1;
    }
    assert(-0x4000_0000_0000_0000 <= (final_sum as int) * (scale as int) <= 0x4000_0000_0000_0000) by (nonlinear_arith)
        requires i32::MIN <= final_sum <= i32::MAX, i32::MIN <= scale <= i32::MAX;
    let wide: i64 = (final_sum as i64) * (scale as i64);
    let shifted: i64 = wide >> 16u64;
    assert(shifted as int == (wide as int) / 65536) by (bit_vector)
        requires shifted == wide >> 16u64;
    #[verifier::truncate] (shifted as i32)
}

/// The scalar GEMV value of a row, or `None` when one of its partial sums leaves 32 bits
/// (where the kernel's 32-bit accumulation would overflow).
pub fn scalar_gemv_row_checked(row: usize, blocks: &[Vec101SuperBlock], blocks_per_row: usize,
    x: &[i8], x_mask: &[u64], scale: i32) -> (r: Option<i32>)
    requires
        (row + 1) * blocks_per_row <= blocks.len(),
        blocks_per_row * 2048 <= x.len(),
        blocks_per_row * 32 <= x_mask.len(),
    ensures
        r == if row_fits(blocks@, blocks_per_row as int, row as int, x@, x_mask@) {
            Some(row_value(blocks@, blocks_per_row as int, row as int, x@, x_mask@, scale))
        } else {
            None::<i32>
        },
{
    let ghost bpr = blocks_per_row as int;
    let mut acc: i64 = 0;
    let mut col: usize = 0;
    while col < blocks_per_row
        invariant
            col <= blocks_per_row,
            (row + 1) * blocks_per_row <= blocks.len(),
            blocks_per_row * 2048 <= x.len(),
            blocks_per_row * 32 <= x_mask.len(),
            bpr == blocks_per_row as int,
            acc == row_acc(blocks@, bpr, row as int, x@, x_mask@, (8 * col) as nat),
            forall|n: nat| n <= 8 * col ==> i32::MIN <= #[trigger] row_acc(blocks@, bpr, row as int, x@, x_mask@, n) <= i32::MAX,
        decreases blocks_per_row - col,
    {
        assert(row * blocks_per_row + col < (row + 1) * blocks_per_row) by (nonlinear_arith)
            requires col < blocks_per_row;
        let block_idx = row * blocks_per_row + col;
        let w_super = &blocks[block_idx];
        assert(col * 2048 + 2048 <= blocks_per_row * 2048 && col * 32 + 32 <= blocks_per_row * 32) by (nonlinear_arith)
            requires col < blocks_per_row;
        let mut sub_blk: usize = 0;
        while sub_blk < 8
            invariant
                sub_blk <= 8,
                col < blocks_per_row,
                block_idx == row * blocks_per_row + col,
                *w_super == blocks@[block_idx as int],
                col * 2048 + 2048 <= x.len(),
                col * 32 + 32 <= x_mask.len(),
                bpr == blocks_per_row as int,
                acc == row_acc(blocks@, bpr, row as int, x@, x_mask@, (8 * col + sub_blk) as nat),
                forall|n: nat| n <= 8 * col + sub_blk ==> i32::MIN <= #[trigger] row_acc(blocks@, bpr, row as int, x@, x_mask@, n)
                    <= i32::MAX,
            decreases 8 - sub_blk,
        {
            let micro_scale = w_super.scales[sub_blk] as i32;
            let micro_sum = block_dot_exec(&w_super.blocks[sub_blk], x_mask, col * 32 + sub_blk * 4, x,
                col * 2048 + sub_blk * 256);
            let term = scaled_term(micro_sum, micro_scale);
            let t = 8 * col + sub_blk;
            proof {
                assert(t / 8 == col && t % 8 == sub_blk);
                assert(term == row_term(blocks@, bpr, row as int, x@, x_mask@, t as int));
            }
            acc = acc + term as i64;
            if acc < i32::MIN as i64 || acc > i32::MAX as i64 {
                proof {
                    assert(t + 1 <= 8 * bpr) by (nonlinear_arith)
                        requires t == 8 * col + sub_blk, col < bpr, sub_blk < 8;
                    let n1 = (t + 1) as nat;
                    assert(!(i32::MIN <= row_acc(blocks@, bpr, row as int, x@, x_mask@, n1) <= i32::MAX));
                }
                return None;
            }
            sub_blk = sub_blk + 1;
        }
        col = col + 1;
    }
    assert(row_fits(blocks@, bpr, row as int, x@, x_mask@));
    Some(scalar_gemv_row_value(row, blocks, blocks_per_row, x, x_mask, scale))
}

/// Adds the value of row `row` into `out[row]` (the scalar GEMV kernel, without the
/// liquid-network step); nothing happens for rows of no blocks.
pub fn process_row_scalar_gemv(row: usize, blocks: &[Vec101SuperBlock], blocks_per_row: usize,
    x: &[i8], x_mask: &[u64], scales: &[i32], out: &mut [i32])
    requires
        row < scales@.len(),
        row < old(out)@.len(),
        (row + 1) * blocks_per_row <= blocks.len(),
        blocks_per_row * 2048 <= x.len(),
        blocks_per_row * 32 <= x_mask.len(),
        row_fits(blocks@, blocks_per_row as int, row as int, x@, x_mask@),
        blocks_per_row > 0 ==> i32::MIN <= old(out)@[row as int]
            + row_value(blocks@, blocks_per_row as int, row as int, x@, x_mask@, scales@[row as int]) <= i32::MAX,
    ensures
        blocks_per_row == 0 ==> final(out)@ == old(out)@,
        blocks_per_row > 0 ==> final(out)@ == old(out)@.update(row as int, (old(out)@[row as int]
            + row_value(blocks@, blocks_per_row as int, row as int, x@, x_mask@, scales@[row as int])) as i32),
{
    if blocks_per_row == 0 {
        return;
    }
    let v = scalar_gemv_row_value(row, blocks, blocks_per_row, x, x_mask, scales[row]);
    out[row] = out[row] + v;
}

/// Batch entry `b` of feature `f` in the transposed activations: `xt[f * pb + b]`.
pub open spec fn xt_at(xt: Seq<i8>, f: int, pb: int, b: int) -> int {
    xt[f * pb + b] as int
}

/// The sum, over the set bits `q < k` of `word`, of batch entry `b` of feature `fbase + q`.
/// Every feature that `word` selects from feature `fbase` (feature `fbase + q` for each
/// set bit `q`) has its `bs` batch entries inside `len`.
pub open spec fn word_reads_fit(word: u64, fbase: int, pb: int, bs: int, len: int) -> bool {
    forall|q: int| 0 <= q < 64 && #[trigger] bit(word, q) ==> (fbase + q) * pb + bs <= len
}

/// What a block reads fits: for each of its four masked words, positive and negative.
pub open spec fn block_reads_fit(blk: vec101_block, mask: Seq<u64>, mbase: int, fbase: int, pb: int, bs: int,
    len: int) -> bool {
    forall|w: int| 0 <= w < 4 ==> #[trigger] word_reads_fit(blk.w_pos_bits[w] & mask[mbase + w], fbase + w * 64, pb, bs, len)
        && word_reads_fit(blk.w_neg_bits[w] & mask[mbase + w], fbase + w * 64, pb, bs, len)
}

/// Every activation the GEMM kernel reads for row `row` lies inside `len`.
pub open spec fn gemm_reads_fit(blocks: Seq<Vec101SuperBlock>, bpr: int, row: int, mask: Seq<u64>, pb: int, bs: int,
    len: int) -> bool {
    forall|col: int, sb: int| 0 <= col < bpr && 0 <= sb < 8 ==> #[trigger] block_reads_fit(
        blocks[row * bpr + col].blocks[sb], mask, col * 32 + sb * 4, col * 2048 + sb * 256, pb, bs, len)
}

pub open spec fn word_sum(word: u64, xt: Seq<i8>, fbase: int, pb: int, b: int, k: nat) -> int
    decreases k,
{
    if k == 0 {
        0
    } else {
        word_sum(word, xt, fbase, pb, b, (k - 1) as nat)
            + if bit(word, k - 1) { xt_at(xt, fbase + k - 1, pb, b) } else { 0 }
    }
}

/// A block's signed sum for batch entry `b` over its first `s` weight words: the features
/// under masked positive bits added, those under masked negative bits taken away.
pub open spec fn batched_block_sum(blk: vec101_block, mask: Seq<u64>, mbase: int, xt: Seq<i8>, fbase: int,
    pb: int, b: int, s: nat) -> int
    decreases s,
{
    if s == 0 {
        0
    } else {
        let w = s - 1;
        let m = mask[mbase + w];
        batched_block_sum(blk, mask, mbase, xt, fbase, pb, b, (s - 1) as nat)
            + word_sum(blk.w_pos_bits[w] & m, xt, fbase + w * 64, pb, b, 64)
            - word_sum(blk.w_neg_bits[w] & m, xt, fbase + w * 64, pb, b, 64)
    }
}

/// Column `b` of the transposed activations: feature `f` is `xt[f * pb + b]`, for the first
/// `n` features.
pub open spec fn column(xt: Seq<i8>, pb: int, b: int, n: nat) -> Seq<i8> {
    Seq::new(n, |f: int| xt[f * pb + b])
}

/// Position `p` of a block has both its positive and its negative bit set under the mask.
pub open spec fn both_bits(blk: vec101_block, mask: Seq<u64>, base: int, p: int) -> bool {
    let m = mask[base + p / 64];
    bit(blk.w_pos_bits[p / 64] & m, p % 64) && bit(blk.w_neg_bits[p / 64] & m, p % 64)
}

/// No position of the block has both bits set under the mask.
pub open spec fn block_disjoint(blk: vec101_block, mask: Seq<u64>, base: int) -> bool {
    forall|p: int| 0 <= p < 256 ==> !#[trigger] both_bits(blk, mask, base, p)
}

/// The first `n` positions of a block, summed the way the batched kernel sums them: whole
/// words below `n / 64`, then the first `n % 64` bits of word `n / 64`.
pub open spec fn batched_partial(blk: vec101_block, mask: Seq<u64>, mbase: int, xt: Seq<i8>, fbase: int, pb: int,
    b: int, n: nat) -> int {
    let w = n / 64;
    let q = n % 64;
    let m = mask[mbase + w];
    batched_block_sum(blk, mask, mbase, xt, fbase, pb, b, w) + word_sum(blk.w_pos_bits[w as int] & m, xt, fbase + w * 64,
        pb, b, q) - word_sum(blk.w_neg_bits[w as int] & m, xt, fbase + w * 64, pb, b, q)
}

proof fn lemma_block_dot_column(blk: vec101_block, mask: Seq<u64>, mbase: int, xt: Seq<i8>, fbase: int, pb: int,
    b: int, len: nat, n: nat)
    requires
        n <= 256,
        0 <= fbase,
        fbase + 256 <= len,
        block_disjoint(blk, mask, mbase),
    ensures
        block_dot(blk, mask, mbase, column(xt, pb, b, len), fbase, n) == batched_partial(blk, mask, mbase, xt, fbase,
            pb, b, n),
    decreases n,
{
    if n == 0 {
        assert(batched_partial(blk, mask, mbase, xt, fbase, pb, b, 0) == 0);
    } else {
        let k = (n - 1) as nat;
        lemma_block_dot_column(blk, mask, mbase, xt, fbase, pb, b, len, k);
        let w = k / 64;
        let q = k % 64;
        let m = mask[mbase + w];
        let col = column(xt, pb, b, len);
        assert(!both_bits(blk, mask, mbase, k as int));
        assert(col[fbase + k] == xt[(fbase + k) * pb + b]);
        assert(fbase + w * 64 + q == fbase + k);
        if q < 63 {
            assert(n / 64 == w && n % 64 == q + 1);
        } else {
            assert(n / 64 == w + 1 && n % 64 == 0);
        }
    }
}

/// Where no position of the block has both bits set, the batched kernel's signed sum for
/// entry `b` is the block's dot product with column `b`.
proof fn lemma_block_sum_is_column_dot(blk: vec101_block, mask: Seq<u64>, mbase: int, xt: Seq<i8>, fbase: int,
    pb: int, b: int, len: nat)
    requires
        0 <= fbase,
        fbase + 256 <= len,
        block_disjoint(blk, mask, mbase),
    ensures
        batched_block_sum(blk, mask, mbase, xt, fbase, pb, b, 4) == block_dot(blk, mask, mbase, column(xt, pb, b,
            len), fbase, 256),
{
    lemma_block_dot_column(blk, mask, mbase, xt, fbase, pb, b, len, 256);
}

/// Term `t` of a row for batch entry `b`: block `t % 8` of super-block `t / 8`, its sum
/// times the block's scale, divided by 256 rounding down.
pub open spec fn batched_term(blocks: Seq<Vec101SuperBlock>, bpr: int, row: int, xt: Seq<i8>,
    mask: Seq<u64>, pb: int, b: int, t: int) -> int {
    let col = t / 8;
    let sb = t % 8;
    let sup = blocks[row * bpr + col];
    (batched_block_sum(sup.blocks[sb], mask, col * 32 + sb * 4, xt, col * 2048 + sb * 256, pb, b, 4)
        * sup.scales[sb]) / 256
}

/// The sum of the first `n` terms of a row for batch entry `b`.
pub open spec fn batched_acc(blocks: Seq<Vec101SuperBlock>, bpr: int, row: int, xt: Seq<i8>,
    mask: Seq<u64>, pb: int, b: int, n: nat) -> int
    decreases n,
{
    if n == 0 {
        0
    } else {
        batched_acc(blocks, bpr, row, xt, mask, pb, b, (n - 1) as nat)
            + batched_term(blocks, bpr, row, xt, mask, pb, b, n - 1)
    }
}

/// No block of row `row` has a position with both bits set under the mask.
pub open spec fn row_disjoint(blocks: Seq<Vec101SuperBlock>, bpr: int, row: int, mask: Seq<u64>) -> bool {
    forall|t: int| 0 <= t < 8 * bpr ==> #[trigger] block_disjoint(blocks[row * bpr + t / 8].blocks[t % 8], mask,
        (t / 8) * 32 + (t % 8) * 4)
}

proof fn lemma_batched_acc_is_row_acc(blocks: Seq<Vec101SuperBlock>, bpr: int, row: int, xt: Seq<i8>,
    mask: Seq<u64>, pb: int, b: int, n: nat)
    requires
        bpr >= 0,
        n <= 8 * bpr,
        row_disjoint(blocks, bpr, row, mask),
    ensures
        batched_acc(blocks, bpr, row, xt, mask, pb, b, n) == row_acc(blocks, bpr, row, column(xt, pb, b,
            (bpr * 2048) as nat), mask, n),
    decreases n,
{
    if n > 0 {
        let t = n - 1;
        lemma_batched_acc_is_row_acc(blocks, bpr, row, xt, mask, pb, b, (n - 1) as nat);
        let col = t / 8;
        let sb = t % 8;
        assert(block_disjoint(blocks[row * bpr + t / 8].blocks[t % 8], mask, (t / 8) * 32 + (t % 8) * 4));
        assert(col * 2048 + sb * 256 + 256 <= bpr * 2048) by (nonlinear_arith)
            requires col == t / 8, sb == t % 8, 0 <= t < 8 * bpr, 0 <= sb < 8, t == 8 * col + sb;
        lemma_block_sum_is_column_dot(blocks[row * bpr + col].blocks[sb], mask, col * 32 + sb * 4, xt,
            col * 2048 + sb * 256, pb, b, (bpr * 2048) as nat);
    }
}

/// Where no weight position of the row has both bits set under the mask, entry `b` of the
/// GEMM kernel's result is the GEMV kernel's value on column `b` of the transposed
/// activations (feature `f` at `xt[f * pb + b]`), and its partial sums are the GEMV ones.
pub proof fn lemma_gemm_entry_is_gemv_of_column(blocks: Seq<Vec101SuperBlock>, bpr: int, row: int, xt: Seq<i8>,
    mask: Seq<u64>, pb: int, b: int, scale: i32)
    requires
        bpr >= 0,
        row_disjoint(blocks, bpr, row, mask),
    ensures
        batched_value(blocks, bpr, row, xt, mask, pb, b, scale) == row_value(blocks, bpr, row, column(xt, pb, b,
            (bpr * 2048) as nat), mask, scale),
        forall|n: nat| n <= 8 * bpr ==> #[trigger] batched_acc(blocks, bpr, row, xt, mask, pb, b, n) == row_acc(
            blocks, bpr, row, column(xt, pb, b, (bpr * 2048) as nat), mask, n),
{
    assert forall|n: nat| n <= 8 * bpr implies #[trigger] batched_acc(blocks, bpr, row, xt, mask, pb, b, n) == row_acc(
        blocks, bpr, row, column(xt, pb, b, (bpr * 2048) as nat), mask, n) by {
        lemma_batched_acc_is_row_acc(blocks, bpr, row, xt, mask, pb, b, n);
    }
    lemma_batched_acc_is_row_acc(blocks, bpr, row, xt, mask, pb, b, (8 * bpr) as nat);
}

/// Every partial sum of the row fits in 32 bits, for every batch entry.
pub open spec fn batched_fits(blocks: Seq<Vec101SuperBlock>, bpr: int, row: int, xt: Seq<i8>,
    mask: Seq<u64>, pb: int, batch: int) -> bool {
    forall|b: int, n: nat| 0 <= b < batch && n <= 8 * bpr
        ==> i32::MIN <= #[trigger] batched_acc(blocks, bpr, row, xt, mask, pb, b, n) <= i32::MAX
}

/// What the row yields for batch entry `b`: its sum times the row's scale, divided by
/// 65536 rounding down, kept to 32 bits.
pub open spec fn batched_value(blocks: Seq<Vec101SuperBlock>, bpr: int, row: int, xt: Seq<i8>,
    mask: Seq<u64>, pb: int, b: int, scale: i32) -> i32 {
    ((batched_acc(blocks, bpr, row, xt, mask, pb, b, (8 * bpr) as nat) * scale) / 65536) as i32
}

/// Clearing the lowest set bit `t` of `x` keeps every other bit and lowers the value.
proof fn lemma_clear_lowest(x: u64, xm1: u64, y: u64, t: u64)
    by (bit_vector)
    requires
        x != 0,
        xm1 + 1 == x,
        y == x & xm1,
        t < 64,
        (x >> t) & 1u64 == 1u64,
        t == 0 || x << ((64 - t) as u64) == 0,
    ensures
        forall|q: u64| q < 64 ==> (((y >> q) & 1u64 == 1u64) == (q != t && (x >> q) & 1u64 == 1u64)),
        y < x,
{
}

/// Bits that are clear add nothing to a word's sum.
proof fn lemma_word_sum_skip(word: u64, xt: Seq<i8>, fbase: int, pb: int, b: int, k: nat, n: nat)
    requires
        k <= n,
        forall|q: int| k <= q < n ==> !#[trigger] bit(word, q),
    ensures
        word_sum(word, xt, fbase, pb, b, n) == word_sum(word, xt, fbase, pb, b, k),
    decreases n - k,
{
    if n > k {
        lemma_word_sum_skip(word, xt, fbase, pb, b, k, (n - 1) as nat);
        assert(!bit(word, n - 1));
    }
}

/// A word's sum lies between -128 and 127 per position.
proof fn lemma_word_sum_bound(word: u64, xt: Seq<i8>, fbase: int, pb: int, b: int, k: nat)
    ensures
        -128 * k <= word_sum(word, xt, fbase, pb, b, k) <= 127 * k,
    decreases k,
{
    if k > 0 {
        lemma_word_sum_bound(word, xt, fbase, pb, b, (k - 1) as nat);
    }
}

/// Adds `sign` (1 or -1) times batch entry `b` of feature `f` to `row_sums[b]`, for every
/// `b` of the batch.
fn add_feature(row_sums: &mut [i32], x_t: &[i8], f: usize, padded_batch: usize, batch_size: usize, negative: bool)
    requires
        batch_size <= old(row_sums)@.len(),
        f * padded_batch + batch_size <= x_t.len(),
        forall|b: int| 0 <= b < batch_size ==> -1_000_000 <= #[trigger] old(row_sums)@[b] <= 1_000_000,
    ensures
        final(row_sums)@.len() == old(row_sums)@.len(),
        forall|b: int| 0 <= b < batch_size ==> #[trigger] final(row_sums)@[b] == old(row_sums)@[b]
            + if negative { -xt_at(x_t@, f as int, padded_batch as int, b) } else { xt_at(x_t@, f as int, padded_batch as int, b) },
        forall|b: int| batch_size <= b < old(row_sums)@.len() ==> #[trigger] final(row_sums)@[b] == old(row_sums)@[b],
{
    let ghost start = row_sums@;
    let mut b: usize = 0;
    while b < batch_size
        invariant
            b <= batch_size,
            batch_size <= row_sums@.len(),
            f * padded_batch + batch_size <= x_t.len(),
            row_sums@.len() == start.len(),
            forall|j: int| 0 <= j < batch_size ==> -1_000_000 <= #[trigger] start[j] <= 1_000_000,
            forall|j: int| 0 <= j < b ==> #[trigger] row_sums@[j] == start[j]
                + if negative { -xt_at(x_t@, f as int, padded_batch as int, j) } else { xt_at(x_t@, f as int, padded_batch as int, j) },
            forall|j: int| b <= j < start.len() ==> #[trigger] row_sums@[j] == start[j],
        decreases batch_size - b,
    {
        let v = x_t[f * padded_batch + b] as i32;
        if negative {
            row_sums[b] = row_sums[b] - v;
        } else {
            row_sums[b] = row_sums[b] + v;
        }
        b = b + 1;
    }
}

/// Adds (or, when `negative`, takes away) in `row_sums[b]`, for each batch entry `b`, the
/// activations of the features under the set bits of `word`: feature `fbase + q` for bit
/// `q`, visited from the lowest set bit up.
fn accumulate_word(row_sums: &mut [i32], x_t: &[i8], word: u64, fbase: usize, padded_batch: usize,
    batch_size: usize, negative: bool)
    requires
        batch_size <= old(row_sums)@.len(),
        fbase + 64 <= usize::MAX,
        word_reads_fit(word, fbase as int, padded_batch as int, batch_size as int, x_t.len() as int),
        forall|b: int| 0 <= b < batch_size ==> -900_000 <= #[trigger] old(row_sums)@[b] <= 900_000,
    ensures
        final(row_sums)@.len() == old(row_sums)@.len(),
        forall|b: int| 0 <= b < batch_size ==> #[trigger] final(row_sums)@[b] == old(row_sums)@[b]
            + if negative { -word_sum(word, x_t@, fbase as int, padded_batch as int, b, 64) }
              else { word_sum(word, x_t@, fbase as int, padded_batch as int, b, 64) },
        forall|b: int| batch_size <= b < old(row_sums)@.len() ==> #[trigger] final(row_sums)@[b] == old(row_sums)@[b],
        forall|b: int| 0 <= b < batch_size ==>
            -8192 <= #[trigger] word_sum(word, x_t@, fbase as int, padded_batch as int, b, 64) <= 8128,
{
    let ghost start = row_sums@;
    let ghost pb = padded_batch as int;
    let ghost fb = fbase as int;
    proof {
        assert forall|b: int, k: nat| 0 <= b < batch_size && k <= 64 implies
            -128 * k <= #[trigger] word_sum(word, x_t@, fb, pb, b, k) <= 127 * k by {
            lemma_word_sum_bound(word, x_t@, fb, pb, b, k);
        }
    }
    let mut bits = word;
    let ghost mut k: nat = 0;
    while bits != 0
        invariant
            k <= 64,
            batch_size <= row_sums@.len(),
            fbase + 64 <= usize::MAX,
            word_reads_fit(word, fbase as int, padded_batch as int, batch_size as int, x_t.len() as int),
            pb == padded_batch as int,
            fb == fbase as int,
            row_sums@.len() == start.len(),
            forall|b: int| 0 <= b < batch_size ==> -900_000 <= #[trigger] start[b] <= 900_000,
            forall|b: int, k2: nat| 0 <= b < batch_size && k2 <= 64 ==>
                -128 * k2 <= #[trigger] word_sum(word, x_t@, fb, pb, b, k2) <= 127 * k2,
            forall|q: int| 0 <= q < 64 ==> #[trigger] bit(bits, q) == (q >= k && bit(word, q)),
            forall|b: int| 0 <= b < batch_size ==> #[trigger] row_sums@[b] == start[b]
                + if negative { -word_sum(word, x_t@, fb, pb, b, k) } else { word_sum(word, x_t@, fb, pb, b, k) },
            forall|b: int| batch_size <= b < start.len() ==> #[trigger] row_sums@[b] == start[b],
        decreases bits,
    {
        let tz = bits.trailing_zeros();
        proof {
            axiom_u64_trailing_zeros(bits);
        }
        let cleared = bits & (bits - 1);
        proof {
            lemma_clear_lowest(bits, (bits - 1) as u64, cleared, tz as u64);
            assert(bit(bits, tz as int));
            assert(tz >= k);
            assert forall|q: int| k <= q < tz implies !#[trigger] bit(word, q) by {
                let qu = q as u64;
                assert((bits >> qu) & 1u64 == 0u64);
                assert(!bit(bits, q));
            }
            lemma_word_sum_skip(word, x_t@, fb, pb, 0, k, tz as nat);
            assert forall|b: int| 0 <= b < batch_size implies #[trigger] word_sum(word, x_t@, fb, pb, b, tz as nat)
                == word_sum(word, x_t@, fb, pb, b, k) by {
                lemma_word_sum_skip(word, x_t@, fb, pb, b, k, tz as nat);
            }
            assert((fbase + tz) * padded_batch + batch_size <= x_t.len());
            assert(forall|b: int| 0 <= b < batch_size ==> -1_000_000 <= #[trigger] row_sums@[b] <= 1_000_000);
        }
        let f = fbase + (tz as usize);
        add_feature(row_sums, x_t, f, padded_batch, batch_size, negative);
        proof {
            assert forall|q: int| 0 <= q < 64 implies #[trigger] bit(cleared, q) == (q >= tz + 1 && bit(word, q)) by {
                let qu = q as u64;
                assert(((cleared >> qu) & 1u64 == 1u64) == (qu != tz as u64 && (bits >> qu) & 1u64 == 1u64));
                assert(bit(bits, q) == (q >= k && bit(word, q)));
                if k <= q < tz {
                    assert(!bit(word, q));
                }
            }
            assert(bit(bits, tz as int) == (tz >= k && bit(word, tz as int)));
            assert(bit(word, tz as int));
            assert forall|b: int| 0 <= b < batch_size implies #[trigger] word_sum(word, x_t@, fb, pb, b, (tz + 1) as nat)
                == word_sum(word, x_t@, fb, pb, b, k) + xt_at(x_t@, f as int, pb, b) by {
                assert(word_sum(word, x_t@, fb, pb, b, tz as nat) == word_sum(word, x_t@, fb, pb, b, k));
            }
            k = (tz + 1) as nat;
        }
        bits = cleared;
    }
    proof {
        assert forall|q: int| k <= q < 64 implies !#[trigger] bit(word, q) by {
            let qu = q as u64;
            assert((0u64 >> qu) & 1u64 == 0u64) by (bit_vector);
            assert(!bit(bits, q));
        }
        assert forall|b: int| 0 <= b < batch_size implies #[trigger] word_sum(word, x_t@, fb, pb, b, 64)
            == word_sum(word, x_t@, fb, pb, b, k) by {
            lemma_word_sum_skip(word, x_t@, fb, pb, b, k, 64);
        }
    }
}

/// Clears `row_sums` and leaves in entry `b` of the batch the block's signed sum: for each
/// of its four weight words, the activations under the masked positive bits added, then
/// those under the masked negative bits taken away.
fn block_sums(row_sums: &mut [i32], blk: &vec101_block, x_mask: &[u64], mbase: usize, x_t: &[i8],
    fbase: usize, padded_batch: usize, batch_size: usize)
    requires
        batch_size <= old(row_sums)@.len(),
        mbase + 4 <= x_mask.len(),
        fbase + 256 <= usize::MAX,
        block_reads_fit(*blk, x_mask@, mbase as int, fbase as int, padded_batch as int, batch_size as int, x_t.len() as int),
    ensures
        final(row_sums)@.len() == old(row_sums)@.len(),
        forall|b: int| 0 <= b < batch_size ==> #[trigger] final(row_sums)@[b]
            == batched_block_sum(*blk, x_mask@, mbase as int, x_t@, fbase as int, padded_batch as int, b, 4),
        forall|b: int| 0 <= b < batch_size ==> -65280 <= #[trigger] final(row_sums)@[b] <= 65280,
        forall|b: int| batch_size <= b < old(row_sums)@.len() ==> #[trigger] final(row_sums)@[b] == 0,
{
    let mut i: usize = 0;
    while i < row_sums.len()
        invariant
            i <= row_sums@.len(),
            row_sums@.len() == old(row_sums)@.len(),
            forall|j: int| 0 <= j < i ==> #[trigger] row_sums@[j] == 0,
        decreases row_sums@.len() - i,
    {
        row_sums[i] = 0;
        i = i + 1;
    }
    let mut sub: usize = 0;
    while sub < 4
        invariant
            sub <= 4,
            row_sums@.len() == old(row_sums)@.len(),
            batch_size <= row_sums@.len(),
            mbase + 4 <= x_mask.len(),
            fbase + 256 <= usize::MAX,
            block_reads_fit(*blk, x_mask@, mbase as int, fbase as int, padded_batch as int, batch_size as int, x_t.len() as int),
            forall|b: int| 0 <= b < batch_size ==> #[trigger] row_sums@[b]
                == batched_block_sum(*blk, x_mask@, mbase as int, x_t@, fbase as int, padded_batch as int, b, sub as nat),
            forall|b: int| 0 <= b < batch_size ==> -16320 * sub <= #[trigger] row_sums@[b] <= 16320 * sub,
            forall|b: int| batch_size <= b < row_sums@.len() ==> #[trigger] row_sums@[b] == 0,
        decreases 4 - sub,
    {
        let mask = x_mask[mbase + sub];
        let f = fbase + sub * 64;
        assert(word_reads_fit(blk.w_pos_bits[sub as int] & x_mask@[mbase + sub], fbase + sub * 64, padded_batch as int,
            batch_size as int, x_t.len() as int));
        let ghost before = row_sums@;
        accumulate_word(row_sums, x_t, blk.w_pos_bits[sub] & mask, f, padded_batch, batch_size, false);
        let ghost mid = row_sums@;
        accumulate_word(row_sums, x_t, blk.w_neg_bits[sub] & mask, f, padded_batch, batch_size, true);
        proof {
            assert forall|b: int| 0 <= b < batch_size implies #[trigger] row_sums@[b]
                == batched_block_sum(*blk, x_mask@, mbase as int, x_t@, fbase as int, padded_batch as int, b, (sub + 1) as nat) by {
                assert(mid[b] == before[b] + word_sum(blk.w_pos_bits[sub as int] & mask, x_t@, f as int, padded_batch as int, b, 64));
            }
        }
        sub = sub + 1;
    }
}

/// The values one row of the weight matrix yields against a batch of activations (the
/// scalar GEMM kernel, without the liquid-network step): for each batch entry `b`, the row's
/// sum over its blocks, times the row's scale, divided by 65536, is added to
/// `out[b * num_rows + row]`. `row_sums` is the scratch for one block's sums and ends
/// holding the last block's. Nothing happens for rows of no blocks.
pub fn process_row_scalar_gemm(row: usize, blocks: &[Vec101SuperBlock], blocks_per_row: usize,
    x_t: &[i8], x_mask: &[u64], padded_batch: usize, batch_size: usize, num_rows: usize,
    scales: &[i32], row_sums: &mut [i32], out: &mut [i32])
    requires
        row < scales.len(),
        row < num_rows,
        (row + 1) * blocks_per_row <= blocks.len(),
        blocks_per_row * 32 <= x_mask.len(),
        blocks_per_row * 2048 <= usize::MAX,
        gemm_reads_fit(blocks@, blocks_per_row as int, row as int, x_mask@, padded_batch as int, batch_size as int,
            x_t.len() as int),
        batch_size <= old(row_sums)@.len(),
        batch_size * num_rows <= old(out)@.len(),
        batched_fits(blocks@, blocks_per_row as int, row as int, x_t@, x_mask@, padded_batch as int, batch_size as int),
        blocks_per_row > 0 ==> forall|b: int| 0 <= b < batch_size ==> i32::MIN <= #[trigger] old(out)@[b * num_rows + row]
            + batched_value(blocks@, blocks_per_row as int, row as int, x_t@, x_mask@, padded_batch as int, b, scales@[row as int])
            <= i32::MAX,
    ensures
        final(out)@.len() == old(out)@.len(),
        final(row_sums)@.len() == old(row_sums)@.len(),
        blocks_per_row == 0 ==> final(out)@ == old(out)@ && final(row_sums)@ == old(row_sums)@,
        blocks_per_row > 0 ==> forall|b: int| 0 <= b < batch_size ==> #[trigger] final(out)@[b * num_rows + row]
            == old(out)@[b * num_rows + row]
            + batched_value(blocks@, blocks_per_row as int, row as int, x_t@, x_mask@, padded_batch as int, b, scales@[row as int]),
        blocks_per_row > 0 ==> forall|i: int| 0 <= i < old(out)@.len() && (i % (num_rows as int) != row || i / (num_rows as int) >= batch_size)
            ==> #[trigger] final(out)@[i] == old(out)@[i],
        blocks_per_row > 0 ==> forall|b: int| 0 <= b < batch_size ==> #[trigger] final(row_sums)@[b] == batched_block_sum(
            blocks@[row * blocks_per_row + blocks_per_row - 1].blocks[7], x_mask@, (blocks_per_row - 1) * 32 + 28, x_t@,
            (blocks_per_row - 1) * 2048 + 7 * 256, padded_batch as int, b, 4),
        blocks_per_row > 0 ==> forall|b: int| batch_size <= b < old(row_sums)@.len() ==> #[trigger] final(row_sums)@[b] == 0,
{
    if blocks_per_row == 0 {
        return;
    }
    let ghost bpr = blocks_per_row as int;
    let ghost pb = padded_batch as int;
    let scale = scales[row];
    let mut row_sums_int: Vec<i32> = Vec::new();
    let mut b: usize = 0;
    while b < batch_size
        invariant
            b <= batch_size,
            row_sums_int@.len() == b,
            forall|j: int| 0 <= j < b ==> #[trigger] row_sums_int@[j] == 0,
        decreases batch_size - b,
    {
        row_sums_int.push(0);
        b = b + 1;
    }
    let mut col: usize = 0;
    while col < blocks_per_row
        invariant
            0 < blocks_per_row,
            col <= blocks_per_row,
            bpr == blocks_per_row as int,
            pb == padded_batch as int,
            (row + 1) * blocks_per_row <= blocks.len(),
            blocks_per_row * 32 <= x_mask.len(),
            blocks_per_row * 2048 <= usize::MAX,
            gemm_reads_fit(blocks@, bpr, row as int, x_mask@, pb, batch_size as int, x_t.len() as int),
            batch_size <= row_sums@.len(),
            row_sums@.len() == old(row_sums)@.len(),
            row_sums_int@.len() == batch_size,
            batched_fits(blocks@, bpr, row as int, x_t@, x_mask@, pb, batch_size as int),
            forall|j: int| 0 <= j < batch_size ==> #[trigger] row_sums_int@[j]
                == batched_acc(blocks@, bpr, row as int, x_t@, x_mask@, pb, j, (8 * col) as nat),
            col > 0 ==> forall|j: int| 0 <= j < batch_size ==> #[trigger] row_sums@[j] == batched_block_sum(
                blocks@[row * blocks_per_row + col - 1].blocks[7], x_mask@, (col - 1) * 32 + 28, x_t@,
                (col - 1) * 2048 + 7 * 256, pb, j, 4),
            col > 0 ==> forall|j: int| batch_size <= j < row_sums@.len() ==> #[trigger] row_sums@[j] == 0,
        decreases blocks_per_row - col,
    {
        assert(row * blocks_per_row + col < (row + 1) * blocks_per_row) by (nonlinear_arith)
            requires col < blocks_per_row;
        assert(row * blocks_per_row <= (row + 1) * blocks_per_row) by (nonlinear_arith);
        let block_idx = row * blocks_per_row + col;
        let w_super = &blocks[block_idx];
        assert(col * 2048 + 2048 <= blocks_per_row * 2048 && col * 32 + 32 <= blocks_per_row * 32) by (nonlinear_arith)
            requires col < blocks_per_row;
        let mut sub_blk: usize = 0;
        while sub_blk < 8
            invariant
                sub_blk <= 8,
                col < blocks_per_row,
                bpr == blocks_per_row as int,
                pb == padded_batch as int,
                block_idx == row * blocks_per_row + col,
                *w_super == blocks@[block_idx as int],
                col * 2048 + 2048 <= usize::MAX,
                gemm_reads_fit(blocks@, bpr, row as int, x_mask@, pb, batch_size as int, x_t.len() as int),
                col * 32 + 32 <= x_mask.len(),
                batch_size <= row_sums@.len(),
                row_sums@.len() == old(row_sums)@.len(),
                row_sums_int@.len() == batch_size,
                batched_fits(blocks@, bpr, row as int, x_t@, x_mask@, pb, batch_size as int),
                forall|j: int| 0 <= j < batch_size ==> #[trigger] row_sums_int@[j]
                    == batched_acc(blocks@, bpr, row as int, x_t@, x_mask@, pb, j, (8 * col + sub_blk) as nat),
                sub_blk > 0 ==> forall|j: int| 0 <= j < batch_size ==> #[trigger] row_sums@[j] == batched_block_sum(
                    blocks@[block_idx as int].blocks[sub_blk - 1], x_mask@, col * 32 + (sub_blk - 1) * 4, x_t@,
                    col * 2048 + (sub_blk - 1) * 256, pb, j, 4),
                sub_blk == 0 && col > 0 ==> forall|j: int| 0 <= j < batch_size ==> #[trigger] row_sums@[j] == batched_block_sum(
                    blocks@[row * blocks_per_row + col - 1].blocks[7], x_mask@, (col - 1) * 32 + 28, x_t@,
                    (col - 1) * 2048 + 7 * 256, pb, j, 4),
                sub_blk > 0 || col > 0 ==> forall|j: int| batch_size <= j < row_sums@.len() ==> #[trigger] row_sums@[j] == 0,
            decreases 8 - sub_blk,
        {
            let micro_scale = w_super.scales[sub_blk] as i32;
            let fbase = col * 2048 + sub_blk * 256;
            assert(block_reads_fit(blocks@[row * bpr + col].blocks[sub_blk as int], x_mask@, col * 32 + sub_blk * 4,
                col * 2048 + sub_blk * 256, pb, batch_size as int, x_t.len() as int));
            block_sums(row_sums, &w_super.blocks[sub_blk], x_mask, col * 32 + sub_blk * 4, x_t, fbase,
                padded_batch, batch_size);
            let ghost t = 8 * col + sub_blk;
            let mut j: usize = 0;
            while j < batch_size
                invariant
                    j <= batch_size,
                    sub_blk < 8,
                    col < blocks_per_row,
                    bpr == blocks_per_row as int,
                    pb == padded_batch as int,
                    t == 8 * col + sub_blk,
                    block_idx == row * blocks_per_row + col,
                    *w_super == blocks@[block_idx as int],
                    micro_scale == w_super.scales[sub_blk as int],
                    fbase == col * 2048 + sub_blk * 256,
                    batch_size <= row_sums@.len(),
                    row_sums_int@.len() == batch_size,
                    batched_fits(blocks@, bpr, row as int, x_t@, x_mask@, pb, batch_size as int),
                    forall|k: int| 0 <= k < batch_size ==> #[trigger] row_sums@[k] == batched_block_sum(
                        w_super.blocks[sub_blk as int], x_mask@, col * 32 + sub_blk * 4, x_t@, fbase as int, pb, k, 4),
                    forall|k: int| 0 <= k < batch_size ==> -65280 <= #[trigger] row_sums@[k] <= 65280,
                    forall|k: int| 0 <= k < j ==> #[trigger] row_sums_int@[k]
                        == batched_acc(blocks@, bpr, row as int, x_t@, x_mask@, pb, k, (t + 1) as nat),
                    forall|k: int| j <= k < batch_size ==> #[trigger] row_sums_int@[k]
                        == batched_acc(blocks@, bpr, row as int, x_t@, x_mask@, pb, k, t as nat),
                decreases batch_size - j,
            {
                let term = scaled_term_wide(row_sums[j], micro_scale);
                proof {
                    assert(t / 8 == col && t % 8 == sub_blk);
                    assert(term == batched_term(blocks@, bpr, row as int, x_t@, x_mask@, pb, j as int, t as int));
                    assert(t + 1 <= 8 * bpr);
                    assert(i32::MIN <= batched_acc(blocks@, bpr, row as int, x_t@, x_mask@, pb, j as int, (t + 1) as nat) <= i32::MAX);
                }
                row_sums_int.set(j, row_sums_int[j] + term);
                j = j + 1;
            }
            sub_blk = sub_blk + 1;
        }
        col = col + 1;
    }
    let mut b: usize = 0;
    while b < batch_size
        invariant
            b <= batch_size,
            0 < blocks_per_row,
            bpr == blocks_per_row as int,
            pb == padded_batch as int,
            row < num_rows,
            scale == scales@[row as int],
            batch_size * num_rows <= old(out)@.len(),
            out@.len() == old(out)@.len(),
            batch_size * num_rows <= out.len(),
            row_sums_int@.len() == batch_size,
            forall|j: int| 0 <= j < batch_size ==> #[trigger] row_sums_int@[j]
                == batched_acc(blocks@, bpr, row as int, x_t@, x_mask@, pb, j, (8 * bpr) as nat),
            forall|j: int| 0 <= j < batch_size ==> i32::MIN <= #[trigger] old(out)@[j * num_rows + row]
                + batched_value(blocks@, bpr, row as int, x_t@, x_mask@, pb, j, scale) <= i32::MAX,
            forall|j: int| 0 <= j < b ==> #[trigger] out@[j * num_rows + row]
                == old(out)@[j * num_rows + row] + batched_value(blocks@, bpr, row as int, x_t@, x_mask@, pb, j, scale),
            forall|i: int| 0 <= i < out@.len() && (i % (num_rows as int) != row || i / (num_rows as int) >= b)
                ==> #[trigger] out@[i] == old(out)@[i],
        decreases batch_size - b,
    {
        assert(b * num_rows + row < batch_size * num_rows) by (nonlinear_arith)
            requires b < batch_size, row < num_rows;
        let idx = b * num_rows + row;
        proof {
            vstd::arithmetic::div_mod::lemma_fundamental_div_mod(idx as int, num_rows as int);
            crate::bignum::lemmas::lemma_div_mod_unique(idx as int, num_rows as int, b as int, row as int);
        }
        let v = scaled_row_value(row_sums_int[b], scale);
        let ghost old_out = out@;
        out[idx] = out[idx] + v;
        proof {
            assert forall|i: int| 0 <= i < out@.len() && (i % (num_rows as int) != row || i / (num_rows as int) >= b + 1)
                implies #[trigger] out@[i] == old(out)@[i] by {
                if i == idx {
                    assert(false);
                }
                assert(old_out[i] == old(out)@[i]);
            }
            assert forall|j: int| 0 <= j < b + 1 implies #[trigger] out@[j * num_rows + row]
                == old(out)@[j * num_rows + row] + batched_value(blocks@, bpr, row as int, x_t@, x_mask@, pb, j, scale) by {
                if j < b {
                    assert(j * num_rows + row != idx) by (nonlinear_arith)
                        requires j < b, row < num_rows, idx == b * num_rows + row;
                    assert(0 <= j * num_rows + row < batch_size * num_rows) by (nonlinear_arith)
                        requires 0 <= j < b, b < batch_size, row < num_rows;
                    assert(out@ == old_out.update(idx as int, out@[idx as int]));
                    assert(out@[j * num_rows + row] == old_out[j * num_rows + row]);
                } else {
                    assert(j * num_rows + row == idx);
                    assert(old_out[idx as int] == old(out)@[idx as int]);
                    assert(out@[idx as int] == old_out[idx as int] + v);
                }
            }
        }
        b = b + 1;
    }
}

/// Every partial sum of the row up to its `m`-th term fits in 32 bits, for every batch entry.
pub open spec fn batched_fits_upto(blocks: Seq<Vec101SuperBlock>, bpr: int, row: int, xt: Seq<i8>,
    mask: Seq<u64>, pb: int, batch: int, m: int) -> bool {
    forall|b: int, n: nat| 0 <= b < batch && n <= m
        ==> i32::MIN <= #[trigger] batched_acc(blocks, bpr, row, xt, mask, pb, b, n) <= i32::MAX
}

/// The scalar GEMM kernel's value of row `row` for each batch entry `b` below
/// `batch_size`, or `None` when a partial sum of the row leaves 32 bits for some entry
/// (where the kernel's 32-bit accumulation would overflow). `row_sums` is the scratch for
/// one block's sums.
pub fn scalar_gemm_row_values(row: usize, blocks: &[Vec101SuperBlock], blocks_per_row: usize,
    x_t: &[i8], x_mask: &[u64], padded_batch: usize, batch_size: usize, scale: i32,
    row_sums: &mut [i32]) -> (r: Option<Vec<i32>>)
    requires
        (row + 1) * blocks_per_row <= blocks.len(),
        blocks_per_row * 32 <= x_mask.len(),
        blocks_per_row * 2048 <= usize::MAX,
        gemm_reads_fit(blocks@, blocks_per_row as int, row as int, x_mask@, padded_batch as int, batch_size as int,
            x_t.len() as int),
        batch_size <= old(row_sums)@.len(),
    ensures
        final(row_sums)@.len() == old(row_sums)@.len(),
        match r {
            Some(v) => {
                &&& batched_fits(blocks@, blocks_per_row as int, row as int, x_t@, x_mask@, padded_batch as int,
                    batch_size as int)
                &&& v@.len() == batch_size
                &&& forall|b: int| 0 <= b < batch_size ==> #[trigger] v@[b] == batched_value(blocks@,
                    blocks_per_row as int, row as int, x_t@, x_mask@, padded_batch as int, b, scale)
            },
            None => !batched_fits(blocks@, blocks_per_row as int, row as int, x_t@, x_mask@, padded_batch as int,
                batch_size as int),
        },
{
    let ghost bpr = blocks_per_row as int;
    let ghost pb = padded_batch as int;
    let mut acc: Vec<i64> = Vec::new();
    let mut b: usize = 0;
    while b < batch_size
        invariant
            b <= batch_size,
            acc@.len() == b,
            forall|j: int| 0 <= j < b ==> #[trigger] acc@[j] == 0,
        decreases batch_size - b,
    {
        acc.push(0);
        b = b + 1;
    }
    let mut col: usize = 0;
    while col < blocks_per_row
        invariant
            col <= blocks_per_row,
            bpr == blocks_per_row as int,
            pb == padded_batch as int,
            (row + 1) * blocks_per_row <= blocks.len(),
            blocks_per_row * 32 <= x_mask.len(),
            blocks_per_row * 2048 <= usize::MAX,
            gemm_reads_fit(blocks@, bpr, row as int, x_mask@, pb, batch_size as int, x_t.len() as int),
            batch_size <= row_sums@.len(),
            row_sums@.len() == old(row_sums)@.len(),
            acc@.len() == batch_size,
            batched_fits_upto(blocks@, bpr, row as int, x_t@, x_mask@, pb, batch_size as int, 8 * col),
            forall|j: int| 0 <= j < batch_size ==> #[trigger] acc@[j]
                == batched_acc(blocks@, bpr, row as int, x_t@, x_mask@, pb, j, (8 * col) as nat),
        decreases blocks_per_row - col,
    {
        assert(row * blocks_per_row + col < (row + 1) * blocks_per_row) by (nonlinear_arith)
            requires col < blocks_per_row;
        let block_idx = row * blocks_per_row + col;
        let w_super = &blocks[block_idx];
        assert(col * 2048 + 2048 <= blocks_per_row * 2048 && col * 32 + 32 <= blocks_per_row * 32) by (nonlinear_arith)
            requires col < blocks_per_row;
        let mut sub_blk: usize = 0;
        while sub_blk < 8
            invariant
                sub_blk <= 8,
                col < blocks_per_row,
                bpr == blocks_per_row as int,
                pb == padded_batch as int,
                block_idx == row * blocks_per_row + col,
                *w_super == blocks@[block_idx as int],
                col * 2048 + 2048 <= usize::MAX,
                gemm_reads_fit(blocks@, bpr, row as int, x_mask@, pb, batch_size as int, x_t.len() as int),
                col * 32 + 32 <= x_mask.len(),
                batch_size <= row_sums@.len(),
                row_sums@.len() == old(row_sums)@.len(),
                acc@.len() == batch_size,
                batched_fits_upto(blocks@, bpr, row as int, x_t@, x_mask@, pb, batch_size as int, 8 * col + sub_blk),
                forall|j: int| 0 <= j < batch_size ==> #[trigger] acc@[j]
                    == batched_acc(blocks@, bpr, row as int, x_t@, x_mask@, pb, j, (8 * col + sub_blk) as nat),
            decreases 8 - sub_blk,
        {
            let micro_scale = w_super.scales[sub_blk] as i32;
            let fbase = col * 2048 + sub_blk * 256;
            assert(block_reads_fit(blocks@[row * bpr + col].blocks[sub_blk as int], x_mask@, col * 32 + sub_blk * 4,
                col * 2048 + sub_blk * 256, pb, batch_size as int, x_t.len() as int));
            block_sums(row_sums, &w_super.blocks[sub_blk], x_mask, col * 32 + sub_blk * 4, x_t, fbase,
                padded_batch, batch_size);
            let ghost t = 8 * col + sub_blk;
            let mut j: usize = 0;
            while j < batch_size
                invariant
                    j <= batch_size,
                    sub_blk < 8,
                    col < blocks_per_row,
                    bpr == blocks_per_row as int,
                    pb == padded_batch as int,
                    t == 8 * col + sub_blk,
                    block_idx == row * blocks_per_row + col,
                    *w_super == blocks@[block_idx as int],
                    micro_scale == w_super.scales[sub_blk as int],
                    fbase == col * 2048 + sub_blk * 256,
                    batch_size <= row_sums@.len(),
                    row_sums@.len() == old(row_sums)@.len(),
                    acc@.len() == batch_size,
                    batched_fits_upto(blocks@, bpr, row as int, x_t@, x_mask@, pb, batch_size as int, t),
                    forall|k: int| 0 <= k < batch_size ==> #[trigger] row_sums@[k] == batched_block_sum(
                        w_super.blocks[sub_blk as int], x_mask@, col * 32 + sub_blk * 4, x_t@, fbase as int, pb, k, 4),
                    forall|k: int| 0 <= k < batch_size ==> -65280 <= #[trigger] row_sums@[k] <= 65280,
                    forall|k: int| 0 <= k < j ==> #[trigger] acc@[k]
                        == batched_acc(blocks@, bpr, row as int, x_t@, x_mask@, pb, k, (t + 1) as nat),
                    forall|k: int| 0 <= k < j ==> i32::MIN <= #[trigger] batched_acc(blocks@, bpr, row as int, x_t@,
                        x_mask@, pb, k, (t + 1) as nat) <= i32::MAX,
                    forall|k: int| j <= k < batch_size ==> #[trigger] acc@[k]
                        == batched_acc(blocks@, bpr, row as int, x_t@, x_mask@, pb, k, t as nat),
                decreases batch_size - j,
            {
                let term = scaled_term_wide(row_sums[j], micro_scale);
                proof {
                    assert(t / 8 == col && t % 8 == sub_blk);
                    assert(term == batched_term(blocks@, bpr, row as int, x_t@, x_mask@, pb, j as int, t as int));
                    assert(i32::MIN <= batched_acc(blocks@, bpr, row as int, x_t@, x_mask@, pb, j as int, t as nat)
                        <= i32::MAX);
                }
                let next: i64 = acc[j] + term as i64;
                if next < -2147483648i64 || next > 2147483647i64 {
                    proof {
                        assert(next == batched_acc(blocks@, bpr, row as int, x_t@, x_mask@, pb, j as int, (t + 1) as nat));
                        assert(t + 1 <= 8 * bpr);
                    }
                    return None;
                }
                acc.set(j, next);
                j = j + 1;
            }
            proof {
                assert forall|k: int, n: nat| 0 <= k < batch_size && n <= t + 1 implies i32::MIN
                    <= #[trigger] batched_acc(blocks@, bpr, row as int, x_t@, x_mask@, pb, k, n) <= i32::MAX by {
                    if n <= t {
                        assert(i32::MIN <= batched_acc(blocks@, bpr, row as int, x_t@, x_mask@, pb, k, n) <= i32::MAX);
                    } else {
                        assert(n == (t + 1) as nat);
                        assert(i32::MIN <= batched_acc(blocks@, bpr, row as int, x_t@, x_mask@, pb, k, (t + 1) as nat)
                            <= i32::MAX);
                    }
                }
            }
            sub_blk = sub_blk + 1;
        }
        col = col + 1;
    }
    let mut v: Vec<i32> = Vec::new();
    let mut b: usize = 0;
    while b < batch_size
        invariant
            b <= batch_size,
            bpr == blocks_per_row as int,
            pb == padded_batch as int,
            col == blocks_per_row,
            acc@.len() == batch_size,
            v@.len() == b,
            batched_fits_upto(blocks@, bpr, row as int, x_t@, x_mask@, pb, batch_size as int, 8 * bpr),
            forall|j: int| 0 <= j < batch_size ==> #[trigger] acc@[j]
                == batched_acc(blocks@, bpr, row as int, x_t@, x_mask@, pb, j, (8 * bpr) as nat),
            forall|j: int| 0 <= j < b ==> #[trigger] v@[j] == batched_value(blocks@, bpr, row as int, x_t@, x_mask@,
                pb, j, scale),
        decreases batch_size - b,
    {
        proof {
            assert(i32::MIN <= batched_acc(blocks@, bpr, row as int, x_t@, x_mask@, pb, b as int, (8 * bpr) as nat)
                <= i32::MAX);
        }
        let a: i32 = acc[b] as i32;
        v.push(scaled_row_value(a, scale));
        b = b + 1;
    }
    Some(v)
}

/// `(s * scale) >> 8` for a block's sum (at most 65280 in size) and scale.
fn scaled_term_wide(s: i32, micro_scale: i32) -> (r: i32)
    requires
        -65280 <= s <= 65280,
        -32768 <= micro_scale <= 32767,
    ensures
        r == (s * micro_scale) / 256,
{
    assert(-2139095040 <= s * micro_scale <= 2139095040) by (nonlinear_arith)
        requires -65280 <= s <= 65280, -32768 <= micro_scale <= 32767;
    let prod = s * micro_scale;
    let r = prod >> 8u32;
    assert(r as int == (prod as int) / 256) by (bit_vector)
        requires r == prod >> 8u32;
    r
}

/// A row's sum times its scale, divided by 65536 rounding down, kept to 32 bits.
fn scaled_row_value(acc: i32, scale: i32) -> (r: i32)
    ensures
        r == (((acc as int) * (scale as int)) / 65536) as i32,
{
    assert(-0x4000_0000_0000_0000 <= (acc as int) * (scale as int) <= 0x4000_0000_0000_0000) by (nonlinear_arith)
        requires i32::MIN <= acc <= i32::MAX, i32::MIN <= scale <= i32::MAX;
    let wide: i64 = (acc as i64) * (scale as i64);
    let shifted: i64 = wide >> 16u64;
    assert(shifted as int == (wide as int) / 65536) by (bit_vector)
        requires shifted == wide >> 16u64;
    #[verifier::truncate] (shifted as i32)
}

/// The ternary weight at position `p` of a block as the vector kernels read it: its
/// positive bit minus its negative bit, with no activation mask.
pub open spec fn pn_weight(blk: vec101_block, p: int) -> int {
    (if bit(blk.w_pos_bits[p / 64], p % 64) { 1int } else { 0int }) - (if bit(blk.w_neg_bits[p / 64], p % 64) {
        1int
    } else {
        0int
    })
}

/// The sum over the first `n` positions of a block of `pn_weight` times activation, the
/// activations read from `x[xbase..]`.
pub open spec fn pn_dot(blk: vec101_block, x: Seq<i8>, xbase: int, n: nat) -> int
    decreases n,
{
    if n == 0 {
        0
    } else {
        pn_dot(blk, x, xbase, (n - 1) as nat) + pn_weight(blk, n - 1) * x[xbase + n - 1]
    }
}

/// A mask with every activation of `n` mask words kept.
pub open spec fn all_kept(n: nat) -> Seq<u64> {
    Seq::new(n, |i: int| 0xffff_ffff_ffff_ffffu64)
}

proof fn lemma_and_all_ones(w: u64)
    by (bit_vector)
    ensures
        w & 0xffff_ffff_ffff_ffffu64 == w,
{
}

proof fn lemma_pn_dot_is_block_dot(blk: vec101_block, x: Seq<i8>, xoff: int, base: int, xbase: int, mlen: nat,
    n: nat)
    requires
        n <= 256,
        0 <= base,
        base + 4 <= mlen,
        0 <= xoff,
        0 <= xbase,
        xoff + xbase + 256 <= x.len(),
        block_disjoint(blk, all_kept(mlen), base),
    ensures
        block_dot(blk, all_kept(mlen), base, x.skip(xoff), xbase, n) == pn_dot(blk, x, xoff + xbase, n),
    decreases n,
{
    if n > 0 {
        let p = n - 1;
        lemma_pn_dot_is_block_dot(blk, x, xoff, base, xbase, mlen, (n - 1) as nat);
        assert(!both_bits(blk, all_kept(mlen), base, p));
        lemma_and_all_ones(blk.w_pos_bits[p / 64]);
        lemma_and_all_ones(blk.w_neg_bits[p / 64]);
        assert(all_kept(mlen)[base + p / 64] == 0xffff_ffff_ffff_ffffu64);
        assert(x.skip(xoff)[xbase + p] == x[xoff + xbase + p]);
    }
}

proof fn lemma_pn_acc_is_row_acc(blocks: Seq<Vec101SuperBlock>, bpr: int, row: int, x: Seq<i8>, xoff: int, n: nat)
    requires
        bpr >= 0,
        n <= 8 * bpr,
        0 <= xoff,
        xoff + bpr * 2048 <= x.len(),
        row_disjoint(blocks, bpr, row, all_kept((bpr * 32) as nat)),
    ensures
        pn_acc(blocks, bpr, row, x, xoff, n) == row_acc(blocks, bpr, row, x.skip(xoff), all_kept((bpr * 32) as nat),
            n),
    decreases n,
{
    if n > 0 {
        let t = n - 1;
        lemma_pn_acc_is_row_acc(blocks, bpr, row, x, xoff, (n - 1) as nat);
        let col = t / 8;
        let sb = t % 8;
        assert(block_disjoint(blocks[row * bpr + t / 8].blocks[t % 8], all_kept((bpr * 32) as nat), (t / 8) * 32 + (t
            % 8) * 4));
        assert(col * 2048 + sb * 256 + 256 <= bpr * 2048 && col * 32 + sb * 4 + 4 <= bpr * 32) by (nonlinear_arith)
            requires col == t / 8, sb == t % 8, 0 <= t < 8 * bpr, 0 <= sb < 8, t == 8 * col + sb;
        lemma_pn_dot_is_block_dot(blocks[row * bpr + col].blocks[sb], x, xoff, col * 32 + sb * 4, col * 2048 + sb
            * 256, (bpr * 32) as nat, 256);
        assert(xoff + col * 2048 + sb * 256 == xoff + (col * 2048 + sb * 256));
    }
}

/// Where no weight position of the row has both bits set, the positive-minus-negative form
/// of the vector kernels (AVX2 GEMV, NEON GEMM) gives the scalar GEMV kernel's value on the
/// same activations, from `x[xoff..]`, with every activation kept by the mask.
pub proof fn lemma_pn_value_is_unmasked_gemv(blocks: Seq<Vec101SuperBlock>, bpr: int, row: int, x: Seq<i8>, xoff: int,
    scale: i32)
    requires
        bpr >= 0,
        0 <= xoff,
        xoff + bpr * 2048 <= x.len(),
        row_disjoint(blocks, bpr, row, all_kept((bpr * 32) as nat)),
    ensures
        pn_value(blocks, bpr, row, x, xoff, scale) == row_value(blocks, bpr, row, x.skip(xoff), all_kept(
            (bpr * 32) as nat), scale),
        pn_fits(blocks, bpr, row, x, xoff) == row_fits(blocks, bpr, row, x.skip(xoff), all_kept((bpr * 32) as nat)),
{
    assert forall|n: nat| n <= 8 * bpr implies #[trigger] pn_acc(blocks, bpr, row, x, xoff, n) == row_acc(blocks, bpr,
        row, x.skip(xoff), all_kept((bpr * 32) as nat), n) by {
        lemma_pn_acc_is_row_acc(blocks, bpr, row, x, xoff, n);
    }
    lemma_pn_acc_is_row_acc(blocks, bpr, row, x, xoff, (8 * bpr) as nat);
    let m = all_kept((bpr * 32) as nat);
    if pn_fits(blocks, bpr, row, x, xoff) {
        assert forall|n: nat| n <= 8 * bpr implies i32::MIN <= #[trigger] row_acc(blocks, bpr, row, x.skip(xoff), m, n)
            <= i32::MAX by {
            lemma_pn_acc_is_row_acc(blocks, bpr, row, x, xoff, n);
            assert(i32::MIN <= pn_acc(blocks, bpr, row, x, xoff, n) <= i32::MAX);
        }
    }
    if row_fits(blocks, bpr, row, x.skip(xoff), m) {
        assert forall|n: nat| n <= 8 * bpr implies i32::MIN <= #[trigger] pn_acc(blocks, bpr, row, x, xoff, n)
            <= i32::MAX by {
            lemma_pn_acc_is_row_acc(blocks, bpr, row, x, xoff, n);
            assert(i32::MIN <= row_acc(blocks, bpr, row, x.skip(xoff), m, n) <= i32::MAX);
        }
    }
}

/// The positive-minus-negative dot product of one block with its activations.
fn pn_dot_exec(blk: &vec101_block, x: &[i8], xbase: usize) -> (r: i32)
    requires
        xbase + 256 <= x.len(),
    ensures
        r == pn_dot(*blk, x@, xbase as int, 256),
        -32768 <= r <= 32768,
{
    let mut sum: i32 = 0;
    let mut p: usize = 0;
    while p < 256
        invariant
            p <= 256,
            xbase + 256 <= x.len(),
            sum == pn_dot(*blk, x@, xbase as int, p as nat),
            -128 * p <= sum <= 128 * p,
        decreases 256 - p,
    {
        let k = (p % 64) as u64;
        let pos = (blk.w_pos_bits[p / 64] >> k) & 1u64 == 1u64;
        let neg = (blk.w_neg_bits[p / 64] >> k) & 1u64 == 1u64;
        let xv = x[xbase + p] as i32;
        let ghost before = sum;
        if pos && !neg {
            sum = sum + xv;
        } else if neg && !pos {
            sum = sum - xv;
        }
        proof {
            let pi = p as int;
            assert(pos == bit(blk.w_pos_bits[pi / 64], pi % 64));
            assert(neg == bit(blk.w_neg_bits[pi / 64], pi % 64));
            let w = pn_weight(*blk, pi);
            let xi = x@[xbase + pi] as int;
            assert(w * xi == if pos && !neg { xi } else if neg && !pos { -xi } else { 0 }) by (nonlinear_arith)
                requires w == (if pos { 1int } else { 0int }) - (if neg { 1int } else { 0int });
            assert(pn_dot(*blk, x@, xbase as int, (pi + 1) as nat)
                == pn_dot(*blk, x@, xbase as int, pi as nat) + pn_weight(*blk, pi) * x@[xbase + pi]);
            assert(sum == before + pn_weight(*blk, pi) * x@[xbase + pi]);
        }
        p = p + 1;
    }
    sum
}

/// Term `t` of a row for the activations from `x[xoff..]`: block `t % 8` of the row's
/// super-block `t / 8`, its positive-minus-negative dot product times the block's scale,
/// divided by 256 rounding down.
pub open spec fn pn_term(blocks: Seq<Vec101SuperBlock>, bpr: int, row: int, x: Seq<i8>, xoff: int, t: int) -> int {
    let col = t / 8;
    let sb = t % 8;
    let sup = blocks[row * bpr + col];
    (pn_dot(sup.blocks[sb], x, xoff + col * 2048 + sb * 256, 256) * sup.scales[sb]) / 256
}

/// The sum of the first `n` terms of a row.
pub open spec fn pn_acc(blocks: Seq<Vec101SuperBlock>, bpr: int, row: int, x: Seq<i8>, xoff: int, n: nat) -> int
    decreases n,
{
    if n == 0 {
        0
    } else {
        pn_acc(blocks, bpr, row, x, xoff, (n - 1) as nat) + pn_term(blocks, bpr, row, x, xoff, n - 1)
    }
}

/// Every partial sum of a row fits in 32 bits.
pub open spec fn pn_fits(blocks: Seq<Vec101SuperBlock>, bpr: int, row: int, x: Seq<i8>, xoff: int) -> bool {
    forall|n: nat| n <= 8 * bpr ==> i32::MIN <= #[trigger] pn_acc(blocks, bpr, row, x, xoff, n) <= i32::MAX
}

/// What a row yields against the activations from `x[xoff..]`: its sum times the row's
/// scale, divided by 65536 rounding down, kept to 32 bits.
pub open spec fn pn_value(blocks: Seq<Vec101SuperBlock>, bpr: int, row: int, x: Seq<i8>, xoff: int, scale: i32) -> i32 {
    ((pn_acc(blocks, bpr, row, x, xoff, (8 * bpr) as nat) * scale) / 65536) as i32
}

/// The value of a row against the activations from `x[xoff..]`, with positive-minus-negative
/// weights and no activation mask.
pub fn pn_row_value(row: usize, blocks: &[Vec101SuperBlock], blocks_per_row: usize, x: &[i8], xoff: usize,
    scale: i32) -> (r: i32)
    requires
        (row + 1) * blocks_per_row <= blocks.len(),
        xoff + blocks_per_row * 2048 <= x.len(),
        pn_fits(blocks@, blocks_per_row as int, row as int, x@, xoff as int),
    ensures
        r == pn_value(blocks@, blocks_per_row as int, row as int, x@, xoff as int, scale),
{
    let ghost bpr = blocks_per_row as int;
    let mut final_sum: i32 = 0;
    let mut col: usize = 0;
    while col < blocks_per_row
        invariant
            col <= blocks_per_row,
            (row + 1) * blocks_per_row <= blocks.len(),
            xoff + blocks_per_row * 2048 <= x.len(),
            bpr == blocks_per_row as int,
            pn_fits(blocks@, bpr, row as int, x@, xoff as int),
            final_sum == pn_acc(blocks@, bpr, row as int, x@, xoff as int, (8 * col) as nat),
        decreases blocks_per_row - col,
    {
        assert(row * blocks_per_row + col < (row + 1) * blocks_per_row) by (nonlinear_arith)
            requires col < blocks_per_row;
        let block_idx = row * blocks_per_row + col;
        let w_super = &blocks[block_idx];
        assert(col * 2048 + 2048 <= blocks_per_row * 2048) by (nonlinear_arith)
            requires col < blocks_per_row;
        let mut sub_blk: usize = 0;
        while sub_blk < 8
            invariant
                sub_blk <= 8,
                col < blocks_per_row,
                block_idx == row * blocks_per_row + col,
                *w_super == blocks@[block_idx as int],
                xoff + col * 2048 + 2048 <= x.len(),
                bpr == blocks_per_row as int,
                pn_fits(blocks@, bpr, row as int, x@, xoff as int),
                final_sum == pn_acc(blocks@, bpr, row as int, x@, xoff as int, (8 * col + sub_blk) as nat),
            decreases 8 - sub_blk,
        {
            let micro_scale = w_super.scales[sub_blk] as i32;
            let micro_sum = pn_dot_exec(&w_super.blocks[sub_blk], x, xoff + col * 2048 + sub_blk * 256);
            let term = scaled_term(micro_sum, micro_scale);
            proof {
                let t = 8 * col + sub_blk;
                assert(t / 8 == col && t % 8 == sub_blk);
                assert(term == pn_term(blocks@, bpr, row as int, x@, xoff as int, t as int));
                assert(8 * col + sub_blk + 1 <= 8 * bpr);
                let n1 = (t + 1) as nat;
                assert(i32::MIN <= pn_acc(blocks@, bpr, row as int, x@, xoff as int, n1) <= i32::MAX);
            }
            final_sum = final_sum + term;
            sub_blk = sub_blk + 1;
        }
        col = col + 1;
    }
    assert(-0x4000_0000_0000_0000 <= (final_sum as int) * (scale as int) <= 0x4000_0000_0000_0000) by (nonlinear_arith)
        requires i32::MIN <= final_sum <= i32::MAX, i32::MIN <= scale <= i32::MAX;
    let wide: i64 = (final_sum as i64) * (scale as i64);
    let q: i64 = wide / 65536;
    let q2: i64 = if wide % 65536 != 0 && wide < 0 { q - 1 } else { q };
    assert(q2 as int == (wide as int) / 65536);
    #[verifier::truncate] (q2 as i32)
}

/// The value of a row as the AVX2 GEMV kernel computes it: positive-minus-negative weights
/// over all activations (no mask), per block the sum times the block's scale divided by
/// 256, then times the row's scale divided by 65536.
pub fn avx2_gemv_row_value(row: usize, blocks: &[Vec101SuperBlock], blocks_per_row: usize, x: &[i8],
    scale: i32) -> (r: i32)
    requires
        (row + 1) * blocks_per_row <= blocks.len(),
        blocks_per_row * 2048 <= x.len(),
        pn_fits(blocks@, blocks_per_row as int, row as int, x@, 0),
    ensures
        r == pn_value(blocks@, blocks_per_row as int, row as int, x@, 0, scale),
{
    pn_row_value(row, blocks, blocks_per_row, x, 0, scale)
}

/// Adds the AVX2 GEMV kernel's value of row `row` into `out[row]` (without the
/// liquid-network step); nothing happens for rows of no blocks.
pub fn process_row_avx2_gemv(row: usize, blocks: &[Vec101SuperBlock], blocks_per_row: usize, x: &[i8],
    scales: &[i32], out: &mut [i32])
    requires
        row < scales@.len(),
        row < old(out)@.len(),
        (row + 1) * blocks_per_row <= blocks.len(),
        blocks_per_row * 2048 <= x.len(),
        pn_fits(blocks@, blocks_per_row as int, row as int, x@, 0),
        blocks_per_row > 0 ==> i32::MIN <= old(out)@[row as int]
            + pn_value(blocks@, blocks_per_row as int, row as int, x@, 0, scales@[row as int]) <= i32::MAX,
    ensures
        blocks_per_row == 0 ==> final(out)@ == old(out)@,
        blocks_per_row > 0 ==> final(out)@ == old(out)@.update(row as int, (old(out)@[row as int]
            + pn_value(blocks@, blocks_per_row as int, row as int, x@, 0, scales@[row as int])) as i32),
{
    if blocks_per_row == 0 {
        return;
    }
    let v = avx2_gemv_row_value(row, blocks, blocks_per_row, x, scales[row]);
    out[row] = out[row] + v;
}

/// The NEON GEMM kernel (without the liquid-network step): activations row-major, batch
/// entry `b` at `x[b * blocks_per_row * 2048..]`; for each `b` below `batch_size` the row's
/// positive-minus-negative value against them is added to `out[b * num_rows + row]`.
/// Nothing happens for rows of no blocks. `padded_batch` is the transposed layout's
/// width, which this layout does not use.
pub fn process_row_neon_gemm(row: usize, blocks: &[Vec101SuperBlock], blocks_per_row: usize, x_t: &[i8],
    padded_batch: usize, batch_size: usize, num_rows: usize, scales: &[i32], out: &mut [i32])
    requires
        row < scales.len(),
        row < num_rows,
        (row + 1) * blocks_per_row <= blocks.len(),
        blocks_per_row * 2048 <= usize::MAX,
        batch_size * (blocks_per_row * 2048) <= x_t.len(),
        batch_size * num_rows <= old(out)@.len(),
        forall|b: int| 0 <= b < batch_size ==> #[trigger] pn_fits(blocks@, blocks_per_row as int, row as int, x_t@,
            b * (blocks_per_row * 2048)),
        blocks_per_row > 0 ==> forall|b: int| 0 <= b < batch_size ==> i32::MIN <= #[trigger] old(out)@[b * num_rows + row]
            + pn_value(blocks@, blocks_per_row as int, row as int, x_t@, b * (blocks_per_row * 2048), scales@[row as int])
            <= i32::MAX,
    ensures
        final(out)@.len() == old(out)@.len(),
        blocks_per_row == 0 ==> final(out)@ == old(out)@,
        blocks_per_row > 0 ==> forall|b: int| 0 <= b < batch_size ==> #[trigger] final(out)@[b * num_rows + row]
            == old(out)@[b * num_rows + row]
            + pn_value(blocks@, blocks_per_row as int, row as int, x_t@, b * (blocks_per_row * 2048), scales@[row as int]),
        blocks_per_row > 0 ==> forall|i: int| 0 <= i < old(out)@.len() && (i % (num_rows as int) != row || i / (num_rows as int) >= batch_size)
            ==> #[trigger] final(out)@[i] == old(out)@[i],
{
    if blocks_per_row == 0 {
        return;
    }
    let in_features = blocks_per_row * 2048;
    let scale = scales[row];
    let mut b: usize = 0;
    while b < batch_size
        invariant
            0 < blocks_per_row,
            b <= batch_size,
            row < num_rows,
            row < scales.len(),
            scale == scales@[row as int],
            in_features == blocks_per_row * 2048,
            (row + 1) * blocks_per_row <= blocks.len(),
            batch_size * in_features <= x_t.len(),
            batch_size * num_rows <= old(out)@.len(),
            out@.len() == old(out)@.len(),
            forall|c: int| 0 <= c < batch_size ==> #[trigger] pn_fits(blocks@, blocks_per_row as int, row as int, x_t@,
                c * (blocks_per_row * 2048)),
            forall|c: int| 0 <= c < batch_size ==> i32::MIN <= #[trigger] old(out)@[c * num_rows + row]
                + pn_value(blocks@, blocks_per_row as int, row as int, x_t@, c * (blocks_per_row * 2048), scale)
                <= i32::MAX,
            forall|c: int| 0 <= c < b ==> #[trigger] out@[c * num_rows + row] == old(out)@[c * num_rows + row]
                + pn_value(blocks@, blocks_per_row as int, row as int, x_t@, c * (blocks_per_row * 2048), scale),
            forall|i: int| 0 <= i < old(out)@.len() && (i % (num_rows as int) != row || i / (num_rows as int) >= b)
                ==> #[trigger] out@[i] == old(out)@[i],
        decreases batch_size - b,
    {
        assert(b * in_features + in_features <= batch_size * in_features) by (nonlinear_arith)
            requires b < batch_size;
        assert(b * num_rows + row < batch_size * num_rows) by (nonlinear_arith)
            requires b < batch_size, row < num_rows;
        let xoff = b * in_features;
        assert(pn_fits(blocks@, blocks_per_row as int, row as int, x_t@, b * (blocks_per_row * 2048)));
        let v = pn_row_value(row, blocks, blocks_per_row, x_t, xoff, scale);
        let n_out = out.len();
        assert(b * num_rows + row < n_out);
        let idx = b * num_rows + row;
        proof {
            let bi = b as int;
            assert(i32::MIN <= old(out)@[bi * num_rows + row]
                + pn_value(blocks@, blocks_per_row as int, row as int, x_t@, bi * (blocks_per_row * 2048), scale)
                <= i32::MAX);
            assert(out@[idx as int] == old(out)@[idx as int]) by {
                lemma_div_mod_row(bi, row as int, num_rows as int);
            }
        }
        let ghost before = out@;
        out[idx] = out[idx] + v;
        proof {
            assert forall|c: int| 0 <= c < b + 1 implies #[trigger] out@[c * num_rows + row] == old(out)@[c * num_rows + row]
                + pn_value(blocks@, blocks_per_row as int, row as int, x_t@, c * (blocks_per_row * 2048), scale) by {
                if c < b {
                    lemma_row_slots_differ(c, b as int, row as int, num_rows as int);
                    assert(out@[c * num_rows + row] == before[c * num_rows + row]);
                } else {
                    assert(c * num_rows + row == idx);
                    assert(out@[idx as int] == before[idx as int] + v);
                    assert(xoff as int == c * (blocks_per_row * 2048));
                }
            }
            assert forall|i: int| 0 <= i < old(out)@.len() && (i % (num_rows as int) != row || i / (num_rows as int) >= b + 1)
                implies #[trigger] out@[i] == old(out)@[i] by {
                lemma_div_mod_row(b as int, row as int, num_rows as int);
                if i == idx {
                    assert(false);
                }
            }
        }
        b = b + 1;
    }
}

/// Slot `b * n + row` (with `row < n`) lies in batch `b` at row `row`.
proof fn lemma_div_mod_row(b: int, row: int, n: int)
    requires
        b >= 0,
        0 <= row < n,
    ensures
        (b * n + row) / n == b,
        (b * n + row) % n == row,
{
    vstd::arithmetic::div_mod::lemma_fundamental_div_mod_converse(b * n + row, n, b, row);
}

/// Different batch entries use different slots.
proof fn lemma_row_slots_differ(c: int, b: int, row: int, n: int)
    requires
        0 <= c < b,
        0 <= row < n,
    ensures
        c * n + row < b * n + row,
{
    assert(c * n < b * n) by (nonlinear_arith)
        requires c < b, n > 0;
}

/// The GEMV entry point: the row kernel for this library's target, the scalar one.
pub fn process_row_gemv_safe(row: usize, blocks: &[Vec101SuperBlock], blocks_per_row: usize,
    x: &[i8], x_mask: &[u64], scales: &[i32], out: &mut [i32])
    requires
        row < scales@.len(),
        row < old(out)@.len(),
        (row + 1) * blocks_per_row <= blocks.len(),
        blocks_per_row * 2048 <= x.len(),
        blocks_per_row * 32 <= x_mask.len(),
        row_fits(blocks@, blocks_per_row as int, row as int, x@, x_mask@),
        blocks_per_row > 0 ==> i32::MIN <= old(out)@[row as int]
            + row_value(blocks@, blocks_per_row as int, row as int, x@, x_mask@, scales@[row as int]) <= i32::MAX,
    ensures
        blocks_per_row == 0 ==> final(out)@ == old(out)@,
        blocks_per_row > 0 ==> final(out)@ == old(out)@.update(row as int, (old(out)@[row as int]
            + row_value(blocks@, blocks_per_row as int, row as int, x@, x_mask@, scales@[row as int])) as i32),
{
    process_row_scalar_gemv(row, blocks, blocks_per_row, x, x_mask, scales, out)
}

/// The GEMM entry point: the row kernel for this library's target, the scalar one.
pub fn process_row_gemm_safe(row: usize, blocks: &[Vec101SuperBlock], blocks_per_row: usize,
    x_t: &[i8], x_mask: &[u64], padded_batch: usize, batch_size: usize, num_rows: usize,
    scales: &[i32], row_sums: &mut [i32], out: &mut [i32])
    requires
        row < scales.len(),
        row < num_rows,
        (row + 1) * blocks_per_row <= blocks.len(),
        blocks_per_row * 32 <= x_mask.len(),
        blocks_per_row * 2048 <= usize::MAX,
        gemm_reads_fit(blocks@, blocks_per_row as int, row as int, x_mask@, padded_batch as int, batch_size as int,
            x_t.len() as int),
        batch_size <= old(row_sums)@.len(),
        batch_size * num_rows <= old(out)@.len(),
        batched_fits(blocks@, blocks_per_row as int, row as int, x_t@, x_mask@, padded_batch as int, batch_size as int),
        blocks_per_row > 0 ==> forall|b: int| 0 <= b < batch_size ==> i32::MIN <= #[trigger] old(out)@[b * num_rows + row]
            + batched_value(blocks@, blocks_per_row as int, row as int, x_t@, x_mask@, padded_batch as int, b, scales@[row as int])
            <= i32::MAX,
    ensures
        final(out)@.len() == old(out)@.len(),
        blocks_per_row == 0 ==> final(out)@ == old(out)@,
        blocks_per_row > 0 ==> forall|b: int| 0 <= b < batch_size ==> #[trigger] final(out)@[b * num_rows + row]
            == old(out)@[b * num_rows + row]
            + batched_value(blocks@, blocks_per_row as int, row as int, x_t@, x_mask@, padded_batch as int, b, scales@[row as int]),
        blocks_per_row > 0 ==> forall|i: int| 0 <= i < old(out)@.len() && (i % (num_rows as int) != row || i / (num_rows as int) >= batch_size)
            ==> #[trigger] final(out)@[i] == old(out)@[i],
{
    process_row_scalar_gemm(row, blocks, blocks_per_row, x_t, x_mask, padded_batch, batch_size, num_rows, scales,
        row_sums, out)
}

} // verus!
