use no_std_tool::vec101::{
    avx2_gemv_row_value, process_row_avx2_gemv, process_row_gemv_safe, process_row_neon_gemm, process_row_scalar_gemm,
    process_row_scalar_gemv, scalar_gemv_row_checked, scalar_gemv_row_value, vec101_block, Vec101SuperBlock,
};

fn super_block(pos0: u64, neg0: u64, scale0: i16) -> Vec101SuperBlock {
    let empty = vec101_block { w_pos_bits: [0; 4], w_neg_bits: [0; 4] };
    let mut blocks = [empty; 8];
    blocks[0] = vec101_block { w_pos_bits: [pos0, 0, 0, 0], w_neg_bits: [neg0, 0, 0, 0] };
    let mut scales = [0i16; 8];
    scales[0] = scale0;
    Vec101SuperBlock { scales, offsets: [0; 8], _padding: [0; 32], blocks }
}

fn activations() -> Vec<i8> {
    let mut x = vec![0i8; 2048];
    x[0] = 10;
    x[1] = 3;
    x[2] = 5;
    x
}

#[test]
fn gemv_row_adds_signed_activations() {
    // +x0 -x1 +x2 = 12, block scale 256 (times 256, over 256), row scale 65536 (one)
    let blocks = [super_block(0b101, 0b010, 256)];
    let x = activations();
    let mask = vec![u64::MAX; 32];
    assert_eq!(scalar_gemv_row_value(0, &blocks, 1, &x, &mask, 65536), 12);
    let mut out = [100i32];
    process_row_scalar_gemv(0, &blocks, 1, &x, &mask, &[65536], &mut out);
    assert_eq!(out, [112]);
    // the mask hides position 2
    let mut mask2 = mask.clone();
    mask2[0] = 0b011;
    assert_eq!(scalar_gemv_row_value(0, &blocks, 1, &x, &mask2, 65536), 7);
    // no blocks: nothing changes
    let mut out = [5i32];
    process_row_scalar_gemv(0, &blocks, 0, &x, &mask, &[65536], &mut out);
    assert_eq!(out, [5]);
}

#[test]
fn gemv_divisions_round_down() {
    // -x1 = -3 with block scale 1: -3 / 256 rounds down to -1; row scale 65536
    let blocks = [super_block(0, 0b010, 1)];
    let x = activations();
    let mask = vec![u64::MAX; 32];
    assert_eq!(scalar_gemv_row_value(0, &blocks, 1, &x, &mask, 65536), -1);
    // 12 with row scale 1: 12 / 65536 rounds down to 0
    let blocks = [super_block(0b101, 0b010, 256)];
    assert_eq!(scalar_gemv_row_value(0, &blocks, 1, &x, &mask, 1), 0);
    // a positive bit wins over a negative bit at the same position
    let blocks = [super_block(0b001, 0b001, 256)];
    assert_eq!(scalar_gemv_row_value(0, &blocks, 1, &x, &mask, 65536), 10);
}

#[test]
fn gemm_rows_for_each_batch_entry() {
    let blocks = [super_block(0b101, 0b010, 256)];
    let mask = vec![u64::MAX; 32];
    // two batch entries, features interleaved: x_t[f * 2 + b]
    let mut x_t = vec![0i8; 4096];
    x_t[0] = 10;
    x_t[2] = 3;
    x_t[4] = 5;
    x_t[1] = 1;
    x_t[3] = 1;
    x_t[5] = 1;
    let mut row_sums = [7i32; 3];
    let mut out = [100i32, 200];
    process_row_scalar_gemm(0, &blocks, 1, &x_t, &mask, 2, 2, 1, &[65536], &mut row_sums, &mut out);
    assert_eq!(out, [112, 201]);
    // the scratch ends with the last block's sums (empty block) and zeros beyond the batch
    assert_eq!(row_sums, [0, 0, 0]);
    // both bits set at one position cancel in the batched kernel
    let blocks = [super_block(0b001, 0b001, 256)];
    let mut out = [0i32, 0];
    process_row_scalar_gemm(0, &blocks, 1, &x_t, &mask, 2, 2, 1, &[65536], &mut row_sums, &mut out);
    assert_eq!(out, [0, 0]);
}

#[test]
fn gemm_reads_only_the_features_it_uses() {
    // features 0..3 are the only ones with weights: six activations cover them for two entries
    let blocks = [super_block(0b101, 0b010, 256)];
    let mask = vec![u64::MAX; 32];
    let x_t = vec![10i8, 1, 3, 1, 5, 1];
    let mut row_sums = [0i32; 2];
    let mut out = [0i32, 0];
    process_row_scalar_gemm(0, &blocks, 1, &x_t, &mask, 2, 2, 1, &[65536], &mut row_sums, &mut out);
    assert_eq!(out, [12, 1]);
}

#[test]
fn avx2_gemv_ignores_the_mask() {
    let blocks = [super_block(0b101, 0b010, 256)];
    let x = activations();
    assert_eq!(avx2_gemv_row_value(0, &blocks, 1, &x, 65536), 12);
    let mut out = [100i32];
    process_row_avx2_gemv(0, &blocks, 1, &x, &[65536], &mut out);
    assert_eq!(out, [112]);
    // a positive and a negative bit at one position cancel
    let blocks = [super_block(0b001, 0b001, 256)];
    assert_eq!(avx2_gemv_row_value(0, &blocks, 1, &x, 65536), 0);
    // -3 with block scale 1 rounds down to -1
    let blocks = [super_block(0, 0b010, 1)];
    assert_eq!(avx2_gemv_row_value(0, &blocks, 1, &x, 65536), -1);
}

#[test]
fn neon_gemm_reads_row_major_entries() {
    let blocks = [super_block(0b101, 0b010, 256)];
    let mut x = activations();
    x.extend_from_slice(&vec![0i8; 2048]);
    x[2048] = 1;
    x[2049] = 2;
    x[2050] = 3;
    let mut out = [100i32, 200];
    process_row_neon_gemm(0, &blocks, 1, &x, 0, 2, 1, &[65536], &mut out);
    assert_eq!(out, [112, 202]);
    // no blocks: nothing changes
    let mut out = [1i32, 2];
    process_row_neon_gemm(0, &blocks, 0, &x, 0, 2, 1, &[65536], &mut out);
    assert_eq!(out, [1, 2]);
}

#[test]
fn gemv_entry_point_and_checked_value() {
    let blocks = [super_block(0b101, 0b010, 256)];
    let x = activations();
    let mask = vec![u64::MAX; 32];
    let mut out = [100i32];
    process_row_gemv_safe(0, &blocks, 1, &x, &mask, &[65536], &mut out);
    assert_eq!(out, [112]);
    assert_eq!(scalar_gemv_row_checked(0, &blocks, 1, &x, &mask, 65536), Some(12));
    // seventy full blocks of 127s at the largest scale leave 32 bits
    let full = vec101_block { w_pos_bits: [u64::MAX; 4], w_neg_bits: [0; 4] };
    let big = Vec101SuperBlock { scales: [32767; 8], offsets: [0; 8], _padding: [0; 32], blocks: [full; 8] };
    let blocks = vec![big; 70];
    let x = vec![127i8; 70 * 2048];
    let mask = vec![u64::MAX; 70 * 32];
    assert_eq!(scalar_gemv_row_checked(0, &blocks, 70, &x, &mask, 65536), None);
}

#[test]
fn gemm_entry_point_runs_the_row_kernel() {
    let blocks = [super_block(0b101, 0b010, 256)];
    let mask = vec![u64::MAX; 32];
    let x_t = vec![10i8, 1, 3, 1, 5, 1];
    let mut row_sums = [0i32; 2];
    let mut out = [100i32, 200];
    no_std_tool::vec101::process_row_gemm_safe(0, &blocks, 1, &x_t, &mask, 2, 2, 1, &[65536], &mut row_sums, &mut out);
    assert_eq!(out, [112, 201]);
}

#[test]
fn gemm_checked_values_per_batch_entry() {
    let blocks = [super_block(0b101, 0b010, 256)];
    let mask = vec![u64::MAX; 32];
    let x_t = vec![10i8, 1, 3, 1, 5, 1];
    let mut row_sums = [0i32; 2];
    let values = no_std_tool::vec101::scalar_gemm_row_values(0, &blocks, 1, &x_t, &mask, 2, 2, 65536, &mut row_sums);
    assert_eq!(values, Some(vec![12, 1]));
    // row scale 1: 12 / 65536 and 1 / 65536 both round down to 0
    let values = no_std_tool::vec101::scalar_gemm_row_values(0, &blocks, 1, &x_t, &mask, 2, 2, 1, &mut row_sums);
    assert_eq!(values, Some(vec![0, 0]));
    // seventy full blocks of 127s at the largest scale leave 32 bits
    let full = vec101_block { w_pos_bits: [u64::MAX; 4], w_neg_bits: [0; 4] };
    let big = Vec101SuperBlock { scales: [32767; 8], offsets: [0; 8], _padding: [0; 32], blocks: [full; 8] };
    let blocks = vec![big; 70];
    let x_t = vec![127i8; 70 * 2048];
    let mask = vec![u64::MAX; 70 * 32];
    let mut row_sums = [0i32; 1];
    let values = no_std_tool::vec101::scalar_gemm_row_values(0, &blocks, 70, &x_t, &mask, 1, 1, 65536, &mut row_sums);
    assert_eq!(values, None);
}
