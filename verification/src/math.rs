use vstd::prelude::*;
use vstd::arithmetic::power2::*;
use vstd::arithmetic::div_mod::lemma_div_is_ordered;
use vstd::bits::*;
use vstd::std_specs::bits::*;

verus! {

/// Shift of the Q16.16 fixed-point format.
pub const FIXED_POINT_SHIFT: i32 = 16;

/// 1.0 in Q16.16.
pub const FIXED_POINT_ONE: i32 = 65536;

proof fn lemma_i64_shr16(y: i64)
    ensures
        (y >> 16u64) as int == (y as int) / 65536,
{
    let q = y >> 16u64;
    assert(q * 65536 <= y && y < q * 65536 + 65536) by (bit_vector)
        requires q == y >> 16u64;
}

proof fn lemma_i32_shr16(y: i32)
    ensures
        (y >> 16u32) as int == (y as int) / 65536,
        (y & 65535i32) as int == (y as int) % 65536,
{
    let q = y >> 16u32;
    let m = y & 65535i32;
    assert(q * 65536 + m == y && 0 <= m < 65536) by (bit_vector)
        requires q == y >> 16u32, m == y & 65535i32;
}


/// The Q16.16 approximation of exp(x) for x in Q16.16: exp(x) = 2^(x log2 e),
/// with log2 e taken as 94548 / 65536 and 2^f taken as 1 + f on the fractional
/// part; `Some(0)` below -10.0, `None` above 10.0.
pub open spec fn exp_q16_spec(x: int) -> Option<i32> {
    if x < -655360 {
        Some(0i32)
    } else if x > 655360 {
        None
    } else {
        let scaled = (x * 94548) / 65536;
        let int_part = scaled / 65536;
        let approx = 65536 + scaled % 65536;
        if int_part >= 0 {
            Some((approx * pow2(int_part as nat)) as i32)
        } else {
            Some((approx / (pow2((-int_part) as nat) as int)) as i32)
        }
    }
}

/// Approximates exp(x) where x is in Q16.16 fixed-point format.
/// Returns exp(x) in Q16.16 format, `None` on overflow (x above 10.0).
pub fn exp_approx_q16(x: i32) -> (r: Option<i32>)
    ensures
        r == exp_q16_spec(x as int),
{
    if x < -10 * FIXED_POINT_ONE {
        return Some(0);
    }
    if x > 10 * FIXED_POINT_ONE {
        return None;
    }
    let y: i64 = x as i64 * 94548;
    proof {
        lemma_i64_shr16(y);
    }
    let x_scaled: i32 = (y >> 16u64) as i32;
    proof {
        lemma_i32_shr16(x_scaled);
    }
    let int_part: i32 = x_scaled >> 16u32;
    let frac_part: i32 = x_scaled & 65535i32;
    let approx: u32 = (FIXED_POINT_ONE + frac_part) as u32;
    assert(-15 <= int_part <= 14);
    if int_part >= 0 {
        let sh: u32 = int_part as u32;
        proof {
            lemma2_to64();
            if sh < 14 {
                lemma_pow2_strictly_increases(sh as nat, 14);
            }
            assert(approx * pow2(sh as nat) <= 131071 * pow2(14)) by (nonlinear_arith)
                requires approx <= 131071, pow2(sh as nat) <= pow2(14);
            lemma_u32_shl_is_mul(approx, sh);
        }
        Some((approx << sh) as i32)
    } else {
        let sh: u32 = (-int_part) as u32;
        proof {
            lemma_u32_shr_is_div(approx, sh);
        }
        Some((approx >> sh) as i32)
    }
}

/// The largest k with 2^k <= x, for x >= 1.
pub open spec fn floor_log2(x: nat) -> nat
    decreases x,
{
    if x < 2 {
        0
    } else {
        1 + floor_log2(x / 2)
    }
}

pub proof fn lemma_floor_log2_bounds(x: nat)
    requires
        x >= 1,
    ensures
        pow2(floor_log2(x)) <= x < pow2(floor_log2(x) + 1),
    decreases x,
{
    if x >= 2 {
        lemma_floor_log2_bounds(x / 2);
        let k = floor_log2(x / 2);
        lemma_pow2_unfold(k + 1);
        lemma_pow2_unfold(k + 2);
    } else {
        lemma2_to64();
    }
}

pub proof fn lemma_floor_log2_unique(x: nat, k: nat)
    requires
        pow2(k) <= x < pow2(k + 1),
    ensures
        floor_log2(x) == k,
{
    lemma_pow2_pos(k);
    lemma_floor_log2_bounds(x);
    let m = floor_log2(x);
    if m < k {
        lemma_pow2_strictly_increases(m + 1, k + 1);
        if m + 1 < k {
            lemma_pow2_strictly_increases(m + 1, k);
        }
    } else if m > k {
        lemma_pow2_strictly_increases(k + 1, m + 1);
        if k + 1 < m {
            lemma_pow2_strictly_increases(k + 1, m);
        }
    }
}

/// 1 / sqrt(x) in Q16.16, with sqrt(x) taken as 2^(floor(log2 x) / 2).
pub open spec fn rsqrt_spec(x: nat) -> Option<u32> {
    if x == 0 {
        None
    } else {
        Some((65536nat / pow2(floor_log2(x) / 2)) as u32)
    }
}

/// The highest set bit of a nonzero `x` is bit `31 - x.leading_zeros()`.
pub proof fn lemma_floor_log2_leading_zeros(x: u32)
    requires
        x != 0,
    ensures
        x.leading_zeros() <= 31,
        floor_log2(x as nat) == 31 - x.leading_zeros(),
{
    axiom_u32_leading_zeros(x);
    let msb: u32 = (31 - x.leading_zeros()) as u32;
    assert((x >> msb) & 1u32 != 0u32);
    assert(x >> ((msb + 1) as u32) == 0u32);
    assert(x >= (1u32 << msb)) by (bit_vector)
        requires msb < 32, (x >> msb) & 1u32 != 0u32;
    assert(msb + 1 == 32 || x < (1u32 << ((msb + 1) as u32))) by (bit_vector)
        requires msb < 32, x >> ((msb + 1) as u32) == 0u32;
    lemma_u32_pow2_no_overflow(msb as nat);
    lemma_u32_shl_is_mul(1u32, msb);
    if msb < 31 {
        lemma_u32_pow2_no_overflow((msb + 1) as nat);
        lemma_u32_shl_is_mul(1u32, (msb + 1) as u32);
    } else {
        lemma2_to64();
    }
    lemma_floor_log2_unique(x as nat, msb as nat);
}

/// For nonzero `x`, 1/sqrt(x) is 65536 shifted right by half the index of the highest set
/// bit, `(31 - x.leading_zeros()) / 2`.
pub proof fn lemma_rsqrt_leading_zeros(x: u32)
    requires
        x != 0,
    ensures
        rsqrt_spec(x as nat) == Some(65536u32 >> (((31 - x.leading_zeros()) / 2) as u32)),
{
    lemma_floor_log2_leading_zeros(x);
    let k: u32 = ((31 - x.leading_zeros()) / 2) as u32;
    lemma_u32_shr_is_div(65536u32, k);
    lemma_u32_pow2_no_overflow(k as nat);
    lemma_pow2_pos(k as nat);
}

/// Approximates 1 / sqrt(x); the result is in Q16.16 format, `None` if x is 0.
pub fn rsqrt_approx_i32(x: u32) -> (r: Option<u32>)
    ensures
        r == rsqrt_spec(x as nat),
{
    if x == 0 {
        return None;
    }
    let lz = x.leading_zeros();
    proof {
        lemma_floor_log2_leading_zeros(x);
    }
    let msb: u32 = 31 - lz;
    let half: u32 = msb / 2;
    proof {
        lemma_u32_pow2_no_overflow(half as nat);
        lemma_u32_shl_is_mul(1u32, half);
    }
    let sqrt_approx: u32 = 1u32 << half;
    let one_q16: u32 = 65536;
    Some(one_q16 / sqrt_approx)
}

/// Division rounding toward zero, as Rust's `/` on integers.
pub open spec fn trunc_div(a: int, b: int) -> int {
    if a >= 0 {
        a / b
    } else {
        -((-a) / b)
    }
}

/// The SiLU approximation x / (1 + exp(-x)) on i8 values, through Q16.16.
pub open spec fn silu_spec(x: int) -> Option<i8> {
    match exp_q16_spec(-x * 65536) {
        None => None,
        Some(e) => {
            let q = trunc_div(x * 65536 * 65536, 65536 + e);
            let r = q / 65536;
            Some((if r < -128 { -128 } else if r > 127 { 127 } else { r }) as i8)
        },
    }
}

/// Approximates SiLU (Swish) activation: x * sigmoid(x) = x / (1 + exp(-x)).
/// Takes and returns i8; `None` when exp(-x) overflows.
pub fn silu_approx_i8(x: i8) -> (r: Option<i8>)
    ensures
        r == silu_spec(x as int),
{
    let x_q16: i32 = (x as i32) * FIXED_POINT_ONE;
    let exp_neg_x = match exp_approx_q16(-x_q16) {
        Some(e) => e,
        None => {
            return None;
        },
    };
    proof {
        exp_range(-x_q16 as int);
    }
    let denom: i32 = FIXED_POINT_ONE + exp_neg_x;
    let result: i64 = (x_q16 as i64 * FIXED_POINT_ONE as i64) / denom as i64;
    assert(result == trunc_div(x * 65536 * 65536, 65536 + exp_neg_x));
    assert(-8388608 <= result <= 8388608) by (nonlinear_arith)
        requires
            result == trunc_div(x * 65536 * 65536, denom as int),
            denom >= 65536,
            -128 <= x <= 127;
    proof {
        lemma_i64_shr16(result);
    }
    let res_i32: i32 = (result >> 16u64) as i32;
    let clamped: i32 = if res_i32 < -128 {
        -128
    } else if res_i32 > 127 {
        127
    } else {
        res_i32
    };
    Some(clamped as i8)
}

/// What the exponential approximation returns lies in [0, 2^31 - 65536).
proof fn exp_range(x: int)
    requires
        exp_q16_spec(x) is Some,
    ensures
        0 <= exp_q16_spec(x)->0 < 2147418112,
{
    if -655360 <= x <= 655360 {
        let scaled = (x * 94548) / 65536;
        let int_part = scaled / 65536;
        let approx = 65536 + scaled % 65536;
        assert(-945480 <= scaled <= 945480);
        assert(-15 <= int_part <= 14);
        lemma2_to64();
        if int_part >= 0 {
            lemma_pow2_pos(int_part as nat);
            if int_part < 14 {
                if int_part < 13 {
                    lemma_pow2_strictly_increases(int_part as nat, 13);
                }
                assert(approx * pow2(int_part as nat) <= 131071 * pow2(13)) by (nonlinear_arith)
                    requires approx <= 131071, approx >= 0, pow2(int_part as nat) <= pow2(13);
            } else {
                assert(approx <= 93512);
                assert(approx * pow2(14) <= 93512 * pow2(14)) by (nonlinear_arith)
                    requires approx <= 93512;
            }
            assert(approx * pow2(int_part as nat) >= 0) by (nonlinear_arith)
                requires approx >= 0, pow2(int_part as nat) >= 0;
        } else {
            lemma_pow2_pos((-int_part) as nat);
            assert(approx / (pow2((-int_part) as nat) as int) <= approx) by (nonlinear_arith)
                requires approx >= 0, pow2((-int_part) as nat) >= 1;
        }
    }
}


proof fn lemma_pow2_le(a: nat, b: nat)
    requires
        a <= b,
    ensures
        pow2(a) <= pow2(b),
{
    if a < b {
        lemma_pow2_strictly_increases(a, b);
    }
}

/// `floor_log2` does not decrease.
proof fn lemma_floor_log2_monotone(x: nat, y: nat)
    requires
        1 <= x <= y,
    ensures
        floor_log2(x) <= floor_log2(y),
{
    lemma_floor_log2_bounds(x);
    lemma_floor_log2_bounds(y);
    if floor_log2(x) > floor_log2(y) {
        lemma_pow2_le(floor_log2(y) + 1, floor_log2(x));
    }
}

/// The 1/sqrt approximation does not increase with its argument.
pub proof fn lemma_rsqrt_nonincreasing(x: nat, y: nat)
    requires
        1 <= x <= y,
        y <= u32::MAX,
    ensures
        rsqrt_spec(y)->0 <= rsqrt_spec(x)->0,
{
    lemma_floor_log2_monotone(x, y);
    let a = floor_log2(x) / 2;
    let b = floor_log2(y) / 2;
    lemma_pow2_le(a, b);
    lemma_pow2_pos(a);
    let pa = pow2(a) as int;
    let pb = pow2(b) as int;
    assert(65536int / pb <= 65536int / pa) by (nonlinear_arith)
        requires 0 < pa <= pb;
    lemma_pow2_pos(b);
    assert(65536int / pb <= 65536) by (nonlinear_arith)
        requires pb > 0;
    assert(65536int / pa <= 65536) by (nonlinear_arith)
        requires pa > 0;
}

/// SiLU keeps the sign of its argument and does not exceed it in size: between 0 and
/// `x` (inclusive) whenever it is defined.
pub proof fn lemma_silu_bounds(x: int)
    requires
        -128 <= x <= 127,
        silu_spec(x) is Some,
    ensures
        x >= 0 ==> 0 <= silu_spec(x)->0 <= x,
        x < 0 ==> x <= silu_spec(x)->0 <= 0,
{
    let e = exp_q16_spec(-x * 65536)->0 as int;
    exp_range(-x * 65536);
    let d = 65536 + e;
    let n = x * 65536 * 65536;
    let q = trunc_div(n, d);
    if x >= 0 {
        assert(0 <= n / d <= x * 65536) by (nonlinear_arith)
            requires n == x * 65536 * 65536, d >= 65536, x >= 0;
        assert(0 <= q / 65536 <= x);
    } else {
        assert(0 <= (-n) / d <= -x * 65536) by (nonlinear_arith)
            requires n == x * 65536 * 65536, d >= 65536, x < 0;
        assert(x * 65536 <= q <= 0);
        assert(x <= q / 65536 <= 0) by (nonlinear_arith)
            requires x * 65536 <= q <= 0;
    }
}


/// How SiLU rounds x / (1 + exp(-x)), with `e` the Q16.16 exponential of -x: for x >= 0
/// the result `r` is the largest integer with r (65536 + e) <= 65536 x; for -10 <= x < 0,
/// with `q` the quotient 2^32 (-x) / (65536 + e) rounded down, `r` is -q / 65536 rounded
/// down (so -r is q / 65536 rounded up).
pub proof fn lemma_silu_rounding(x: int)
    requires
        -10 <= x <= 127,
    ensures
        exp_q16_spec(-x * 65536) is Some,
        silu_spec(x) is Some,
        x >= 0 ==> ({
            let d = 65536 + exp_q16_spec(-x * 65536)->0 as int;
            let r = silu_spec(x)->0 as int;
            r * d <= x * 65536 < (r + 1) * d
        }),
        x < 0 ==> ({
            let d = 65536 + exp_q16_spec(-x * 65536)->0 as int;
            let r = silu_spec(x)->0 as int;
            let q = ((-x) * 4294967296) / d;
            (-r - 1) * 65536 < q <= -r * 65536
        }),
{
    assert(-x * 65536 <= 655360);
    let e = exp_q16_spec(-x * 65536)->0 as int;
    exp_range(-x * 65536);
    let d = 65536 + e;
    let n = x * 65536 * 65536;
    let q = trunc_div(n, d);
    lemma_silu_bounds(x);
    vstd::arithmetic::div_mod::lemma_fundamental_div_mod(q, 65536);
    let r = q / 65536;
    if x >= 0 {
        vstd::arithmetic::div_mod::lemma_fundamental_div_mod(n, d);
        vstd::arithmetic::div_mod::lemma_mod_bound(n, d);
        assert(q == n / d);
        assert(q * d <= n < (q + 1) * d) by (nonlinear_arith)
            requires n == d * (n / d) + n % d, 0 <= n % d < d, q == n / d;
        assert(r * 65536 <= q < (r + 1) * 65536);
        assert(r * d <= x * 65536 < (r + 1) * d) by (nonlinear_arith)
            requires q * d <= n, n < (q + 1) * d, r * 65536 <= q, q < (r + 1) * 65536, n == x * 65536 * 65536,
                d > 0;
    } else {
        let bq = ((-x) * 4294967296) / d;
        assert(-n == (-x) * 4294967296);
        assert(q == -bq);
        assert(r * 65536 <= -bq < (r + 1) * 65536);
    }
}

/// Once exp(-x) approximates to 0 (x at least 11), SiLU is the identity.
pub proof fn lemma_silu_saturates(x: int)
    requires
        11 <= x <= 127,
    ensures
        silu_spec(x) == Some(x as i8),
{
    assert(-x * 65536 < -655360);
    assert(trunc_div(x * 65536 * 65536, 65536) == x * 65536) by {
        vstd::arithmetic::div_mod::lemma_div_multiples_vanish(x * 65536, 65536);
        assert(x * 65536 * 65536 == 65536 * (x * 65536)) by (nonlinear_arith);
    }
    vstd::arithmetic::div_mod::lemma_div_multiples_vanish(x, 65536);
    assert(x * 65536 == 65536 * x);
}

/// The Q16.16 value the exponential approximation gives for the scaled argument `s`
/// (`x log2 e` in Q16.16): `1 + f` times 2 to the integer part.
pub open spec fn exp_scaled(s: int) -> int {
    let ip = s / 65536;
    let approx = 65536 + s % 65536;
    if ip >= 0 {
        approx * pow2(ip as nat)
    } else {
        approx / (pow2((-ip) as nat) as int)
    }
}

/// With integer part `ip`, the value lies in [2^(16 + ip), 2^(17 + ip)).
proof fn lemma_exp_scaled_bounds(s: int)
    requires
        -15 * 65536 <= s < 15 * 65536,
    ensures
        -15 <= s / 65536 <= 14,
        pow2((16 + s / 65536) as nat) <= exp_scaled(s) < pow2((17 + s / 65536) as nat),
{
    let ip = s / 65536;
    let approx = 65536 + s % 65536;
    lemma2_to64();
    if ip >= 0 {
        let p = pow2(ip as nat) as int;
        lemma_pow2_pos(ip as nat);
        lemma_pow2_adds(16, ip as nat);
        lemma_pow2_adds(17, ip as nat);
        assert(65536 * p <= approx * p < 131072 * p) by (nonlinear_arith)
            requires 65536 <= approx < 131072, p > 0;
    } else {
        let m = (-ip) as nat;
        let p = pow2(m) as int;
        lemma_pow2_pos(m);
        lemma_pow2_adds((16 - m) as nat, m);
        lemma_pow2_adds((17 - m) as nat, m);
        let lo = pow2((16 - m) as nat) as int;
        let hi = pow2((17 - m) as nat) as int;
        assert(lo * p == 65536 && hi * p == 131072);
        assert(lo <= approx / p < hi) by (nonlinear_arith)
            requires lo * p == 65536, hi * p == 131072, 65536 <= approx < 131072, p > 0;
    }
}

proof fn lemma_exp_scaled_monotone(s: int, t: int)
    requires
        -15 * 65536 <= s <= t < 15 * 65536,
    ensures
        exp_scaled(s) <= exp_scaled(t),
{
    let i = s / 65536;
    let j = t / 65536;
    lemma_div_is_ordered(s, t, 65536);
    lemma_exp_scaled_bounds(s);
    lemma_exp_scaled_bounds(t);
    if i == j {
        let a = 65536 + s % 65536;
        let b = 65536 + t % 65536;
        assert(a <= b);
        if i >= 0 {
            let p = pow2(i as nat) as int;
            lemma_pow2_pos(i as nat);
            assert(a * p <= b * p) by (nonlinear_arith)
                requires a <= b, p > 0;
        } else {
            let p = pow2((-i) as nat) as int;
            lemma_pow2_pos((-i) as nat);
            lemma_div_is_ordered(a, b, p);
        }
    } else {
        lemma_pow2_le((17 + i) as nat, (16 + j) as nat);
    }
}

/// The exponential approximation is 2^(x log2 e) up to a factor below 2: with `k` the
/// integer part of x log2 e (x in Q16.16, log2 e taken as 94548 / 65536), exp(x) lies in
/// [2^k, 2^(k + 1)), that is [2^(16 + k), 2^(17 + k)) in Q16.16; and exp(0) is exactly 1.
pub proof fn lemma_exp_brackets(x: int)
    requires
        -655360 <= x <= 655360,
    ensures
        exp_q16_spec(x) is Some,
        pow2((16 + ((x * 94548) / 65536) / 65536) as nat) <= exp_q16_spec(x)->0,
        exp_q16_spec(x)->0 < pow2((17 + ((x * 94548) / 65536) / 65536) as nat),
        exp_q16_spec(0) == Some(65536i32),
{
    let s = (x * 94548) / 65536;
    assert(-61962977280 <= x * 94548 <= 61962977280) by (nonlinear_arith)
        requires -655360 <= x <= 655360;
    assert(-15 * 65536 <= s < 15 * 65536);
    lemma_exp_scaled_bounds(s);
    let k = s / 65536;
    lemma2_to64();
    lemma_pow2_le((17 + k) as nat, 31);
    lemma_pow2_pos((16 + k) as nat);
    assert(exp_scaled(s) < 0x8000_0000);
    assert(exp_q16_spec(x) == Some(exp_scaled(s) as i32));
    assert(exp_q16_spec(0) == Some(65536i32)) by {
        assert(pow2(0) == 1);
        assert((0int * 94548) / 65536 == 0);
        assert(0int / 65536 == 0 && 0int % 65536 == 0);
        assert(65536 * pow2(0) == 65536);
    }
}

/// The exponential approximation does not decrease: `x <= y` gives `exp(x) <= exp(y)`
/// wherever `exp(y)` is defined.
pub proof fn lemma_exp_monotone(x: int, y: int)
    requires
        x <= y,
        exp_q16_spec(y) is Some,
    ensures
        exp_q16_spec(x) is Some,
        exp_q16_spec(x)->0 <= exp_q16_spec(y)->0,
{
    exp_range(y);
    if x >= -655360 {
        let s = (x * 94548) / 65536;
        let t = (y * 94548) / 65536;
        assert(x * 94548 <= y * 94548) by (nonlinear_arith)
            requires x <= y;
        lemma_div_is_ordered(x * 94548, y * 94548, 65536);
        assert(-945480 <= s <= 945480);
        assert(-945480 <= t <= 945480);
        lemma_exp_scaled_bounds(s);
        lemma_exp_scaled_bounds(t);
        lemma_pow2_le((17 + s / 65536) as nat, 31);
        lemma_pow2_le((17 + t / 65536) as nat, 31);
        lemma2_to64();
        lemma_exp_scaled_monotone(s, t);
        assert(exp_q16_spec(x)->0 == exp_scaled(s));
        assert(exp_q16_spec(y)->0 == exp_scaled(t));
    }
}

} // verus!
