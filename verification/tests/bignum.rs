use no_std_tool::bignum::u256::{mul_u64, U256};

fn u(v: u64) -> U256 {
    U256::from_u64(v)
}

#[test]
fn mod_pow_small_exact_values() {
    assert_eq!(U256::mod_pow(u(4), u(13), u(497)), u(445));
    assert_eq!(U256::mod_pow(u(2), u(10), u(1000)), u(24));
    assert_eq!(U256::mod_pow(u(3), u(0), u(7)), u(1));
    assert_eq!(U256::mod_pow(u(5), u(3), u(1)), u(0));
    // even modulus
    assert_eq!(U256::mod_pow(u(3), u(5), u(16)), u(3));
}

#[test]
fn mod_pow_word_sized_odd_modulus() {
    // 2^(p-1) = 1 mod p for the prime p = 1000003 (Fermat)
    let p = 1_000_003u64;
    assert_eq!(U256::mod_pow(u(2), u(p - 1), u(p)), u(1));
    // 2^64 mod (2^61 - 1) = 8
    let m = (1u64 << 61) - 1;
    assert_eq!(U256::mod_pow(u(2), u(64), u(m)), u(8));
}

#[test]
fn mod_pow_modulus_above_2_255() {
    // m = 2^256 - 189 (odd, above 2^255); 2^256 mod m = 189
    let m = U256([u64::MAX - 188, u64::MAX, u64::MAX, u64::MAX]);
    let r = U256::mod_pow(u(2), u(256), m);
    assert_eq!(r, u(189));
    // even modulus above 2^255: 2^255 mod (2^256 - 2) = 2^255
    let e = U256([u64::MAX - 1, u64::MAX, u64::MAX, u64::MAX]);
    let r = U256::mod_pow(u(2), u(255), e);
    assert_eq!(r, U256([0, 0, 0, 1u64 << 63]));
}

#[test]
fn miller_rabin_verdicts() {
    let bases = [2u64, 3, 5, 7, 11, 13, 17, 19, 23, 29, 31, 37];
    assert!(!u(0).is_probably_prime(&bases));
    assert!(!u(1).is_probably_prime(&bases));
    assert!(u(2).is_probably_prime(&bases));
    assert!(u(3).is_probably_prime(&bases));
    assert!(!u(4).is_probably_prime(&bases));
    assert!(u(97).is_probably_prime(&bases));
    assert!(!u(561).is_probably_prime(&bases)); // Carmichael number
    assert!(u(1_000_003).is_probably_prime(&bases));
    assert!(!u(1_000_001).is_probably_prime(&bases));
    // 2^61 - 1 is prime
    assert!(u((1u64 << 61) - 1).is_probably_prime(&bases));
    // bases not below n are skipped
    assert!(u(5).is_probably_prime(&[5, 7, 11]));
}

#[test]
fn arithmetic_operators_wrap_at_2_256() {
    let max = U256([u64::MAX; 4]);
    assert_eq!(max + u(1), u(0));
    assert_eq!(u(0) - u(1), max);
    assert_eq!(u(1 << 32) * u(1 << 32), U256([0, 1, 0, 0]));
    assert_eq!(max * max, u(1));
    assert_eq!(u(100) / u(7), u(14));
    assert_eq!(u(100) % u(7), u(2));
    let (q, r) = U256([0, 1, 0, 0]).div_rem(u(3));
    assert_eq!(q, u(6148914691236517205));
    assert_eq!(r, u(1));
}

#[test]
fn overflowing_and_shifts() {
    let max = U256([u64::MAX; 4]);
    assert_eq!(max.overflowing_add(u(2)), (u(1), true));
    assert_eq!(u(1).overflowing_sub(u(2)), (max, true));
    assert_eq!(u(5).overflowing_sub(u(2)), (u(3), false));
    assert_eq!(U256([0, 0, 0, 1u64 << 63]).shl1(), u(0));
    assert_eq!(u(1 << 63).shl1(), U256([0, 1, 0, 0]));
    assert_eq!(U256([0, 1, 0, 0]).shr1(), u(1 << 63));
    assert!(u(4).is_even());
    assert!(!u(5).is_even());
    assert!(u(0).is_zero());
    assert_eq!(mul_u64(u64::MAX, 2), (u64::MAX - 1, 1));
}

#[test]
fn leading_zeros_counts_from_the_top() {
    assert_eq!(u(0).leading_zeros(), 256);
    assert_eq!(u(1).leading_zeros(), 255);
    assert_eq!(U256([0, 0, 0, 1u64 << 63]).leading_zeros(), 0);
    assert_eq!(U256([0, 1, 0, 0]).leading_zeros(), 191);
}

#[test]
fn from_hex_str_parses_and_refuses() {
    assert_eq!(U256::from_hex_str("ff"), Some(u(255)));
    assert_eq!(U256::from_hex_str("0x10"), Some(u(16)));
    assert_eq!(U256::from_hex_str("0x0x1F"), Some(u(31)));
    assert_eq!(U256::from_hex_str("10000000000000000"), Some(U256([0, 1, 0, 0])));
    assert_eq!(U256::from_hex_str(""), None);
    assert_eq!(U256::from_hex_str("0x"), None);
    assert_eq!(U256::from_hex_str("12g4"), None);
    let max64 = "f".repeat(64);
    assert_eq!(U256::from_hex_str(&max64), Some(U256([u64::MAX; 4])));
    let too_long = "1".repeat(65);
    assert_eq!(U256::from_hex_str(&too_long), None);
}

#[test]
fn montgomery_pieces() {
    let n = u(1_000_003);
    let inv = n.inv_word();
    assert_eq!(1_000_003u64.wrapping_mul(inv), u64::MAX);
    // reduce 5 * 2^256: the result times 2^256 is 5 * 2^256 modulo n, so it is 5
    let t = [0u64, 0, 0, 0, 5, 0, 0, 0];
    assert_eq!(U256::mont_reduce(t, &n, inv), u(5));
    let w = u(3).mul_wide(U256([0, 0, 0, 1u64 << 63]));
    assert_eq!(w, [0, 0, 0, 1u64 << 63, 1, 0, 0, 0]);
}

#[test]
fn hex_digits_without_leading_zeros() {
    let s = |v: U256| -> String { v.hex_digits().into_iter().collect() };
    assert_eq!(s(u(0)), "0");
    assert_eq!(s(u(255)), "ff");
    assert_eq!(s(U256([0, 1, 0, 0])), "10000000000000000");
    assert_eq!(s(U256([u64::MAX; 4])), "f".repeat(64));
    let x = U256::from_hex_str("0x1234abcd00000000000000000000000000ff").unwrap();
    assert_eq!(s(x), "1234abcd00000000000000000000000000ff");
}

#[test]
fn add_and_sub_undo_each_other() {
    let a = U256([u64::MAX, 5, 0, u64::MAX]);
    let b = U256([7, u64::MAX, 9, 3]);
    assert_eq!((a + b) - b, a);
    assert_eq!((a - b) + b, a);
}

#[test]
fn primes_pass_any_nonzero_bases() {
    let p = u(1_000_003);
    assert!(p.is_probably_prime(&[1, 2, 999_999, 1_000_002, 1_000_003, u64::MAX]));
    assert!(u(7).is_probably_prime(&[1, 2, 3, 4, 5, 6]));
    // a base of 0 is not skipped and rejects even a prime
    assert!(!u(7).is_probably_prime(&[0]));
}

#[test]
fn mont_reduce_takes_any_input_without_failing() {
    let t = [u64::MAX; 8];
    let _ = U256::mont_reduce(t, &u(0), 0);
    let _ = U256::mont_reduce(t, &u(7), 12345);
    // with the constant of n = 7: 7 * n0_inv == -1 mod 2^64
    let n0_inv = 0x6db6db6db6db6db7u64.wrapping_neg();
    assert_eq!(7u64.wrapping_mul(n0_inv), u64::MAX);
    let r = U256::mont_reduce([0, 0, 0, 0, 3, 0, 0, 0], &u(7), n0_inv);
    // 3 * 2^256 reduced by 2^256 is 3
    assert_eq!(r, u(3));
}
