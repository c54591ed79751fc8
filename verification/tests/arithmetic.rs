use euler::{
    abs_diff, fizzbuzz_sum, gcd, is_prime, isqrt_ceil, largest_prime_factor, lcm, lcm_iter,
    p4_internal, p5_internal, p6_internal,
};

#[test]
fn fizzbuzz_sum_small_bounds() {
    assert_eq!(fizzbuzz_sum(0), 0);
    assert_eq!(fizzbuzz_sum(1), 0);
    assert_eq!(fizzbuzz_sum(3), 0);
    assert_eq!(fizzbuzz_sum(4), 3);
    assert_eq!(fizzbuzz_sum(6), 8);
    assert_eq!(fizzbuzz_sum(16), 60);
}

#[test]
fn fizzbuzz_sum_matches_a_direct_sum() {
    for n in 0..200u64 {
        let expected: u64 = (0..n).filter(|i| i % 3 == 0 || i % 5 == 0).sum();
        assert_eq!(fizzbuzz_sum(n), expected);
    }
}

#[test]
fn isqrt_ceil_exact_values() {
    assert_eq!(isqrt_ceil(0), 0);
    assert_eq!(isqrt_ceil(1), 1);
    assert_eq!(isqrt_ceil(2), 2);
    assert_eq!(isqrt_ceil(4), 2);
    assert_eq!(isqrt_ceil(5), 3);
    assert_eq!(isqrt_ceil(9), 3);
    assert_eq!(isqrt_ceil(10), 4);
    assert_eq!(isqrt_ceil(13195), 115);
    assert_eq!(isqrt_ceil(600851475143), 775147);
    assert_eq!(isqrt_ceil(18446744065119617025), 4294967295);
    assert_eq!(isqrt_ceil(18446744065119617026), 4294967296);
    assert_eq!(isqrt_ceil(u64::MAX), 4294967296);
}

#[test]
fn isqrt_ceil_is_the_least_root() {
    for n in 1..5000u64 {
        let r = isqrt_ceil(n);
        assert!(r * r >= n);
        assert!((r - 1) * (r - 1) < n);
    }
}

#[test]
fn is_prime_small_numbers() {
    let primes = [2u64, 3, 5, 7, 11, 13, 17, 19, 23, 29, 31, 37, 41, 43, 47];
    for n in 0..50u64 {
        assert_eq!(is_prime(n), primes.contains(&n));
    }
}

#[test]
fn is_prime_rejects_squares_of_primes() {
    assert!(!is_prime(4));
    assert!(!is_prime(9));
    assert!(!is_prime(25));
    assert!(!is_prime(49));
    assert!(!is_prime(6857 * 6857));
}

#[test]
fn is_prime_larger_numbers() {
    assert!(is_prime(6857));
    assert!(is_prime(104729));
    assert!(!is_prime(104729 * 2));
    assert!(is_prime(4294967291));
    assert!(!is_prime(4294967295));
}

#[test]
fn largest_prime_factor_looks_below_the_root() {
    assert_eq!(largest_prime_factor(8), 2);
    assert_eq!(largest_prime_factor(12), 3);
    assert_eq!(largest_prime_factor(14), 2);
    assert_eq!(largest_prime_factor(36), 3);
    assert_eq!(largest_prime_factor(1001), 13);
}

#[test]
fn gcd_values() {
    assert_eq!(gcd(0, 0), 0);
    assert_eq!(gcd(0, 7), 7);
    assert_eq!(gcd(7, 0), 7);
    assert_eq!(gcd(12, 18), 6);
    assert_eq!(gcd(18, 12), 6);
    assert_eq!(gcd(17, 5), 1);
    assert_eq!(gcd(u64::MAX, u64::MAX), u64::MAX);
    assert_eq!(gcd(600851475143, 6857), 6857);
}

#[test]
fn lcm_values() {
    assert_eq!(lcm(0, 5), 0);
    assert_eq!(lcm(5, 0), 0);
    assert_eq!(lcm(1, 1), 1);
    assert_eq!(lcm(4, 6), 12);
    assert_eq!(lcm(6, 4), 12);
    assert_eq!(lcm(7, 13), 91);
    assert_eq!(lcm(12252240, 19), 232792560);
    assert_eq!(lcm(4294967296, 4294967295), 18446744069414584320);
}

#[test]
fn gcd_times_lcm_is_the_product() {
    for a in 1..40u64 {
        for b in 1..40u64 {
            let g = gcd(a, b);
            let m = lcm(a, b);
            assert_eq!(a % g, 0);
            assert_eq!(b % g, 0);
            assert_eq!(m % a, 0);
            assert_eq!(m % b, 0);
            assert_eq!(g * m, a * b);
        }
    }
}

#[test]
fn lcm_iter_over_ranges() {
    assert_eq!(lcm_iter(1..2), 1);
    assert_eq!(lcm_iter(7..8), 7);
    assert_eq!(lcm_iter(1..11), 2520);
    assert_eq!(lcm_iter(4..7), 60);
    assert_eq!(lcm_iter(0..1), 0);
    assert_eq!(lcm_iter(0..5), 0);
    assert_eq!(lcm_iter(10..13), 660);
}

#[test]
fn smallest_multiple_small_bounds() {
    assert_eq!(p5_internal(1), 1);
    assert_eq!(p5_internal(2), 2);
    assert_eq!(p5_internal(3), 6);
    assert_eq!(p5_internal(4), 12);
    assert_eq!(p5_internal(6), 60);
    assert_eq!(p5_internal(42), 219060189739591200);
}

#[test]
fn smallest_multiple_is_divisible_and_least() {
    let n = 12u64;
    let r = p5_internal(n);
    assert_eq!(r, 27720);
    for k in 1..=n {
        assert_eq!(r % k, 0);
    }
    for m in 1..r {
        assert!((1..=n).any(|k| m % k != 0));
    }
}

#[test]
fn abs_diff_both_ways() {
    assert_eq!(abs_diff(3, 10), 7);
    assert_eq!(abs_diff(10, 3), 7);
    assert_eq!(abs_diff(5, 5), 0);
    assert_eq!(abs_diff(0, u64::MAX), u64::MAX);
    assert_eq!(abs_diff(u64::MAX, 0), u64::MAX);
}

#[test]
fn sum_square_gap_small_bounds() {
    assert_eq!(p6_internal(0), 0);
    assert_eq!(p6_internal(1), 0);
    assert_eq!(p6_internal(2), 4);
    assert_eq!(p6_internal(3), 22);
}

#[test]
fn sum_square_gap_at_the_largest_bound() {
    // The sum of 1..=92681 is 4294930221, whose square still fits in 64 bits.
    let n: u64 = 92681;
    let sum: u64 = n * (n + 1) / 2;
    let squares: u128 = (n as u128) * (n as u128 + 1) * (2 * n as u128 + 1) / 6;
    assert_eq!(p6_internal(n) as u128, (sum as u128) * (sum as u128) - squares);
}

#[test]
fn palindromic_product_of_one_digit_numbers() {
    assert_eq!(p4_internal(1), 9);
}
