//! Square roots rounded up, primality by trial division, and the largest
//! prime factor below the square root.

use crate::divisibility::{
    divides, gcd_nat, lemma_coprime_divides, lemma_divides_multiple, lemma_divides_quotient,
    lemma_divisor_bounds, lemma_gcd_nat_is_gcd,
};
use vstd::pervasive::unreached;
use vstd::prelude::*;

verus! {

/// `r` is the square root of `n` rounded up: the least number whose square is
/// at least `n`.
pub open spec fn is_sqrt_ceil(n: nat, r: nat) -> bool {
    &&& n <= r * r
    &&& r > 0 ==> (r - 1) * (r - 1) < n
}

/// `n` is prime: at least two, and divisible by no number from two up to
/// `n - 1`.
pub open spec fn is_prime_number(n: nat) -> bool {
    &&& n >= 2
    &&& forall|d: nat| 2 <= d < n ==> !#[trigger] divides(d, n)
}

/// `p` is a prime that divides `n`.
pub open spec fn is_prime_factor(p: nat, n: nat) -> bool {
    is_prime_number(p) && divides(p, n)
}

/// `p` is the largest prime that divides `n`.
pub open spec fn is_largest_prime_factor(p: nat, n: nat) -> bool {
    &&& is_prime_factor(p, n)
    &&& forall|q: nat| #[trigger] is_prime_factor(q, n) ==> q <= p
}

/// `p` is a prime factor of `n` that lies below the square root of `n`.
pub open spec fn is_small_prime_factor(p: nat, n: nat) -> bool {
    is_prime_factor(p, n) && p * p < n
}

/// `p` is the largest of the prime factors of `n` below its square root.
pub open spec fn is_largest_small_prime_factor(p: nat, n: nat) -> bool {
    &&& is_small_prime_factor(p, n)
    &&& forall|q: nat| #[trigger] is_small_prime_factor(q, n) ==> q <= p
}

/// `n` has no prime factor from its square root on.
pub open spec fn has_only_small_prime_factors(n: nat) -> bool {
    forall|q: nat| #[trigger] is_prime_factor(q, n) ==> q * q < n
}

/// Squaring keeps the order of natural numbers, strictly.
pub proof fn lemma_square_order(a: nat, b: nat)
    ensures
        a < b <==> a * a < b * b,
        a <= b <==> a * a <= b * b,
{
    if a < b {
        assert(a * a < b * b) by (nonlinear_arith)
            requires
                0 <= a < b,
        ;
    } else if b < a {
        assert(b * b < a * a) by (nonlinear_arith)
            requires
                0 <= b < a,
        ;
    }
}

/// Only one number is the square root of `n` rounded up.
pub proof fn lemma_sqrt_ceil_unique(n: nat, r: nat, s: nat)
    requires
        is_sqrt_ceil(n, r),
        is_sqrt_ceil(n, s),
    ensures
        r == s,
{
    if r < s {
        lemma_square_order(r, (s - 1) as nat);
    } else if s < r {
        lemma_square_order(s, (r - 1) as nat);
    }
}

/// A number of at least two with no divisor from two up to a bound whose
/// square reaches it is prime: had it a larger divisor, the quotient by that
/// divisor would be a smaller one.
pub proof fn lemma_prime_by_trial(n: nat, bound: nat)
    requires
        n >= 2,
        n <= bound * bound,
        forall|d: nat| 2 <= d <= bound && d < n ==> !#[trigger] divides(d, n),
    ensures
        is_prime_number(n),
{
    assert forall|d: nat| 2 <= d < n implies !#[trigger] divides(d, n) by {
        if d > bound && divides(d, n) {
            lemma_divides_quotient(d, n);
            let e = n / d;
            assert(e < bound && 2 <= e < n) by (nonlinear_arith)
                requires
                    n == d * e,
                    n <= bound * bound,
                    bound < d < n,
                    2 <= d,
                    e >= 0,
            ;
            lemma_divides_multiple(e, d);
            assert(e * d == d * e) by (nonlinear_arith);
            assert(divides(e, n));
        }
    }
}

/// Euclid's lemma: a prime that divides a product divides one of the factors.
pub proof fn lemma_prime_divides_product(p: nat, a: nat, b: nat)
    requires
        is_prime_number(p),
        divides(p, a * b),
    ensures
        divides(p, a) || divides(p, b),
{
    if !divides(p, a) {
        let g = gcd_nat(p, a);
        lemma_gcd_nat_is_gcd(p, a);
        lemma_divisor_bounds(g, p);
        assert(g == 1) by {
            if g >= 2 {
                assert(divides(g, p));
            }
        }
        lemma_coprime_divides(p, a, b);
    }
}

/// At most one number is the largest prime factor of `n` below its square
/// root.
pub proof fn lemma_largest_small_prime_factor_unique(p: nat, q: nat, n: nat)
    requires
        is_largest_small_prime_factor(p, n),
        is_largest_small_prime_factor(q, n),
    ensures
        p == q,
{
}

/// The square root of `n` rounded up to a whole number.
pub fn isqrt_ceil(n: u64) -> (r: u64)
    ensures
        is_sqrt_ceil(n as nat, r as nat),
        r <= 0x1_0000_0000,
{
    if n == 0 {
        return 0;
    }
    let mut lo: u64 = 0;
    let mut hi: u64 = 0x1_0000_0000;
    assert(0x1_0000_0000 * 0x1_0000_0000 == 0x1_0000_0000_0000_0000) by (nonlinear_arith);
    while hi - lo > 1
        invariant
            lo < hi <= 0x1_0000_0000,
            lo * lo < n <= hi * hi,
        decreases hi - lo,
    {
        let mid: u64 = lo + (hi - lo) / 2;
        assert(mid * mid <= 0xffff_ffff * 0xffff_ffff) by (nonlinear_arith)
            requires
                0 <= mid <= 0xffff_ffff,
        ;
        if mid * mid < n {
            lo = mid;
        } else {
            hi = mid;
        }
    }
    hi
}

/// Whether `n` is prime, by trial division up to the square root.
pub fn is_prime(n: u64) -> (r: bool)
    ensures
        r == is_prime_number(n as nat),
{
    if n < 2 {
        return false;
    }
    let max: u64 = isqrt_ceil(n);
    proof {
        lemma_square_order(1, max as nat);
    }
    let mut i: u64 = 2;
    while i <= max
        invariant
            2 <= i <= max + 1,
            max <= 0x1_0000_0000,
            n >= 2,
            forall|d: nat| 2 <= d < i && d < n ==> !#[trigger] divides(d, n as nat),
        decreases max + 1 - i,
    {
        if i < n && n % i == 0 {
            assert(divides(i as nat, n as nat));
            return false;
        }
        i += 1;
    }
    proof {
        lemma_prime_by_trial(n as nat, max as nat);
    }
    true
}

/// The largest prime factor of `n` below the square root of `n`, which must
/// have one. Where all prime factors of `n` lie below its square root, that
/// is the largest prime factor of `n`.
pub fn largest_prime_factor(n: u64) -> (r: u64)
    requires
        exists|p: nat| is_small_prime_factor(p, n as nat),
    ensures
        is_largest_small_prime_factor(r as nat, n as nat),
        has_only_small_prime_factors(n as nat) ==> is_largest_prime_factor(r as nat, n as nat),
{
    // Every factor below the square root is below the root rounded up, so the
    // search starts there and works downwards.
    let start: u64 = isqrt_ceil(n);
    let mut i: u64 = start;
    assert forall|q: nat| #[trigger] is_small_prime_factor(q, n as nat) implies q < start by {
        lemma_square_order(q, start as nat);
    }
    while i > 2
        invariant
            is_sqrt_ceil(n as nat, start as nat),
            i <= start,
            forall|q: nat| #[trigger] is_small_prime_factor(q, n as nat) ==> q < i,
        decreases i,
    {
        i -= 1;
        if n % i != 0 {
            continue;  // not a factor
        }
        if is_prime(i) {
            proof {
                lemma_square_order(i as nat, (start - 1) as nat);
                if has_only_small_prime_factors(n as nat) {
                    assert forall|q: nat| #[trigger] is_prime_factor(q, n as nat) implies q
                        <= i by {
                        assert(is_small_prime_factor(q, n as nat));
                    }
                }
            }
            return i;
        }
    }
    proof {
        let p = choose|p: nat| is_small_prime_factor(p, n as nat);
        assert(p < i);
    }
    unreached()
}

/// The largest prime factor of 600851475143.
pub fn p3() -> (r: u64)
    ensures
        is_largest_prime_factor(r as nat, 600_851_475_143),
        r == 6857,
{
    proof {
        lemma_factors_of_target();
    }
    largest_prime_factor(600_851_475_143)
}

/// 600851475143 is `71 * 839 * 1471 * 6857`, and 6857 is prime: a prime that
/// divides the product divides one of the four, none of which is larger. So
/// 6857 is the largest prime factor, and it lies below the square root.
pub proof fn lemma_factors_of_target()
    ensures
        71 * 839 * 1471 * 6857 == 600_851_475_143,
        is_largest_prime_factor(6857, 600_851_475_143),
        has_only_small_prime_factors(600_851_475_143),
        is_small_prime_factor(6857, 600_851_475_143),
{
    let n: nat = 600_851_475_143;
    lemma_6857_is_prime();
    assert(71 * 839 == 59569 && 59569 * 1471 == 87625999 && 87625999 * 6857 == 600_851_475_143)
        by (nonlinear_arith);
    assert(6857 * 6857 < 600_851_475_143) by (nonlinear_arith);
    assert(divides(6857, n));
    assert forall|q: nat| #[trigger] is_prime_factor(q, n) implies q <= 6857 by {
        assert(n == 87625999 * 6857);
        lemma_prime_divides_product(q, 87625999, 6857);
        if divides(q, 6857) {
            lemma_divisor_bounds(q, 6857);
        } else {
            assert(87625999 == 59569 * 1471);
            lemma_prime_divides_product(q, 59569, 1471);
            if divides(q, 1471) {
                lemma_divisor_bounds(q, 1471);
            } else {
                assert(59569 == 71 * 839);
                lemma_prime_divides_product(q, 71, 839);
                if divides(q, 839) {
                    lemma_divisor_bounds(q, 839);
                } else {
                    lemma_divisor_bounds(q, 71);
                }
            }
        }
    }
    assert forall|q: nat| #[trigger] is_prime_factor(q, n) implies q * q < n by {
        lemma_square_order(q, 6858);
        assert(6858 * 6858 < 600_851_475_143) by (nonlinear_arith);
    }
}

/// At most one number is the largest prime factor of `n`.
pub proof fn lemma_largest_prime_factor_unique(p: nat, q: nat, n: nat)
    requires
        is_largest_prime_factor(p, n),
        is_largest_prime_factor(q, n),
    ensures
        p == q,
{
}

/// 6857 is prime, by trial division up to 83.
proof fn lemma_6857_is_prime()
    ensures
        is_prime_number(6857),
{
    assert forall|d: nat| 2 <= d <= 83 && d < 6857 implies !#[trigger] divides(d, 6857) by {
        lemma_6857_candidate(d as u32);
    }
    assert(83 * 83 == 6889) by (nonlinear_arith);
    lemma_prime_by_trial(6857, 83);
}

/// No number from 2 up to 83 divides 6857.
proof fn lemma_6857_candidate(d: u32)
    by (bit_vector)
    requires
        2 <= d <= 83,
    ensures
        6857u32 % d != 0,
{
}

} // verus!
