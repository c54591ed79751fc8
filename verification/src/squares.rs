//! The gap between the square of a sum and the sum of the squares.

use vstd::prelude::*;

verus! {

/// `1 + 2 + ... + n`.
pub open spec fn sum_to(n: nat) -> nat
    decreases n,
{
    if n == 0 {
        0
    } else {
        sum_to((n - 1) as nat) + n
    }
}

/// `1*1 + 2*2 + ... + n*n`.
pub open spec fn sum_of_squares_to(n: nat) -> nat
    decreases n,
{
    if n == 0 {
        0
    } else {
        sum_of_squares_to((n - 1) as nat) + n * n
    }
}

/// The square of `1 + ... + n` less the sum of the squares `1*1 + ... + n*n`.
pub open spec fn sum_square_gap(n: nat) -> int {
    sum_to(n) * sum_to(n) - sum_of_squares_to(n)
}

/// Gauss's formula: twice the sum of `1..=n` is `n * (n + 1)`.
pub proof fn lemma_sum_to_closed_form(n: nat)
    ensures
        2 * sum_to(n) == n * (n + 1),
    decreases n,
{
    if n > 0 {
        let m = (n - 1) as nat;
        lemma_sum_to_closed_form(m);
        assert(m * (m + 1) + 2 * n == n * (n + 1)) by (nonlinear_arith)
            requires
                n == m + 1,
        ;
    } else {
        assert(n * (n + 1) == 0) by (nonlinear_arith)
            requires
                n == 0,
        ;
    }
}

/// Six times the sum of the squares of `1..=n` is `n * (n + 1) * (2 * n + 1)`.
pub proof fn lemma_sum_of_squares_closed_form(n: nat)
    ensures
        6 * sum_of_squares_to(n) == n * (n + 1) * (2 * n + 1),
    decreases n,
{
    if n > 0 {
        let m = (n - 1) as nat;
        lemma_sum_of_squares_closed_form(m);
        assert(m * (m + 1) * (2 * m + 1) + 6 * (n * n) == n * (n + 1) * (2 * n + 1))
            by (nonlinear_arith)
            requires
                n == m + 1,
        ;
    } else {
        assert(n * (n + 1) * (2 * n + 1) == 0) by (nonlinear_arith)
            requires
                n == 0,
        ;
    }
}

/// Both sums grow with `n`.
pub proof fn lemma_sums_monotonic(i: nat, n: nat)
    requires
        i <= n,
    ensures
        sum_to(i) <= sum_to(n),
        sum_of_squares_to(i) <= sum_of_squares_to(n),
    decreases n,
{
    if i < n {
        lemma_sums_monotonic(i, (n - 1) as nat);
    }
}

/// The sum of the squares never exceeds the square of the sum, so the gap is
/// not negative.
pub proof fn lemma_squares_below_square_of_sum(n: nat)
    ensures
        sum_of_squares_to(n) <= sum_to(n) * sum_to(n),
        n <= sum_to(n),
    decreases n,
{
    if n > 0 {
        let m = (n - 1) as nat;
        lemma_squares_below_square_of_sum(m);
        lemma_sum_to_closed_form(m);
        let s = sum_to(m);
        assert((s + n) * (s + n) == s * s + 2 * s * n + n * n) by (nonlinear_arith);
        assert(0 <= 2 * s * n) by (nonlinear_arith)
            requires
                0 <= s,
                0 <= n,
        ;
    }
}

/// The distance between `a` and `b`.
pub fn abs_diff(a: u64, b: u64) -> (r: u64)
    ensures
        r == if a > b {
            a - b
        } else {
            b - a
        },
{
    if a > b {
        a - b
    } else {
        b - a
    }
}

/// The square of the sum of `1..=n` less the sum of their squares.
///
/// The square of the sum is the largest number computed on the way, so it has
/// to fit in 64 bits.
pub fn p6_internal(n: u64) -> (r: u64)
    requires
        sum_to(n as nat) * sum_to(n as nat) <= u64::MAX,
    ensures
        r == sum_square_gap(n as nat),
{
    proof {
        lemma_squares_below_square_of_sum(n as nat);
    }
    let ghost total = sum_to(n as nat);
    let mut sum: u64 = 0;
    let mut sum_of_squares: u64 = 0;
    for k in 0..n
        invariant
            sum == sum_to(k as nat),
            sum_of_squares == sum_of_squares_to(k as nat),
            total == sum_to(n as nat),
            n <= total,
            total * total <= u64::MAX,
    {
        let x: u64 = k + 1;
        proof {
            lemma_sums_monotonic(x as nat, n as nat);
            lemma_squares_below_square_of_sum(x as nat);
            let s = sum_to(x as nat);
            assert(s * s <= total * total) by (nonlinear_arith)
                requires
                    0 <= s <= total,
            ;
            assert(x * x <= s * s) by (nonlinear_arith)
                requires
                    0 <= x <= s,
            ;
            assert(s <= total * total) by (nonlinear_arith)
                requires
                    0 <= s <= total,
            ;
        }
        sum = sum + x;
        sum_of_squares = sum_of_squares + x * x;
    }
    let square_of_sum: u64 = sum * sum;
    abs_diff(square_of_sum, sum_of_squares)
}

/// The gap for the first hundred natural numbers.
pub fn p6() -> (r: u64)
    ensures
        r == sum_square_gap(100),
        r == 25164150,
{
    proof {
        lemma_sum_to_closed_form(100);
        lemma_sum_of_squares_closed_form(100);
        assert(sum_to(100) == 5050);
        assert(100 * (100 + 1) * (2 * 100 + 1) == 2030100) by (nonlinear_arith);
        assert(sum_of_squares_to(100) == 338350);
    }
    p6_internal(100)
}

} // verus!
