//! The sum of the multiples of 3 or 5 below a bound.

use vstd::arithmetic::div_mod::{lemma_fundamental_div_mod, lemma_fundamental_div_mod_converse};
use vstd::prelude::*;

verus! {

/// `i` is divisible by 3 or by 5.
pub open spec fn is_multiple_of_3_or_5(i: nat) -> bool {
    i % 3 == 0 || i % 5 == 0
}

/// The sum of the numbers below `n` that are divisible by 3 or by 5.
pub open spec fn fizzbuzz_total(n: nat) -> nat
    decreases n,
{
    if n == 0 {
        0
    } else if is_multiple_of_3_or_5((n - 1) as nat) {
        fizzbuzz_total((n - 1) as nat) + (n - 1) as nat
    } else {
        fizzbuzz_total((n - 1) as nat)
    }
}

/// The sum of the multiples of `k` below `n`.
pub open spec fn multiples_total(k: nat, n: nat) -> nat
    decreases n,
{
    if n == 0 {
        0
    } else if (n - 1) as nat % k == 0 {
        multiples_total(k, (n - 1) as nat) + (n - 1) as nat
    } else {
        multiples_total(k, (n - 1) as nat)
    }
}

/// The sum grows with the bound.
pub proof fn lemma_fizzbuzz_total_monotonic(i: nat, n: nat)
    requires
        i <= n,
    ensures
        fizzbuzz_total(i) <= fizzbuzz_total(n),
    decreases n,
{
    if i < n {
        lemma_fizzbuzz_total_monotonic(i, (n - 1) as nat);
    }
}

/// Inclusion and exclusion: the multiples of 3 and those of 5 together count
/// the multiples of 15 twice.
pub proof fn lemma_fizzbuzz_total_by_parts(n: nat)
    ensures
        fizzbuzz_total(n) + multiples_total(15, n) == multiples_total(3, n) + multiples_total(
            5,
            n,
        ),
    decreases n,
{
    if n > 0 {
        lemma_fizzbuzz_total_by_parts((n - 1) as nat);
    }
}

/// The multiples of `k` below `n` are `k, 2k, ..., qk` with `q = (n - 1) / k`,
/// and twice their sum is `k * q * (q + 1)`.
pub proof fn lemma_multiples_total_closed_form(k: nat, n: nat)
    requires
        k > 0,
        n > 0,
    ensures
        2 * multiples_total(k, n) == k * ((n - 1) / k as int) * ((n - 1) / k as int + 1),
    decreases n,
{
    let m = (n - 1) as int;
    let d = k as int;
    let q = m / d;
    if m == 0 {
        assert(multiples_total(k, 0) == 0);
        assert(0int % d == 0 && 0int / d == 0) by (nonlinear_arith)
            requires
                d > 0,
        ;
        assert(d * q * (q + 1) == 0) by (nonlinear_arith)
            requires
                q == 0,
        ;
    } else {
        lemma_multiples_total_closed_form(k, m as nat);
        let p = (m - 1) / d;
        lemma_fundamental_div_mod(m, d);
        if m % d == 0 {
            assert(m - 1 == (q - 1) * d + (d - 1)) by (nonlinear_arith)
                requires
                    m == d * q,
            ;
            lemma_fundamental_div_mod_converse(m - 1, d, q - 1, d - 1);
            assert(d * p * (p + 1) + 2 * m == d * q * (q + 1)) by (nonlinear_arith)
                requires
                    m == d * q,
                    p == q - 1,
            ;
        } else {
            assert(m - 1 == q * d + (m % d - 1)) by (nonlinear_arith)
                requires
                    m == d * q + m % d,
            ;
            lemma_fundamental_div_mod_converse(m - 1, d, q, m % d - 1);
        }
    }
}

/// The sum in closed form, over the multiples of 3, of 5 and of 15 below `n`.
pub proof fn lemma_fizzbuzz_total_closed_form(n: nat)
    requires
        n > 0,
    ensures
        ({
            let a = (n - 1) / 3;
            let b = (n - 1) / 5;
            let c = (n - 1) / 15;
            2 * fizzbuzz_total(n) == 3 * (a * (a + 1)) + 5 * (b * (b + 1)) - 15 * (c * (c + 1))
        }),
{
    let a = (n - 1) / 3;
    let b = (n - 1) / 5;
    let c = (n - 1) / 15;
    lemma_fizzbuzz_total_by_parts(n);
    lemma_multiples_total_closed_form(3, n);
    lemma_multiples_total_closed_form(5, n);
    lemma_multiples_total_closed_form(15, n);
    assert(3 * a * (a + 1) == 3 * (a * (a + 1))) by (nonlinear_arith);
    assert(5 * b * (b + 1) == 5 * (b * (b + 1))) by (nonlinear_arith);
    assert(15 * c * (c + 1) == 15 * (c * (c + 1))) by (nonlinear_arith);
}

/// The sum of the numbers below `n` that are divisible by 3 or by 5. The sum
/// has to fit in 64 bits.
pub fn fizzbuzz_sum(n: u64) -> (sum: u64)
    requires
        fizzbuzz_total(n as nat) <= u64::MAX,
    ensures
        sum == fizzbuzz_total(n as nat),
{
    let mut sum: u64 = 0;
    for i in 0..n
        invariant
            sum == fizzbuzz_total(i as nat),
            fizzbuzz_total(n as nat) <= u64::MAX,
    {
        if i % 3 == 0 || i % 5 == 0 {
            proof {
                lemma_fizzbuzz_total_monotonic((i + 1) as nat, n as nat);
            }
            sum += i;
        }
    }

    sum
}

/// The sum of the multiples of 3 or 5 below one thousand.
pub fn p1() -> (r: u64)
    ensures
        r == fizzbuzz_total(1000),
        r == 233168,
{
    proof {
        lemma_fizzbuzz_total_closed_form(1000);
        assert(333 * (333 + 1) == 111222) by (nonlinear_arith);
        assert(199 * (199 + 1) == 39800) by (nonlinear_arith);
        assert(66 * (66 + 1) == 4422) by (nonlinear_arith);
    }
    fizzbuzz_sum(1000)
}

} // verus!
