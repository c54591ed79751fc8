//! Greatest common divisors, least common multiples, and the smallest number
//! that every member of a range divides.

use crate::divisibility::{
    divides, gcd_nat, is_gcd, is_lcm, lcm_nat, lemma_divides_antisymmetric,
    lemma_divides_quotient, lemma_divides_transitive, lemma_divisor_bounds,
    lemma_gcd_nat_is_gcd, lemma_lcm_nat_is_lcm,
};
use core::ops::Range;
use vstd::arithmetic::div_mod::lemma_fundamental_div_mod_converse;
use vstd::prelude::*;

verus! {

/// Every number from `lo` up to, but not including, `hi` divides `m`.
pub open spec fn is_common_multiple(m: nat, lo: nat, hi: nat) -> bool {
    forall|k: nat| lo <= k < hi ==> #[trigger] divides(k, m)
}

/// `l` is a common multiple of the numbers from `lo` up to `hi`, and divides
/// every other.
pub open spec fn is_range_lcm(lo: nat, hi: nat, l: nat) -> bool {
    &&& is_common_multiple(l, lo, hi)
    &&& forall|m: nat| #[trigger] is_common_multiple(m, lo, hi) ==> divides(l, m)
}

/// The least common multiple of `lo, lo + 1, ..., hi - 1`, for `lo < hi`,
/// folded from the left.
pub open spec fn range_lcm(lo: nat, hi: nat) -> nat
    decreases hi,
{
    if hi <= lo + 1 {
        lo
    } else {
        lcm_nat(range_lcm(lo, (hi - 1) as nat), (hi - 1) as nat)
    }
}

/// The fold is the least common multiple of the range: every member divides
/// it, and it divides every number that all members divide.
pub proof fn lemma_range_lcm_is_lcm(lo: nat, hi: nat)
    requires
        lo < hi,
    ensures
        is_range_lcm(lo, hi, range_lcm(lo, hi)),
    decreases hi,
{
    let l = range_lcm(lo, hi);
    if hi == lo + 1 {
        lemma_gcd_nat_is_gcd(lo, 0);
        assert(divides(lo, lo));
        assert forall|m: nat| #[trigger] is_common_multiple(m, lo, hi) implies divides(l, m) by {
            assert(divides(lo, m));
        }
    } else {
        let last = (hi - 1) as nat;
        let before = range_lcm(lo, last);
        lemma_range_lcm_is_lcm(lo, last);
        lemma_lcm_nat_is_lcm(before, last);
        assert forall|k: nat| lo <= k < hi implies #[trigger] divides(k, l) by {
            if k < last {
                assert(divides(k, before));
                lemma_divides_transitive(k, before, l);
            }
        }
        assert forall|m: nat| #[trigger] is_common_multiple(m, lo, hi) implies divides(l, m) by {
            assert(is_common_multiple(m, lo, last)) by {
                assert forall|k: nat| lo <= k < last implies #[trigger] divides(k, m) by {
                    assert(lo <= k < hi);
                }
            }
            assert(divides(last, m));
            assert(divides(before, m));
        }
    }
}

/// Only one number is the least common multiple of a range.
pub proof fn lemma_range_lcm_unique(lo: nat, hi: nat, l: nat)
    requires
        lo < hi,
        is_range_lcm(lo, hi, l),
    ensures
        l == range_lcm(lo, hi),
{
    lemma_range_lcm_is_lcm(lo, hi);
    let r = range_lcm(lo, hi);
    assert(is_common_multiple(l, lo, hi));
    assert(is_common_multiple(r, lo, hi));
    lemma_divides_antisymmetric(l, r);
}

/// For a range of positive numbers the least common multiple is positive, and
/// it is the smallest positive number that all of them divide.
pub proof fn lemma_range_lcm_smallest(lo: nat, hi: nat, m: nat)
    requires
        1 <= lo < hi,
        m > 0,
        is_common_multiple(m, lo, hi),
    ensures
        1 <= range_lcm(lo, hi) <= m,
{
    lemma_range_lcm_is_lcm(lo, hi);
    lemma_divisor_bounds(range_lcm(lo, hi), m);
}

/// The least common multiple of a range of positive numbers is positive.
pub proof fn lemma_range_lcm_positive(lo: nat, hi: nat)
    requires
        1 <= lo < hi,
    ensures
        range_lcm(lo, hi) >= 1,
    decreases hi,
{
    if hi > lo + 1 {
        let last = (hi - 1) as nat;
        let before = range_lcm(lo, last);
        lemma_range_lcm_positive(lo, last);
        lemma_gcd_nat_is_gcd(before, last);
        let g = gcd_nat(before, last);
        lemma_divisor_bounds(g, before);
        assert((before / g) * last >= 1) by (nonlinear_arith)
            requires
                1 <= g <= before,
                last >= 1,
        ;
    }
}

/// Among ranges of positive numbers that start together, the longer one has
/// the larger least common multiple.
pub proof fn lemma_range_lcm_increases(lo: nat, mid: nat, hi: nat)
    requires
        1 <= lo < mid <= hi,
    ensures
        range_lcm(lo, mid) <= range_lcm(lo, hi),
{
    lemma_range_lcm_is_lcm(lo, mid);
    lemma_range_lcm_is_lcm(lo, hi);
    lemma_range_lcm_positive(lo, hi);
    let l = range_lcm(lo, hi);
    assert(is_common_multiple(l, lo, mid)) by {
        assert forall|k: nat| lo <= k < mid implies #[trigger] divides(k, l) by {
            assert(lo <= k < hi);
        }
    }
    lemma_divisor_bounds(range_lcm(lo, mid), l);
}

/// From three on, the least common multiple of `1, ..., n` is at least twice
/// `n`.
pub proof fn lemma_range_lcm_above(n: nat)
    requires
        n >= 3,
    ensures
        range_lcm(1, n + 1) >= 2 * n,
{
    let l = range_lcm(1, n + 1);
    lemma_range_lcm_is_lcm(1, n + 1);
    lemma_range_lcm_positive(1, n + 1);
    assert(divides(n, l));
    assert(divides((n - 1) as nat, l));
    lemma_divisor_bounds(n, l);
    if l < 2 * n {
        lemma_divides_quotient(n, l);
        let q = l / n;
        assert(q == 1) by (nonlinear_arith)
            requires
                l == n * q,
                n <= l < 2 * n,
        ;
        assert(l == n) by (nonlinear_arith)
            requires
                l == n * q,
                q == 1,
        ;
        lemma_fundamental_div_mod_converse(n as int, n - 1, 1, 1);
    }
}

/// The greatest common divisor of `a` and `b`, by Euclid's algorithm; zero if
/// both are zero.
pub fn gcd(a: u64, b: u64) -> (g: u64)
    ensures
        g == gcd_nat(a as nat, b as nat),
        is_gcd(a as nat, b as nat, g as nat),
    decreases b,
{
    proof {
        lemma_gcd_nat_is_gcd(a as nat, b as nat);
    }
    if b == 0 {
        return a;
    }
    gcd(b, a % b)
}

/// The least common multiple of `a` and `b`, which are not both zero and whose
/// least common multiple fits in 64 bits.
pub fn lcm(a: u64, b: u64) -> (m: u64)
    requires
        a != 0 || b != 0,
        lcm_nat(a as nat, b as nat) <= u64::MAX,
    ensures
        m == lcm_nat(a as nat, b as nat),
        is_lcm(a as nat, b as nat, m as nat),
{
    proof {
        lemma_lcm_nat_is_lcm(a as nat, b as nat);
        lemma_gcd_nat_is_gcd(a as nat, b as nat);
        let g = gcd_nat(a as nat, b as nat);
        if g == 0 {
            assert(a == 0 && b == 0);
        }
        if a == 0 {
            assert(0nat / g == 0) by (nonlinear_arith)
                requires
                    g > 0,
            ;
        }
        if b == 0 {
            assert((a as nat / g) * 0 == 0) by (nonlinear_arith);
        }
    }
    (a / gcd(a, b)) * b
}

/// The least common multiple of the numbers in `iter`, which is not empty.
/// It is folded from the left, so the least common multiple of each leading
/// part of the range has to fit in 64 bits.
pub fn lcm_iter(iter: Range<u64>) -> (ans: u64)
    requires
        iter.start < iter.end,
        forall|e: nat|
            iter.start < e <= iter.end ==> #[trigger] range_lcm(iter.start as nat, e) <= u64::MAX,
    ensures
        ans == range_lcm(iter.start as nat, iter.end as nat),
        is_range_lcm(iter.start as nat, iter.end as nat, ans as nat),
{
    let first: u64 = iter.start;
    let mut ans: u64 = first;

    for x in (first + 1)..iter.end
        invariant
            first == iter.start,
            first < iter.end,
            ans == range_lcm(first as nat, x as nat),
            forall|e: nat|
                first < e <= iter.end ==> #[trigger] range_lcm(first as nat, e) <= u64::MAX,
    {
        assert(range_lcm(first as nat, (x + 1) as nat) <= u64::MAX);
        ans = lcm(ans, x);
    }
    proof {
        lemma_range_lcm_is_lcm(first as nat, iter.end as nat);
    }
    ans
}

/// The smallest positive number that each of `1, ..., n` divides, for `n` of
/// at least one. That number has to fit in 64 bits.
pub fn p5_internal(n: u64) -> (r: u64)
    requires
        n >= 1,
        range_lcm(1, (n + 1) as nat) <= u64::MAX,
    ensures
        r == range_lcm(1, (n + 1) as nat),
        r >= 1,
        is_common_multiple(r as nat, 1, (n + 1) as nat),
        forall|m: nat| m > 0 && #[trigger] is_common_multiple(m, 1, (n + 1) as nat) ==> r <= m,
{
    proof {
        if n >= 3 {
            lemma_range_lcm_above(n as nat);
        }
        lemma_range_lcm_positive(1, (n + 1) as nat);
        assert forall|e: nat| 1 < e <= n + 1 implies #[trigger] range_lcm(1, e) <= u64::MAX by {
            lemma_range_lcm_increases(1, e, (n + 1) as nat);
        }
        assert forall|m: nat|
            m > 0 && #[trigger] is_common_multiple(m, 1, (n + 1) as nat) implies range_lcm(
            1,
            (n + 1) as nat,
        ) <= m by {
            lemma_range_lcm_smallest(1, (n + 1) as nat, m);
        }
    }
    lcm_iter(1..n + 1)
}

/// The smallest positive number that each of `1, ..., 20` divides.
pub fn p5() -> (r: u64)
    ensures
        r == range_lcm(1, 21),
        r == 232792560,
{
    proof {
        lemma_range_lcm_to_twenty();
    }
    p5_internal(20)
}

/// The least common multiple of `1, ..., 20` is 232792560, folded one number
/// at a time with each greatest common divisor unfolded by hand.
pub proof fn lemma_range_lcm_to_twenty()
    ensures
        range_lcm(1, 21) == 232792560,
{
    assert(range_lcm(1, 2) == 1);
    assert(gcd_nat(1, 0) == 1);
    assert(gcd_nat(2, 1) == 1);
    assert(gcd_nat(1, 2) == 1);
    assert(range_lcm(1, 3) == 2);
    assert(gcd_nat(3, 2) == 1);
    assert(gcd_nat(2, 3) == 1);
    assert(range_lcm(1, 4) == 6);
    assert(gcd_nat(2, 0) == 2);
    assert(gcd_nat(4, 2) == 2);
    assert(gcd_nat(6, 4) == 2);
    assert(range_lcm(1, 5) == 12);
    assert(gcd_nat(5, 2) == 1);
    assert(gcd_nat(12, 5) == 1);
    assert(range_lcm(1, 6) == 60);
    assert(gcd_nat(6, 0) == 6);
    assert(gcd_nat(60, 6) == 6);
    assert(range_lcm(1, 7) == 60);
    assert(gcd_nat(3, 1) == 1);
    assert(gcd_nat(4, 3) == 1);
    assert(gcd_nat(7, 4) == 1);
    assert(gcd_nat(60, 7) == 1);
    assert(range_lcm(1, 8) == 420);
    assert(gcd_nat(4, 0) == 4);
    assert(gcd_nat(8, 4) == 4);
    assert(gcd_nat(420, 8) == 4);
    assert(range_lcm(1, 9) == 840);
    assert(gcd_nat(3, 0) == 3);
    assert(gcd_nat(9, 3) == 3);
    assert(gcd_nat(840, 9) == 3);
    assert(range_lcm(1, 10) == 2520);
    assert(gcd_nat(10, 0) == 10);
    assert(gcd_nat(2520, 10) == 10);
    assert(range_lcm(1, 11) == 2520);
    assert(gcd_nat(11, 1) == 1);
    assert(gcd_nat(2520, 11) == 1);
    assert(range_lcm(1, 12) == 27720);
    assert(gcd_nat(12, 0) == 12);
    assert(gcd_nat(27720, 12) == 12);
    assert(range_lcm(1, 13) == 27720);
    assert(gcd_nat(4, 1) == 1);
    assert(gcd_nat(13, 4) == 1);
    assert(gcd_nat(27720, 13) == 1);
    assert(range_lcm(1, 14) == 360360);
    assert(gcd_nat(14, 0) == 14);
    assert(gcd_nat(360360, 14) == 14);
    assert(range_lcm(1, 15) == 360360);
    assert(gcd_nat(15, 0) == 15);
    assert(gcd_nat(360360, 15) == 15);
    assert(range_lcm(1, 16) == 360360);
    assert(gcd_nat(8, 0) == 8);
    assert(gcd_nat(16, 8) == 8);
    assert(gcd_nat(360360, 16) == 8);
    assert(range_lcm(1, 17) == 720720);
    assert(gcd_nat(17, 5) == 1);
    assert(gcd_nat(720720, 17) == 1);
    assert(range_lcm(1, 18) == 12252240);
    assert(gcd_nat(18, 0) == 18);
    assert(gcd_nat(12252240, 18) == 18);
    assert(range_lcm(1, 19) == 12252240);
    assert(gcd_nat(5, 4) == 1);
    assert(gcd_nat(14, 5) == 1);
    assert(gcd_nat(19, 14) == 1);
    assert(gcd_nat(12252240, 19) == 1);
    assert(range_lcm(1, 20) == 232792560);
    assert(gcd_nat(20, 0) == 20);
    assert(gcd_nat(232792560, 20) == 20);
    assert(range_lcm(1, 21) == 232792560);
}

} // verus!
