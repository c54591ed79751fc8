//! The largest palindrome among the products of two numbers of a given length.

use crate::digits::{
    digit_count, is_palindrome, is_palindromic, lemma_digit_count_is, lemma_ten_to_increases,
    lemma_ten_to_values, ten_to,
};
use vstd::prelude::*;

verus! {

/// `v` is a palindrome and the product of two numbers of `d` digits each.
pub open spec fn is_palindromic_product(v: nat, d: nat) -> bool {
    &&& is_palindromic(v)
    &&& exists|a: nat, b: nat|
        #![trigger digit_count(a), digit_count(b)]
        digit_count(a) == d && digit_count(b) == d && v == a * b
}

/// `v` is the largest palindrome that is a product of two numbers of `d`
/// digits each, or zero if there is no such palindrome.
pub open spec fn is_largest_palindromic_product(v: nat, d: nat) -> bool {
    &&& v == 0 || is_palindromic_product(v, d)
    &&& forall|w: nat| #[trigger] is_palindromic_product(w, d) ==> w <= v
}

/// At most one number is the largest palindromic product for a given length.
pub proof fn lemma_largest_palindromic_product_unique(v: nat, w: nat, d: nat)
    requires
        is_largest_palindromic_product(v, d),
        is_largest_palindromic_product(w, d),
    ensures
        v == w,
{
    if v != w {
        if v == 0 {
            assert(is_palindromic_product(w, d));
        } else {
            assert(is_palindromic_product(v, d));
            if w == 0 {
            } else {
                assert(is_palindromic_product(w, d));
            }
        }
    }
}

/// The products of pairs already tried hold no palindrome above `ans`: the
/// pairs whose smaller member is below `i`, and those with smaller member `i`
/// and larger member below `j`.
spec fn tried(lo: nat, hi: nat, i: nat, j: nat, ans: nat) -> bool {
    forall|a: nat, b: nat|
        lo <= a <= b < hi && (a < i || (a == i && b < j)) && is_palindromic(
            #[trigger] times(a, b),
        ) ==> times(a, b) <= ans
}

/// `a * b`, named so that a quantifier over pairs can be matched on it.
spec fn times(a: nat, b: nat) -> nat {
    a * b
}

/// `10^k`, for the exponents whose power fits in 64 bits.
fn power_of_ten(k: u32) -> (r: u64)
    requires
        k <= 19,
    ensures
        r == ten_to(k as nat),
{
    proof {
        lemma_ten_to_values();
    }
    let mut r: u64 = 1;
    for i in 0..k
        invariant
            k <= 19,
            r == ten_to(i as nat),
            ten_to(19) == 10_000_000_000_000_000_000,
    {
        proof {
            lemma_ten_to_increases((i + 1) as nat, 19);
        }
        r = r * 10;
    }
    r
}

/// The largest palindrome that is the product of two numbers of `digits`
/// decimal digits each; zero if no such product is a palindrome.
///
/// Products of two numbers of up to nine digits fit in 64 bits; longer ones
/// need not.
pub fn p4_internal(digits: u32) -> (ans: u64)
    requires
        1 <= digits <= 9,
    ensures
        is_largest_palindromic_product(ans as nat, digits as nat),
{
    let ghost d = digits as nat;
    let ghost lo = ten_to((d - 1) as nat);
    let ghost hi = ten_to(d);
    proof {
        lemma_ten_to_increases((d - 1) as nat, d);
        lemma_ten_to_increases(d, 9);
        lemma_ten_to_values();
    }
    let start: u64 = power_of_ten(digits - 1);
    let end: u64 = power_of_ten(digits);

    let mut ans: u64 = 0;
    let ghost mut wa: nat = 0;
    let ghost mut wb: nat = 0;

    for i in start..end
        invariant
            start == lo,
            end == hi,
            1 <= lo <= hi <= 1_000_000_000,
            tried(lo, hi, i as nat, i as nat, ans as nat),
            ans == 0 || (lo <= wa <= wb < hi && is_palindromic(ans as nat) && ans == wa * wb),
    {
        for j in i..end
            invariant
                start == lo,
                end == hi,
                lo <= i < hi,
                1 <= lo <= hi <= 1_000_000_000,
                tried(lo, hi, i as nat, j as nat, ans as nat),
                ans == 0 || (lo <= wa <= wb < hi && is_palindromic(ans as nat) && ans == wa
                    * wb),
        {
            assert(i * j <= 1_000_000_000 * 1_000_000_000) by (nonlinear_arith)
                requires
                    0 <= i <= 1_000_000_000,
                    0 <= j <= 1_000_000_000,
            ;
            let cand: u64 = i * j;
            if cand > ans && is_palindrome(cand) {
                ans = cand;
                proof {
                    wa = i as nat;
                    wb = j as nat;
                }
            }
            assert(tried(lo, hi, i as nat, (j + 1) as nat, ans as nat));
        }
        assert(tried(lo, hi, (i + 1) as nat, (i + 1) as nat, ans as nat));
    }
    proof {
        if ans != 0 {
            lemma_digit_count_is(wa, d);
            lemma_digit_count_is(wb, d);
        }
        assert forall|w: nat| #[trigger] is_palindromic_product(w, d) implies w <= ans by {
            let (a, b) = choose|a: nat, b: nat|
                #![trigger digit_count(a), digit_count(b)]
                digit_count(a) == d && digit_count(b) == d && w == a * b;
            lemma_digit_count_is(a, d);
            lemma_digit_count_is(b, d);
            if a <= b {
                assert(w == times(a, b));
            } else {
                assert(a * b == b * a) by (nonlinear_arith);
                assert(w == times(b, a));
            }
        }
    }
    ans
}

/// The largest palindrome that is the product of two three-digit numbers.
pub fn p4() -> (r: u64)
    ensures
        is_largest_palindromic_product(r as nat, 3),
{
    p4_internal(3)
}

} // verus!
