//! Divisibility on the natural numbers: divisors, greatest common divisors and
//! least common multiples, with the facts that the solvers rest on.

use vstd::arithmetic::div_mod::{
    lemma_fundamental_div_mod, lemma_mod_multiples_basic, lemma_truncate_middle,
};
use vstd::prelude::*;

verus! {

/// `d` divides `n`. Zero divides only zero.
pub open spec fn divides(d: nat, n: nat) -> bool {
    if d == 0 {
        n == 0
    } else {
        n % d == 0
    }
}

/// The greatest common divisor by Euclid's algorithm; `gcd_nat(0, 0)` is zero.
pub open spec fn gcd_nat(a: nat, b: nat) -> nat
    decreases b,
{
    if b == 0 {
        a
    } else {
        gcd_nat(b, a % b)
    }
}

/// `g` divides both `a` and `b`, and every number that divides both divides
/// `g`.
pub open spec fn is_gcd(a: nat, b: nat, g: nat) -> bool {
    &&& divides(g, a)
    &&& divides(g, b)
    &&& forall|d: nat| #[trigger] divides(d, a) && divides(d, b) ==> divides(d, g)
}

/// The least common multiple, as `a / gcd * b`; zero if `a` or `b` is zero.
pub open spec fn lcm_nat(a: nat, b: nat) -> nat {
    if a == 0 || b == 0 {
        0
    } else {
        (a / gcd_nat(a, b)) * b
    }
}

/// Both `a` and `b` divide `m`, and `m` divides every number that both
/// divide.
pub open spec fn is_lcm(a: nat, b: nat, m: nat) -> bool {
    &&& divides(a, m)
    &&& divides(b, m)
    &&& forall|c: nat| #[trigger] divides(a, c) && divides(b, c) ==> divides(m, c)
}

/// A number divides its multiples.
pub proof fn lemma_divides_multiple(d: nat, k: nat)
    ensures
        divides(d, d * k),
        divides(d, k * d),
{
    assert(d * k == k * d) by (nonlinear_arith);
    if d == 0 {
        assert(d * k == 0) by (nonlinear_arith)
            requires
                d == 0,
        ;
    } else {
        lemma_mod_multiples_basic(k as int, d as int);
    }
}

/// What a divisor divides is the divisor times the quotient.
pub proof fn lemma_divides_quotient(d: nat, n: nat)
    requires
        divides(d, n),
        d > 0,
    ensures
        n == d * (n / d),
{
    lemma_fundamental_div_mod(n as int, d as int);
}

/// A divisor of a positive number is positive and no larger than it.
pub proof fn lemma_divisor_bounds(d: nat, n: nat)
    requires
        divides(d, n),
        n > 0,
    ensures
        1 <= d <= n,
{
    lemma_divides_quotient(d, n);
    let q = n / d;
    assert(d <= n) by (nonlinear_arith)
        requires
            n == d * q,
            n > 0,
            d > 0,
    ;
}

/// Two numbers that divide each other are equal.
pub proof fn lemma_divides_antisymmetric(a: nat, b: nat)
    requires
        divides(a, b),
        divides(b, a),
    ensures
        a == b,
{
    if a > 0 && b > 0 {
        lemma_divisor_bounds(a, b);
        lemma_divisor_bounds(b, a);
    }
}

/// Divisibility is transitive.
pub proof fn lemma_divides_transitive(a: nat, b: nat, c: nat)
    requires
        divides(a, b),
        divides(b, c),
    ensures
        divides(a, c),
{
    if a > 0 && b > 0 {
        lemma_divides_quotient(a, b);
        lemma_divides_quotient(b, c);
        let p = b / a;
        let q = c / b;
        assert(c == a * (p * q)) by (nonlinear_arith)
            requires
                b == a * p,
                c == b * q,
        ;
        lemma_divides_multiple(a, p * q);
    }
}

/// A divisor of `x` and of `y` divides `x * k + y`.
pub proof fn lemma_divides_combination(d: nat, x: nat, k: nat, y: nat)
    requires
        divides(d, x),
        divides(d, y),
    ensures
        divides(d, x * k + y),
{
    if d == 0 {
        assert(x * k == 0) by (nonlinear_arith)
            requires
                x == 0,
        ;
    } else {
        lemma_divides_quotient(d, x);
        lemma_divides_quotient(d, y);
        let p = x / d;
        let q = y / d;
        assert(x * k + y == d * (p * k + q)) by (nonlinear_arith)
            requires
                x == d * p,
                y == d * q,
        ;
        lemma_divides_multiple(d, p * k + q);
    }
}

/// A divisor of `x * k + y` and of `x` divides `y`.
pub proof fn lemma_divides_difference(d: nat, x: nat, k: nat, y: nat)
    requires
        divides(d, x),
        divides(d, x * k + y),
    ensures
        divides(d, y),
{
    if d == 0 {
        assert(x * k == 0) by (nonlinear_arith)
            requires
                x == 0,
        ;
    } else {
        let s = x * k + y;
        lemma_divides_quotient(d, x);
        lemma_divides_quotient(d, s);
        let p = x / d;
        let q = s / d;
        assert(q >= p * k) by (nonlinear_arith)
            requires
                x == d * p,
                x * k + y == d * q,
                d > 0,
                y >= 0,
        ;
        assert(y == d * ((q - p * k) as nat)) by (nonlinear_arith)
            requires
                x == d * p,
                x * k + y == d * q,
                q >= p * k,
        ;
        lemma_divides_multiple(d, (q - p * k) as nat);
    }
}

/// Cancelling a positive common factor keeps divisibility.
pub proof fn lemma_divides_cancel(a: nat, c: nat, g: nat)
    requires
        g > 0,
        divides(g * a, g * c),
    ensures
        divides(a, c),
{
    if a == 0 {
        assert(g * a == 0) by (nonlinear_arith)
            requires
                a == 0,
        ;
        assert(c == 0) by (nonlinear_arith)
            requires
                g * c == 0,
                g > 0,
        ;
    } else {
        let r = c % a;
        lemma_truncate_middle(c as int, g as int, a as int);
        assert(g * a > 0) by (nonlinear_arith)
            requires
                g > 0,
                a > 0,
        ;
        assert(g * r == 0);
        assert(r == 0) by (nonlinear_arith)
            requires
                g * r == 0,
                g > 0,
                r >= 0,
        ;
    }
}

/// `gcd_nat(a, b)` is the greatest common divisor of `a` and `b`: it divides
/// both, and whatever divides both divides it.
pub proof fn lemma_gcd_nat_is_gcd(a: nat, b: nat)
    ensures
        is_gcd(a, b, gcd_nat(a, b)),
    decreases b,
{
    let g = gcd_nat(a, b);
    if b == 0 {
        lemma_divides_multiple(a, 1);
        lemma_divides_multiple(a, 0);
    } else {
        let r = a % b;
        let q = a / b;
        lemma_gcd_nat_is_gcd(b, r);
        lemma_fundamental_div_mod(a as int, b as int);
        assert(a == b * q + r);
        lemma_divides_combination(g, b, q, r);
        assert forall|d: nat| #[trigger] divides(d, a) && divides(d, b) implies divides(d, g) by {
            lemma_divides_difference(d, b, q, r);
        }
    }
}

/// Only one number is the greatest common divisor of `a` and `b`.
pub proof fn lemma_gcd_unique(a: nat, b: nat, g: nat)
    requires
        is_gcd(a, b, g),
    ensures
        g == gcd_nat(a, b),
{
    lemma_gcd_nat_is_gcd(a, b);
    lemma_divides_antisymmetric(g, gcd_nat(a, b));
}

/// Unless both numbers are zero, their greatest common divisor is positive,
/// and no common divisor is larger.
pub proof fn lemma_gcd_greatest(a: nat, b: nat, d: nat)
    requires
        a > 0 || b > 0,
        divides(d, a),
        divides(d, b),
    ensures
        1 <= d <= gcd_nat(a, b),
{
    lemma_gcd_nat_is_gcd(a, b);
    let g = gcd_nat(a, b);
    if g == 0 {
        assert(a == 0 && b == 0);
    }
    lemma_divisor_bounds(d, g);
}

/// Scaling both numbers scales their greatest common divisor.
pub proof fn lemma_gcd_scale(a: nat, b: nat, c: nat)
    ensures
        gcd_nat(a * c, b * c) == gcd_nat(a, b) * c,
    decreases b,
{
    if b == 0 {
        assert(b * c == 0) by (nonlinear_arith)
            requires
                b == 0,
        ;
    } else if c == 0 {
        assert(a * c == 0 && b * c == 0 && gcd_nat(a, b) * c == 0) by (nonlinear_arith)
            requires
                c == 0,
        ;
    } else {
        lemma_gcd_scale(b, a % b, c);
        lemma_truncate_middle(a as int, c as int, b as int);
        assert(a * c == c * a && b * c == c * b && (a % b) * c == c * (a % b))
            by (nonlinear_arith);
        assert(b * c > 0) by (nonlinear_arith)
            requires
                b > 0,
                c > 0,
        ;
        assert((a * c) % (b * c) == (a % b) * c);
    }
}

/// If `a` divides `b * c` and shares no factor with `b`, it divides `c`.
pub proof fn lemma_coprime_divides(a: nat, b: nat, c: nat)
    requires
        gcd_nat(a, b) == 1,
        divides(a, b * c),
    ensures
        divides(a, c),
{
    lemma_gcd_scale(a, b, c);
    lemma_gcd_nat_is_gcd(a * c, b * c);
    lemma_divides_multiple(a, c);
    assert(divides(a, a * c) && divides(a, b * c));
    assert(gcd_nat(a * c, b * c) == c) by (nonlinear_arith)
        requires
            gcd_nat(a * c, b * c) == gcd_nat(a, b) * c,
            gcd_nat(a, b) == 1,
    ;
}

/// `lcm_nat(a, b)` is the least common multiple of `a` and `b`: both divide
/// it, and it divides whatever both divide.
pub proof fn lemma_lcm_nat_is_lcm(a: nat, b: nat)
    ensures
        is_lcm(a, b, lcm_nat(a, b)),
{
    let m = lcm_nat(a, b);
    if a == 0 || b == 0 {
        lemma_divides_multiple(a, 0);
        lemma_divides_multiple(b, 0);
        assert forall|c: nat| #[trigger] divides(a, c) && divides(b, c) implies divides(m, c) by {
        }
    } else {
        let g = gcd_nat(a, b);
        lemma_gcd_nat_is_gcd(a, b);
        lemma_divisor_bounds(g, a);
        lemma_divides_quotient(g, a);
        lemma_divides_quotient(g, b);
        let x = a / g;
        let y = b / g;
        assert(m == x * b);
        // The two quotients share no factor.
        lemma_gcd_scale(x, y, g);
        assert(x * g == a && y * g == b) by (nonlinear_arith)
            requires
                a == g * x,
                b == g * y,
        ;
        assert(gcd_nat(x, y) == 1) by (nonlinear_arith)
            requires
                gcd_nat(x, y) * g == g,
                g > 0,
        ;
        lemma_divides_multiple(b, x);
        assert(m == a * y) by (nonlinear_arith)
            requires
                m == x * b,
                a == g * x,
                b == g * y,
        ;
        lemma_divides_multiple(a, y);
        assert forall|c: nat| #[trigger] divides(a, c) && divides(b, c) implies divides(m, c) by {
            lemma_divides_quotient(b, c);
            let t = c / b;
            assert(g * (y * t) == c && g * x == a) by (nonlinear_arith)
                requires
                    c == b * t,
                    b == g * y,
                    a == g * x,
            ;
            lemma_divides_cancel(x, y * t, g);
            lemma_coprime_divides(x, y, t);
            lemma_divides_quotient(x, t);
            let s = t / x;
            assert(c == m * s) by (nonlinear_arith)
                requires
                    c == b * t,
                    t == x * s,
                    m == x * b,
            ;
            lemma_divides_multiple(m, s);
        }
    }
}

/// Only one number is the least common multiple of `a` and `b`.
pub proof fn lemma_lcm_unique(a: nat, b: nat, m: nat)
    requires
        is_lcm(a, b, m),
    ensures
        m == lcm_nat(a, b),
{
    lemma_lcm_nat_is_lcm(a, b);
    lemma_divides_antisymmetric(m, lcm_nat(a, b));
}

/// The least common multiple of two positive numbers is positive, and no
/// positive common multiple is smaller.
pub proof fn lemma_lcm_least(a: nat, b: nat, c: nat)
    requires
        a > 0,
        b > 0,
        c > 0,
        divides(a, c),
        divides(b, c),
    ensures
        1 <= lcm_nat(a, b) <= c,
{
    lemma_lcm_nat_is_lcm(a, b);
    lemma_divisor_bounds(lcm_nat(a, b), c);
}

} // verus!
