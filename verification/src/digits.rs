//! Decimal digits of an integer, produced one at a time from the least
//! significant end, and the palindrome test built on them.

use vstd::prelude::*;

verus! {

/// The decimal digits of `n`, least significant first. Zero has no digits.
pub open spec fn digits(n: nat) -> Seq<u8>
    decreases n,
{
    if n == 0 {
        Seq::empty()
    } else {
        seq![(n % 10) as u8] + digits(n / 10)
    }
}

/// The number that the digits `s`, least significant first, stand for.
pub open spec fn value_of(s: Seq<u8>) -> nat
    decreases s.len(),
{
    if s.len() == 0 {
        0
    } else {
        s[0] as nat + 10 * value_of(s.skip(1))
    }
}

/// `n` reads the same in both directions.
pub open spec fn is_palindromic(n: nat) -> bool {
    digits(n) =~= digits(n).reverse()
}

/// One draw from a producer whose remainder is `r`: what it gives out, and
/// the remainder it is left with.
pub open spec fn digit_step(r: nat) -> (Option<u8>, nat) {
    if r == 0 {
        (None, 0)
    } else {
        (Some((r % 10) as u8), r / 10)
    }
}

/// What `n` draws in a row give out, starting from the remainder `r`.
pub open spec fn digit_draws(r: nat, n: nat) -> Seq<Option<u8>>
    decreases n,
{
    if n == 0 {
        Seq::empty()
    } else {
        seq![digit_step(r).0] + digit_draws(digit_step(r).1, (n - 1) as nat)
    }
}

/// Draws give out the digits in order, least significant first, and then
/// `None` for ever.
pub proof fn lemma_digit_draws(r: nat, n: nat)
    ensures
        digit_draws(r, n).len() == n,
        forall|i: int|
            0 <= i < n ==> #[trigger] digit_draws(r, n)[i] == if i < digits(r).len() {
                Some(digits(r)[i])
            } else {
                None
            },
    decreases n,
{
    if n > 0 {
        let next = digit_step(r).1;
        lemma_digit_draws(next, (n - 1) as nat);
        let rest = digit_draws(next, (n - 1) as nat);
        let all = digit_draws(r, n);
        assert forall|i: int| 0 <= i < n implies #[trigger] all[i] == if i < digits(r).len() {
            Some(digits(r)[i])
        } else {
            None
        } by {
            if i > 0 {
                assert(all[i] == rest[i - 1]);
                if r > 0 && i < digits(r).len() {
                    assert(digits(r)[i] == digits(next)[i - 1]);
                }
            }
        }
    }
}

/// Two producers made from the same number give out the same digits, however
/// far they are driven: what a producer gives out depends on its remainder
/// alone.
pub proof fn lemma_same_seed_same_digits(a: DigIter, b: DigIter, n: nat)
    requires
        a.remainder() == b.remainder(),
    ensures
        a@ == b@,
        digit_draws(a.remainder(), n) == digit_draws(b.remainder(), n),
{
}

/// Every digit is below ten, and the most significant one is not zero.
pub proof fn lemma_digits_are_decimal(n: nat)
    ensures
        forall|i: int| 0 <= i < digits(n).len() ==> digits(n)[i] < 10,
        n > 0 ==> digits(n).len() > 0 && digits(n).last() != 0,
    decreases n,
{
    if n > 0 {
        lemma_digits_are_decimal(n / 10);
        let rest = digits(n / 10);
        let all = digits(n);
        assert(all == seq![(n % 10) as u8] + rest);
        assert forall|i: int| 0 <= i < all.len() implies all[i] < 10 by {
            if i > 0 {
                assert(all[i] == rest[i - 1]);
            }
        }
        if n / 10 > 0 {
            assert(all.last() == rest.last());
        }
    }
}

/// The digits of a number stand for that number, so no two numbers have the
/// same digits.
pub proof fn lemma_value_of_digits(n: nat)
    ensures
        value_of(digits(n)) == n,
    decreases n,
{
    if n > 0 {
        lemma_value_of_digits(n / 10);
        let all = digits(n);
        assert(all.skip(1) =~= digits(n / 10));
        assert(all[0] == (n % 10) as u8);
    }
}

/// `10^k`.
pub open spec fn ten_to(k: nat) -> nat
    decreases k,
{
    if k == 0 {
        1
    } else {
        10 * ten_to((k - 1) as nat)
    }
}

/// How many decimal digits `n` has; zero has none.
pub open spec fn digit_count(n: nat) -> nat {
    digits(n).len()
}

/// A number below `10^k` has at most `k` digits.
pub proof fn lemma_digit_count_below(n: nat, k: nat)
    requires
        n < ten_to(k),
    ensures
        digit_count(n) <= k,
    decreases k,
{
    if n > 0 {
        lemma_digit_count_below(n / 10, (k - 1) as nat);
    }
}

/// A number of at least `10^k` has more than `k` digits.
pub proof fn lemma_digit_count_above(n: nat, k: nat)
    requires
        ten_to(k) <= n,
    ensures
        digit_count(n) > k,
    decreases k,
{
    if k > 0 {
        lemma_digit_count_above(n / 10, (k - 1) as nat);
    }
}

/// The numbers with exactly `d` digits, for `d` at least one, are those from
/// `10^(d-1)` up to, but not including, `10^d`.
pub proof fn lemma_digit_count_is(n: nat, d: nat)
    requires
        d > 0,
    ensures
        digit_count(n) == d <==> ten_to((d - 1) as nat) <= n < ten_to(d),
{
    let low = ten_to((d - 1) as nat);
    if n < low {
        lemma_digit_count_below(n, (d - 1) as nat);
    } else if n < ten_to(d) {
        lemma_digit_count_above(n, (d - 1) as nat);
        lemma_digit_count_below(n, d);
    } else {
        lemma_digit_count_above(n, d);
    }
}

/// Powers of ten grow with the exponent.
pub proof fn lemma_ten_to_increases(j: nat, k: nat)
    requires
        j <= k,
    ensures
        1 <= ten_to(j) <= ten_to(k),
    decreases k,
{
    if j < k {
        lemma_ten_to_increases(j, (k - 1) as nat);
    } else if k > 0 {
        lemma_ten_to_increases((j - 1) as nat, (k - 1) as nat);
    }
}

/// The powers of ten up to `10^20`, the first that no 64-bit number reaches.
pub proof fn lemma_ten_to_values()
    ensures
        ten_to(9) == 1_000_000_000,
        ten_to(19) == 10_000_000_000_000_000_000,
        ten_to(20) == 100_000_000_000_000_000_000,
{
    assert(ten_to(0) == 1);
    assert(ten_to(1) == 10);
    assert(ten_to(2) == 100);
    assert(ten_to(3) == 1000);
    assert(ten_to(4) == 10000);
    assert(ten_to(5) == 100000);
    assert(ten_to(6) == 1000000);
    assert(ten_to(7) == 10000000);
    assert(ten_to(8) == 100000000);
    assert(ten_to(9) == 1000000000);
    assert(ten_to(10) == 10000000000);
    assert(ten_to(11) == 100000000000);
    assert(ten_to(12) == 1000000000000);
    assert(ten_to(13) == 10000000000000);
    assert(ten_to(14) == 100000000000000);
    assert(ten_to(15) == 1000000000000000);
    assert(ten_to(16) == 10000000000000000);
    assert(ten_to(17) == 100000000000000000);
    assert(ten_to(18) == 1000000000000000000);
    assert(ten_to(19) == 10000000000000000000);
    assert(ten_to(20) == 100000000000000000000);
}

/// A 64-bit number has at most twenty digits.
pub proof fn lemma_digits_of_u64(x: u64)
    ensures
        digits(x as nat).len() <= 20,
{
    lemma_ten_to_values();
    lemma_digit_count_below(x as nat, 20);
}

/// Produces the decimal digits of a number on demand, least significant first.
pub struct DigIter {
    x: u64,
}

impl View for DigIter {
    type V = Seq<u8>;

    /// The digits still to come.
    open spec fn view(&self) -> Seq<u8> {
        digits(self.remainder())
    }
}

impl DigIter {
    /// What is left of the number once the digits already produced are removed.
    pub closed spec fn remainder(&self) -> nat {
        self.x as nat
    }

    /// A producer of the digits of `n`.
    pub fn new(n: u64) -> (r: DigIter)
        ensures
            r.remainder() == n,
            r@ == digits(n as nat),
    {
        DigIter { x: n }
    }

    /// The next digit, or `None` once the remainder is zero; a spent producer
    /// stays spent. Each digit given out leaves a smaller remainder.
    pub fn next(&mut self) -> (r: Option<u8>)
        ensures
            (r, final(self).remainder()) == digit_step(old(self).remainder()),
            r.is_some() ==> final(self).remainder() < old(self).remainder(),
            r.is_none() <==> old(self)@.len() == 0,
            r.is_some() ==> r == Some(old(self)@[0]) && final(self)@ == old(self)@.skip(1),
            r.is_none() ==> final(self)@ == old(self)@,
    {
        if self.x == 0 {
            return None;
        }
        proof {
            let all = digits(self.x as nat);
            assert(all.skip(1) =~= digits((self.x / 10) as nat));
        }
        let dig: u8 = (self.x % 10) as u8;
        self.x = self.x / 10;
        Some(dig)
    }
}

/// Writes the digits that `iter` still holds into the front of `arr`, which
/// must have room for them, and returns how many there were. The rest of
/// `arr` keeps what it held.
pub fn collect_u8(arr: &mut [u8], iter: DigIter) -> (n: usize)
    requires
        iter@.len() <= old(arr)@.len(),
    ensures
        n == iter@.len(),
        final(arr)@ =~= iter@ + old(arr)@.skip(n as int),
{
    let mut rest = iter;
    let mut i: usize = 0;
    loop
        invariant
            arr@.len() == old(arr)@.len(),
            iter@.len() <= arr@.len(),
            i + rest@.len() == iter@.len(),
            iter@ =~= arr@.take(i as int) + rest@,
            forall|j: int| i <= j < arr@.len() ==> arr@[j] == old(arr)@[j],
        decreases rest@.len(),
    {
        match rest.next() {
            None => {
                return i;
            },
            Some(x) => {
                arr[i] = x;
                i += 1;
            },
        }
    }
}

/// Whether the decimal digits of `x` read the same in both directions. Zero,
/// which has no digits, and the one-digit numbers do.
pub fn is_palindrome(x: u64) -> (r: bool)
    ensures
        r == is_palindromic(x as nat),
{
    let mut buf: [u8; 32] = [0; 32];
    proof {
        lemma_digits_of_u64(x);
    }
    let n: usize = collect_u8(&mut buf, DigIter::new(x));
    let ghost all = digits(x as nat);
    assert(all =~= buf@.take(n as int));

    if n < 2 {
        return true;
    }
    let max: usize = n / 2 + 1;
    for i in 0..max
        invariant
            2 <= n <= 32,
            max == n / 2 + 1,
            n == all.len(),
            all == digits(x as nat),
            all =~= buf@.take(n as int),
            forall|j: int| 0 <= j < i ==> #[trigger] all[j] == all[n - 1 - j],
    {
        if buf[i] != buf[n - 1 - i] {
            assert(all.reverse()[i as int] == all[n - 1 - i]);
            assert(all[i as int] != all.reverse()[i as int]);
            return false;
        }
    }
    assert forall|j: int| 0 <= j < n implies all[j] == all.reverse()[j] by {
        let k = n - 1 - j;
        if j >= max {
            assert(all[k] == all[n - 1 - k]);
        }
    }
    true
}

} // verus!
