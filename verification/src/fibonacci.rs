//! The Fibonacci numbers `1, 2, 3, 5, 8, ...`, produced one at a time, and the
//! sum of the even ones up to a ceiling.

use vstd::prelude::*;

verus! {

/// The Fibonacci numbers, with `fib(0) == fib(1) == 1`, so that they read
/// `1, 1, 2, 3, 5, 8, ...`.
pub open spec fn fib(k: nat) -> nat
    decreases k,
{
    if k < 2 {
        1
    } else {
        fib((k - 1) as nat) + fib((k - 2) as nat)
    }
}

/// `v` is a Fibonacci number.
pub open spec fn is_fib(v: nat) -> bool {
    exists|k: nat| fib(k) == v
}

/// The sum of the even Fibonacci numbers that do not exceed `limit`, each
/// counted once.
pub open spec fn even_fib_sum(limit: nat) -> nat
    decreases limit,
{
    if limit == 0 {
        0
    } else if is_fib(limit) && limit % 2 == 0 {
        even_fib_sum((limit - 1) as nat) + limit
    } else {
        even_fib_sum((limit - 1) as nat)
    }
}

/// The state `(previous, current)` of a producer that has been advanced `k`
/// times.
pub open spec fn fib_state(k: nat) -> (nat, nat) {
    (fib(k), fib(k + 1))
}

/// One advancement: the current number becomes the previous one, and their
/// sum the current one.
pub open spec fn fib_step(s: (nat, nat)) -> (nat, nat) {
    (s.1, s.0 + s.1)
}

/// The first `n` numbers that a producer in state `s` gives out.
pub open spec fn fib_outputs(s: (nat, nat), n: nat) -> Seq<nat>
    decreases n,
{
    if n == 0 {
        Seq::empty()
    } else {
        seq![s.1] + fib_outputs(fib_step(s), (n - 1) as nat)
    }
}

/// The Fibonacci numbers never decrease, are all positive, and from `fib(1)`
/// on each is larger than the one before.
pub proof fn lemma_fib_increases(i: nat, j: nat)
    requires
        i <= j,
    ensures
        1 <= fib(i) <= fib(j),
        1 <= i < j ==> fib(i) < fib(j),
    decreases j,
{
    if j >= 2 {
        if i < j {
            lemma_fib_increases(i, (j - 1) as nat);
        }
        lemma_fib_increases(0, (j - 2) as nat);
        lemma_fib_increases(0, (j - 1) as nat);
    }
}

/// An index whose Fibonacci number is smaller comes earlier.
pub proof fn lemma_fib_index_order(i: nat, j: nat)
    requires
        fib(i) < fib(j),
    ensures
        i < j,
{
    if j <= i {
        lemma_fib_increases(j, i);
    }
}

/// Every third Fibonacci number is even, starting with `fib(2) == 2`, and no
/// other is.
pub proof fn lemma_fib_parity(k: nat)
    ensures
        fib(k) % 2 == 0 <==> k % 3 == 2,
    decreases k,
{
    if k >= 2 {
        lemma_fib_parity((k - 1) as nat);
        lemma_fib_parity((k - 2) as nat);
    }
}

/// No Fibonacci number lies strictly between two neighbours.
pub proof fn lemma_no_fib_between(k: nat, v: nat)
    requires
        fib(k) < v < fib(k + 1),
    ensures
        !is_fib(v),
{
    if is_fib(v) {
        let m = choose|m: nat| fib(m) == v;
        if m <= k {
            lemma_fib_increases(m, k);
        } else {
            lemma_fib_increases(k + 1, m);
        }
    }
}

/// Raising the limit over a stretch that holds no even Fibonacci number
/// leaves the sum as it was.
pub proof fn lemma_even_fib_sum_gap(a: nat, b: nat)
    requires
        a <= b,
        forall|v: nat| a < v <= b ==> !(#[trigger] is_fib(v) && v % 2 == 0),
    ensures
        even_fib_sum(b) == even_fib_sum(a),
    decreases b,
{
    if a < b {
        lemma_even_fib_sum_gap(a, (b - 1) as nat);
    }
}

/// Moving the limit from one Fibonacci number to the next adds that next
/// number if it is even, and nothing otherwise.
pub proof fn lemma_even_fib_sum_step(k: nat)
    ensures
        even_fib_sum(fib(k + 1)) == even_fib_sum(fib(k)) + if fib(k + 1) % 2 == 0 {
            fib(k + 1)
        } else {
            0
        },
{
    let lo = fib(k);
    let hi = fib(k + 1);
    lemma_fib_increases(k, k + 1);
    if lo < hi {
        assert forall|v: nat| lo < v <= (hi - 1) as nat implies !(#[trigger] is_fib(v) && v % 2
            == 0) by {
            lemma_no_fib_between(k, v);
        }
        lemma_even_fib_sum_gap(lo, (hi - 1) as nat);
        assert(is_fib(hi));
    }
}

/// Between two neighbouring Fibonacci numbers the sum stays what it is at the
/// lower one.
pub proof fn lemma_even_fib_sum_between(k: nat, limit: nat)
    requires
        fib(k) <= limit < fib(k + 1),
    ensures
        even_fib_sum(limit) == even_fib_sum(fib(k)),
{
    assert forall|v: nat| fib(k) < v <= limit implies !(#[trigger] is_fib(v) && v % 2 == 0) by {
        lemma_no_fib_between(k, v);
    }
    lemma_even_fib_sum_gap(fib(k), limit);
}

/// Twice the sum of the even Fibonacci numbers up to `fib(k)` stays below the
/// Fibonacci number that follows the last even one by two places.
pub proof fn lemma_even_fib_sum_bound(k: nat)
    ensures
        2 * even_fib_sum(fib(k)) + 1 <= fib((k + 2 - (k + 1) % 3) as nat),
    decreases k,
{
    if k == 0 {
        assert(even_fib_sum(1) == even_fib_sum(0));
    } else {
        let j = (k - 1) as nat;
        lemma_even_fib_sum_bound(j);
        lemma_even_fib_sum_step(j);
        lemma_fib_parity(k);
        if k % 3 == 2 {
            assert(fib(k + 1) == fib(k) + fib(j));
            assert(fib(k + 2) == fib(k + 1) + fib(k));
        }
    }
}

/// Advancing a producer that stands at position `k` brings it to position
/// `k + 1`.
pub proof fn lemma_fib_step_advances(k: nat)
    ensures
        fib_step(fib_state(k)) == fib_state(k + 1),
{
}

/// A fresh producer gives out `fib(1), fib(2), ...`: its `i`-th output,
/// counted from zero, is `fib(i + 1)`.
pub proof fn lemma_fib_outputs(k: nat, n: nat)
    ensures
        fib_outputs(fib_state(k), n).len() == n,
        forall|i: int| 0 <= i < n ==> fib_outputs(fib_state(k), n)[i] == fib((k + 1 + i) as nat),
    decreases n,
{
    if n > 0 {
        lemma_fib_outputs(k + 1, (n - 1) as nat);
        lemma_fib_step_advances(k);
    }
}

/// Two producers in the same state give out the same numbers, however far
/// they are driven: what a producer gives out depends on its state alone, and
/// every fresh producer starts in the same state.
pub proof fn lemma_same_state_same_outputs(a: FibIter, b: FibIter, n: nat)
    requires
        a@ == b@,
    ensures
        fib_outputs(a@, n) == fib_outputs(b@, n),
{
}

/// Produces the Fibonacci numbers `1, 2, 3, 5, 8, ...` on demand, without end.
pub struct FibIter {
    x: u64,
    y: u64,
}

impl View for FibIter {
    type V = (nat, nat);

    /// The previous number and the current one.
    closed spec fn view(&self) -> (nat, nat) {
        (self.x as nat, self.y as nat)
    }
}

impl FibIter {
    /// The current number is at least the previous one, which is at least one.
    pub open spec fn wf(&self) -> bool {
        1 <= self@.0 <= self@.1
    }

    /// A producer that has given out nothing yet.
    pub fn new() -> (r: FibIter)
        ensures
            r@ == (1nat, 1nat),
            r@ == fib_state(0),
            r.wf(),
    {
        FibIter { x: 1, y: 1 }
    }

    /// Advances the producer and gives out the number that was current; there
    /// is always a next one. The sum of the two numbers held is computed on
    /// the way, so it has to fit in 64 bits.
    pub fn next(&mut self) -> (r: Option<u64>)
        requires
            old(self).wf(),
            old(self)@.0 + old(self)@.1 <= u64::MAX,
        ensures
            final(self)@ == fib_step(old(self)@),
            r matches Some(v) && v == old(self)@.1,
            final(self).wf(),
    {
        let nxt: u64 = self.x + self.y;

        self.x = self.y;
        self.y = nxt;
        Some(self.x)
    }
}

/// The sum of the even Fibonacci numbers that do not exceed `max_term`.
///
/// The producer is advanced until it gives out a number above `max_term`, and
/// then holds the Fibonacci number after that one as well: both have to fit
/// in 64 bits.
pub fn p2_internal(max_term: u64) -> (sum: u64)
    requires
        exists|k: nat| max_term < #[trigger] fib(k) && fib(k + 1) <= u64::MAX,
    ensures
        sum == even_fib_sum(max_term as nat),
{
    let ghost top = choose|k: nat| max_term < #[trigger] fib(k) && fib(k + 1) <= u64::MAX;
    let mut iter = FibIter::new();
    let mut sum: u64 = 0;
    let ghost mut i: nat = 0;
    assert(even_fib_sum(1) == even_fib_sum(0));

    loop
        invariant
            iter@ == fib_state(i),
            iter.wf(),
            sum == even_fib_sum(fib(i)),
            i > 0 ==> fib(i) <= max_term,
            max_term < fib(top),
            fib(top + 1) <= u64::MAX,
        decreases u64::MAX - iter@.1,
    {
        proof {
            if i > 0 {
                lemma_fib_index_order(i, top);
            }
            if i + 2 <= top + 1 {
                lemma_fib_increases(i + 2, top + 1);
            }
            lemma_fib_increases(i, i + 1);
            lemma_even_fib_sum_step(i);
            lemma_even_fib_sum_bound(i);
            lemma_fib_parity(i + 1);
        }
        let k: u64 = iter.next().unwrap();
        if k > max_term {
            proof {
                if i > 0 {
                    lemma_even_fib_sum_between(i, max_term as nat);
                } else {
                    assert(max_term == 0);
                }
            }
            return sum;
        }
        proof {
            i = i + 1;
        }
        if k % 2 != 0 {
            continue;
        }
        sum += k;
    }
}

/// The sum of the even Fibonacci numbers up to four million.
pub fn p2() -> (r: u64)
    ensures
        r == even_fib_sum(4_000_000),
        r == 4613732,
{
    proof {
        lemma_ceiling_in_reach(4_000_000);
        lemma_even_fib_sum_to_four_million();
    }
    p2_internal(4 * 1000 * 1000)
}

/// The first Fibonacci number above `limit`: the least index from `k` on,
/// which is not above it, whose Fibonacci number is.
proof fn lemma_first_above(limit: nat, k: nat) -> (j: nat)
    requires
        k >= 1,
        fib(k) <= limit,
    ensures
        j >= 2,
        fib((j - 1) as nat) <= limit < fib(j),
    decreases limit - fib(k),
{
    lemma_fib_increases(k, k + 1);
    if fib(k + 1) > limit {
        k + 1
    } else {
        lemma_first_above(limit, k + 1)
    }
}

/// Every ceiling of up to a third of the largest 64-bit number can be summed
/// up to: the first Fibonacci number above the ceiling is at most twice the
/// ceiling, and the one after it at most three times.
pub proof fn lemma_ceiling_in_reach(max_term: u64)
    requires
        3 * max_term <= u64::MAX,
    ensures
        exists|k: nat| max_term < #[trigger] fib(k) && fib(k + 1) <= u64::MAX,
{
    if max_term == 0 {
        assert(max_term < fib(0) && fib(1) <= u64::MAX);
    } else {
        let j = lemma_first_above(max_term as nat, 1);
        let i = (j - 1) as nat;
        assert(fib(j) == fib(i) + fib((j - 2) as nat));
        assert(fib(j + 1) == fib(j) + fib(i));
        lemma_fib_increases((j - 2) as nat, i);
        assert(max_term < fib(j) && fib(j + 1) <= u64::MAX);
    }
}

/// From the fourth on, a Fibonacci number plus four times the one three
/// places on gives the one six places on.
pub proof fn lemma_fib_every_third(k: nat)
    requires
        k >= 3,
    ensures
        fib(k + 3) == 4 * fib(k) + fib((k - 3) as nat),
{
    assert(fib(k + 3) == fib(k + 2) + fib(k + 1));
    assert(fib(k + 2) == fib(k + 1) + fib(k));
    assert(fib(k + 1) == fib(k) + fib((k - 1) as nat));
    assert(fib(k) == fib((k - 1) as nat) + fib((k - 2) as nat));
    assert(fib((k - 1) as nat) == fib((k - 2) as nat) + fib((k - 3) as nat));
}

/// From one even Fibonacci number to the next, three places on, the sum
/// grows by that next one.
pub proof fn lemma_even_fib_sum_next_even(k: nat)
    requires
        k % 3 == 2,
    ensures
        even_fib_sum(fib(k + 3)) == even_fib_sum(fib(k)) + fib(k + 3),
{
    lemma_even_fib_sum_step(k);
    lemma_even_fib_sum_step(k + 1);
    lemma_even_fib_sum_step(k + 2);
    lemma_fib_parity(k + 1);
    lemma_fib_parity(k + 2);
    lemma_fib_parity(k + 3);
}

/// The sum of the even Fibonacci numbers up to four million is 4613732: they
/// are the eleven numbers from `fib(2) == 2` to `fib(32) == 3524578`.
pub proof fn lemma_even_fib_sum_to_four_million()
    ensures
        even_fib_sum(4_000_000) == 4613732,
{
    assert(fib(0) == 1 && fib(1) == 1);
    assert(fib(2) == 2);
    assert(fib(3) == 3);
    assert(fib(4) == 5);
    assert(fib(5) == 8);
    assert(even_fib_sum(1) == even_fib_sum(0));
    lemma_even_fib_sum_step(1);
    assert(even_fib_sum(fib(2)) == 2);
    lemma_even_fib_sum_next_even(2);
    assert(fib(5) == 8 && even_fib_sum(fib(5)) == 10);
    lemma_fib_every_third(5);
    lemma_even_fib_sum_next_even(5);
    assert(fib(8) == 34 && even_fib_sum(fib(8)) == 44);
    lemma_fib_every_third(8);
    lemma_even_fib_sum_next_even(8);
    assert(fib(11) == 144 && even_fib_sum(fib(11)) == 188);
    lemma_fib_every_third(11);
    lemma_even_fib_sum_next_even(11);
    assert(fib(14) == 610 && even_fib_sum(fib(14)) == 798);
    lemma_fib_every_third(14);
    lemma_even_fib_sum_next_even(14);
    assert(fib(17) == 2584 && even_fib_sum(fib(17)) == 3382);
    lemma_fib_every_third(17);
    lemma_even_fib_sum_next_even(17);
    assert(fib(20) == 10946 && even_fib_sum(fib(20)) == 14328);
    lemma_fib_every_third(20);
    lemma_even_fib_sum_next_even(20);
    assert(fib(23) == 46368 && even_fib_sum(fib(23)) == 60696);
    lemma_fib_every_third(23);
    lemma_even_fib_sum_next_even(23);
    assert(fib(26) == 196418 && even_fib_sum(fib(26)) == 257114);
    lemma_fib_every_third(26);
    lemma_even_fib_sum_next_even(26);
    assert(fib(29) == 832040 && even_fib_sum(fib(29)) == 1089154);
    lemma_fib_every_third(29);
    lemma_even_fib_sum_next_even(29);
    assert(fib(32) == 3524578 && even_fib_sum(fib(32)) == 4613732);
    // The next Fibonacci number is above four million.
    assert(fib(33) == fib(32) + fib(31));
    assert(fib(32) == fib(31) + fib(30));
    lemma_fib_increases(30, 31);
    lemma_even_fib_sum_between(32, 4_000_000);
}

} // verus!
