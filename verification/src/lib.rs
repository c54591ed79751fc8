//! Small number-theoretic solvers, each a pure function with a proved contract:
//! sums of multiples, even Fibonacci terms, prime factors, palindromic products,
//! least common multiples and sums of squares.

pub mod digits;
pub mod divisibility;
pub mod fibonacci;
pub mod lcm;
pub mod multiples;
pub mod primes;
pub mod products;
pub mod squares;

pub use digits::{collect_u8, is_palindrome, DigIter};
pub use fibonacci::{p2, p2_internal, FibIter};
pub use lcm::{gcd, lcm, lcm_iter, p5, p5_internal};
pub use multiples::{fizzbuzz_sum, p1};
pub use primes::{is_prime, isqrt_ceil, largest_prime_factor, p3};
pub use products::{p4, p4_internal};
pub use squares::{abs_diff, p6, p6_internal};
