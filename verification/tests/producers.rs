use euler::{collect_u8, is_palindrome, p2_internal, DigIter, FibIter};

#[test]
fn fib_first_output_is_one() {
    let mut iter = FibIter::new();
    assert_eq!(iter.next(), Some(1));
    assert_eq!(iter.next(), Some(2));
}

#[test]
fn fib_outputs_follow_the_recurrence() {
    let mut iter = FibIter::new();
    let mut before = iter.next().unwrap();
    let mut last = iter.next().unwrap();
    for _ in 0..60 {
        let next = iter.next().unwrap();
        assert_eq!(next, before + last);
        assert!(next > last);
        before = last;
        last = next;
    }
}

#[test]
fn fib_reaches_the_last_number_that_fits() {
    let mut iter = FibIter::new();
    let mut last = 0;
    for _ in 0..91 {
        last = iter.next().unwrap();
    }
    assert_eq!(last, 7540113804746346429);
}

#[test]
fn fib_rebuilt_gives_the_same_outputs() {
    let mut a = FibIter::new();
    let mut first = Vec::new();
    for _ in 0..40 {
        first.push(a.next());
    }
    let mut b = FibIter::new();
    let mut second = Vec::new();
    for _ in 0..40 {
        second.push(b.next());
    }
    assert_eq!(first, second);
}

#[test]
fn even_fib_sum_small_ceilings() {
    assert_eq!(p2_internal(0), 0);
    assert_eq!(p2_internal(1), 0);
    assert_eq!(p2_internal(2), 2);
    assert_eq!(p2_internal(7), 2);
    assert_eq!(p2_internal(8), 10);
    assert_eq!(p2_internal(33), 10);
    assert_eq!(p2_internal(34), 44);
    assert_eq!(p2_internal(88), 44);
}

#[test]
fn even_fib_sum_at_the_largest_ceiling() {
    // Even Fibonacci numbers up to fib(91) - 1; the last even one is fib(89).
    let mut expected: u64 = 0;
    let (mut a, mut b) = (1u64, 2u64);
    while a <= 7540113804746346428 {
        if a % 2 == 0 {
            expected += a;
        }
        let c = a + b;
        a = b;
        b = c;
    }
    assert_eq!(p2_internal(7540113804746346428), expected);
    assert_eq!(expected, 3770056902373173214);
}

#[test]
fn digits_of_zero_are_none() {
    let mut iter = DigIter::new(0);
    assert_eq!(iter.next(), None);
    assert_eq!(iter.next(), None);
}

#[test]
fn digits_come_least_significant_first() {
    let mut iter = DigIter::new(9075);
    assert_eq!(iter.next(), Some(5));
    assert_eq!(iter.next(), Some(7));
    assert_eq!(iter.next(), Some(0));
    assert_eq!(iter.next(), Some(9));
    assert_eq!(iter.next(), None);
    assert_eq!(iter.next(), None);
}

#[test]
fn digits_of_a_power_of_ten() {
    let mut buf = [7u8; 5];
    assert_eq!(collect_u8(&mut buf, DigIter::new(1000)), 4);
    assert_eq!(buf, [0, 0, 0, 1, 7]);
}

#[test]
fn digits_of_the_largest_number() {
    let mut buf = [0u8; 32];
    let n = collect_u8(&mut buf, DigIter::new(u64::MAX));
    assert_eq!(n, 20);
    let expected: [u8; 20] = [5, 1, 6, 1, 5, 5, 9, 0, 7, 3, 7, 0, 4, 4, 7, 6, 4, 4, 8, 1];
    assert_eq!(&buf[..20], &expected[..]);
    assert_eq!(&buf[20..], &[0u8; 12][..]);
}

#[test]
fn collect_keeps_the_rest_of_the_buffer() {
    let mut buf = [9u8; 6];
    assert_eq!(collect_u8(&mut buf, DigIter::new(42)), 2);
    assert_eq!(buf, [2, 4, 9, 9, 9, 9]);
}

#[test]
fn collect_of_zero_writes_nothing() {
    let mut buf = [9u8; 2];
    assert_eq!(collect_u8(&mut buf, DigIter::new(0)), 0);
    assert_eq!(buf, [9, 9]);
    let mut empty: [u8; 0] = [];
    assert_eq!(collect_u8(&mut empty, DigIter::new(0)), 0);
}

#[test]
fn collect_from_a_producer_already_advanced() {
    let mut iter = DigIter::new(123);
    assert_eq!(iter.next(), Some(3));
    let mut buf = [0u8; 2];
    assert_eq!(collect_u8(&mut buf, iter), 2);
    assert_eq!(buf, [2, 1]);
}

#[test]
fn digits_rebuilt_give_the_same_outputs() {
    let mut first = [0u8; 32];
    let mut second = [0u8; 32];
    let n = collect_u8(&mut first, DigIter::new(600851475143));
    let m = collect_u8(&mut second, DigIter::new(600851475143));
    assert_eq!(n, 12);
    assert_eq!(n, m);
    assert_eq!(first, second);
}

#[test]
fn palindromes_by_length() {
    for x in 0..10 {
        assert!(is_palindrome(x));
    }
    assert!(is_palindrome(121));
    assert!(is_palindrome(1221));
    assert!(is_palindrome(12321));
    assert!(!is_palindrome(10));
    assert!(!is_palindrome(100));
    assert!(!is_palindrome(1231));
    assert!(!is_palindrome(12311));
    assert!(is_palindrome(906609));
    assert!(!is_palindrome(u64::MAX));
    assert!(is_palindrome(9999999999999999999));
    assert!(is_palindrome(1000000000000000001));
}
