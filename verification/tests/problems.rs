use euler::{
    collect_u8, fizzbuzz_sum, is_palindrome, largest_prime_factor, p1, p2, p2_internal, p3, p4,
    p4_internal, p5, p5_internal, p6, p6_internal, DigIter, FibIter,
};

#[test]
fn test_p1() {
    assert_eq!(fizzbuzz_sum(10), 23);
    assert_eq!(p1(), 233168);
}

#[test]
fn test_p2() {
    let mut iter = FibIter::new();

    let answers = [1, 2, 3, 5, 8, 13, 21, 34, 55, 89];
    for &ans in answers.iter() {
        assert_eq!(iter.next(), Some(ans))
    }

    assert_eq!(p2_internal(89), 44);
    assert_eq!(p2(), 4613732);
}

#[test]
fn test_p3() {
    assert_eq!(largest_prime_factor(13195), 29);
    assert_eq!(p3(), 6857);
}

#[test]
fn test_p4() {
    let mut digits = [0; 3];
    let iter = DigIter::new(123);
    assert_eq!(collect_u8(&mut digits, iter), 3);
    assert_eq!(digits, [3, 2, 1]);

    assert_eq!(is_palindrome(0), true);
    assert_eq!(is_palindrome(11), true);
    assert_eq!(is_palindrome(12), false);
    assert_eq!(is_palindrome(909), true);
    assert_eq!(is_palindrome(908), false);
    assert_eq!(is_palindrome(9009), true);
    assert_eq!(is_palindrome(9129), false);
    assert_eq!(p4_internal(2), 9009);
    assert_eq!(p4(), 906609);
}

#[test]
fn test_p5() {
    assert_eq!(p5_internal(10), 2520);
    assert_eq!(p5(), 232792560);
}

#[test]
fn test_p6() {
    assert_eq!(p6_internal(10), 2640);
    assert_eq!(p6(), 25164150);
}
