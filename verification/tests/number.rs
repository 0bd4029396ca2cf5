use gutils::number::find_missing_number;
use gutils::number::find_single_number;
use gutils::number::is_even;
use gutils::number::is_odd;
use gutils::number::is_palindrome;

#[test]
fn is_palindrome_test() {
    let answer = is_palindrome(0);
    assert_eq!(answer, true);

    let answer = is_palindrome(1);
    assert_eq!(answer, true);

    let answer = is_palindrome(2);
    assert_eq!(answer, true);

    let answer = is_palindrome(3);
    assert_eq!(answer, true);

    let answer = is_palindrome(4);
    assert_eq!(answer, true);

    let answer = is_palindrome(5);
    assert_eq!(answer, true);

    let answer = is_palindrome(6);
    assert_eq!(answer, true);

    let answer = is_palindrome(7);
    assert_eq!(answer, true);

    let answer = is_palindrome(8);
    assert_eq!(answer, true);

    let answer = is_palindrome(9);
    assert_eq!(answer, true);

    let answer = is_palindrome(11);
    assert_eq!(answer, true);

    let answer = is_palindrome(222);
    assert_eq!(answer, true);

    let answer = is_palindrome(3333);
    assert_eq!(answer, true);

    let answer = is_palindrome(52225);
    assert_eq!(answer, true);

    let answer = is_palindrome(12);
    assert_eq!(answer, false);

    let answer = is_palindrome(223);
    assert_eq!(answer, false);

    let answer = is_palindrome(3334);
    assert_eq!(answer, false);

    let answer = is_palindrome(52226);
    assert_eq!(answer, false);
}

#[test]
fn is_odd_test() {
    let answer = is_odd(21);
    assert_eq!(answer, true);

    let answer = is_odd(20);
    assert_eq!(answer, false);
}

#[test]
fn is_even_test() {
    let answer = is_even(21);
    assert_eq!(answer, false);

    let answer = is_even(20);
    assert_eq!(answer, true);
}

#[test]
fn test_find_missing_number() {
    let answer = find_missing_number(vec![0, 1, 2, 3, 5]);
    assert_eq!(answer, 4);

    let answer = find_missing_number(vec![0, 1, 2, 3, 4, 6, 7, 8, 9, 10]);
    assert_eq!(answer, 5);

    let answer = find_missing_number(vec![0, 1, 2, 3, 4, 5]);
    assert_eq!(answer, 6);
}

#[test]
fn test_find_single_number() {
    let answer = find_single_number(vec![1, 1, 2, 2, 3, 3, 4]);
    assert_eq!(answer, 4);

    let answer = find_single_number(vec![1, 1, 2, 2, 3, 4, 4, 3, 5]);
    assert_eq!(answer, 5);

    let answer = find_single_number(vec![1, 1, 2, 2, 3, 3]);
    assert_eq!(answer, 0);
}

#[test]
fn negative_and_trailing_zero_are_no_palindromes() {
    assert_eq!(is_palindrome(-121), false);
    assert_eq!(is_palindrome(10), false);
    assert_eq!(is_palindrome(1000021), false);
    assert_eq!(is_palindrome(1221), true);
}

#[test]
fn missing_number_boundaries() {
    assert_eq!(find_missing_number(vec![]), 0);
    assert_eq!(find_missing_number(vec![0]), 1);
    assert_eq!(find_missing_number(vec![1]), 0);
}
