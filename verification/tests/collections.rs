use gutils::collections::find_duplicate;
use gutils::collections::find_majority_element;
use gutils::collections::is_duplicate;
use gutils::collections::lenght_of_longest_non_repeatable_substring;
use gutils::collections::two_sum;

#[test]
fn test_is_duplicate() {
    let answer = is_duplicate(vec![1, 2, 3, 4, 5]);
    assert_eq!(answer, false);

    let answer = is_duplicate(vec![1, 2, 3, 3, 5]);
    assert_eq!(answer, true);
}

#[test]
fn test_find_duplicate() {
    let answer = find_duplicate(vec![1, 2, 3, 4, 5]);
    assert_eq!(answer, None);

    let answer = find_duplicate(vec![1, 2, 3, 3, 5]);
    assert_eq!(answer, Some(3));
}

#[test]
fn test_lenght_of_longest_non_repeatable_substring() {
    let answer = lenght_of_longest_non_repeatable_substring("abcdeffeacb".to_string());
    assert_eq!(answer, 6);

    let answer = lenght_of_longest_non_repeatable_substring("".to_string());
    assert_eq!(answer, 0);

    let answer = lenght_of_longest_non_repeatable_substring("a".to_string());
    assert_eq!(answer, 1);
}

#[test]
fn test_two_sum() {
    let answer = two_sum(vec![1, 2, 3, 5, 2], 7);
    assert_eq!(answer, vec![1, 3]);

    let answer = two_sum(vec![1, 2, 3, 5], 9);
    assert_eq!(answer, vec![]);
}

#[test]
fn test_find_majority_element() {
    let answer = find_majority_element(vec![3, 2, 3]);
    assert_eq!(answer, 3);

    let answer = find_majority_element(vec![1, 2, 3]);
    assert_eq!(answer, -1);
}

#[test]
fn longest_non_repeatable_full_and_single() {
    assert_eq!(lenght_of_longest_non_repeatable_substring("abcda".to_string()), 4);
    assert_eq!(lenght_of_longest_non_repeatable_substring("aaaa".to_string()), 1);
    assert_eq!(lenght_of_longest_non_repeatable_substring("abc".to_string()), 3);
}

#[test]
fn two_sum_picks_first_second_index_and_latest_partner() {
    // 2 occurs at 0 and 1; the partner of index 2 must be the later one
    assert_eq!(two_sum(vec![2, 2, 4], 6), vec![1, 2]);
    assert_eq!(two_sum(vec![1, 2, 3, 4], 5), vec![1, 2]);
}

#[test]
fn majority_needs_more_than_half() {
    assert_eq!(find_majority_element(vec![1, 1, 2, 2]), -1);
    assert_eq!(find_majority_element(vec![2, 2, 1, 2]), 2);
    assert_eq!(find_majority_element(vec![]), -1);
}

#[test]
fn duplicate_of_strings() {
    let answer = is_duplicate(vec!["a".to_string(), "b".to_string(), "a".to_string()]);
    assert_eq!(answer, true);
    let answer = is_duplicate(vec!["a".to_string(), "b".to_string()]);
    assert_eq!(answer, false);
}
