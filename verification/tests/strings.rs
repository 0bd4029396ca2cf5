use gutils::string::binary_search;
use gutils::string::check_inslusion;
use gutils::string::is_anagram;
use gutils::string::is_palindrome;
use gutils::string::is_valid_parentheses;
use gutils::string::is_word_pattern;
use gutils::string::length_of_last_word;
use gutils::string::logest_palindrome_substring;

#[test]
fn test_is_word_pattern() {
    let answer = is_word_pattern("abba", "lol kek kek lol");
    assert_eq!(answer, true);

    let answer = is_word_pattern("aaa", "lol kek lol");
    assert_eq!(answer, false);
}

#[test]
fn test_is_palindrome() {
    let answer = is_palindrome("lol", true);
    assert_eq!(answer, true);

    let answer = is_palindrome("lol", false);
    assert_eq!(answer, true);

    let answer = is_palindrome("loL", true);
    assert_eq!(answer, false);

    let answer = is_palindrome("loL", false);
    assert_eq!(answer, true);

    let answer = is_palindrome("hello", true);
    assert_eq!(answer, false);

    let answer = is_palindrome("hello", false);
    assert_eq!(answer, false);
}

#[test]
fn test_length_of_last_word() {
    let answer = length_of_last_word("Hello world!");
    assert_eq!(answer, 5);

    let answer = length_of_last_word("");
    assert_eq!(answer, 0);
}

#[test]
fn test_check_inslusion() {
    let answer = check_inslusion("abbc".to_string(), "cdoabbc".to_string());
    assert_eq!(answer, true);

    let answer = check_inslusion("abbc".to_string(), "ppwwm".to_string());
    assert_eq!(answer, false);
}

#[test]
fn test_is_anagram() {
    let answer = is_anagram("abbc".to_string(), "bbca".to_string());
    assert_eq!(answer, true);

    let answer = is_anagram("abbca".to_string(), "dvvb".to_string());
    assert_eq!(answer, false);

    let answer = is_anagram("abb".to_string(), "abc".to_string());
    assert_eq!(answer, false);
}

#[test]
fn test_logest_palindrome_substring() {
    let answer = logest_palindrome_substring("abcdcbaaerfqsfq".to_string());
    assert_eq!(answer, "abcdcba".to_string());

    let answer = logest_palindrome_substring("abcded".to_string());
    assert_eq!(answer, "ded".to_string());
}

#[test]
fn test_binary_search() {
    let answer = binary_search(vec![1, 2, 3, 4, 5], 4);
    assert_eq!(answer, 3);

    let answer = binary_search(vec![1, 2, 3, 4, 5], 6);
    assert_eq!(answer, -1);
}

#[test]
fn test_is_valid_parentheses() {
    let answer = is_valid_parentheses("({[]})".to_string());
    assert_eq!(answer, true);

    let answer = is_valid_parentheses("{{[]})".to_string());
    assert_eq!(answer, false);
}

#[test]
fn sliding_window_inclusion_examples() {
    assert_eq!(check_inslusion("abbc".to_string(), "gfaabbcqqw".to_string()), true);
    assert_eq!(check_inslusion("abbc".to_string(), "wqqwe".to_string()), false);
    // a pattern longer than the text never matches
    assert_eq!(check_inslusion("abbc".to_string(), "ab".to_string()), false);
}

#[test]
fn window_matcher_empty_boundaries() {
    // the degenerate equal-empty-length case matches
    assert_eq!(check_inslusion("".to_string(), "".to_string()), true);
    // an empty pattern matches the empty window of any text
    assert_eq!(check_inslusion("".to_string(), "abc".to_string()), true);
    // a nonempty pattern never fits an empty text
    assert_eq!(check_inslusion("a".to_string(), "".to_string()), false);
}

#[test]
fn word_pattern_empty_boundaries() {
    assert_eq!(is_word_pattern("", ""), true);
    assert_eq!(is_word_pattern("", "lol"), false);
    assert_eq!(is_word_pattern("a", ""), false);
}

#[test]
fn word_pattern_rejects_malformed_text() {
    // punctuation is neither alphanumeric nor whitespace
    assert_eq!(is_word_pattern("ab", "lol, kek"), false);
    // two symbols cannot share one token
    assert_eq!(is_word_pattern("ab", "lol lol"), false);
    assert_eq!(is_word_pattern("aabbaa", "lol lol kek kek lol lol"), true);
}

#[test]
fn palindrome_engine_boundaries() {
    assert_eq!(logest_palindrome_substring("".to_string()), "".to_string());
    assert_eq!(logest_palindrome_substring("a".to_string()), "a".to_string());
    // two equally long palindromes: the leftmost wins
    assert_eq!(logest_palindrome_substring("abcba xyzyx".to_string()), "abcba".to_string());
    assert_eq!(logest_palindrome_substring("abcd".to_string()), "a".to_string());
    assert_eq!(logest_palindrome_substring("aabb".to_string()), "aa".to_string());
    assert_eq!(logest_palindrome_substring("forgeeksskeegfor".to_string()), "geeksskeeg".to_string());
}

#[test]
fn palindrome_engine_is_idempotent() {
    let once = logest_palindrome_substring("abcdcbaaerfqsfq".to_string());
    let twice = logest_palindrome_substring(once.clone());
    assert_eq!(once, twice);
}

#[test]
fn skip_rule_palindrome_ignores_non_alphabetic() {
    assert_eq!(is_palindrome("l!o l", true), true);
    assert_eq!(is_palindrome("a1b2a", true), true);
    assert_eq!(is_palindrome("", true), true);
    assert_eq!(is_palindrome("", false), true);
    assert_eq!(is_palindrome("Aa", false), true);
    assert_eq!(is_palindrome("Aa", true), false);
}

#[test]
fn anagram_boundaries() {
    assert_eq!(is_anagram("".to_string(), "".to_string()), true);
    assert_eq!(is_anagram("a".to_string(), "".to_string()), false);
    assert_eq!(is_anagram("lol".to_string(), "llo".to_string()), true);
}

#[test]
fn last_word_filters_and_splits() {
    assert_eq!(length_of_last_word("the sky is blue"), 4);
    assert_eq!(length_of_last_word("hi!!!"), 2);
    assert_eq!(length_of_last_word("   "), 0);
}

#[test]
fn brackets_must_all_close() {
    assert_eq!(is_valid_parentheses("".to_string()), true);
    assert_eq!(is_valid_parentheses("(".to_string()), false);
    assert_eq!(is_valid_parentheses("([)]".to_string()), false);
    assert_eq!(is_valid_parentheses("a".to_string()), false);
}

#[test]
fn binary_search_edges() {
    assert_eq!(binary_search(vec![], 1), -1);
    assert_eq!(binary_search(vec![7], 7), 0);
    assert_eq!(binary_search(vec![1, 3, 5], 1), 0);
    assert_eq!(binary_search(vec![1, 3, 5], 5), 2);
    assert_eq!(binary_search(vec![1, 3, 5], 2), -1);
}

#[test]
fn word_pattern_is_stable_under_symbol_renaming() {
    // swapping the pattern symbols a and b changes nothing
    assert_eq!(
        is_word_pattern("abba", "lol kek kek lol"),
        is_word_pattern("baab", "lol kek kek lol")
    );
    assert_eq!(
        is_word_pattern("aaa", "lol kek lol"),
        is_word_pattern("bbb", "lol kek lol")
    );
    assert_eq!(is_word_pattern("baab", "lol kek kek lol"), true);
    assert_eq!(is_word_pattern("bbb", "lol kek lol"), false);
}
