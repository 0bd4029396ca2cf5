//! String algorithms: longest palindromic substring, anagram testing,
//! word-pattern matching, skip-rule palindrome testing, last-word length,
//! sliding-window permutation inclusion, binary search, and
//! balanced-bracket validation.

use vstd::prelude::*;
use crate::chars::{str_to_chars, chars_eq, alnum_char, white_char, alpha_char, lower_of,
    to_lower_chars};
use crate::manacher::{lps_valid, lps_occurrence, pal_at, longest_pal_span};
use crate::seq_facts::{count_of, lemma_count_bounds, lemma_count_contains, lemma_count_peel_front,
    filter_by, lemma_filter_push, pal_seq};
use crate::tokens::{tokens_by, ascii_white_pred, views_of, split_tokens_ascii,
    split_tokens_unicode};

verus! {

/// Every character of the text is alphanumeric or whitespace.
pub open spec fn valid_text(t: Seq<char>) -> bool {
    forall|i: int| 0 <= i < t.len() ==> alnum_char(#[trigger] t[i]) || white_char(t[i])
}

/// Two equal pattern symbols always face equal tokens, and two equal
/// tokens always face equal pattern symbols: the positions can be put in
/// a one-to-one, onto correspondence.
pub open spec fn pattern_consistent(p: Seq<char>, toks: Seq<Seq<char>>) -> bool {
    forall|i: int, j: int|
        0 <= i < p.len() && 0 <= j < p.len() ==> ((#[trigger] p[i] == #[trigger] p[j]) <==> (
        toks[i] == toks[j]))
}

/// What the word-pattern matcher decides: the text holds only
/// alphanumeric and whitespace characters, splits on ASCII whitespace
/// into exactly one token per pattern symbol, and the symbol/token
/// correspondence is a bijection.
pub open spec fn word_pattern_spec(p: Seq<char>, s: Seq<char>) -> bool {
    &&& valid_text(s)
    &&& tokens_by(s, ascii_white_pred()).len() == p.len()
    &&& pattern_consistent(p, tokens_by(s, ascii_white_pred()))
}

/// Whether the whitespace-delimited tokens of `s` match `pattern` under
/// some bijection between pattern symbols and tokens.  Malformed text
/// (characters outside alphanumeric/whitespace) and a token count
/// different from the pattern length yield `false`, indistinguishable
/// from a genuine mismatch.
pub fn is_word_pattern(pattern: &str, s: &str) -> (r: bool)
    ensures
        r == word_pattern_spec(pattern@, s@),
{
    let sc = str_to_chars(s);
    let mut v: usize = 0;
    while v < sc.len()
        invariant
            sc@ == s@,
            v <= sc@.len(),
            forall|i: int| 0 <= i < v ==> alnum_char(#[trigger] s@[i]) || white_char(s@[i]),
        decreases sc@.len() - v,
    {
        let c = sc[v];
        if !(c.is_alphanumeric() || c.is_whitespace()) {
            proof {
                assert(!(alnum_char(s@[v as int]) || white_char(s@[v as int])));
            }
            return false;
        }
        v += 1;
    }
    let toks = split_tokens_ascii(&sc);
    let pc = str_to_chars(pattern);
    if toks.len() != pc.len() {
        return false;
    }
    let n = pc.len();
    let ghost tv = views_of(toks@);
    let mut i: usize = 0;
    while i < n
        invariant
            sc@ == s@,
            pc@ == pattern@,
            tv == views_of(toks@),
            tv == tokens_by(s@, ascii_white_pred()),
            n == pc@.len(),
            n == toks@.len(),
            valid_text(s@),
            i <= n,
            forall|i2: int, j2: int|
                0 <= i2 < i && 0 <= j2 < n ==> ((#[trigger] pattern@[i2] == #[trigger] pattern@[j2])
                    <==> (tv[i2] == tv[j2])),
        decreases n - i,
    {
        let mut j: usize = 0;
        while j < n
            invariant
                sc@ == s@,
                pc@ == pattern@,
                tv == views_of(toks@),
                tv == tokens_by(s@, ascii_white_pred()),
                n == pc@.len(),
                n == toks@.len(),
                i < n,
                j <= n,
                forall|j2: int| 0 <= j2 < j ==> ((pattern@[i as int] == #[trigger] pattern@[j2])
                    <==> (tv[i as int] == tv[j2])),
            decreases n - j,
        {
            let same_sym = pc[i] == pc[j];
            let same_tok = chars_eq(&toks[i], &toks[j]);
            proof {
                assert(tv[i as int] == toks@[i as int]@);
                assert(tv[j as int] == toks@[j as int]@);
            }
            if same_sym != same_tok {
                proof {
                    assert(!((pattern@[i as int] == pattern@[j as int]) <==> (tv[i as int]
                        == tv[j as int])));
                    assert(!pattern_consistent(pattern@, tv));
                }
                return false;
            }
            j += 1;
        }
        i += 1;
    }
    proof {
        assert(pattern_consistent(pattern@, tv));
    }
    true
}

/// Renaming the pattern symbols through any one-to-one mapping does not
/// change what the word-pattern matcher decides.
pub proof fn lemma_word_pattern_rename(
    p1: Seq<char>,
    p2: Seq<char>,
    s: Seq<char>,
    f: spec_fn(char) -> char,
)
    requires
        p2.len() == p1.len(),
        forall|i: int| 0 <= i < p1.len() ==> p2[i] == f(#[trigger] p1[i]),
        forall|a: char, b: char| #[trigger] f(a) == #[trigger] f(b) ==> a == b,
    ensures
        word_pattern_spec(p1, s) == word_pattern_spec(p2, s),
{
    let toks = tokens_by(s, ascii_white_pred());
    assert forall|i: int, j: int| 0 <= i < p1.len() && 0 <= j < p1.len() implies ((p1[i] == p1[j])
        <==> (p2[i] == p2[j])) by {
        assert(p2[i] == f(p1[i]));
        assert(p2[j] == f(p1[j]));
    }
    if pattern_consistent(p1, toks) {
        assert forall|i: int, j: int|
            0 <= i < p2.len() && 0 <= j < p2.len() implies ((#[trigger] p2[i] == #[trigger] p2[j])
            <==> (toks[i] == toks[j])) by {
            assert((p1[i] == p1[j]) <==> (toks[i] == toks[j]));
        }
    }
    if pattern_consistent(p2, toks) {
        assert forall|i: int, j: int|
            0 <= i < p1.len() && 0 <= j < p1.len() implies ((#[trigger] p1[i] == #[trigger] p1[j])
            <==> (toks[i] == toks[j])) by {
            assert((p2[i] == p2[j]) <==> (toks[i] == toks[j]));
        }
    }
}

/// How many entries of the vector equal `c`.
fn count_chars(v: &Vec<char>, c: char) -> (n: usize)
    ensures
        n as int == count_of(v@, c),
{
    let mut n: usize = 0;
    let mut i: usize = 0;
    while i < v.len()
        invariant
            i <= v@.len(),
            n as int == count_of(v@.take(i as int), c),
            n <= i,
        decreases v@.len() - i,
    {
        proof {
            assert(v@.take(i + 1).drop_last() =~= v@.take(i as int));
            assert(v@.take(i + 1).last() == v@[i as int]);
            lemma_count_bounds(v@.take(i as int), c);
        }
        if v[i] == c {
            n += 1;
        }
        i += 1;
    }
    proof {
        assert(v@.take(v@.len() as int) =~= v@);
    }
    n
}

/// Whether the two strings hold the same characters with the same
/// multiplicities, in any order.
pub fn is_anagram(s1: String, s2: String) -> (r: bool)
    ensures
        r == (s1@.len() == s2@.len() && forall|c: char| #[trigger] count_of(s1@, c) == count_of(
            s2@,
            c,
        )),
{
    let cs1 = str_to_chars(s1.as_str());
    let cs2 = str_to_chars(s2.as_str());
    if cs1.len() != cs2.len() {
        return false;
    }
    let mut i: usize = 0;
    while i < cs1.len()
        invariant
            cs1@ == s1@,
            cs2@ == s2@,
            s1@.len() == s2@.len(),
            i <= cs1@.len(),
            forall|k: int| 0 <= k < i ==> count_of(s1@, #[trigger] s1@[k]) == count_of(
                s2@,
                s1@[k],
            ),
        decreases cs1@.len() - i,
    {
        let c1 = count_chars(&cs1, cs1[i]);
        let c2 = count_chars(&cs2, cs1[i]);
        if c1 != c2 {
            proof {
                assert(count_of(s1@, s1@[i as int]) != count_of(s2@, s1@[i as int]));
            }
            return false;
        }
        i += 1;
    }
    let mut j: usize = 0;
    while j < cs2.len()
        invariant
            cs1@ == s1@,
            cs2@ == s2@,
            s1@.len() == s2@.len(),
            j <= cs2@.len(),
            forall|k: int| 0 <= k < j ==> count_of(s1@, #[trigger] s2@[k]) == count_of(
                s2@,
                s2@[k],
            ),
        decreases cs2@.len() - j,
    {
        let c1 = count_chars(&cs1, cs2[j]);
        let c2 = count_chars(&cs2, cs2[j]);
        if c1 != c2 {
            proof {
                assert(count_of(s1@, s2@[j as int]) != count_of(s2@, s2@[j as int]));
            }
            return false;
        }
        j += 1;
    }
    proof {
        assert forall|c: char| #[trigger] count_of(s1@, c) == count_of(s2@, c) by {
            lemma_count_contains(s1@, c);
            lemma_count_contains(s2@, c);
            lemma_count_bounds(s1@, c);
            lemma_count_bounds(s2@, c);
            if count_of(s1@, c) > 0 {
                let k = choose|k: int| 0 <= k < s1@.len() && s1@[k] == c;
                assert(count_of(s1@, s1@[k]) == count_of(s2@, s1@[k]));
            } else if count_of(s2@, c) > 0 {
                let k = choose|k: int| 0 <= k < s2@.len() && s2@[k] == c;
                assert(count_of(s1@, s2@[k]) == count_of(s2@, s2@[k]));
            }
        }
    }
    true
}

/// The characters kept by the last-word scan: alphanumeric or
/// whitespace.
pub open spec fn alnum_or_white_pred() -> spec_fn(char) -> bool {
    |c: char| alnum_char(c) || white_char(c)
}

/// The alphabetic characters, kept by the skip-rule palindrome test.
pub open spec fn alpha_pred() -> spec_fn(char) -> bool {
    |c: char| alpha_char(c)
}

/// Keep the alphanumeric and whitespace characters of the vector.
fn filter_alnum_white(cs: &Vec<char>) -> (r: Vec<char>)
    ensures
        r@ == filter_by(cs@, alnum_or_white_pred()),
{
    let mut r: Vec<char> = Vec::new();
    let mut i: usize = 0;
    proof {
        assert(cs@.take(0) =~= Seq::<char>::empty());
    }
    while i < cs.len()
        invariant
            i <= cs@.len(),
            r@ == filter_by(cs@.take(i as int), alnum_or_white_pred()),
        decreases cs@.len() - i,
    {
        let c = cs[i];
        proof {
            lemma_filter_push(cs@.take(i as int), alnum_or_white_pred(), cs@[i as int]);
            assert(cs@.take(i as int).push(cs@[i as int]) =~= cs@.take(i + 1));
        }
        if c.is_alphanumeric() || c.is_whitespace() {
            r.push(c);
            proof {
                assert(r@ =~= filter_by(cs@.take(i as int), alnum_or_white_pred()) + seq![
                    cs@[i as int],
                ]);
            }
        } else {
            proof {
                assert(filter_by(cs@.take(i + 1), alnum_or_white_pred()) =~= filter_by(
                    cs@.take(i as int),
                    alnum_or_white_pred(),
                ));
            }
        }
        i += 1;
    }
    proof {
        assert(cs@.take(cs@.len() as int) =~= cs@);
    }
    r
}

/// Keep the alphabetic characters of the vector.
fn filter_alpha(cs: &Vec<char>) -> (r: Vec<char>)
    ensures
        r@ == filter_by(cs@, alpha_pred()),
{
    let mut r: Vec<char> = Vec::new();
    let mut i: usize = 0;
    proof {
        assert(cs@.take(0) =~= Seq::<char>::empty());
    }
    while i < cs.len()
        invariant
            i <= cs@.len(),
            r@ == filter_by(cs@.take(i as int), alpha_pred()),
        decreases cs@.len() - i,
    {
        let c = cs[i];
        proof {
            lemma_filter_push(cs@.take(i as int), alpha_pred(), cs@[i as int]);
            assert(cs@.take(i as int).push(cs@[i as int]) =~= cs@.take(i + 1));
        }
        if c.is_alphabetic() {
            r.push(c);
            proof {
                assert(r@ =~= filter_by(cs@.take(i as int), alpha_pred()) + seq![cs@[i as int]]);
            }
        } else {
            proof {
                assert(filter_by(cs@.take(i + 1), alpha_pred()) =~= filter_by(
                    cs@.take(i as int),
                    alpha_pred(),
                ));
            }
        }
        i += 1;
    }
    proof {
        assert(cs@.take(cs@.len() as int) =~= cs@);
    }
    r
}

/// Return the length of the last whitespace-delimited word, after
/// discarding every character that is neither alphanumeric nor
/// whitespace.  A string without words yields `0`.
pub fn length_of_last_word(s: &str) -> (r: i32)
    requires
        s@.len() <= i32::MAX,
    ensures
        ({
            let toks = tokens_by(
                filter_by(s@, alnum_or_white_pred()),
                crate::tokens::unicode_white_pred(),
            );
            &&& toks.len() == 0 ==> r == 0
            &&& toks.len() > 0 ==> r == toks.last().len()
        }),
{
    let cs = str_to_chars(s);
    let kept = filter_alnum_white(&cs);
    let toks = split_tokens_unicode(&kept);
    if toks.len() == 0 {
        return 0;
    }
    let last = &toks[toks.len() - 1];
    proof {
        let tv = views_of(toks@);
        assert(tv[toks@.len() - 1] == toks@[toks@.len() - 1]@);
        crate::seq_facts::lemma_filter_len(s@, alnum_or_white_pred());
        assert(kept@.len() <= s@.len());
        assert(toks@[toks@.len() - 1]@.len() <= kept@.len());
    }
    last.len() as i32
}

/// Whether the alphabetic characters of the word read the same forwards
/// and backwards, after lowercasing each when `exact` is `false`.
pub open spec fn lower_eq_pal(t: Seq<char>) -> bool {
    forall|i: int| 0 <= i < t.len() ==> lower_of(#[trigger] t[i]) == lower_of(t[t.len() - 1 - i])
}

/// Two-pointer palindrome test over the alphabetic characters only.
/// With `is_case_ignore` set, characters are compared exactly; without
/// it, their lowercase forms are compared.
pub fn is_palindrome(word: &str, is_case_ignore: bool) -> (r: bool)
    ensures
        is_case_ignore ==> r == pal_seq(filter_by(word@, alpha_pred())),
        !is_case_ignore ==> r == lower_eq_pal(filter_by(word@, alpha_pred())),
{
    let cs = str_to_chars(word);
    let letters = filter_alpha(&cs);
    let ghost lt = letters@;
    let n = letters.len();
    let mut lo: usize = 0;
    while lo + 1 < n - lo
        invariant
            lt == letters@,
            lt == filter_by(word@, alpha_pred()),
            n == lt.len(),
            2 * lo <= n + 1,
            is_case_ignore ==> forall|k: int| 0 <= k < lo ==> #[trigger] lt[k] == lt[n - 1 - k],
            !is_case_ignore ==> forall|k: int| 0 <= k < lo ==> lower_of(#[trigger] lt[k])
                == lower_of(lt[n - 1 - k]),
        decreases n - 2 * lo,
    {
        if is_case_ignore {
            if letters[lo] != letters[n - 1 - lo] {
                proof {
                    let gl = lo as int;
                    let gn = n as int;
                    if pal_seq(lt) {
                        assert(lt[gl] == lt[gn - 1 - gl]);
                        assert(false);
                    }
                }
                return false;
            }
        } else {
            let la = to_lower_chars(letters[lo]);
            let lb = to_lower_chars(letters[n - 1 - lo]);
            if !chars_eq(&la, &lb) {
                proof {
                    let gl = lo as int;
                    let gn = n as int;
                    if lower_eq_pal(lt) {
                        assert(lower_of(lt[gl]) == lower_of(lt[gn - 1 - gl]));
                        assert(false);
                    }
                }
                return false;
            }
        }
        lo += 1;
    }
    proof {
        let gn = n as int;
        let gl = lo as int;
        if is_case_ignore {
            assert forall|i: int| 0 <= i < gn implies #[trigger] lt[i] == lt[gn - 1 - i] by {
                if i < gl {
                } else if gn - 1 - i < gl {
                    assert(lt[gn - 1 - i] == lt[gn - 1 - (gn - 1 - i)]);
                } else {
                    assert(i == gn - 1 - i);
                }
            }
        } else {
            assert forall|i: int| 0 <= i < gn implies lower_of(#[trigger] lt[i]) == lower_of(
                lt[gn - 1 - i],
            ) by {
                if i < gl {
                } else if gn - 1 - i < gl {
                    assert(lower_of(lt[gn - 1 - i]) == lower_of(lt[gn - 1 - (gn - 1 - i)]));
                } else {
                    assert(i == gn - 1 - i);
                }
            }
        }
    }
    true
}

/// The three opening brackets.
pub open spec fn is_open_bracket(c: char) -> bool {
    c == '(' || c == '{' || c == '['
}

/// `c` closes the opening bracket `o`.
pub open spec fn bracket_matches(o: char, c: char) -> bool {
    ||| o == '(' && c == ')'
    ||| o == '{' && c == '}'
    ||| o == '[' && c == ']'
}

/// The stack machine for bracket matching, read from position `i` with
/// the given stack of open brackets: every opening bracket is pushed,
/// every other character must close the newest open bracket, and at the
/// end the stack must be empty.
pub open spec fn balanced_from(s: Seq<char>, i: int, stack: Seq<char>) -> bool
    decreases s.len() - i,
    when 0 <= i <= s.len()
{
    if i == s.len() {
        stack.len() == 0
    } else if is_open_bracket(s[i]) {
        balanced_from(s, i + 1, stack.push(s[i]))
    } else if stack.len() > 0 && bracket_matches(stack.last(), s[i]) {
        balanced_from(s, i + 1, stack.drop_last())
    } else {
        false
    }
}

/// The string is a balanced sequence of the three bracket pairs.
pub open spec fn balanced(s: Seq<char>) -> bool {
    balanced_from(s, 0, Seq::empty())
}

/// Whether the string is a balanced sequence of round, curly and square
/// brackets.  Any other character makes the string invalid.
pub fn is_valid_parentheses(s: String) -> (r: bool)
    ensures
        r == balanced(s@),
{
    let cs = str_to_chars(s.as_str());
    let mut st: Vec<char> = Vec::new();
    let mut i: usize = 0;
    while i < cs.len()
        invariant
            cs@ == s@,
            i <= cs@.len(),
            balanced(s@) == balanced_from(s@, i as int, st@),
        decreases cs@.len() - i,
    {
        let c = cs[i];
        let ghost st_old = st@;
        if c == '(' || c == '{' || c == '[' {
            st.push(c);
            proof {
                assert(is_open_bracket(s@[i as int]));
                assert(balanced_from(s@, i as int, st_old) == balanced_from(
                    s@,
                    i as int + 1,
                    st_old.push(c),
                ));
            }
        } else {
            proof {
                assert(!is_open_bracket(s@[i as int]));
            }
            match st.pop() {
                Some(o) => {
                    if o == '(' && c == ')' || o == '{' && c == '}' || o == '[' && c == ']' {
                        proof {
                            assert(o == st_old.last());
                            assert(st@ =~= st_old.drop_last());
                            assert(bracket_matches(st_old.last(), s@[i as int]));
                            assert(balanced_from(s@, i as int, st_old) == balanced_from(
                                s@,
                                i as int + 1,
                                st_old.drop_last(),
                            ));
                        }
                    } else {
                        proof {
                            assert(o == st_old.last());
                            assert(!bracket_matches(st_old.last(), s@[i as int]));
                            assert(!balanced_from(s@, i as int, st_old));
                        }
                        return false;
                    }
                },
                None => {
                    proof {
                        assert(st_old.len() == 0);
                        assert(!balanced_from(s@, i as int, st_old));
                    }
                    return false;
                },
            }
        }
        i += 1;
    }
    st.len() == 0
}

/// A lowercase ASCII letter.
pub open spec fn lowercase_char(c: char) -> bool {
    97 <= c as u32 <= 122
}

/// The lowercase letter with slot `l` of the frequency table.
pub open spec fn letter_at(l: int) -> char {
    ((97 + l) as u8) as char
}

/// A lowercase letter is the letter of its own slot.
proof fn lemma_letter_roundtrip(c: char)
    requires
        lowercase_char(c),
    ensures
        letter_at(c as u32 - 97) == c,
{
}

/// The window of `t` of length `|p|` starting at `k` is a character
/// multiset permutation of `p`.
pub open spec fn window_match(p: Seq<char>, t: Seq<char>, k: int) -> bool {
    forall|c: char| #[trigger] count_of(p, c) == count_of(t.subrange(k, k + p.len() as int), c)
}

/// The frequency table is all zero exactly when the current window is a
/// multiset match of the pattern, given that both hold only lowercase
/// letters.
proof fn lemma_dict_window(p: Seq<char>, t: Seq<char>, k: int, dict: Seq<i64>)
    requires
        dict.len() == 26,
        0 <= k,
        k + p.len() <= t.len(),
        forall|i: int| 0 <= i < p.len() ==> lowercase_char(#[trigger] p[i]),
        forall|i: int| 0 <= i < t.len() ==> lowercase_char(#[trigger] t[i]),
        forall|l: int| 0 <= l < 26 ==> #[trigger] dict[l] == count_of(p, letter_at(l)) - count_of(
            t.subrange(k, k + p.len() as int),
            letter_at(l),
        ),
    ensures
        (forall|l: int| 0 <= l < 26 ==> #[trigger] dict[l] == 0) <==> window_match(p, t, k),
{
    let win = t.subrange(k, k + p.len() as int);
    if forall|l: int| 0 <= l < 26 ==> #[trigger] dict[l] == 0 {
        assert forall|c: char| #[trigger] count_of(p, c) == count_of(win, c) by {
            if lowercase_char(c) {
                let l = c as u32 - 97;
                lemma_letter_roundtrip(c);
                assert(dict[l as int] == 0);
            } else {
                lemma_count_contains(p, c);
                lemma_count_contains(win, c);
                lemma_count_bounds(p, c);
                lemma_count_bounds(win, c);
                if count_of(p, c) > 0 {
                    let i = choose|i: int| 0 <= i < p.len() && p[i] == c;
                    assert(lowercase_char(p[i]));
                    assert(false);
                }
                if count_of(win, c) > 0 {
                    let i = choose|i: int| 0 <= i < win.len() && win[i] == c;
                    assert(win[i] == t[k + i]);
                    assert(lowercase_char(t[k + i]));
                    assert(false);
                }
            }
        }
    }
    if window_match(p, t, k) {
        assert forall|l: int| 0 <= l < 26 implies #[trigger] dict[l] == 0 by {
            assert(count_of(p, letter_at(l)) == count_of(win, letter_at(l)));
        }
    }
}

/// All 26 slots of the frequency table are zero.
fn dict_all_zero(dict: &Vec<i64>) -> (z: bool)
    requires
        dict@.len() == 26,
    ensures
        z == forall|l: int| 0 <= l < 26 ==> #[trigger] dict@[l] == 0,
{
    let mut l: usize = 0;
    while l < 26
        invariant
            dict@.len() == 26,
            l <= 26,
            forall|k: int| 0 <= k < l ==> #[trigger] dict@[k] == 0,
        decreases 26 - l,
    {
        if dict[l] != 0 {
            return false;
        }
        l += 1;
    }
    true
}

/// Whether some window of `s2` of the length of `s1` is a character
/// multiset permutation of `s1`.  A pattern longer than the text never
/// matches.  Both strings must hold only lowercase ASCII letters.
pub fn check_inslusion(s1: String, s2: String) -> (r: bool)
    requires
        forall|i: int| 0 <= i < s1@.len() ==> lowercase_char(#[trigger] s1@[i]),
        forall|i: int| 0 <= i < s2@.len() ==> lowercase_char(#[trigger] s2@[i]),
        s2@.len() < 0x4000_0000_0000_0000,
    ensures
        r == (s1@.len() <= s2@.len() && exists|k: int|
            0 <= k <= s2@.len() - s1@.len() && #[trigger] window_match(s1@, s2@, k)),
{
    let cs1 = str_to_chars(s1.as_str());
    let cs2 = str_to_chars(s2.as_str());
    let m = cs1.len();
    let n = cs2.len();
    if m > n {
        return false;
    }
    let mut dict: Vec<i64> = Vec::new();
    let mut z: usize = 0;
    while z < 26
        invariant
            z <= 26,
            dict@.len() == z,
            forall|l: int| 0 <= l < z ==> #[trigger] dict@[l] == 0,
        decreases 26 - z,
    {
        dict.push(0);
        z += 1;
    }
    let mut i: usize = 0;
    proof {
        assert forall|l: int| 0 <= l < 26 implies #[trigger] dict@[l] == count_of(
            s1@.take(0),
            letter_at(l),
        ) by {
            assert(s1@.take(0) =~= Seq::<char>::empty());
        }
    }
    while i < m
        invariant
            cs1@ == s1@,
            m == s1@.len(),
            m < 0x4000_0000_0000_0000,
            i <= m,
            dict@.len() == 26,
            forall|i2: int| 0 <= i2 < s1@.len() ==> lowercase_char(#[trigger] s1@[i2]),
            forall|l: int| 0 <= l < 26 ==> #[trigger] dict@[l] == count_of(
                s1@.take(i as int),
                letter_at(l),
            ),
            forall|l: int| 0 <= l < 26 ==> 0 <= #[trigger] dict@[l] <= i,
        decreases m - i,
    {
        let c = cs1[i];
        proof {
            assert(lowercase_char(s1@[i as int]));
        }
        let idx = (c as u32 - 97) as usize;
        proof {
            lemma_letter_roundtrip(c);
            assert(letter_at(idx as int) == s1@[i as int]);
            assert(s1@.take(i + 1).drop_last() =~= s1@.take(i as int));
            assert(s1@.take(i + 1).last() == s1@[i as int]);
        }
        let ov = dict[idx];
        dict.set(idx, ov + 1);
        i += 1;
    }
    proof {
        assert(s1@.take(m as int) =~= s1@);
        assert(s2@.take(0) =~= Seq::<char>::empty());
    }
    let mut j: usize = 0;
    while j < m
        invariant
            cs2@ == s2@,
            m == s1@.len(),
            m <= n == s2@.len(),
            n < 0x4000_0000_0000_0000,
            j <= m,
            dict@.len() == 26,
            forall|i2: int| 0 <= i2 < s2@.len() ==> lowercase_char(#[trigger] s2@[i2]),
            forall|l: int| 0 <= l < 26 ==> #[trigger] dict@[l] == count_of(s1@, letter_at(l))
                - count_of(s2@.take(j as int), letter_at(l)),
            forall|l: int| 0 <= l < 26 ==> -(j as int) <= #[trigger] dict@[l] <= m,
        decreases m - j,
    {
        let c = cs2[j];
        proof {
            assert(lowercase_char(s2@[j as int]));
        }
        let idx = (c as u32 - 97) as usize;
        proof {
            lemma_letter_roundtrip(c);
            assert(letter_at(idx as int) == s2@[j as int]);
            assert(s2@.take(j + 1).drop_last() =~= s2@.take(j as int));
            assert(s2@.take(j + 1).last() == s2@[j as int]);
        }
        let ov = dict[idx];
        dict.set(idx, ov - 1);
        j += 1;
    }
    proof {
        assert(s2@.take(m as int) =~= s2@.subrange(0, m as int));
    }
    if dict_all_zero(&dict) {
        proof {
            lemma_dict_window(s1@, s2@, 0, dict@);
            assert(window_match(s1@, s2@, 0));
        }
        return true;
    }
    proof {
        lemma_dict_window(s1@, s2@, 0, dict@);
    }
    let mut k: usize = 0;
    while k < n - m
        invariant
            cs1@ == s1@,
            cs2@ == s2@,
            m == s1@.len(),
            m <= n == s2@.len(),
            n < 0x4000_0000_0000_0000,
            k <= n - m,
            dict@.len() == 26,
            forall|i2: int| 0 <= i2 < s1@.len() ==> lowercase_char(#[trigger] s1@[i2]),
            forall|i2: int| 0 <= i2 < s2@.len() ==> lowercase_char(#[trigger] s2@[i2]),
            forall|l: int| 0 <= l < 26 ==> #[trigger] dict@[l] == count_of(s1@, letter_at(l))
                - count_of(s2@.subrange(k as int, k + m), letter_at(l)),
            forall|k2: int| 0 <= k2 <= k ==> !(#[trigger] window_match(s1@, s2@, k2)),
        decreases n - m - k,
    {
        let gk = Ghost(k as int);
        proof {
            let ext = s2@.subrange(gk@, gk@ + m + 1);
            let win_old = s2@.subrange(gk@, gk@ + m);
            let win_new = s2@.subrange(gk@ + 1, gk@ + 1 + m);
            assert forall|l: int| 0 <= l < 26 implies #[trigger] count_of(win_new, letter_at(l))
                == count_of(win_old, letter_at(l)) + (if s2@[gk@ + m] == letter_at(l) {
                1int
            } else {
                0int
            }) - (if s2@[gk@] == letter_at(l) {
                1int
            } else {
                0int
            }) by {
                lemma_count_peel_front(ext, letter_at(l));
                assert(ext.drop_first() =~= win_new);
                assert(ext[0] == s2@[gk@]);
                assert(ext.drop_last() =~= win_old);
                assert(ext.last() == s2@[gk@ + m]);
            }
            // the table entries stay within the window bounds
            assert forall|l: int| 0 <= l < 26 implies -(m as int) <= #[trigger] dict@[l]
                <= m as int by {
                lemma_count_bounds(s1@, letter_at(l));
                lemma_count_bounds(s2@.subrange(gk@, gk@ + m), letter_at(l));
            }
        }
        let out = cs2[k];
        proof {
            assert(lowercase_char(s2@[k as int]));
        }
        let oidx = (out as u32 - 97) as usize;
        let inn = cs2[k + m];
        proof {
            assert(lowercase_char(s2@[k + m]));
        }
        let iidx = (inn as u32 - 97) as usize;
        proof {
            lemma_letter_roundtrip(out);
            lemma_letter_roundtrip(inn);
            assert(letter_at(oidx as int) == s2@[k as int]);
            assert(letter_at(iidx as int) == s2@[k + m]);
        }
        let ov = dict[oidx];
        dict.set(oidx, ov + 1);
        let iv = dict[iidx];
        dict.set(iidx, iv - 1);
        k += 1;
        if dict_all_zero(&dict) {
            proof {
                lemma_dict_window(s1@, s2@, k as int, dict@);
                assert(window_match(s1@, s2@, k as int));
            }
            return true;
        }
        proof {
            lemma_dict_window(s1@, s2@, k as int, dict@);
        }
    }
    proof {
        if exists|k2: int| 0 <= k2 <= s2@.len() - s1@.len() && #[trigger] window_match(
            s1@,
            s2@,
            k2,
        ) {
            let k2 = choose|k2: int| 0 <= k2 <= s2@.len() - s1@.len() && #[trigger] window_match(
                s1@,
                s2@,
                k2,
            );
            assert(!window_match(s1@, s2@, k2));
            assert(false);
        }
    }
    false
}

/// Return the index of `target` in the sorted vector, or `-1` when it
/// does not occur.
pub fn binary_search(nums: Vec<i32>, target: i32) -> (r: i32)
    requires
        nums@.len() <= i32::MAX,
        forall|i: int, j: int| 0 <= i < j < nums@.len() ==> nums@[i] <= nums@[j],
    ensures
        (r == -1) <==> !nums@.contains(target),
        r != -1 ==> 0 <= r < nums@.len() && nums@[r as int] == target,
{
    let n = nums.len();
    let mut left: usize = 0;
    let mut right: usize = n;
    while left < right
        invariant
            n == nums@.len(),
            n <= i32::MAX,
            left <= right <= n,
            forall|i: int, j: int| 0 <= i < j < nums@.len() ==> nums@[i] <= nums@[j],
            forall|k: int| 0 <= k < left ==> nums@[k] < target,
            forall|k: int| right <= k < n ==> nums@[k] > target,
        decreases right - left,
    {
        let index = left + (right - left) / 2;
        if nums[index] < target {
            proof {
                assert forall|k: int| 0 <= k < index as int + 1 implies nums@[k] < target by {
                    if k < index as int {
                        assert(nums@[k] <= nums@[index as int]);
                    }
                }
            }
            left = index + 1;
        } else if nums[index] > target {
            proof {
                assert forall|k: int| index as int <= k < n implies nums@[k] > target by {
                    if k > index as int {
                        assert(nums@[index as int] <= nums@[k]);
                    }
                }
            }
            right = index;
        } else {
            proof {
                assert(nums@[index as int] == target);
            }
            return index as i32;
        }
    }
    proof {
        if nums@.contains(target) {
            let k = choose|k: int| 0 <= k < nums@.len() && nums@[k] == target;
            assert(false);
        }
    }
    -1
}

/// Return the longest palindromic substring: a palindrome occurring in the
/// input, of maximal length among its palindromic substrings, at the
/// leftmost position where that length occurs.  The empty input yields the
/// empty string.
pub fn logest_palindrome_substring(s: String) -> (res: String)
    requires
        s@.len() <= (usize::MAX - 3) / 2,
    ensures
        lps_valid(s@, res@),
{
    let st = s.as_str();
    let cs = str_to_chars(st);
    let n = cs.len();
    if n == 0 {
        let res = String::new();
        proof {
            assert(res@ =~= s@.subrange(0, 0));
            assert(lps_occurrence(s@, res@, 0));
            assert forall|a: int, l: int| l > res@.len() implies !pal_at(s@, a, l) by {
                if pal_at(s@, a, l) {
                    assert(a + l <= 0 && 0 <= a);
                }
            }
        }
        return res;
    }
    let (a, len) = longest_pal_span(&cs);
    let sub = st.substring_char(a, a + len);
    let res = sub.to_owned();
    proof {
        let ga = a as int;
        let gl = len as int;
        assert(res@ =~= s@.subrange(ga, ga + gl));
        assert forall|d: int| 0 <= d < res@.len() implies #[trigger] res@[d] == res@[res@.len()
            - 1 - d] by {
            assert(s@[ga + d] == s@[ga + gl - 1 - d]);
        }
        assert(lps_occurrence(s@, res@, ga));
    }
    res
}

} // verus!
