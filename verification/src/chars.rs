//! Character classification and conversion helpers.
//!
//! The Unicode character classes (alphanumeric, whitespace, alphabetic) and
//! per-character lowercasing come from the standard library; their results
//! are given names here and everything downstream is verified against those
//! names.

use vstd::prelude::*;

verus! {

/// What `char::is_alphanumeric` returns: the result depends on the
/// character alone.
pub uninterp spec fn alnum_char(c: char) -> bool;

/// What `char::is_whitespace` returns: the result depends on the
/// character alone.
pub uninterp spec fn white_char(c: char) -> bool;

/// What `char::is_alphabetic` returns: the result depends on the
/// character alone.
pub uninterp spec fn alpha_char(c: char) -> bool;

/// What `char::to_lowercase` yields, as a sequence of characters: the
/// result depends on the character alone.
pub uninterp spec fn lower_of(c: char) -> Seq<char>;

/// The ASCII whitespace characters: space, tab, line feed, carriage
/// return and form feed.
pub open spec fn ascii_white(c: char) -> bool {
    c == ' ' || c == '\t' || c == '\n' || c == '\r' || c == '\u{c}'
}

/// Relies on `char::is_alphanumeric`: a pure predicate on the character.
pub assume_specification[ char::is_alphanumeric ](c: char) -> (r: bool)
    ensures
        r == alnum_char(c),
;

/// Relies on `char::is_whitespace`: a pure predicate on the character.
pub assume_specification[ char::is_whitespace ](c: char) -> (r: bool)
    ensures
        r == white_char(c),
;

/// Relies on `char::is_alphabetic`: a pure predicate on the character.
pub assume_specification[ char::is_alphabetic ](c: char) -> (r: bool)
    ensures
        r == alpha_char(c),
;

/// Relies on `char::to_lowercase`: the lowercase mapping of a character,
/// a pure function of the character yielding one or more characters.
#[verifier::external_body]
pub fn to_lower_chars(c: char) -> (r: Vec<char>)
    ensures
        r@ == lower_of(c),
{
    c.to_lowercase().collect::<String>().chars().collect()
}

/// The characters of a string slice, as a vector.
pub fn str_to_chars(s: &str) -> (r: Vec<char>)
    ensures
        r@ == s@,
{
    let n = s.unicode_len();
    let mut r: Vec<char> = Vec::new();
    let mut i: usize = 0;
    while i < n
        invariant
            n == s@.len(),
            i <= n,
            r@ =~= s@.take(i as int),
        decreases n - i,
    {
        r.push(s.get_char(i));
        i += 1;
        proof {
            assert(r@ =~= s@.take(i as int));
        }
    }
    proof {
        assert(s@.take(n as int) =~= s@);
    }
    r
}

/// Element-wise equality of two character vectors.
pub fn chars_eq(a: &Vec<char>, b: &Vec<char>) -> (r: bool)
    ensures
        r == (a@ == b@),
{
    if a.len() != b.len() {
        return false;
    }
    let mut i: usize = 0;
    while i < a.len()
        invariant
            a@.len() == b@.len(),
            i <= a@.len(),
            forall|k: int| 0 <= k < i ==> a@[k] == b@[k],
        decreases a@.len() - i,
    {
        if a[i] != b[i] {
            return false;
        }
        i += 1;
    }
    proof {
        assert(a@ =~= b@);
    }
    true
}

} // verus!
