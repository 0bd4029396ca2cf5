//! Splitting a character sequence into whitespace-delimited tokens.

use vstd::prelude::*;
use crate::chars::{white_char, ascii_white};

verus! {

/// Position of the first character satisfying `w`, or the length when
/// there is none.
pub open spec fn first_sep(t: Seq<char>, w: spec_fn(char) -> bool) -> int
    decreases t.len(),
{
    if t.len() == 0 {
        0
    } else if w(t[0]) {
        0
    } else {
        1 + first_sep(t.drop_first(), w)
    }
}

pub proof fn lemma_first_sep(t: Seq<char>, w: spec_fn(char) -> bool)
    ensures
        0 <= first_sep(t, w) <= t.len(),
        forall|k: int| 0 <= k < first_sep(t, w) ==> !w(t[k]),
        first_sep(t, w) < t.len() ==> w(t[first_sep(t, w)]),
    decreases t.len(),
{
    if t.len() > 0 && !w(t[0]) {
        lemma_first_sep(t.drop_first(), w);
        let f = first_sep(t, w);
        assert forall|k: int| 0 <= k < f implies !w(t[k]) by {
            if k > 0 {
                assert(!w(t.drop_first()[k - 1]));
            }
        }
        if f < t.len() {
            assert(w(t.drop_first()[f - 1]));
        }
    }
}

/// The position of the first separator, computed from a scan: no
/// separator before `j`, and a separator (or the end) at `j`.
pub proof fn lemma_first_sep_value(t: Seq<char>, w: spec_fn(char) -> bool, j: int)
    requires
        0 <= j <= t.len(),
        forall|k: int| 0 <= k < j ==> !w(t[k]),
        j < t.len() ==> w(t[j]),
    ensures
        first_sep(t, w) == j,
    decreases j,
{
    if j == 0 {
        if t.len() > 0 {
            assert(w(t[0]));
        }
    } else {
        assert(!w(t[0]));
        let td = t.drop_first();
        assert forall|k: int| 0 <= k < j - 1 implies !w(td[k]) by {
            assert(td[k] == t[k + 1]);
        }
        if j - 1 < td.len() {
            assert(td[j - 1] == t[j]);
        }
        lemma_first_sep_value(td, w, j - 1);
    }
}

/// The maximal runs of non-separator characters, in order.
pub open spec fn tokens_by(t: Seq<char>, w: spec_fn(char) -> bool) -> Seq<Seq<char>>
    decreases t.len(),
    via tokens_by_decreases
{
    if t.len() == 0 {
        Seq::empty()
    } else if w(t[0]) {
        tokens_by(t.drop_first(), w)
    } else {
        seq![t.subrange(0, first_sep(t, w))] + tokens_by(
            t.subrange(first_sep(t, w), t.len() as int),
            w,
        )
    }
}

#[via_fn]
proof fn tokens_by_decreases(t: Seq<char>, w: spec_fn(char) -> bool) {
    if t.len() > 0 && !w(t[0]) {
        lemma_first_sep(t, w);
        assert(first_sep(t, w) >= 1);
    }
}

/// Skipping one leading separator keeps the tokens.
pub proof fn lemma_tokens_skip(t: Seq<char>, w: spec_fn(char) -> bool, i: int)
    requires
        0 <= i < t.len(),
        w(t[i]),
    ensures
        tokens_by(t.subrange(i, t.len() as int), w) == tokens_by(
            t.subrange(i + 1, t.len() as int),
            w,
        ),
{
    let s = t.subrange(i, t.len() as int);
    assert(s[0] == t[i]);
    assert(s.drop_first() =~= t.subrange(i + 1, t.len() as int));
}

/// Reading one full token: the scan found no separator in `i ..< j` and a
/// separator (or the end) at `j`.
pub proof fn lemma_tokens_take(t: Seq<char>, w: spec_fn(char) -> bool, i: int, j: int)
    requires
        0 <= i < j <= t.len(),
        forall|k: int| i <= k < j ==> !w(t[k]),
        j < t.len() ==> w(t[j]),
    ensures
        tokens_by(t.subrange(i, t.len() as int), w) == seq![t.subrange(i, j)] + tokens_by(
            t.subrange(j, t.len() as int),
            w,
        ),
{
    let s = t.subrange(i, t.len() as int);
    assert(s[0] == t[i]);
    assert(!w(s[0]));
    assert forall|k: int| 0 <= k < j - i implies !w(s[k]) by {
        assert(s[k] == t[i + k]);
    }
    if j - i < s.len() {
        assert(s[j - i] == t[j]);
    }
    lemma_first_sep_value(s, w, j - i);
    assert(s.subrange(0, j - i) =~= t.subrange(i, j));
    assert(s.subrange(j - i, s.len() as int) =~= t.subrange(j, t.len() as int));
}

/// The separator predicate used by the ASCII tokenizer.
pub open spec fn ascii_white_pred() -> spec_fn(char) -> bool {
    |c: char| ascii_white(c)
}

/// The separator predicate used by the Unicode tokenizer.
pub open spec fn unicode_white_pred() -> spec_fn(char) -> bool {
    |c: char| white_char(c)
}

/// The views of the produced token vectors.
pub open spec fn views_of(toks: Seq<Vec<char>>) -> Seq<Seq<char>> {
    toks.map_values(|v: Vec<char>| v@)
}

/// Split on ASCII whitespace.
pub fn split_tokens_ascii(cs: &Vec<char>) -> (toks: Vec<Vec<char>>)
    ensures
        views_of(toks@) == tokens_by(cs@, ascii_white_pred()),
        forall|k: int| 0 <= k < toks@.len() ==> #[trigger] toks@[k]@.len() <= cs@.len(),
{
    let n = cs.len();
    let w = Ghost(ascii_white_pred());
    let mut toks: Vec<Vec<char>> = Vec::new();
    let mut i: usize = 0;
    proof {
        assert(cs@.subrange(0, n as int) =~= cs@);
        assert(views_of(toks@) =~= Seq::<Seq<char>>::empty());
    }
    while i < n
        invariant
            n == cs@.len(),
            i <= n,
            w@ == ascii_white_pred(),
            tokens_by(cs@, w@) == views_of(toks@) + tokens_by(cs@.subrange(i as int, n as int), w@),
            forall|k: int| 0 <= k < toks@.len() ==> #[trigger] toks@[k]@.len() <= cs@.len(),
        decreases n - i,
    {
        let c = cs[i];
        if c == ' ' || c == '\t' || c == '\n' || c == '\r' || c == '\u{c}' {
            proof {
                assert(w@(cs@[i as int]));
                lemma_tokens_skip(cs@, w@, i as int);
            }
            i += 1;
        } else {
            let start = i;
            let mut j: usize = i;
            while j < n && !(cs[j] == ' ' || cs[j] == '\t' || cs[j] == '\n' || cs[j] == '\r'
                || cs[j] == '\u{c}')
                invariant
                    n == cs@.len(),
                    w@ == ascii_white_pred(),
                    start <= j <= n,
                    forall|k: int| start <= k < j ==> !w@(cs@[k]),
                decreases n - j,
            {
                proof {
                    assert(!w@(cs@[j as int]));
                }
                j += 1;
            }
            proof {
                assert(j < n ==> w@(cs@[j as int]));
                assert(!w@(cs@[start as int]));
            }
            let mut tok: Vec<char> = Vec::new();
            let mut m = start;
            while m < j
                invariant
                    n == cs@.len(),
                    start <= m <= j <= n,
                    tok@ =~= cs@.subrange(start as int, m as int),
                decreases j - m,
            {
                tok.push(cs[m]);
                m += 1;
                proof {
                    assert(tok@ =~= cs@.subrange(start as int, m as int));
                }
            }
            proof {
                lemma_tokens_take(cs@, w@, start as int, j as int);
                assert(tok@ =~= cs@.subrange(start as int, j as int));
                assert(views_of(toks@.push(tok)) =~= views_of(toks@) + seq![tok@]);
                assert(views_of(toks@) + (seq![cs@.subrange(start as int, j as int)] + tokens_by(
                    cs@.subrange(j as int, n as int),
                    w@,
                )) =~= (views_of(toks@) + seq![tok@]) + tokens_by(
                    cs@.subrange(j as int, n as int),
                    w@,
                ));
            }
            toks.push(tok);
            i = j;
        }
    }
    proof {
        assert(cs@.subrange(n as int, n as int) =~= Seq::<char>::empty());
        assert(tokens_by(cs@.subrange(n as int, n as int), w@) =~= Seq::<Seq<char>>::empty());
        assert(views_of(toks@) + Seq::<Seq<char>>::empty() =~= views_of(toks@));
    }
    toks
}

/// Split on Unicode whitespace, as the standard library classifies it.
pub fn split_tokens_unicode(cs: &Vec<char>) -> (toks: Vec<Vec<char>>)
    ensures
        views_of(toks@) == tokens_by(cs@, unicode_white_pred()),
        forall|k: int| 0 <= k < toks@.len() ==> #[trigger] toks@[k]@.len() <= cs@.len(),
{
    let n = cs.len();
    let w = Ghost(unicode_white_pred());
    let mut toks: Vec<Vec<char>> = Vec::new();
    let mut i: usize = 0;
    proof {
        assert(cs@.subrange(0, n as int) =~= cs@);
        assert(views_of(toks@) =~= Seq::<Seq<char>>::empty());
    }
    while i < n
        invariant
            n == cs@.len(),
            i <= n,
            w@ == unicode_white_pred(),
            tokens_by(cs@, w@) == views_of(toks@) + tokens_by(cs@.subrange(i as int, n as int), w@),
            forall|k: int| 0 <= k < toks@.len() ==> #[trigger] toks@[k]@.len() <= cs@.len(),
        decreases n - i,
    {
        let c = cs[i];
        if c.is_whitespace() {
            proof {
                assert(w@(cs@[i as int]));
                lemma_tokens_skip(cs@, w@, i as int);
            }
            i += 1;
        } else {
            let start = i;
            let mut j: usize = i;
            while j < n && !cs[j].is_whitespace()
                invariant
                    n == cs@.len(),
                    w@ == unicode_white_pred(),
                    start <= j <= n,
                    forall|k: int| start <= k < j ==> !w@(cs@[k]),
                decreases n - j,
            {
                proof {
                    assert(!w@(cs@[j as int]));
                }
                j += 1;
            }
            proof {
                assert(j < n ==> w@(cs@[j as int]));
                assert(!w@(cs@[start as int]));
            }
            let mut tok: Vec<char> = Vec::new();
            let mut m = start;
            while m < j
                invariant
                    n == cs@.len(),
                    start <= m <= j <= n,
                    tok@ =~= cs@.subrange(start as int, m as int),
                decreases j - m,
            {
                tok.push(cs[m]);
                m += 1;
                proof {
                    assert(tok@ =~= cs@.subrange(start as int, m as int));
                }
            }
            proof {
                lemma_tokens_take(cs@, w@, start as int, j as int);
                assert(tok@ =~= cs@.subrange(start as int, j as int));
                assert(views_of(toks@.push(tok)) =~= views_of(toks@) + seq![tok@]);
                assert(views_of(toks@) + (seq![cs@.subrange(start as int, j as int)] + tokens_by(
                    cs@.subrange(j as int, n as int),
                    w@,
                )) =~= (views_of(toks@) + seq![tok@]) + tokens_by(
                    cs@.subrange(j as int, n as int),
                    w@,
                ));
            }
            toks.push(tok);
            i = j;
        }
    }
    proof {
        assert(cs@.subrange(n as int, n as int) =~= Seq::<char>::empty());
        assert(tokens_by(cs@.subrange(n as int, n as int), w@) =~= Seq::<Seq<char>>::empty());
        assert(views_of(toks@) + Seq::<Seq<char>>::empty() =~= views_of(toks@));
    }
    toks
}

} // verus!
