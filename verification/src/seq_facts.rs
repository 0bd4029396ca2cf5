//! Shared sequence notions: palindromes, occurrence counts, and filtering,
//! with the small lemmas the algorithms need.

use vstd::prelude::*;

verus! {

/// A sequence reads the same forwards and backwards.
pub open spec fn pal_seq<T>(s: Seq<T>) -> bool {
    forall|i: int| 0 <= i < s.len() ==> #[trigger] s[i] == s[s.len() - 1 - i]
}

/// How many times `x` occurs in `s`.
pub open spec fn count_of<T>(s: Seq<T>, x: T) -> int
    decreases s.len(),
{
    if s.len() == 0 {
        0
    } else {
        count_of(s.drop_last(), x) + if s.last() == x {
            1int
        } else {
            0int
        }
    }
}

pub proof fn lemma_count_bounds<T>(s: Seq<T>, x: T)
    ensures
        0 <= count_of(s, x) <= s.len(),
    decreases s.len(),
{
    if s.len() > 0 {
        lemma_count_bounds(s.drop_last(), x);
    }
}

/// A value occurs in a sequence exactly when its count is positive.
pub proof fn lemma_count_contains<T>(s: Seq<T>, x: T)
    ensures
        (count_of(s, x) > 0) <==> (exists|i: int| 0 <= i < s.len() && s[i] == x),
    decreases s.len(),
{
    if s.len() > 0 {
        let dl = s.drop_last();
        lemma_count_bounds(dl, x);
        lemma_count_contains(dl, x);
        if s.last() == x {
            assert(s[s.len() - 1] == x);
            assert(count_of(s, x) > 0);
        } else {
            assert(count_of(s, x) == count_of(dl, x));
            if count_of(s, x) > 0 {
                let i = choose|i: int| 0 <= i < dl.len() && dl[i] == x;
                assert(s[i] == x);
            }
            if exists|i: int| 0 <= i < s.len() && s[i] == x {
                let i = choose|i: int| 0 <= i < s.len() && s[i] == x;
                assert(i < s.len() - 1);
                assert(dl[i] == x);
            }
        }
    }
}

/// Peeling the first element off a subrange, for window sliding.
pub proof fn lemma_count_peel_front<T>(s: Seq<T>, x: T)
    requires
        s.len() > 0,
    ensures
        count_of(s, x) == count_of(s.drop_first(), x) + if s[0] == x {
            1int
        } else {
            0int
        },
    decreases s.len(),
{
    if s.len() == 1 {
        assert(s.drop_first().len() == 0);
        reveal_with_fuel(count_of, 2);
    } else {
        let df = s.drop_first();
        lemma_count_peel_front(s.drop_last(), x);
        assert(s.drop_last().drop_first() =~= df.drop_last());
        assert(s.drop_last()[0] == s[0]);
        assert(df.last() == s.last());
        assert(count_of(df, x) == count_of(df.drop_last(), x) + if df.last() == x {
            1int
        } else {
            0int
        });
        assert(count_of(s, x) == count_of(s.drop_last(), x) + if s.last() == x {
            1int
        } else {
            0int
        });
    }
}

/// All elements of the sequence are pairwise different.
pub open spec fn distinct_seq<T>(s: Seq<T>) -> bool {
    forall|i: int, j: int| 0 <= i < j < s.len() ==> s[i] != s[j]
}

/// The elements of `s` that satisfy `p`, in order.
pub open spec fn filter_by<T>(s: Seq<T>, p: spec_fn(T) -> bool) -> Seq<T>
    decreases s.len(),
{
    if s.len() == 0 {
        Seq::empty()
    } else {
        filter_by(s.drop_last(), p) + if p(s.last()) {
            seq![s.last()]
        } else {
            Seq::empty()
        }
    }
}

pub proof fn lemma_filter_len<T>(s: Seq<T>, p: spec_fn(T) -> bool)
    ensures
        filter_by(s, p).len() <= s.len(),
    decreases s.len(),
{
    if s.len() > 0 {
        lemma_filter_len(s.drop_last(), p);
    }
}

pub proof fn lemma_filter_push<T>(s: Seq<T>, p: spec_fn(T) -> bool, c: T)
    ensures
        filter_by(s.push(c), p) == filter_by(s, p) + if p(c) {
            seq![c]
        } else {
            Seq::<T>::empty()
        },
{
    assert(s.push(c).drop_last() =~= s);
    assert(s.push(c).last() == c);
}

} // verus!
