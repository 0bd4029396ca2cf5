//! Collection scans: duplicate detection, longest substring without
//! repeated characters, two-sum, and majority-element counting.

use vstd::prelude::*;
use vstd::std_specs::cmp::PartialEqSpec;
use core::hash::Hash;
use crate::chars::str_to_chars;
use crate::seq_facts::{count_of, lemma_count_bounds, lemma_count_contains};

verus! {

/// Position `j` repeats an earlier element.
pub open spec fn dup_at<T: PartialEq>(s: Seq<T>, j: int) -> bool {
    exists|i: int| 0 <= i < j && #[trigger] s[i].eq_spec(&s[j])
}

/// Whether some element of the list occurs twice.
pub fn is_duplicate<T: Eq + Hash>(list: Vec<T>) -> (r: bool)
    requires
        T::obeys_eq_spec(),
    ensures
        r == exists|j: int| 0 <= j < list@.len() && #[trigger] dup_at(list@, j),
{
    let n = list.len();
    let mut j: usize = 0;
    while j < n
        invariant
            T::obeys_eq_spec(),
            n == list@.len(),
            j <= n,
            forall|k: int| 0 <= k < j ==> !dup_at(list@, k),
        decreases n - j,
    {
        let mut i: usize = 0;
        while i < j
            invariant
                T::obeys_eq_spec(),
                n == list@.len(),
                i <= j < n,
                forall|k: int| 0 <= k < i ==> !list@[k].eq_spec(&list@[j as int]),
            decreases j - i,
        {
            if &list[i] == &list[j] {
                proof {
                    assert(dup_at(list@, j as int));
                }
                return true;
            }
            i += 1;
        }
        proof {
            assert(!dup_at(list@, j as int));
        }
        j += 1;
    }
    false
}

/// `j` is the first position that repeats an earlier element.
pub open spec fn first_dup_at<T: PartialEq>(s: Seq<T>, j: int) -> bool {
    &&& 0 <= j < s.len()
    &&& dup_at(s, j)
    &&& forall|k: int| 0 <= k < j ==> !dup_at(s, k)
}

/// Return the first element that repeats an earlier one, or `None` when
/// all elements are pairwise different.
pub fn find_duplicate<T: Eq + Hash + Copy>(list: Vec<T>) -> (r: Option<T>)
    requires
        T::obeys_eq_spec(),
    ensures
        (r is None) <==> (forall|j: int| 0 <= j < list@.len() ==> !dup_at(list@, j)),
        r matches Some(v) ==> exists|j: int| #[trigger] first_dup_at(list@, j) && v == list@[j],
{
    let n = list.len();
    let mut j: usize = 0;
    while j < n
        invariant
            T::obeys_eq_spec(),
            n == list@.len(),
            j <= n,
            forall|k: int| 0 <= k < j ==> !dup_at(list@, k),
        decreases n - j,
    {
        let mut i: usize = 0;
        while i < j
            invariant
                T::obeys_eq_spec(),
                n == list@.len(),
                i <= j < n,
                forall|k: int| 0 <= k < j ==> !dup_at(list@, k),
                forall|k: int| 0 <= k < i ==> !list@[k].eq_spec(&list@[j as int]),
            decreases j - i,
        {
            if &list[i] == &list[j] {
                proof {
                    assert(dup_at(list@, j as int));
                    assert(first_dup_at(list@, j as int));
                }
                return Some(list[j]);
            }
            i += 1;
        }
        proof {
            assert(!dup_at(list@, j as int));
        }
        j += 1;
    }
    None
}

/// All characters of `cs` in positions `a ..< b` are pairwise different.
pub open spec fn distinct_range(cs: Seq<char>, a: int, b: int) -> bool {
    forall|i: int, j: int| a <= i < j < b ==> cs[i] != cs[j]
}

/// Return the length of the longest substring without repeated
/// characters.
pub fn lenght_of_longest_non_repeatable_substring(s: String) -> (r: i32)
    requires
        s@.len() <= i32::MAX,
    ensures
        0 <= r <= s@.len(),
        exists|a: int, b: int| 0 <= a <= b <= s@.len() && b - a == r && #[trigger] distinct_range(
            s@,
            a,
            b,
        ),
        forall|a: int, b: int|
            0 <= a <= b <= s@.len() && #[trigger] distinct_range(s@, a, b) ==> b - a <= r,
{
    let cs = str_to_chars(s.as_str());
    let n = cs.len();
    let mut best: usize = 0;
    let mut start: usize = 0;
    let mut end: usize = 0;
    proof {
        assert(distinct_range(s@, 0, 0));
    }
    while end < n
        invariant
            cs@ == s@,
            n == cs@.len(),
            n <= i32::MAX,
            start <= end <= n,
            best <= n,
            distinct_range(s@, start as int, end as int),
            forall|a: int| 0 <= a < start ==> !distinct_range(s@, a, end as int),
            forall|a: int, b: int|
                0 <= a <= b <= end && #[trigger] distinct_range(s@, a, b) ==> b - a <= best,
            exists|a: int, b: int| 0 <= a <= b <= end && b - a == best
                && #[trigger] distinct_range(s@, a, b),
        decreases n - end,
    {
        let ghost ge = end as int;
        let mut new_start: usize = start;
        let mut j: usize = start;
        while j < end
            invariant
                cs@ == s@,
                n == cs@.len(),
                start <= new_start <= j <= end < n,
                forall|k: int| new_start <= k < j ==> cs@[k] != cs@[end as int],
                new_start == start || cs@[new_start - 1] == cs@[end as int],
            decreases end - j,
        {
            if cs[j] == cs[end] {
                new_start = j + 1;
            }
            j += 1;
        }
        proof {
            let gs = start as int;
            let gn = new_start as int;
            // the window [new_start, end] is free of repeats
            assert forall|i2: int, j2: int| gn <= i2 < j2 < ge + 1 implies s@[i2] != s@[j2] by {
                if j2 < ge {
                    assert(gs <= i2 < j2 < ge);
                } else {
                    assert(s@[i2] != s@[ge]);
                }
            }
            assert(distinct_range(s@, gn, ge + 1));
            // and no earlier start would do
            assert forall|a: int| 0 <= a < gn implies !(#[trigger] distinct_range(
                s@,
                a,
                ge + 1,
            )) by {
                if a < gs {
                    assert(!distinct_range(s@, a, ge));
                    if distinct_range(s@, a, ge + 1) {
                        assert forall|i2: int, j2: int| a <= i2 < j2 < ge implies s@[i2]
                            != s@[j2] by {
                            assert(a <= i2 < j2 < ge + 1);
                        }
                        assert(false);
                    }
                } else {
                    assert(s@[gn - 1] == s@[ge]);
                    if distinct_range(s@, a, ge + 1) {
                        assert(a <= gn - 1 < ge + 1);
                        assert(s@[gn - 1] != s@[ge]);
                        assert(false);
                    }
                }
            }
        }
        if end + 1 - new_start > best {
            best = end + 1 - new_start;
        }
        proof {
            assert forall|a: int, b: int|
                0 <= a <= b <= ge + 1 && #[trigger] distinct_range(s@, a, b) implies b - a
                <= best by {
                if b == ge + 1 {
                    if a < new_start as int {
                        assert(!distinct_range(s@, a, ge + 1));
                    }
                } else {
                    assert(0 <= a <= b <= ge);
                }
            }
        }
        start = new_start;
        end += 1;
    }
    best as i32
}

/// Positions `i < j` hold values summing to `target`.
pub open spec fn pair_sums(s: Seq<i32>, i: int, j: int, target: i32) -> bool {
    0 <= i < j < s.len() && s[i] + s[j] == target
}

/// Return the indexes of two entries that sum to `target`: the second
/// index is the least possible, the first is the latest partner before
/// it.  An empty vector means no two entries sum to `target`.
pub fn two_sum(nums: Vec<i32>, target: i32) -> (r: Vec<i32>)
    requires
        nums@.len() <= i32::MAX,
    ensures
        r@.len() == 0 || r@.len() == 2,
        r@.len() == 0 ==> forall|i: int, j: int| !(#[trigger] pair_sums(nums@, i, j, target)),
        r@.len() == 2 ==> {
            &&& pair_sums(nums@, r@[0] as int, r@[1] as int, target)
            &&& forall|i2: int, j2: int| 0 <= j2 < r@[1] as int ==> !(#[trigger] pair_sums(
                nums@,
                i2,
                j2,
                target,
            ))
            &&& forall|i2: int| (r@[0] as int) < i2 && i2 < (r@[1] as int) ==> !pair_sums(
                nums@,
                i2,
                r@[1] as int,
                target,
            )
        },
{
    let n = nums.len();
    let mut j: usize = 0;
    while j < n
        invariant
            n == nums@.len(),
            n <= i32::MAX,
            j <= n,
            forall|i2: int, j2: int| 0 <= j2 < j ==> !(#[trigger] pair_sums(
                nums@,
                i2,
                j2,
                target,
            )),
        decreases n - j,
    {
        let mut i: usize = j;
        while i > 0
            invariant
                n == nums@.len(),
                n <= i32::MAX,
                i <= j < n,
                forall|i2: int, j2: int| 0 <= j2 < j ==> !(#[trigger] pair_sums(
                    nums@,
                    i2,
                    j2,
                    target,
                )),
                forall|i2: int| i <= i2 < j ==> !pair_sums(nums@, i2, j as int, target),
            decreases i,
        {
            i -= 1;
            if nums[i] as i64 + nums[j] as i64 == target as i64 {
                proof {
                    assert(pair_sums(nums@, i as int, j as int, target));
                }
                let mut r: Vec<i32> = Vec::new();
                r.push(i as i32);
                r.push(j as i32);
                proof {
                    assert(r@[0] == i as i32 && r@[1] == j as i32);
                    assert(r@[0] as int == i as int && r@[1] as int == j as int);
                }
                return r;
            }
        }
        j += 1;
    }
    Vec::new()
}

/// Return the element occurring more than `⌊n/2⌋` times, or `-1` when no
/// element does.  A caller cannot tell a majority of `-1` apart from the
/// absence of a majority; that conflation is part of the interface.
pub fn find_majority_element(nums: Vec<i32>) -> (r: i32)
    ensures
        (forall|v: i32| 2 * count_of(nums@, v) <= nums@.len()) ==> r == -1,
        (exists|v: i32| 2 * count_of(nums@, v) > nums@.len()) ==> 2 * count_of(nums@, r)
            > nums@.len(),
{
    let n = nums.len();
    let mut k: usize = 0;
    while k < n
        invariant
            n == nums@.len(),
            k <= n,
            forall|k2: int| 0 <= k2 < k ==> 2 * count_of(nums@, #[trigger] nums@[k2])
                <= nums@.len(),
        decreases n - k,
    {
        let c = count_in(&nums, nums[k]);
        if c > n / 2 {
            proof {
                assert(2 * count_of(nums@, nums@[k as int]) > nums@.len());
            }
            return nums[k];
        }
        k += 1;
    }
    proof {
        if exists|v: i32| 2 * count_of(nums@, v) > nums@.len() {
            let v = choose|v: i32| 2 * count_of(nums@, v) > nums@.len();
            lemma_count_contains(nums@, v);
            let i = choose|i: int| 0 <= i < nums@.len() && nums@[i] == v;
            assert(2 * count_of(nums@, nums@[i]) <= nums@.len());
            assert(false);
        }
    }
    -1
}

/// How many entries of the vector equal `v`.
fn count_in(nums: &Vec<i32>, v: i32) -> (c: usize)
    ensures
        c as int == count_of(nums@, v),
{
    let mut c: usize = 0;
    let mut i: usize = 0;
    while i < nums.len()
        invariant
            i <= nums@.len(),
            c as int == count_of(nums@.take(i as int), v),
            c <= i,
        decreases nums@.len() - i,
    {
        proof {
            assert(nums@.take(i + 1).drop_last() =~= nums@.take(i as int));
            assert(nums@.take(i + 1).last() == nums@[i as int]);
            lemma_count_bounds(nums@.take(i as int), v);
        }
        if nums[i] == v {
            c += 1;
        }
        i += 1;
    }
    proof {
        assert(nums@.take(nums@.len() as int) =~= nums@);
    }
    c
}

} // verus!
