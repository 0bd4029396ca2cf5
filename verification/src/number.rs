//! Integer property checks: digit palindromes, parity, the missing number
//! of a sequence, and the unpaired element of a sequence.

use vstd::prelude::*;
use crate::seq_facts::{pal_seq, distinct_seq};

verus! {

/// The sum of a sequence of numbers.
pub open spec fn sum_of(s: Seq<i32>) -> int
    decreases s.len(),
{
    if s.len() == 0 {
        0
    } else {
        sum_of(s.drop_last()) + s.last()
    }
}

/// The sum of the integers from `0` up to, but not including, `b`.
pub open spec fn tri(b: int) -> int
    decreases b,
{
    if b <= 0 {
        0
    } else {
        tri(b - 1) + (b - 1)
    }
}

proof fn lemma_sum_remove(s: Seq<i32>, k: int)
    requires
        0 <= k < s.len(),
    ensures
        sum_of(s.remove(k)) == sum_of(s) - s[k],
    decreases s.len(),
{
    if k == s.len() - 1 {
        assert(s.remove(k) =~= s.drop_last());
    } else {
        let sd = s.drop_last();
        lemma_sum_remove(sd, k);
        assert(s.remove(k).drop_last() =~= sd.remove(k));
        assert(s.remove(k).last() == s.last());
        assert(sum_of(s.remove(k)) == sum_of(s.remove(k).drop_last()) + s.remove(k).last());
    }
}

/// Removing one occurrence keeps the remaining elements pairwise
/// different, and keeps a strict bound if the removed element was the only
/// one at that bound.
proof fn lemma_remove_keeps(s: Seq<i32>, k: int, b: int)
    requires
        distinct_seq(s),
        0 <= k < s.len(),
        forall|i: int| 0 <= i < s.len() ==> 0 <= #[trigger] s[i] < b,
        s[k] == b - 1,
    ensures
        distinct_seq(s.remove(k)),
        forall|i: int| 0 <= i < s.remove(k).len() ==> 0 <= #[trigger] s.remove(k)[i] < b - 1,
{
    let s2 = s.remove(k);
    assert forall|i: int| 0 <= i < s2.len() implies 0 <= #[trigger] s2[i] < b - 1 by {
        if i < k {
            assert(s2[i] == s[i]);
            assert(s[i] != s[k]);
        } else {
            assert(s2[i] == s[i + 1]);
            assert(s[i + 1] != s[k]);
        }
    }
    assert forall|i: int, j: int| 0 <= i < j < s2.len() implies s2[i] != s2[j] by {
        if j < k {
            assert(s2[i] == s[i] && s2[j] == s[j]);
        } else if i < k {
            assert(s2[i] == s[i] && s2[j] == s[j + 1]);
        } else {
            assert(s2[i] == s[i + 1] && s2[j] == s[j + 1]);
        }
    }
}

/// Pairwise-different values in `[0, b)` are at most `b` many.
proof fn lemma_distinct_bound(s: Seq<i32>, b: int)
    requires
        distinct_seq(s),
        0 <= b,
        forall|i: int| 0 <= i < s.len() ==> 0 <= #[trigger] s[i] < b,
    ensures
        s.len() <= b,
    decreases b,
{
    if b == 0 {
        if s.len() > 0 {
            assert(0 <= s[0] < b);
            assert(false);
        }
    } else {
        if exists|j: int| 0 <= j < s.len() && s[j] == b - 1 {
            let j = choose|j: int| 0 <= j < s.len() && s[j] == b - 1;
            lemma_remove_keeps(s, j, b);
            lemma_distinct_bound(s.remove(j), b - 1);
        } else {
            assert forall|i: int| 0 <= i < s.len() implies 0 <= #[trigger] s[i] < b - 1 by {
                assert(s[i] != b - 1);
            }
            lemma_distinct_bound(s, b - 1);
        }
    }
}

/// `b` pairwise-different values in `[0, b)` are all of `[0, b)`, and sum
/// to the triangular number.
proof fn lemma_full_range(s: Seq<i32>, b: int)
    requires
        distinct_seq(s),
        0 <= b,
        s.len() == b,
        forall|i: int| 0 <= i < s.len() ==> 0 <= #[trigger] s[i] < b,
    ensures
        sum_of(s) == tri(b),
        forall|v: i32| 0 <= v < b ==> s.contains(v),
    decreases b,
{
    if b > 0 {
        if !(exists|j: int| 0 <= j < s.len() && s[j] == b - 1) {
            assert forall|i: int| 0 <= i < s.len() implies 0 <= #[trigger] s[i] < b - 1 by {
                assert(s[i] != b - 1);
            }
            lemma_distinct_bound(s, b - 1);
            assert(false);
        }
        let j = choose|j: int| 0 <= j < s.len() && s[j] == b - 1;
        let s2 = s.remove(j);
        lemma_remove_keeps(s, j, b);
        lemma_full_range(s2, b - 1);
        lemma_sum_remove(s, j);
        assert forall|v: i32| 0 <= v < b implies s.contains(v) by {
            if v == b - 1 {
                assert(s[j] == v);
            } else {
                assert(s2.contains(v));
                let i2 = choose|i: int| 0 <= i < s2.len() && s2[i] == v;
                if i2 < j {
                    assert(s[i2] == v);
                } else {
                    assert(s[i2 + 1] == v);
                }
            }
        }
    }
}

/// Return the one number of `0 ..= nums.len()` that does not occur in
/// `nums`, given that the entries are pairwise different and in range.
pub fn find_missing_number(nums: Vec<i32>) -> (r: i32)
    requires
        nums@.len() <= i32::MAX,
        distinct_seq(nums@),
        forall|i: int| 0 <= i < nums@.len() ==> 0 <= #[trigger] nums@[i] <= nums@.len(),
    ensures
        0 <= r <= nums@.len(),
        forall|i: int| 0 <= i < nums@.len() ==> nums@[i] != r,
        forall|v: i32| 0 <= v <= nums@.len() && v != r ==> nums@.contains(v),
{
    let n = nums.len();
    let mut expected: i64 = 0;
    let mut actual: i64 = 0;
    let mut i: usize = 0;
    proof {
        assert(tri(0) == 0);
        assert(tri(1) == tri(0) + 0);
    }
    while i < n
        invariant
            n == nums@.len(),
            n <= i32::MAX,
            i <= n,
            forall|k: int| 0 <= k < n ==> 0 <= #[trigger] nums@[k] <= n,
            expected == tri(i + 1),
            actual == sum_of(nums@.take(i as int)),
            0 <= actual <= (i as int) * 0x8000_0000,
            0 <= expected <= (i as int + 1) * 0x8000_0000,
        decreases n - i,
    {
        proof {
            assert(nums@.take(i + 1).drop_last() =~= nums@.take(i as int));
            assert(nums@.take(i + 1).last() == nums@[i as int]);
            assert(nums@[i as int] <= n);
        }
        expected = expected + (i as i64) + 1;
        actual = actual + (nums[i] as i64);
        i += 1;
    }
    proof {
        assert(nums@.take(n as int) =~= nums@);
        // some value of [0, n] is missing
        lemma_exists_missing(nums@, n as int + 1);
        let m = choose|m: i32| 0 <= m < n as int + 1 && !nums@.contains(m);
        let s2 = nums@.push(m);
        assert(distinct_seq(s2)) by {
            assert forall|i2: int, j2: int| 0 <= i2 < j2 < s2.len() implies s2[i2] != s2[j2] by {
                if j2 == s2.len() - 1 {
                    assert(s2[i2] == nums@[i2]);
                    assert(!nums@.contains(m));
                    if s2[i2] == m {
                        assert(nums@.contains(m));
                    }
                }
            }
        }
        assert forall|i2: int| 0 <= i2 < s2.len() implies 0 <= #[trigger] s2[i2] < n as int
            + 1 by {
            if i2 < nums@.len() {
                assert(s2[i2] == nums@[i2]);
                if nums@[i2] == m {
                    assert(nums@.contains(m));
                }
                if nums@[i2] == n as i32 {
                    assert(m != n as i32);
                }
            }
        }
        lemma_full_range(s2, n as int + 1);
        assert(s2.drop_last() =~= nums@);
        assert(sum_of(s2) == sum_of(nums@) + m);
        assert(sum_of(nums@) == tri(n as int + 1) - m);
        assert forall|v: i32| 0 <= v <= nums@.len() && v != m implies nums@.contains(v) by {
            assert(s2.contains(v));
            let i2 = choose|i2: int| 0 <= i2 < s2.len() && s2[i2] == v;
            assert(i2 != s2.len() - 1);
            assert(nums@[i2] == v);
        }
    }
    (expected - actual) as i32
}

/// Some value of `[0, b)` is missing from fewer than `b` pairwise-different
/// entries.
proof fn lemma_exists_missing(s: Seq<i32>, b: int)
    requires
        distinct_seq(s),
        s.len() < b,
        b <= 0x8000_0000,
        forall|i: int| 0 <= i < s.len() ==> 0 <= #[trigger] s[i] < b,
    ensures
        exists|m: i32| 0 <= m < b && !s.contains(m),
    decreases b,
{
    if exists|j: int| 0 <= j < s.len() && s[j] == b - 1 {
        let j = choose|j: int| 0 <= j < s.len() && s[j] == b - 1;
        lemma_remove_keeps(s, j, b);
        lemma_exists_missing(s.remove(j), b - 1);
        let m = choose|m: i32| 0 <= m < b - 1 && !s.remove(j).contains(m);
        assert(!s.contains(m)) by {
            if s.contains(m) {
                let i = choose|i: int| 0 <= i < s.len() && s[i] == m;
                if i < j {
                    assert(s.remove(j)[i] == s[i]);
                } else if i > j {
                    assert(s.remove(j)[i - 1] == s[i]);
                }
                assert(false);
            }
        }
        assert(0 <= m < b && !s.contains(m));
    } else {
        let m = (b - 1) as i32;
        assert(m == b - 1);
        assert(!s.contains(m)) by {
            if s.contains(m) {
                let i = choose|i: int| 0 <= i < s.len() && s[i] == m;
                assert(s[i] == b - 1);
                assert(false);
            }
        }
        assert(0 <= m < b && !s.contains(m));
    }
}

/// The exclusive-or of all entries, in order.
pub open spec fn xor_fold(s: Seq<i32>) -> i32
    decreases s.len(),
{
    if s.len() == 0 {
        0
    } else {
        xor_fold(s.drop_last()) ^ s.last()
    }
}

/// Return the exclusive-or of all entries.  When every element but one
/// occurs an even number of times, this is the remaining single element;
/// when all pair up, it is zero.
pub fn find_single_number(nums: Vec<i32>) -> (r: i32)
    ensures
        r == xor_fold(nums@),
{
    let mut mask: i32 = 0;
    let mut i: usize = 0;
    while i < nums.len()
        invariant
            i <= nums@.len(),
            mask == xor_fold(nums@.take(i as int)),
        decreases nums@.len() - i,
    {
        proof {
            assert(nums@.take(i + 1).drop_last() =~= nums@.take(i as int));
            assert(nums@.take(i + 1).last() == nums@[i as int]);
        }
        mask = mask ^ nums[i];
        i += 1;
    }
    proof {
        assert(nums@.take(nums@.len() as int) =~= nums@);
    }
    mask
}

/// The decimal digits of `n`, most significant first.  Zero has no digits.
pub open spec fn digits_of(n: nat) -> Seq<u32>
    decreases n,
{
    if n == 0 {
        Seq::empty()
    } else {
        digits_of(n / 10).push((n % 10) as u32)
    }
}

/// Whether the number reads the same forwards and backwards in decimal.
/// Negative numbers never do.
pub fn is_palindrome(x: i32) -> (r: bool)
    ensures
        r == (x >= 0 && pal_seq(digits_of(x as nat))),
{
    if x < 0 {
        return false;
    }
    let mut y = x as u32;
    let mut digs: Vec<u32> = Vec::new();
    while y > 0
        invariant
            x >= 0,
            digits_of(x as nat) =~= digits_of(y as nat) + digs@.reverse(),
        decreases y,
    {
        let d = y % 10;
        proof {
            let gy = y as nat;
            assert(digits_of(gy) == digits_of(gy / 10).push((gy % 10) as u32));
            assert(digs@.push(d).reverse() =~= seq![d] + digs@.reverse());
            assert(digits_of(gy / 10).push(d) + digs@.reverse() =~= digits_of(gy / 10) + (seq![d]
                + digs@.reverse()));
        }
        digs.push(d);
        y = y / 10;
    }
    proof {
        assert(digits_of(x as nat) =~= digs@.reverse());
        assert forall|i: int| 0 <= i < digs@.len() implies #[trigger] digs@.reverse()[i]
            == digs@[digs@.len() - 1 - i] by {}
    }
    let n = digs.len();
    let mut lo: usize = 0;
    while lo + 1 < n - lo
        invariant
            x >= 0,
            digits_of(x as nat) =~= digs@.reverse(),
            n == digs@.len(),
            lo <= n,
            2 * lo <= n + 1,
            forall|k: int| 0 <= k < lo ==> #[trigger] digs@[k] == digs@[n - 1 - k],
        decreases n - 2 * lo,
    {
        if digs[lo] != digs[n - 1 - lo] {
            proof {
                let rev = digs@.reverse();
                let gl = lo as int;
                let gn = n as int;
                if pal_seq(rev) {
                    assert(rev[gl] == rev[gn - 1 - gl]);
                    assert(rev[gl] == digs@[gn - 1 - gl]);
                    assert(rev[gn - 1 - gl] == digs@[gl]);
                    assert(false);
                }
            }
            return false;
        }
        lo += 1;
    }
    proof {
        let rev = digs@.reverse();
        let gn = n as int;
        assert forall|i: int| 0 <= i < gn implies #[trigger] rev[i] == rev[gn - 1 - i] by {
            let gl = lo as int;
            if i < gl {
                assert(digs@[i] == digs@[gn - 1 - i]);
            } else if gn - 1 - i < gl {
                assert(digs@[gn - 1 - i] == digs@[gn - 1 - (gn - 1 - i)]);
            } else {
                assert(gl <= i <= gn - 1 - gl || gl <= gn - 1 - i <= gn - 1 - gl);
                assert(i == gn - 1 - i);
            }
        }
        assert(pal_seq(rev));
    }
    true
}

/// Whether the number is odd.
pub fn is_odd(x: u32) -> (r: bool)
    ensures
        r == (x % 2 == 1),
{
    proof {
        assert(x & 1 == x % 2) by (bit_vector);
    }
    x & 1 == 1
}

/// Whether the number is even.
pub fn is_even(x: u32) -> (r: bool)
    ensures
        r == (x % 2 == 0),
{
    proof {
        assert(x & 1 == x % 2) by (bit_vector);
    }
    x & 1 != 1
}

} // verus!
