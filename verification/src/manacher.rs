//! Longest palindromic substring.
//!
//! A transform step interleaves the input characters with separator cells
//! and brackets them with two distinct guard cells, so that every palindrome
//! of the input corresponds to a symmetric window of the transformed buffer
//! around a single centre cell.  The radius engine then computes, for every
//! centre, the maximal symmetry radius, reusing previously computed radii
//! through a mirror/centre/right-boundary argument (Manacher's algorithm).

use vstd::prelude::*;
use crate::seq_facts::pal_seq;

verus! {

/// One cell of the transformed working buffer.  The guards and the
/// separator never equal a character cell, so outward expansion stops at
/// them without explicit bounds checks.
#[derive(Clone, Copy, PartialEq, Eq, Structural)]
pub enum Cell {
    LeftGuard,
    RightGuard,
    Sep,
    Ch(char),
}

/// What stands at position `j` of the transformed buffer for input `cs`:
/// guards at the two ends, separators at the odd positions, and the input
/// characters at the even positions in between.
pub open spec fn cell_at(cs: Seq<char>, j: int) -> Cell {
    if j == 0 {
        Cell::LeftGuard
    } else if j == 2 * cs.len() + 2 {
        Cell::RightGuard
    } else if j % 2 == 1 {
        Cell::Sep
    } else {
        Cell::Ch(cs[j / 2 - 1])
    }
}

/// `t` is the transformed buffer of `cs`.
pub open spec fn is_transform(t: Seq<Cell>, cs: Seq<char>) -> bool {
    &&& t.len() == 2 * cs.len() + 3
    &&& forall|j: int| 0 <= j < t.len() ==> #[trigger] t[j] == cell_at(cs, j)
}

/// The substring of `cs` of length `l` starting at `a` is a palindrome.
pub open spec fn pal_at(cs: Seq<char>, a: int, l: int) -> bool {
    &&& 0 <= a
    &&& 0 <= l
    &&& a + l <= cs.len()
    &&& forall|d: int| 0 <= d < l ==> #[trigger] cs[a + d] == cs[a + l - 1 - d]
}

/// The buffer is symmetric around `i` out to radius `r`.
pub open spec fn sym_at(t: Seq<Cell>, i: int, r: int) -> bool {
    &&& 0 <= r
    &&& 0 <= i - r
    &&& i + r < t.len()
    &&& forall|d: int| 1 <= d <= r ==> #[trigger] t[i - d] == t[i + d]
}

/// `r` is the maximal symmetry radius around `i`: symmetric out to `r`,
/// and the next pair of cells differs (or leaves the buffer).
pub open spec fn max_sym_at(t: Seq<Cell>, i: int, r: int) -> bool {
    &&& sym_at(t, i, r)
    &&& (0 <= i - r - 1 && i + r + 1 < t.len() ==> t[i - r - 1] != t[i + r + 1])
}

/// No radius of symmetry exceeds the maximal one.
proof fn lemma_sym_le_max(t: Seq<Cell>, i: int, r_max: int, r2: int)
    requires
        max_sym_at(t, i, r_max),
        sym_at(t, i, r2),
    ensures
        r2 <= r_max,
{
    if r2 > r_max {
        assert(t[i - (r_max + 1)] == t[i + (r_max + 1)]);
        assert(false);
    }
}

/// A symmetric window around an interior centre never touches the guards.
proof fn lemma_sym_in_interior(t: Seq<Cell>, cs: Seq<char>, i: int, r: int)
    requires
        is_transform(t, cs),
        sym_at(t, i, r),
        1 <= i <= 2 * cs.len() + 1,
    ensures
        1 <= i - r,
        i + r <= 2 * cs.len() + 1,
{
    let n = cs.len() as int;
    if r >= 1 {
        assert(t[i - r] == t[i + r]);
        if i - r == 0 {
            assert(t[0] == cell_at(cs, 0));
            assert(t[i + r] == cell_at(cs, i + r));
            assert(false);
        }
        if i + r == 2 * n + 2 {
            assert(t[2 * n + 2] == cell_at(cs, 2 * n + 2));
            assert(t[i - r] == cell_at(cs, i - r));
            assert(false);
        }
    }
}

/// A palindrome of the input is a symmetric window of the buffer around
/// centre `2a + l + 1`.
proof fn lemma_pal_to_sym(cs: Seq<char>, t: Seq<Cell>, a: int, l: int)
    requires
        is_transform(t, cs),
        1 <= l,
        pal_at(cs, a, l),
    ensures
        sym_at(t, 2 * a + l + 1, l),
{
    let n = cs.len() as int;
    let i0 = 2 * a + l + 1;
    assert forall|d: int| 1 <= d <= l implies #[trigger] t[i0 - d] == t[i0 + d] by {
        assert(t[i0 - d] == cell_at(cs, i0 - d));
        assert(t[i0 + d] == cell_at(cs, i0 + d));
        assert(1 <= i0 - d && i0 + d <= 2 * n + 1);
        if (i0 - d) % 2 == 1 {
            assert((i0 + d) % 2 == 1);
        } else {
            let u = (i0 - d) / 2 - 1;
            let v = (i0 + d) / 2 - 1;
            assert(2 * (u + 1) == i0 - d);
            assert(2 * (v + 1) == i0 + d);
            let x = u - a;
            assert(0 <= x < l);
            assert(cs[a + x] == cs[a + l - 1 - x]);
            assert(a + l - 1 - x == v);
        }
    }
}

/// Conversely, a symmetric window around centre `2a + l + 1` yields a
/// palindrome of the input.
proof fn lemma_sym_to_pal(cs: Seq<char>, t: Seq<Cell>, a: int, l: int)
    requires
        is_transform(t, cs),
        0 <= a,
        0 <= l,
        a + l <= cs.len(),
        sym_at(t, 2 * a + l + 1, l),
    ensures
        pal_at(cs, a, l),
{
    let i0 = 2 * a + l + 1;
    assert forall|x: int| 0 <= x < l implies #[trigger] cs[a + x] == cs[a + l - 1 - x] by {
        if 2 * x != l - 1 {
            let d = if 2 * x < l - 1 {
                l - 1 - 2 * x
            } else {
                2 * x - (l - 1)
            };
            assert(1 <= d <= l);
            assert(t[i0 - d] == t[i0 + d]);
            assert(t[i0 - d] == cell_at(cs, i0 - d));
            assert(t[i0 + d] == cell_at(cs, i0 + d));
            if 2 * x < l - 1 {
                assert(i0 - d == 2 * (a + x + 1));
                assert(i0 + d == 2 * (a + l - 1 - x + 1));
                assert(cell_at(cs, i0 - d) == Cell::Ch(cs[a + x]));
                assert(cell_at(cs, i0 + d) == Cell::Ch(cs[a + l - 1 - x]));
            } else {
                assert(i0 - d == 2 * (a + l - 1 - x + 1));
                assert(i0 + d == 2 * (a + x + 1));
                assert(cell_at(cs, i0 - d) == Cell::Ch(cs[a + l - 1 - x]));
                assert(cell_at(cs, i0 + d) == Cell::Ch(cs[a + x]));
            }
        }
    }
}

/// A maximal window around an interior centre is bounded by separators, so
/// its half-width and centre have the parities of a substring image.
proof fn lemma_max_sym_parity(cs: Seq<char>, t: Seq<Cell>, i: int, r: int)
    requires
        is_transform(t, cs),
        max_sym_at(t, i, r),
        1 <= i <= 2 * cs.len() + 1,
    ensures
        (i - r) % 2 == 1,
{
    let n = cs.len() as int;
    lemma_sym_in_interior(t, cs, i, r);
    if (i - r) % 2 == 0 {
        assert(i - r >= 2);
        assert((i + r) % 2 == 0);
        assert(i + r <= 2 * n);
        assert(t[i - r - 1] == cell_at(cs, i - r - 1));
        assert(t[i + r + 1] == cell_at(cs, i + r + 1));
        assert(cell_at(cs, i - r - 1) == Cell::Sep);
        assert(cell_at(cs, i + r + 1) == Cell::Sep);
        assert(false);
    }
}

/// Reading a maximal window back as a substring of the input.
proof fn lemma_max_sym_to_pal(cs: Seq<char>, t: Seq<Cell>, i: int, r: int)
    requires
        is_transform(t, cs),
        max_sym_at(t, i, r),
        2 <= i <= 2 * cs.len() + 1,
        0 <= r,
    ensures
        (i - r) % 2 == 1,
        1 <= i - r,
        i + r <= 2 * cs.len() + 1,
        pal_at(cs, (i - r - 1) / 2, r),
        i == 2 * ((i - r - 1) / 2) + r + 1,
{
    lemma_sym_in_interior(t, cs, i, r);
    lemma_max_sym_parity(cs, t, i, r);
    let a = (i - r - 1) / 2;
    assert(2 * a == i - r - 1);
    assert(2 * a + r + 1 == i);
    assert(a + r <= cs.len()) by {
        assert(i + r <= 2 * cs.len() + 1);
    }
    lemma_sym_to_pal(cs, t, a, r);
}

/// The mirror argument: inside a known symmetric window around `c`
/// reaching to `right`, the radius at the mirror position, clamped to the
/// remaining distance to `right`, is a valid radius at `i`.
proof fn lemma_mirror_seed(t: Seq<Cell>, c: int, right: int, i: int, rm: int)
    requires
        sym_at(t, c, right - c),
        c < i < right,
        sym_at(t, 2 * c - i, rm),
    ensures
        sym_at(t, i, if rm <= right - i { rm } else { right - i }),
{
    let m = if rm <= right - i {
        rm
    } else {
        right - i
    };
    let j = 2 * c - i;
    assert(0 <= i - m && i + m < t.len());
    assert forall|d: int| 1 <= d <= m implies #[trigger] t[i - d] == t[i + d] by {
        // reflect i + d across c
        assert(t[c - (i + d - c)] == t[c + (i + d - c)]);
        assert(t[j - d] == t[i + d]);
        // reflect i - d across c
        if i - d > c {
            assert(t[c - (i - d - c)] == t[c + (i - d - c)]);
            assert(t[i - d] == t[j + d]);
        } else if i - d == c {
            assert(j + d == c);
        } else {
            assert(t[c - (c - (i - d))] == t[c + (c - (i - d))]);
            assert(t[i - d] == t[j + d]);
        }
        // symmetry at the mirror position
        assert(t[j - d] == t[j + d]);
    }
}

/// Build the transformed buffer: a leading guard, each input character
/// followed by a separator, and a trailing guard.
pub fn transform(cs: &Vec<char>) -> (t: Vec<Cell>)
    ensures
        is_transform(t@, cs@),
{
    let n = cs.len();
    let mut t: Vec<Cell> = Vec::new();
    t.push(Cell::LeftGuard);
    t.push(Cell::Sep);
    let mut k: usize = 0;
    while k < n
        invariant
            k <= n,
            n == cs@.len(),
            t@.len() == 2 * k + 2,
            forall|j: int| 0 <= j < t@.len() ==> #[trigger] t@[j] == cell_at(cs@, j),
        decreases n - k,
    {
        t.push(Cell::Ch(cs[k]));
        t.push(Cell::Sep);
        proof {
            assert(t@[2 * k + 2] == cell_at(cs@, 2 * k + 2));
            assert(t@[2 * k + 3] == cell_at(cs@, 2 * k + 3));
        }
        k += 1;
    }
    t.push(Cell::RightGuard);
    t
}

/// The palindrome-radius engine: scan the transformed buffer left to
/// right, compute the maximal symmetry radius of every centre, and return
/// the leftmost centre of maximal radius together with that radius.
pub fn radius_engine(t: &Vec<Cell>, cs: &Vec<char>) -> (res: (usize, usize))
    requires
        is_transform(t@, cs@),
        1 <= cs@.len(),
        cs@.len() <= (usize::MAX - 3) / 2,
    ensures
        max_sym_at(t@, res.0 as int, res.1 as int),
        2 <= res.0 <= 2 * cs@.len(),
        1 <= res.1,
        1 <= res.0 - res.1,
        res.0 + res.1 <= 2 * cs@.len() + 1,
        forall|i: int, l: int| 2 <= i <= 2 * cs@.len() && #[trigger] sym_at(t@, i, l) ==> l
            <= res.1 as int,
        forall|i: int, l: int| 2 <= i < res.0 as int && #[trigger] sym_at(t@, i, l) ==> l
            < res.1 as int,
{
    let n = cs.len();
    let mut p: Vec<usize> = Vec::new();
    let mut k: usize = 0;
    while k < 2 * n + 3
        invariant
            n <= (usize::MAX - 3) / 2,
            k <= 2 * n + 3,
            n == cs@.len(),
            p@.len() == k,
            forall|j: int| 0 <= j < k ==> p@[j] == 0,
        decreases 2 * n + 3 - k,
    {
        p.push(0);
        k += 1;
    }
    p.set(2, 1);
    proof {
        assert(t@[1] == cell_at(cs@, 1));
        assert(t@[3] == cell_at(cs@, 3));
        assert(t@[0] == cell_at(cs@, 0));
        assert(t@[4] == cell_at(cs@, 4));
        assert(sym_at(t@, 2, 1));
        assert(max_sym_at(t@, 2, 1));
        assert forall|j: int| 0 <= j < p@.len() implies sym_at(t@, j, p@[j] as int) by {
            if j != 2 {
                assert(p@[j] == 0);
            }
        }
    }
    let mut center: usize = 2;
    let mut right: usize = 3;
    let mut max_p: usize = 1;
    let mut max_idx: usize = 2;
    let mut i: usize = 3;
    while i <= 2 * n
        invariant
            is_transform(t@, cs@),
            n == cs@.len(),
            1 <= n,
            n <= (usize::MAX - 3) / 2,
            p@.len() == 2 * n + 3,
            3 <= i <= 2 * n + 1,
            2 <= center < i,
            center <= right <= 2 * n + 1,
            sym_at(t@, center as int, right - center),
            forall|j: int| 0 <= j < p@.len() ==> sym_at(t@, j, p@[j] as int),
            forall|j: int| 2 <= j < i ==> max_sym_at(t@, j, p@[j] as int),
            2 <= max_idx < i,
            max_p == p@[max_idx as int],
            1 <= max_p,
            max_idx - max_p >= 1,
            max_idx + max_p <= 2 * n + 1,
            forall|j: int| 2 <= j < i ==> p@[j] <= max_p,
            forall|j: int| 2 <= j < max_idx ==> p@[j] < max_p,
        decreases 2 * n + 1 - i,
    {
        let mut pi: usize = 0;
        if i < right {
            let mirror = center - (i - center);
            let cap = right - i;
            let pm = p[mirror];
            pi = if pm < cap {
                pm
            } else {
                cap
            };
            proof {
                lemma_mirror_seed(t@, center as int, right as int, i as int, pm as int);
            }
        }
        proof {
            lemma_sym_in_interior(t@, cs@, i as int, pi as int);
        }
        while t[i + pi + 1] == t[i - pi - 1]
            invariant
                is_transform(t@, cs@),
                n == cs@.len(),
                n <= (usize::MAX - 3) / 2,
                3 <= i <= 2 * n,
                sym_at(t@, i as int, pi as int),
                1 <= i - pi,
                i + pi <= 2 * n + 1,
            decreases 2 * n + 1 - (i + pi),
        {
            proof {
                let gi = i as int;
                let gp = pi as int;
                assert(t@[gi + gp + 1] == t@[gi - gp - 1]);
                assert forall|d: int| 1 <= d <= gp + 1 implies #[trigger] t@[gi - d] == t@[gi
                    + d] by {
                    if d <= gp {
                        assert(t@[gi - d] == t@[gi + d]);
                    }
                }
                assert(sym_at(t@, gi, gp + 1));
                lemma_sym_in_interior(t@, cs@, gi, gp + 1);
            }
            pi = pi + 1;
        }
        proof {
            assert(t@[i + pi + 1] != t@[i - pi - 1]);
            assert(max_sym_at(t@, i as int, pi as int));
        }
        p.set(i, pi);
        if i + pi > right {
            center = i;
            right = i + pi;
        }
        if pi > max_p {
            max_p = pi;
            max_idx = i;
        }
        i += 1;
    }
    proof {
        assert forall|i2: int, l: int|
            2 <= i2 <= 2 * cs@.len() && #[trigger] sym_at(t@, i2, l) implies l
            <= max_p as int by {
            assert(max_sym_at(t@, i2, p@[i2] as int));
            lemma_sym_le_max(t@, i2, p@[i2] as int, l);
        }
        assert forall|i2: int, l: int|
            2 <= i2 < max_idx as int && #[trigger] sym_at(t@, i2, l) implies l
            < max_p as int by {
            assert(max_sym_at(t@, i2, p@[i2] as int));
            lemma_sym_le_max(t@, i2, p@[i2] as int, l);
        }
    }
    (max_idx, max_p)
}

/// `r` occurs in `s` at position `a`, and no palindrome of the same length
/// starts earlier.
pub open spec fn lps_occurrence(s: Seq<char>, r: Seq<char>, a: int) -> bool {
    &&& 0 <= a
    &&& a + r.len() <= s.len()
    &&& r == s.subrange(a, a + r.len() as int)
    &&& forall|a2: int| 0 <= a2 < a ==> !pal_at(s, a2, r.len() as int)
}

/// What the longest-palindromic-substring engine returns for input `s`:
/// a palindrome occurring in `s`, of maximal length among the palindromic
/// substrings of `s`, at the leftmost position where that length occurs.
pub open spec fn lps_valid(s: Seq<char>, r: Seq<char>) -> bool {
    &&& pal_seq(r)
    &&& r.len() <= s.len()
    &&& (s.len() >= 1 ==> r.len() >= 1)
    &&& exists|a: int| #[trigger] lps_occurrence(s, r, a)
    &&& forall|a: int, l: int| l > r.len() ==> !pal_at(s, a, l)
}

/// An occurring palindrome is a palindromic substring.
proof fn lemma_occurrence_pal(s: Seq<char>, r: Seq<char>, a: int)
    requires
        pal_seq(r),
        0 <= a,
        a + r.len() <= s.len(),
        r == s.subrange(a, a + r.len() as int),
    ensures
        pal_at(s, a, r.len() as int),
{
    let l = r.len() as int;
    assert forall|d: int| 0 <= d < l implies #[trigger] s[a + d] == s[a + l - 1 - d] by {
        assert(r[d] == s[a + d]);
        assert(r[l - 1 - d] == s[a + l - 1 - d]);
        assert(r[d] == r[l - 1 - d]);
    }
}

/// The result of the engine is determined by the input: any two sequences
/// valid for the same input are equal.  Running the engine twice on the
/// same input therefore yields the same result.
pub proof fn lemma_lps_unique(s: Seq<char>, r1: Seq<char>, r2: Seq<char>)
    requires
        lps_valid(s, r1),
        lps_valid(s, r2),
    ensures
        r1 == r2,
{
    let a1 = choose|a: int| #[trigger] lps_occurrence(s, r1, a);
    let a2 = choose|a: int| #[trigger] lps_occurrence(s, r2, a);
    lemma_occurrence_pal(s, r1, a1);
    lemma_occurrence_pal(s, r2, a2);
    assert(r1.len() <= r2.len());
    assert(r2.len() <= r1.len());
    if a1 < a2 {
        assert(!pal_at(s, a1, r2.len() as int));
        assert(false);
    }
    if a2 < a1 {
        assert(!pal_at(s, a2, r1.len() as int));
        assert(false);
    }
    assert(r1 =~= r2);
}

/// Idempotence: the engine's result for its own result is that result
/// again, so a second run of the engine changes nothing.
pub proof fn lemma_lps_idempotent(s: Seq<char>, r: Seq<char>, rr: Seq<char>)
    requires
        lps_valid(s, r),
        lps_valid(r, rr),
    ensures
        rr == r,
{
    assert(r =~= r.subrange(0, r.len() as int));
    assert(lps_occurrence(r, r, 0));
    assert forall|a: int, l: int| l > r.len() implies !pal_at(r, a, l) by {
        if pal_at(r, a, l) {
            assert(a + l <= r.len() && 0 <= a);
        }
    }
    assert(lps_valid(r, r));
    lemma_lps_unique(r, rr, r);
}

/// The longest palindromic substring of `cs`, described by its start and
/// length: the maximal-radius centre of the transformed buffer, read back
/// as a substring of the input.
pub fn longest_pal_span(cs: &Vec<char>) -> (res: (usize, usize))
    requires
        1 <= cs@.len(),
        cs@.len() <= (usize::MAX - 3) / 2,
    ensures
        res.0 + res.1 <= cs@.len(),
        1 <= res.1,
        pal_at(cs@, res.0 as int, res.1 as int),
        forall|a2: int| 0 <= a2 < res.0 as int ==> !pal_at(cs@, a2, res.1 as int),
        forall|a: int, l: int| l > res.1 as int ==> !pal_at(cs@, a, l),
{
    let t = transform(cs);
    let (bi, br) = radius_engine(&t, cs);
    let a = (bi - br - 1) / 2;
    proof {
        let n = cs@.len() as int;
        let gi = bi as int;
        let gr = br as int;
        lemma_max_sym_to_pal(cs@, t@, gi, gr);
        assert(a as int == (gi - gr - 1) / 2);
        assert(gi == 2 * (a as int) + gr + 1);
        assert forall|a2: int, l: int| l > gr implies !pal_at(cs@, a2, l) by {
            if pal_at(cs@, a2, l) {
                lemma_pal_to_sym(cs@, t@, a2, l);
                let i2 = 2 * a2 + l + 1;
                assert(2 <= i2 <= 2 * n);
                assert(sym_at(t@, i2, l));
                assert(false);
            }
        }
        assert forall|a2: int| 0 <= a2 < a as int implies !pal_at(cs@, a2, gr) by {
            if pal_at(cs@, a2, gr) {
                lemma_pal_to_sym(cs@, t@, a2, gr);
                let i2 = 2 * a2 + gr + 1;
                assert(2 <= i2 < gi);
                assert(sym_at(t@, i2, gr));
                assert(false);
            }
        }
    }
    (a, br)
}

} // verus!
