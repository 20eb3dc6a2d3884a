//! Moving averages along a line.
use vstd::prelude::*;

use crate::geometry::at;

verus! {

/// The sum of a run of values.
pub open spec fn total(s: Seq<u8>) -> int
    decreases s.len(),
{
    if s.len() == 0 {
        0
    } else {
        total(s.drop_last()) + s.last()
    }
}

/// Where the window of radius `r` around `x` begins.
pub open spec fn window_from(r: int, x: int) -> int {
    if x < r { 0 } else { x - r }
}

/// Where the window of radius `r` around `x` ends on a line of `n` values: the
/// place after its last value.
pub open spec fn window_end(n: int, r: int, x: int) -> int {
    if x + r + 1 < n { x + r + 1 } else { n }
}

/// The values of the window around `x`. It is cut off at the ends of the line.
pub open spec fn window_values(line: Seq<u8>, r: int, x: int) -> Seq<u8> {
    line.subrange(window_from(r, x), window_end(line.len() as int, r, x))
}

/// The mean of some values, rounded to the nearest integer, halves up.
pub open spec fn rounded_mean(s: Seq<u8>) -> u8 {
    ((total(s) + s.len() as int / 2) / (s.len() as int)) as u8
}

/// A line with each value replaced by the mean of its window.
pub open spec fn smooth_line(line: Seq<u8>, r: int) -> Seq<u8> {
    Seq::new(line.len(), |x: int| rounded_mean(window_values(line, r, x)))
}

/// Row `y` of a plane, from column `x0` up to but without `x1`.
pub open spec fn row_of(m: Seq<u8>, w: int, y: int, x0: int, x1: int) -> Seq<u8> {
    Seq::new((x1 - x0) as nat, |k: int| m[at(w, x0 + k, y)])
}

/// Column `x` of a plane, from row `y0` up to but without `y1`.
pub open spec fn column_of(m: Seq<u8>, w: int, x: int, y0: int, y1: int) -> Seq<u8> {
    Seq::new((y1 - y0) as nat, |k: int| m[at(w, x, y0 + k)])
}

pub proof fn lemma_total_bound(s: Seq<u8>)
    ensures
        0 <= total(s) <= 255 * s.len(),
    decreases s.len(),
{
    if s.len() > 0 {
        lemma_total_bound(s.drop_last());
    }
}

/// A run with one value more on the right.
pub proof fn lemma_total_right(s: Seq<u8>, a: int, b: int)
    requires
        0 <= a <= b < s.len(),
    ensures
        total(s.subrange(a, b + 1)) == total(s.subrange(a, b)) + s[b],
{
    assert(s.subrange(a, b + 1).drop_last() =~= s.subrange(a, b));
}

/// A run with one value more on the left.
pub proof fn lemma_total_left(s: Seq<u8>, a: int, b: int)
    requires
        0 <= a < b <= s.len(),
    ensures
        total(s.subrange(a, b)) == s[a] + total(s.subrange(a + 1, b)),
    decreases b - a,
{
    if b == a + 1 {
        assert(s.subrange(a, b).drop_last() =~= Seq::empty());
        assert(s.subrange(a + 1, b) =~= Seq::empty());
    } else {
        lemma_total_left(s, a, b - 1);
        lemma_total_right(s, a, b - 1);
        lemma_total_right(s, a + 1, b - 1);
    }
}

/// Values within bounds have their rounded mean within them.
pub proof fn lemma_mean_bounds(s: Seq<u8>, lo: u8, hi: u8)
    requires
        s.len() > 0,
        forall|k: int| 0 <= k < s.len() ==> lo <= #[trigger] s[k] <= hi,
    ensures
        lo <= rounded_mean(s) <= hi,
        rounded_mean(s) == (total(s) + s.len() as int / 2) / (s.len() as int),
{
    lemma_total_between(s, lo, hi);
    let n = s.len() as int;
    let t = total(s);
    assert(lo <= (t + n / 2) / n <= hi) by (nonlinear_arith)
        requires
            0 < n,
            lo * n <= t <= hi * n,
            0 <= lo,
    ;
}

proof fn lemma_total_between(s: Seq<u8>, lo: u8, hi: u8)
    requires
        forall|k: int| 0 <= k < s.len() ==> lo <= #[trigger] s[k] <= hi,
    ensures
        lo * s.len() <= total(s) <= hi * s.len(),
    decreases s.len(),
{
    if s.len() > 0 {
        assert forall|k: int| 0 <= k < s.drop_last().len() implies lo <= #[trigger] s.drop_last()[k] <= hi by {
            assert(s.drop_last()[k] == s[k]);
        }
        lemma_total_between(s.drop_last(), lo, hi);
        let n = s.len() as int;
        assert(lo * n == lo * (n - 1) + lo) by (nonlinear_arith);
        assert(hi * n == hi * (n - 1) + hi) by (nonlinear_arith);
        assert(s.last() == s[n - 1]);
    } else {
        assert(lo * 0 == 0 && hi * 0 == 0) by (nonlinear_arith);
    }
}

/// The mean of a window from its sum and its number of values.
pub fn average(sum: u64, n: u64, values: Ghost<Seq<u8>>) -> (r: u8)
    requires
        0 < n,
        n == values@.len(),
        sum == total(values@),
        n <= 0x1_0000_0000,
    ensures
        r == rounded_mean(values@),
{
    proof {
        lemma_total_bound(values@);
        lemma_mean_bounds(values@, 0, 255);
    }
    ((sum + n / 2) / n) as u8
}

/// The sum and the number of values of the window around place 0.
pub fn window_start(line: &[u8], radius: usize) -> (r: (u64, u64))
    requires
        0 < line@.len() <= 0x1_0000_0000,
    ensures
        r.0 == total(window_values(line@, radius as int, 0)),
        r.1 == window_values(line@, radius as int, 0).len(),
{
    let last: usize = if radius < line.len() { radius } else { line.len() - 1 };
    let mut sum: u64 = 0;
    let mut k: usize = 0;
    assert(line@.subrange(0, 0) =~= Seq::empty());
    while k <= last
        invariant
            last < line@.len() <= 0x1_0000_0000,
            k <= last + 1,
            sum == total(line@.subrange(0, k as int)),
            sum <= 255 * k,
        decreases last + 1 - k,
    {
        proof {
            lemma_total_right(line@, 0, k as int);
        }
        sum += line[k] as u64;
        k += 1;
    }
    assert(window_values(line@, radius as int, 0) =~= line@.subrange(0, k as int));
    (sum, (last as u64) + 1)
}

/// Moves the window on by one place.
pub fn window_step(line: &[u8], radius: usize, at: usize, sum: &mut u64, n: &mut u64)
    requires
        line@.len() <= 0x1_0000_0000,
        at < line@.len(),
        *old(sum) == total(window_values(line@, radius as int, at as int)),
        *old(n) == window_values(line@, radius as int, at as int).len(),
    ensures
        at + 1 < line@.len() ==> *final(sum) == total(window_values(line@, radius as int, at + 1)),
        at + 1 < line@.len() ==> *final(n) == window_values(line@, radius as int, at + 1).len(),
{
    let ghost from = window_from(radius as int, at as int);
    let ghost end = window_end(line@.len() as int, radius as int, at as int);
    let ghost next = if at >= radius { from + 1 } else { from };
    proof {
        lemma_total_bound(line@.subrange(from, end));
        if at >= radius {
            lemma_total_left(line@, from, end);
        }
        lemma_total_bound(line@.subrange(next, end));
    }
    if at >= radius {
        *sum = *sum - (line[at - radius] as u64);
        *n = *n - 1;
    }
    assert(*sum == total(line@.subrange(next, end)) && *n == end - next);
    if radius < line.len() - at && at + radius + 1 < line.len() {
        proof {
            lemma_total_right(line@, next, end);
        }
        *sum = *sum + (line[at + radius + 1] as u64);
        *n = *n + 1;
    }
}

/// Replaces each value by the mean of its window.
pub fn smooth(line: &[u8], radius: usize) -> (r: Vec<u8>)
    requires
        line@.len() <= 0x1_0000_0000,
    ensures
        r@ == smooth_line(line@, radius as int),
{
    let mut r: Vec<u8> = Vec::with_capacity(line.len());
    if line.len() == 0 {
        assert(r@ =~= smooth_line(line@, radius as int));
        return r;
    }
    let (mut sum, mut n): (u64, u64) = window_start(line, radius);
    let mut x: usize = 0;
    while x < line.len()
        invariant
            line@.len() <= 0x1_0000_0000,
            x <= line@.len(),
            x < line@.len() ==> sum == total(window_values(line@, radius as int, x as int)),
            x < line@.len() ==> n == window_values(line@, radius as int, x as int).len(),
            r@.len() == x,
            forall|k: int| 0 <= k < x ==> #[trigger] r@[k] == smooth_line(line@, radius as int)[k],
        decreases line@.len() - x,
    {
        r.push(average(sum, n, Ghost(window_values(line@, radius as int, x as int))));
        window_step(line, radius, x, &mut sum, &mut n);
        x += 1;
    }
    assert(r@ =~= smooth_line(line@, radius as int));
    r
}

/// A plane whose rows are smoothed within a rectangle of columns `x0..x1` and
/// rows `y0..y1`; what lies outside keeps its value.
pub open spec fn rows_smoothed(m: Seq<u8>, w: int, x0: int, y0: int, x1: int, y1: int, r: int) -> Seq<u8> {
    Seq::new(
        m.len(),
        |i: int|
            if x0 <= i % w < x1 && y0 <= i / w < y1 {
                smooth_line(row_of(m, w, i / w, x0, x1), r)[i % w - x0]
            } else {
                m[i]
            },
    )
}

/// The same along columns.
pub open spec fn columns_smoothed(m: Seq<u8>, w: int, x0: int, y0: int, x1: int, y1: int, r: int) -> Seq<u8> {
    Seq::new(
        m.len(),
        |i: int|
            if x0 <= i % w < x1 && y0 <= i / w < y1 {
                smooth_line(column_of(m, w, i % w, y0, y1), r)[i / w - y0]
            } else {
                m[i]
            },
    )
}

/// Smooths the rows of a rectangle in place.
pub fn blur_rows(data: &mut Vec<u8>, w: usize, h: usize, x0: usize, y0: usize, x1: usize, y1: usize, r: usize)
    requires
        old(data)@.len() == w * h,
        x0 < x1 <= w <= 0x1_0000_0000,
        y0 <= y1 <= h,
    ensures
        final(data)@ == rows_smoothed(
            old(data)@,
            w as int,
            x0 as int,
            y0 as int,
            x1 as int,
            y1 as int,
            r as int,
        ),
{
    let ghost m = data@;
    let ghost wi = w as int;
    let ghost hi = h as int;
    let ghost goal = rows_smoothed(m, wi, x0 as int, y0 as int, x1 as int, y1 as int, r as int);
    let mut y: usize = y0;
    while y < y1
        invariant
            data@.len() == m.len() == w * h,
            wi == w,
            hi == h,
            x0 < x1 <= w <= 0x1_0000_0000,
            y0 <= y <= y1 <= h,
            goal == rows_smoothed(m, wi, x0 as int, y0 as int, x1 as int, y1 as int, r as int),
            forall|i: int| 0 <= i < m.len() ==> #[trigger] data@[i] == if i / wi < y { goal[i] } else { m[i] },
        decreases y1 - y,
    {
        let mut line: Vec<u8> = Vec::with_capacity(x1 - x0);
        let mut x: usize = x0;
        while x < x1
            invariant
                data@.len() == m.len() == w * h,
                wi == w,
                hi == h,
                x0 <= x <= x1 <= w,
                y < h,
                forall|i: int| 0 <= i < m.len() ==> #[trigger] data@[i] == if i / wi < y { goal[i] } else { m[i] },
                line@.len() == x - x0,
                forall|k: int| 0 <= k < line@.len() ==> #[trigger] line@[k] == m[at(wi, x0 + k, y as int)],
            decreases x1 - x,
        {
            proof {
                crate::geometry::lemma_at_bound(wi, hi, x as int, y as int);
                crate::geometry::lemma_at_split(wi, x as int, y as int);
                assert(data.len() <= usize::MAX);
            }
            line.push(data[y * w + x]);
            x += 1;
        }
        assert(line@ =~= row_of(m, wi, y as int, x0 as int, x1 as int));
        let done: Vec<u8> = smooth(line.as_slice(), r);
        let mut x: usize = x0;
        let ghost was = data@;
        while x < x1
            invariant
                data@.len() == m.len() == was.len() == w * h,
                wi == w,
                hi == h,
                x0 <= x <= x1 <= w,
                y0 <= y < y1 <= h,
                done@ == smooth_line(row_of(m, wi, y as int, x0 as int, x1 as int), r as int),
                forall|i: int|
                    0 <= i < m.len() ==> #[trigger] data@[i] == if i / wi == y && x0 <= i % wi < x {
                        done@[i % wi - x0]
                    } else {
                        was[i]
                    },
            decreases x1 - x,
        {
            proof {
                crate::geometry::lemma_at_bound(wi, hi, x as int, y as int);
                crate::geometry::lemma_at_split(wi, x as int, y as int);
                assert(data.len() <= usize::MAX);
            }
            let i: usize = y * w + x;
            let ghost had = data@;
            data.set(i, done[x - x0]);
            proof {
                assert forall|j: int| 0 <= j < m.len() implies #[trigger] data@[j] == if j / wi == y && x0 <= j % wi
                    < x + 1 {
                    done@[j % wi - x0]
                } else {
                    was[j]
                } by {
                    if j != i {
                        assert(data@[j] == had[j]);
                        crate::geometry::lemma_at_join(wi, hi, j);
                    }
                }
            }
            x += 1;
        }
        y += 1;
    }
    proof {
        assert forall|i: int| 0 <= i < m.len() implies data@[i] == goal[i] by {
            if i / wi >= y {
                assert(data@[i] == m[i]);
            }
        }
        assert(data@ =~= goal);
    }
}

/// Smooths the columns of a rectangle in place.
pub fn blur_columns(data: &mut Vec<u8>, w: usize, h: usize, x0: usize, y0: usize, x1: usize, y1: usize, r: usize)
    requires
        old(data)@.len() == w * h,
        x0 <= x1 <= w,
        y0 < y1 <= h <= 0x1_0000_0000,
    ensures
        final(data)@ == columns_smoothed(
            old(data)@,
            w as int,
            x0 as int,
            y0 as int,
            x1 as int,
            y1 as int,
            r as int,
        ),
{
    let ghost m = data@;
    let ghost wi = w as int;
    let ghost hi = h as int;
    let ghost goal = columns_smoothed(m, wi, x0 as int, y0 as int, x1 as int, y1 as int, r as int);
    let mut x: usize = x0;
    while x < x1
        invariant
            data@.len() == m.len() == w * h,
            wi == w,
            hi == h,
            x0 <= x <= x1 <= w,
            y0 < y1 <= h <= 0x1_0000_0000,
            goal == columns_smoothed(m, wi, x0 as int, y0 as int, x1 as int, y1 as int, r as int),
            forall|i: int| 0 <= i < m.len() ==> #[trigger] data@[i] == if i % wi < x { goal[i] } else { m[i] },
        decreases x1 - x,
    {
        let mut line: Vec<u8> = Vec::with_capacity(y1 - y0);
        let mut y: usize = y0;
        while y < y1
            invariant
                data@.len() == m.len() == w * h,
                wi == w,
                hi == h,
                x < w,
                y0 <= y <= y1 <= h,
                forall|i: int| 0 <= i < m.len() ==> #[trigger] data@[i] == if i % wi < x { goal[i] } else { m[i] },
                line@.len() == y - y0,
                forall|k: int| 0 <= k < line@.len() ==> #[trigger] line@[k] == m[at(wi, x as int, y0 + k)],
            decreases y1 - y,
        {
            proof {
                crate::geometry::lemma_at_bound(wi, hi, x as int, y as int);
                crate::geometry::lemma_at_split(wi, x as int, y as int);
                assert(data.len() <= usize::MAX);
            }
            line.push(data[y * w + x]);
            y += 1;
        }
        assert(line@ =~= column_of(m, wi, x as int, y0 as int, y1 as int));
        let done: Vec<u8> = smooth(line.as_slice(), r);
        let mut y: usize = y0;
        let ghost was = data@;
        while y < y1
            invariant
                data@.len() == m.len() == was.len() == w * h,
                wi == w,
                hi == h,
                x0 <= x < x1 <= w,
                y0 <= y <= y1 <= h,
                done@ == smooth_line(column_of(m, wi, x as int, y0 as int, y1 as int), r as int),
                forall|i: int|
                    0 <= i < m.len() ==> #[trigger] data@[i] == if i % wi == x && y0 <= i / wi < y {
                        done@[i / wi - y0]
                    } else {
                        was[i]
                    },
            decreases y1 - y,
        {
            proof {
                crate::geometry::lemma_at_bound(wi, hi, x as int, y as int);
                crate::geometry::lemma_at_split(wi, x as int, y as int);
                assert(data.len() <= usize::MAX);
            }
            let i: usize = y * w + x;
            let ghost had = data@;
            data.set(i, done[y - y0]);
            proof {
                assert forall|j: int| 0 <= j < m.len() implies #[trigger] data@[j] == if j % wi == x && y0 <= j / wi
                    < y + 1 {
                    done@[j / wi - y0]
                } else {
                    was[j]
                } by {
                    if j != i {
                        assert(data@[j] == had[j]);
                        crate::geometry::lemma_at_join(wi, hi, j);
                    }
                }
            }
            y += 1;
        }
        x += 1;
    }
    proof {
        assert forall|i: int| 0 <= i < m.len() implies data@[i] == goal[i] by {
            if i % wi >= x {
                assert(data@[i] == m[i]);
            }
        }
        assert(data@ =~= goal);
    }
}

} // verus!
