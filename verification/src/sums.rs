//! Sums over runs of integers.
use vstd::prelude::*;

verus! {

/// The sum of a run of integers.
pub open spec fn sum(s: Seq<int>) -> int
    decreases s.len(),
{
    if s.len() == 0 {
        0
    } else {
        sum(s.drop_last()) + s.last()
    }
}

/// No integer of the run is negative.
pub open spec fn counts_up(s: Seq<int>) -> bool {
    forall|i: int| 0 <= i < s.len() ==> 0 <= #[trigger] s[i]
}

pub proof fn lemma_sum_step(s: Seq<int>, i: int)
    requires
        0 <= i < s.len(),
    ensures
        sum(s.take(i + 1)) == sum(s.take(i)) + s[i],
{
    assert(s.take(i + 1).drop_last() =~= s.take(i));
}

/// A run with one integer more on the right.
pub proof fn lemma_sum_right(s: Seq<int>, a: int, b: int)
    requires
        0 <= a <= b < s.len(),
    ensures
        sum(s.subrange(a, b + 1)) == sum(s.subrange(a, b)) + s[b],
{
    assert(s.subrange(a, b + 1).drop_last() =~= s.subrange(a, b));
}

/// A run with one integer more on the left.
pub proof fn lemma_sum_left(s: Seq<int>, a: int, b: int)
    requires
        0 <= a < b <= s.len(),
    ensures
        sum(s.subrange(a, b)) == s[a] + sum(s.subrange(a + 1, b)),
    decreases b - a,
{
    if b == a + 1 {
        assert(s.subrange(a, b).drop_last() =~= Seq::empty());
        assert(s.subrange(a + 1, b) =~= Seq::empty());
    } else {
        lemma_sum_left(s, a, b - 1);
        lemma_sum_right(s, a, b - 1);
        lemma_sum_right(s, a + 1, b - 1);
    }
}

/// Two runs one after the other.
pub proof fn lemma_sum_split(s: Seq<int>, a: int, b: int, c: int)
    requires
        0 <= a <= b <= c <= s.len(),
    ensures
        sum(s.subrange(a, c)) == sum(s.subrange(a, b)) + sum(s.subrange(b, c)),
    decreases c - b,
{
    if b == c {
        assert(s.subrange(b, c) =~= Seq::empty());
    } else {
        lemma_sum_split(s, a, b, c - 1);
        lemma_sum_right(s, a, c - 1);
        lemma_sum_right(s, b, c - 1);
    }
}

pub proof fn lemma_sum_nonneg(s: Seq<int>)
    requires
        counts_up(s),
    ensures
        0 <= sum(s),
    decreases s.len(),
{
    if s.len() > 0 {
        assert forall|i: int| 0 <= i < s.drop_last().len() implies 0 <= #[trigger] s.drop_last()[i] by {
            assert(s.drop_last()[i] == s[i]);
        }
        lemma_sum_nonneg(s.drop_last());
        assert(s.last() == s[s.len() - 1]);
    }
}

/// A part of a run sums up to no more than the whole.
pub proof fn lemma_sum_part(s: Seq<int>, a: int, b: int)
    requires
        counts_up(s),
        0 <= a <= b <= s.len(),
    ensures
        0 <= sum(s.subrange(a, b)) <= sum(s),
{
    let n = s.len() as int;
    lemma_sum_split(s, 0, a, n);
    lemma_sum_split(s, a, b, n);
    assert(s.subrange(0, n) =~= s);
    assert(counts_up(s.subrange(0, a)));
    assert(counts_up(s.subrange(a, b)));
    assert(counts_up(s.subrange(b, n)));
    lemma_sum_nonneg(s.subrange(0, a));
    lemma_sum_nonneg(s.subrange(a, b));
    lemma_sum_nonneg(s.subrange(b, n));
}

/// A run that is nowhere larger sums up to no more.
pub proof fn lemma_sum_le(s: Seq<int>, t: Seq<int>)
    requires
        s.len() == t.len(),
        forall|i: int| 0 <= i < s.len() ==> #[trigger] s[i] <= t[i],
    ensures
        sum(s) <= sum(t),
    decreases s.len(),
{
    if s.len() > 0 {
        assert forall|i: int| 0 <= i < s.drop_last().len() implies #[trigger] s.drop_last()[i] <= t.drop_last()[i] by {
            assert(s[i] <= t[i]);
        }
        lemma_sum_le(s.drop_last(), t.drop_last());
        assert(s[s.len() - 1] <= t[s.len() - 1]);
    }
}

/// Raising one integer raises the sum.
pub proof fn lemma_sum_update(s: Seq<int>, i: int, v: int)
    requires
        0 <= i < s.len(),
    ensures
        sum(s.update(i, v)) == sum(s) - s[i] + v,
    decreases s.len(),
{
    let t = s.update(i, v);
    if i == s.len() - 1 {
        assert(t.drop_last() =~= s.drop_last());
    } else {
        assert(t.drop_last() =~= s.drop_last().update(i, v));
        lemma_sum_update(s.drop_last(), i, v);
    }
}

/// Zeros add nothing.
pub proof fn lemma_sum_skip(s: Seq<int>, i: int, j: int)
    requires
        0 <= i <= j <= s.len(),
        forall|k: int| i <= k < j ==> #[trigger] s[k] == 0,
    ensures
        sum(s.take(j)) == sum(s.take(i)),
    decreases j - i,
{
    if i < j {
        lemma_sum_skip(s, i, j - 1);
        lemma_sum_step(s, j - 1);
    }
}

/// A run of equal integers.
pub proof fn lemma_sum_flat(s: Seq<int>, v: int)
    requires
        forall|i: int| 0 <= i < s.len() ==> #[trigger] s[i] == v,
    ensures
        sum(s) == v * s.len(),
    decreases s.len(),
{
    if s.len() > 0 {
        assert forall|i: int| 0 <= i < s.drop_last().len() implies #[trigger] s.drop_last()[i] == v by {
            assert(s[i] == v);
        }
        lemma_sum_flat(s.drop_last(), v);
        assert(s[s.len() - 1] == v);
        let n = s.len() as int;
        assert(v * n == v * (n - 1) + v) by (nonlinear_arith);
    } else {
        assert(v * 0 == 0) by (nonlinear_arith);
    }
}

/// The sum of `g` over the integers from `a` up to but without `b`.
pub open spec fn span_sum(g: spec_fn(int) -> int, a: int, b: int) -> int
    decreases b - a,
{
    if a >= b {
        0
    } else {
        span_sum(g, a, b - 1) + g(b - 1)
    }
}

/// The sum of `g` along row `y`, over the columns from `x0` up to but without `x1`.
pub open spec fn row_sum(g: spec_fn(int, int) -> int, x0: int, x1: int, y: int) -> int {
    span_sum(|x: int| g(x, y), x0, x1)
}

/// The sum of `g` over the columns `x0..x1` of the rows `y0..y1`.
pub open spec fn rect_sum(g: spec_fn(int, int) -> int, x0: int, x1: int, y0: int, y1: int) -> int {
    span_sum(|y: int| row_sum(g, x0, x1, y), y0, y1)
}

/// Values between 0 and `top` sum up to between 0 and as many times `top`.
pub proof fn lemma_span_bound(g: spec_fn(int) -> int, a: int, b: int, top: int)
    requires
        a <= b,
        forall|x: int| a <= x < b ==> 0 <= #[trigger] g(x) <= top,
    ensures
        0 <= span_sum(g, a, b) <= top * (b - a),
    decreases b - a,
{
    if a < b {
        lemma_span_bound(g, a, b - 1, top);
        assert(top * (b - a) == top * (b - 1 - a) + top) by (nonlinear_arith);
    } else {
        assert(top * 0 == 0) by (nonlinear_arith);
    }
}

/// One more column.
pub proof fn lemma_row_step(g: spec_fn(int, int) -> int, x0: int, x: int, y: int)
    requires
        x0 <= x,
    ensures
        row_sum(g, x0, x0, y) == 0,
        row_sum(g, x0, x + 1, y) == row_sum(g, x0, x, y) + g(x, y),
{
}

/// One more row.
pub proof fn lemma_rect_step(g: spec_fn(int, int) -> int, x0: int, x1: int, y0: int, y: int)
    requires
        y0 <= y,
    ensures
        rect_sum(g, x0, x1, y0, y0) == 0,
        rect_sum(g, x0, x1, y0, y + 1) == rect_sum(g, x0, x1, y0, y) + row_sum(g, x0, x1, y),
{
}

/// Functions that agree have the same sums.
pub proof fn lemma_span_same(f: spec_fn(int) -> int, g: spec_fn(int) -> int, a: int, b: int)
    requires
        forall|x: int| a <= x < b ==> #[trigger] f(x) == g(x),
    ensures
        span_sum(f, a, b) == span_sum(g, a, b),
    decreases b - a,
{
    if a < b {
        lemma_span_same(f, g, a, b - 1);
        assert(f(b - 1) == g(b - 1));
    }
}

/// A sum without its first term.
pub proof fn lemma_span_left(g: spec_fn(int) -> int, a: int, b: int)
    requires
        a < b,
    ensures
        span_sum(g, a, b) == g(a) + span_sum(g, a + 1, b),
    decreases b - a,
{
    if a + 1 < b {
        lemma_span_left(g, a, b - 1);
        assert(span_sum(g, a + 1, b) == span_sum(g, a + 1, b - 1) + g(b - 1));
    } else {
        assert(span_sum(g, a, b - 1) == 0);
        assert(span_sum(g, a + 1, b) == 0);
    }
}

/// A sum cut in two.
pub proof fn lemma_span_split(g: spec_fn(int) -> int, a: int, m: int, b: int)
    requires
        a <= m <= b,
    ensures
        span_sum(g, a, b) == span_sum(g, a, m) + span_sum(g, m, b),
    decreases b - m,
{
    if m < b {
        lemma_span_split(g, a, m, b - 1);
    }
}

/// The sum of a difference.
pub proof fn lemma_span_minus(f: spec_fn(int) -> int, g: spec_fn(int) -> int, h: spec_fn(int) -> int, a: int, b: int)
    requires
        forall|x: int| a <= x < b ==> #[trigger] f(x) == g(x) - h(x),
    ensures
        span_sum(f, a, b) == span_sum(g, a, b) - span_sum(h, a, b),
    decreases b - a,
{
    if a < b {
        lemma_span_minus(f, g, h, a, b - 1);
        assert(f(b - 1) == g(b - 1) - h(b - 1));
    }
}

/// A sum over shifted places.
pub proof fn lemma_span_shift(f: spec_fn(int) -> int, g: spec_fn(int) -> int, a: int, b: int, d: int)
    requires
        forall|x: int| a <= x < b ==> #[trigger] f(x) == g(x + d),
    ensures
        span_sum(f, a, b) == span_sum(g, a + d, b + d),
    decreases b - a,
{
    if a < b {
        lemma_span_shift(f, g, a, b - 1, d);
        assert(f(b - 1) == g(b - 1 + d));
    }
}

/// The sum over a rectangle, seen from another origin.
pub proof fn lemma_rect_shift(
    f: spec_fn(int, int) -> int,
    g: spec_fn(int, int) -> int,
    x0: int,
    x1: int,
    y0: int,
    y1: int,
    dx: int,
    dy: int,
)
    requires
        forall|x: int, y: int| x0 <= x < x1 && y0 <= y < y1 ==> #[trigger] f(x, y) == g(x + dx, y + dy),
    ensures
        rect_sum(f, x0, x1, y0, y1) == rect_sum(g, x0 + dx, x1 + dx, y0 + dy, y1 + dy),
{
    let p = |y: int| row_sum(f, x0, x1, y);
    let q = |y: int| row_sum(g, x0 + dx, x1 + dx, y);
    assert forall|y: int| y0 <= y < y1 implies #[trigger] p(y) == q(y + dy) by {
        lemma_span_shift(|x: int| f(x, y), |x: int| g(x, y + dy), x0, x1, dx);
    }
    lemma_span_shift(p, q, y0, y1, dy);
}

/// Values between 0 and `top` over a rectangle.
pub proof fn lemma_rect_bound(g: spec_fn(int, int) -> int, x0: int, x1: int, y0: int, y1: int, top: int)
    requires
        x0 <= x1,
        y0 <= y1,
        forall|x: int, y: int| x0 <= x < x1 && y0 <= y < y1 ==> 0 <= #[trigger] g(x, y) <= top,
    ensures
        0 <= rect_sum(g, x0, x1, y0, y1) <= top * ((x1 - x0) * (y1 - y0)),
{
    let p = |y: int| row_sum(g, x0, x1, y);
    let line = top * (x1 - x0);
    assert forall|y: int| y0 <= y < y1 implies 0 <= #[trigger] p(y) <= line by {
        lemma_span_bound(|x: int| g(x, y), x0, x1, top);
    }
    lemma_span_bound(p, y0, y1, line);
    assert(line * (y1 - y0) == top * ((x1 - x0) * (y1 - y0))) by (nonlinear_arith)
        requires
            line == top * (x1 - x0),
    ;
}

/// The sum over a rectangle out of four sums that start at the origin.
pub proof fn lemma_rect_corners(g: spec_fn(int, int) -> int, x0: int, x1: int, y0: int, y1: int)
    requires
        0 <= x0 <= x1,
        0 <= y0 <= y1,
    ensures
        rect_sum(g, x0, x1, y0, y1) == rect_sum(g, 0, x1, 0, y1) + rect_sum(g, 0, x0, 0, y0) - rect_sum(
            g,
            0,
            x1,
            0,
            y0,
        ) - rect_sum(g, 0, x0, 0, y1),
{
    let part = |y: int| row_sum(g, x0, x1, y);
    let long = |y: int| row_sum(g, 0, x1, y);
    let short = |y: int| row_sum(g, 0, x0, y);
    assert forall|y: int| #[trigger] part(y) == long(y) - short(y) by {
        lemma_span_split(|x: int| g(x, y), 0, x0, x1);
    }
    lemma_span_minus(part, long, short, y0, y1);
    lemma_span_split(long, 0, y0, y1);
    lemma_span_split(short, 0, y0, y1);
}

/// Values that are at most `c` times others have at most `c` times their sum.
pub proof fn lemma_span_times(f: spec_fn(int) -> int, g: spec_fn(int) -> int, a: int, b: int, c: int)
    requires
        forall|x: int| a <= x < b ==> #[trigger] f(x) <= c * g(x),
    ensures
        span_sum(f, a, b) <= c * span_sum(g, a, b),
    decreases b - a,
{
    if a < b {
        lemma_span_times(f, g, a, b - 1, c);
        assert(f(b - 1) <= c * g(b - 1));
        assert(c * (span_sum(g, a, b - 1) + g(b - 1)) == c * span_sum(g, a, b - 1) + c * g(b - 1)) by (nonlinear_arith);
    } else {
        assert(c * 0 == 0) by (nonlinear_arith);
    }
}

/// The same over a rectangle.
pub proof fn lemma_rect_times(
    f: spec_fn(int, int) -> int,
    g: spec_fn(int, int) -> int,
    x0: int,
    x1: int,
    y0: int,
    y1: int,
    c: int,
)
    requires
        forall|x: int, y: int| x0 <= x < x1 && y0 <= y < y1 ==> #[trigger] f(x, y) <= c * g(x, y),
    ensures
        rect_sum(f, x0, x1, y0, y1) <= c * rect_sum(g, x0, x1, y0, y1),
{
    let p = |y: int| row_sum(f, x0, x1, y);
    let q = |y: int| row_sum(g, x0, x1, y);
    assert forall|y: int| y0 <= y < y1 implies #[trigger] p(y) <= c * q(y) by {
        let (r, s) = (|x: int| f(x, y), |x: int| g(x, y));
        assert forall|x: int| x0 <= x < x1 implies #[trigger] r(x) <= c * s(x) by {
            assert(f(x, y) <= c * g(x, y));
        }
        lemma_span_times(r, s, x0, x1, c);
    }
    lemma_span_times(p, q, y0, y1, c);
}

/// A run that is nowhere more than `c` times another sums up to at most `c` times
/// as much.
pub proof fn lemma_sum_times(s: Seq<int>, t: Seq<int>, c: int)
    requires
        s.len() == t.len(),
        forall|i: int| 0 <= i < s.len() ==> #[trigger] s[i] <= c * t[i],
    ensures
        sum(s) <= c * sum(t),
    decreases s.len(),
{
    if s.len() > 0 {
        let (a, b) = (s.drop_last(), t.drop_last());
        assert forall|i: int| 0 <= i < a.len() implies #[trigger] a[i] <= c * b[i] by {
            assert(s[i] <= c * t[i]);
        }
        lemma_sum_times(a, b, c);
        assert(s[s.len() - 1] <= c * t[s.len() - 1]);
        assert(c * (sum(b) + t.last()) == c * sum(b) + c * t.last()) by (nonlinear_arith);
    } else {
        assert(c * 0 == 0) by (nonlinear_arith);
    }
}

/// A function that is higher by the same everywhere.
pub proof fn lemma_span_lift(f: spec_fn(int) -> int, g: spec_fn(int) -> int, a: int, b: int, c: int)
    requires
        a <= b,
        forall|x: int| a <= x < b ==> #[trigger] f(x) == g(x) + c,
    ensures
        span_sum(f, a, b) == span_sum(g, a, b) + c * (b - a),
    decreases b - a,
{
    if a < b {
        lemma_span_lift(f, g, a, b - 1, c);
        assert(f(b - 1) == g(b - 1) + c);
        assert(c * (b - a) == c * (b - 1 - a) + c) by (nonlinear_arith);
    } else {
        assert(c * 0 == 0) by (nonlinear_arith);
    }
}

/// The same over a rectangle.
pub proof fn lemma_rect_lift(
    f: spec_fn(int, int) -> int,
    g: spec_fn(int, int) -> int,
    x0: int,
    x1: int,
    y0: int,
    y1: int,
    c: int,
)
    requires
        x0 <= x1,
        y0 <= y1,
        forall|x: int, y: int| x0 <= x < x1 && y0 <= y < y1 ==> #[trigger] f(x, y) == g(x, y) + c,
    ensures
        rect_sum(f, x0, x1, y0, y1) == rect_sum(g, x0, x1, y0, y1) + c * ((x1 - x0) * (y1 - y0)),
{
    let p = |y: int| row_sum(f, x0, x1, y);
    let q = |y: int| row_sum(g, x0, x1, y);
    let line = c * (x1 - x0);
    assert forall|y: int| y0 <= y < y1 implies #[trigger] p(y) == q(y) + line by {
        lemma_span_lift(|x: int| f(x, y), |x: int| g(x, y), x0, x1, c);
    }
    lemma_span_lift(p, q, y0, y1, line);
    assert(line * (y1 - y0) == c * ((x1 - x0) * (y1 - y0))) by (nonlinear_arith)
        requires
            line == c * (x1 - x0),
    ;
}

} // verus!
