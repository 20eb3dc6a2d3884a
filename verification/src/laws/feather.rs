//! Laws of the feather.
use vstd::prelude::*;

use crate::cutout::blur::{
    column_of, lemma_mean_bounds, rounded_mean, row_of, rows_smoothed, total, window_from, window_values,
};
use crate::cutout::feather::feathered;
use crate::cutout::morphology::in_window;
use crate::geometry::{at, lemma_at_bound, lemma_at_split, on_plane};
use crate::sums::{lemma_span_same, span_sum};

verus! {

/// A feathered value lies within the bounds of the values around it. Where these
/// are all the same, as deep inside or far outside, it is that value.
pub proof fn law_a_feather_stays_within_its_window(m: Seq<u8>, w: int, h: int, r: int, x: int, y: int, lo: u8, hi: u8)
    requires
        m.len() == w * h,
        0 <= r,
        on_plane(w, h, x, y),
        forall|a: int, b: int|
            on_plane(w, h, a, b) && in_window(r, r, x, y, a, b) ==> lo <= #[trigger] m[at(w, a, b)] <= hi,
    ensures
        lo <= feathered(m, w, h, r)[at(w, x, y)] <= hi,
{
    let rows = rows_smoothed(m, w, 0, 0, w, h, r);
    lemma_at_bound(w, h, x, y);
    lemma_at_split(w, x, y);
    let column = column_of(rows, w, x, 0, h);
    let around = window_values(column, r, y);
    assert forall|k: int| 0 <= k < around.len() implies lo <= #[trigger] around[k] <= hi by {
        let v = window_from(r, y) + k;
        assert(around[k] == column[v]);
        assert(column[v] == rows[at(w, x, v)]);
        lemma_at_bound(w, h, x, v);
        lemma_at_split(w, x, v);
        let line = row_of(m, w, v, 0, w);
        let near = window_values(line, r, x);
        assert forall|j: int| 0 <= j < near.len() implies lo <= #[trigger] near[j] <= hi by {
            let u = window_from(r, x) + j;
            assert(near[j] == line[u]);
            assert(line[u] == m[at(w, u, v)]);
            assert(in_window(r, r, x, y, u, v));
        }
        lemma_mean_bounds(near, lo, hi);
        assert(rows[at(w, x, v)] == rounded_mean(near));
    }
    lemma_mean_bounds(around, lo, hi);
}

/// `v` is the whole number nearest to `sum / n`, the greater one of two.
pub open spec fn is_nearest_to(v: int, sum: int, n: int) -> bool {
    2 * n * v - n <= 2 * sum < 2 * n * v + n
}

proof fn lemma_added_is_total(f: spec_fn(int) -> int, a: int, b: int, s: Seq<u8>)
    requires
        a <= b,
        s.len() == b - a,
        forall|k: int| 0 <= k < s.len() ==> #[trigger] s[k] == f(a + k),
    ensures
        total(s) == span_sum(f, a, b),
    decreases b - a,
{
    if a < b {
        let t = s.drop_last();
        assert forall|k: int| 0 <= k < t.len() implies #[trigger] t[k] == f(a + k) by {
            assert(s[k] == f(a + k));
        }
        lemma_added_is_total(f, a, b - 1, t);
        assert(s.last() == s[s.len() - 1]);
    }
}

proof fn lemma_mean_is_nearest(s: Seq<u8>)
    requires
        s.len() > 0,
    ensures
        is_nearest_to(rounded_mean(s) as int, total(s), s.len() as int),
{
    lemma_mean_bounds(s, 0, 255);
    let n = s.len() as int;
    let t = total(s);
    let v = (t + n / 2) / n;
    assert(n * v <= t + n / 2 < n * v + n) by (nonlinear_arith)
        requires
            v == (t + n / 2) / n,
            0 < n,
    ;
    assert(2 * n * v == 2 * (n * v)) by (nonlinear_arith);
}

/// The first and the last place but one of a window of a line of `n` values.
spec fn window_ends(n: int, r: int, x: int) -> (int, int) {
    (
        if x - r > 0 {
            x - r
        } else {
            0
        },
        if x + r + 1 < n {
            x + r + 1
        } else {
            n
        },
    )
}

proof fn lemma_row_value(m: Seq<u8>, w: int, h: int, r: int, x: int, y: int)
    requires
        m.len() == w * h,
        0 <= r,
        on_plane(w, h, x, y),
    ensures
        ({
            let (a, b) = window_ends(w, r, x);
            &&& a < b
            &&& is_nearest_to(
                rows_smoothed(m, w, 0, 0, w, h, r)[at(w, x, y)] as int,
                span_sum(|u: int| m[at(w, u, y)] as int, a, b),
                b - a,
            )
        }),
{
    lemma_at_bound(w, h, x, y);
    lemma_at_split(w, x, y);
    let (a, b) = window_ends(w, r, x);
    let near = window_values(row_of(m, w, y, 0, w), r, x);
    let f = |u: int| m[at(w, u, y)] as int;
    assert forall|k: int| 0 <= k < near.len() implies #[trigger] near[k] == f(a + k) by {}
    lemma_added_is_total(f, a, b, near);
    lemma_mean_is_nearest(near);
}

proof fn lemma_column_value(m: Seq<u8>, w: int, h: int, r: int, x: int, y: int)
    requires
        m.len() == w * h,
        0 <= r,
        on_plane(w, h, x, y),
    ensures
        ({
            let (a, b) = window_ends(h, r, y);
            &&& a < b
            &&& is_nearest_to(
                feathered(m, w, h, r)[at(w, x, y)] as int,
                span_sum(|v: int| rows_smoothed(m, w, 0, 0, w, h, r)[at(w, x, v)] as int, a, b),
                b - a,
            )
        }),
{
    lemma_at_bound(w, h, x, y);
    lemma_at_split(w, x, y);
    let rows = rows_smoothed(m, w, 0, 0, w, h, r);
    let (a, b) = window_ends(h, r, y);
    let near = window_values(column_of(rows, w, x, 0, h), r, y);
    let f = |v: int| rows[at(w, x, v)] as int;
    assert forall|k: int| 0 <= k < near.len() implies #[trigger] near[k] == f(a + k) by {}
    lemma_added_is_total(f, a, b, near);
    lemma_mean_is_nearest(near);
}

proof fn lemma_added_constant(f: spec_fn(int) -> int, c: int, a: int, b: int)
    requires
        a <= b,
        forall|k: int| a <= k < b ==> #[trigger] f(k) == c,
    ensures
        span_sum(f, a, b) == c * (b - a),
    decreases b - a,
{
    if a < b {
        lemma_added_constant(f, c, a, b - 1);
        assert(f(b - 1) == c);
        assert(c * (b - a) == c * (b - 1 - a) + c) by (nonlinear_arith);
    } else {
        assert(c * (b - a) == 0) by (nonlinear_arith)
            requires
                b == a,
        ;
    }
}

/// Two bytes that are nearest to the same mean are the same.
proof fn lemma_nearest_to_itself(v: int, c: int, n: int)
    requires
        0 < n,
        is_nearest_to(v, c * n, n),
    ensures
        v == c,
{
    assert(v == c) by (nonlinear_arith)
        requires
            0 < n,
            2 * n * v - n <= 2 * (c * n) < 2 * n * v + n,
    ;
}

/// Feathering softens a boundary across rows: on a mask whose rows are all of one
/// value each, a pixel takes the mean of the rows from `r` above to `r` below, as
/// far as there are rows, rounded to the nearest.
pub proof fn law_rows_are_averaged_over_rows(m: Seq<u8>, w: int, h: int, r: int, f: spec_fn(int) -> u8, x: int, y: int)
    requires
        m.len() == w * h,
        0 <= r,
        0 <= x < w,
        0 <= y < h,
        forall|u: int, v: int| 0 <= u < w && 0 <= v < h ==> #[trigger] m[v * w + u] == f(v),
    ensures
        ({
            let from = if y - r > 0 {
                y - r
            } else {
                0
            };
            let end = if y + r + 1 < h {
                y + r + 1
            } else {
                h
            };
            is_nearest_to(
                feathered(m, w, h, r)[y * w + x] as int,
                span_sum(|v: int| f(v) as int, from, end),
                end - from,
            )
        }),
{
    let rows = rows_smoothed(m, w, 0, 0, w, h, r);
    let (a, b) = window_ends(h, r, y);
    let g = |v: int| rows[at(w, x, v)] as int;
    lemma_column_value(m, w, h, r, x, y);
    assert forall|v: int| a <= v < b implies #[trigger] g(v) == f(v) as int by {
        lemma_row_value(m, w, h, r, x, v);
        let (c, d) = window_ends(w, r, x);
        let line = |u: int| m[at(w, u, v)] as int;
        assert forall|u: int| c <= u < d implies #[trigger] line(u) == f(v) as int by {
            assert(m[v * w + u] == f(v));
        }
        lemma_added_constant(line, f(v) as int, c, d);
        lemma_nearest_to_itself(rows[at(w, x, v)] as int, f(v) as int, d - c);
    }
    lemma_span_same(g, |v: int| f(v) as int, a, b);
}

/// Feathering softens a boundary across columns just so.
pub proof fn law_columns_are_averaged_over_columns(
    m: Seq<u8>,
    w: int,
    h: int,
    r: int,
    f: spec_fn(int) -> u8,
    x: int,
    y: int,
)
    requires
        m.len() == w * h,
        0 <= r,
        0 <= x < w,
        0 <= y < h,
        forall|u: int, v: int| 0 <= u < w && 0 <= v < h ==> #[trigger] m[v * w + u] == f(u),
    ensures
        ({
            let from = if x - r > 0 {
                x - r
            } else {
                0
            };
            let end = if x + r + 1 < w {
                x + r + 1
            } else {
                w
            };
            is_nearest_to(
                feathered(m, w, h, r)[y * w + x] as int,
                span_sum(|u: int| f(u) as int, from, end),
                end - from,
            )
        }),
{
    let rows = rows_smoothed(m, w, 0, 0, w, h, r);
    let (a, b) = window_ends(h, r, y);
    let (c, d) = window_ends(w, r, x);
    let g = |v: int| rows[at(w, x, v)] as int;
    lemma_column_value(m, w, h, r, x, y);
    lemma_row_value(m, w, h, r, x, y);
    let mid = rows[at(w, x, y)] as int;
    let here = |u: int| m[at(w, u, y)] as int;
    let fi = |u: int| f(u) as int;
    assert forall|u: int| c <= u < d implies #[trigger] here(u) == fi(u) by {
        assert(m[y * w + u] == f(u));
    }
    lemma_span_same(here, fi, c, d);
    assert forall|v: int| a <= v < b implies #[trigger] g(v) == mid by {
        lemma_row_value(m, w, h, r, x, v);
        let line = |u: int| m[at(w, u, v)] as int;
        assert forall|u: int| c <= u < d implies #[trigger] line(u) == fi(u) by {
            assert(m[v * w + u] == f(u));
        }
        lemma_span_same(line, fi, c, d);
        lemma_one_nearest(rows[at(w, x, v)] as int, mid, span_sum(fi, c, d), d - c);
    }
    lemma_added_constant(g, mid, a, b);
    lemma_nearest_to_itself(feathered(m, w, h, r)[at(w, x, y)] as int, mid, b - a);
}

proof fn lemma_one_nearest(u: int, v: int, sum: int, n: int)
    requires
        0 < n,
        is_nearest_to(u, sum, n),
        is_nearest_to(v, sum, n),
    ensures
        u == v,
{
    assert(u == v) by (nonlinear_arith)
        requires
            0 < n,
            2 * n * u - n <= 2 * sum < 2 * n * u + n,
            2 * n * v - n <= 2 * sum < 2 * n * v + n,
    ;
}

/// Whatever the mask, a feathered value is the mean of all the values from `r` to
/// the left to `r` to the right and from `r` above to `r` below, as far as there
/// are any: it is rounded twice, so it lies no more than one away.
pub proof fn law_a_feather_is_the_mean_of_its_window(m: Seq<u8>, w: int, h: int, r: int, x: int, y: int)
    requires
        m.len() == w * h,
        0 <= r,
        0 <= x < w,
        0 <= y < h,
    ensures
        ({
            let left = if x - r > 0 {
                x - r
            } else {
                0
            };
            let right = if x + r + 1 < w {
                x + r + 1
            } else {
                w
            };
            let top = if y - r > 0 {
                y - r
            } else {
                0
            };
            let bottom = if y + r + 1 < h {
                y + r + 1
            } else {
                h
            };
            let all = span_sum(|v: int| span_sum(|u: int| m[v * w + u] as int, left, right), top, bottom);
            let n = (right - left) * (bottom - top);
            &&& all - n <= feathered(m, w, h, r)[y * w + x] * n <= all + n
        }),
{
    let rows = rows_smoothed(m, w, 0, 0, w, h, r);
    let (a, b) = window_ends(h, r, y);
    let (c, d) = window_ends(w, r, x);
    let g = |v: int| rows[at(w, x, v)] as int;
    let line = |v: int| span_sum(|u: int| m[v * w + u] as int, c, d);
    lemma_column_value(m, w, h, r, x, y);
    lemma_row_value(m, w, h, r, x, y);
    assert forall|v: int| a <= v < b implies is_nearest_to(#[trigger] g(v), line(v), d - c) by {
        lemma_row_value(m, w, h, r, x, v);
        lemma_span_same(|u: int| m[at(w, u, v)] as int, |u: int| m[v * w + u] as int, c, d);
    }
    lemma_added_nearest(g, line, d - c, a, b);
    let (p, q) = (d - c, b - a);
    let (s, t) = (span_sum(g, a, b), span_sum(line, a, b));
    let v = feathered(m, w, h, r)[at(w, x, y)] as int;
    assert(t - p * q <= v * (p * q) <= t + p * q) by (nonlinear_arith)
        requires
            0 < p,
            0 < q,
            2 * q * v - q <= 2 * s < 2 * q * v + q,
            2 * p * s - p * q <= 2 * t <= 2 * p * s + p * q,
    ;
}

proof fn lemma_added_nearest(g: spec_fn(int) -> int, sums: spec_fn(int) -> int, p: int, a: int, b: int)
    requires
        0 < p,
        a <= b,
        forall|v: int| a <= v < b ==> is_nearest_to(#[trigger] g(v), sums(v), p),
    ensures
        2 * p * span_sum(g, a, b) - p * (b - a) <= 2 * span_sum(sums, a, b) <= 2 * p * span_sum(g, a, b) + p * (b - a),
    decreases b - a,
{
    if a < b {
        lemma_added_nearest(g, sums, p, a, b - 1);
        let (s, t) = (span_sum(g, a, b - 1), span_sum(sums, a, b - 1));
        let (x, y) = (g(b - 1), sums(b - 1));
        assert(is_nearest_to(g(b - 1), sums(b - 1), p));
        assert(2 * p * (s + x) - p * (b - a) <= 2 * (t + y) <= 2 * p * (s + x) + p * (b - a)) by (nonlinear_arith)
            requires
                2 * p * s - p * (b - 1 - a) <= 2 * t <= 2 * p * s + p * (b - 1 - a),
                2 * p * x - p <= 2 * y < 2 * p * x + p,
        ;
    } else {
        assert(p * (b - a) == 0) by (nonlinear_arith)
            requires
                b == a,
        ;
    }
}

} // verus!
