//! Laws of the field of the background: blurring, filling in and interpolating.
use vstd::prelude::*;

use crate::cutout::background::FieldGrid;
use crate::cutout::field::{
    between, blurred, both_ways, box_mean, boxed, cell_before, column_at, doubled, filled, held_at, held_line,
    interpolated, is_done, is_field, is_window, lighted, masked, most_rounds, read_cells, refilled, row_at, weights,
    FieldCells,
};
use crate::geometry::{at, lemma_at_bound, lemma_at_split};
use crate::sums::{lemma_span_same, span_sum};

verus! {

/// The value of a plane at the pixel nearest to `(u, v)`: beyond its sides a plane
/// goes on as it ends.
pub open spec fn clamped_value(p: Seq<u64>, w: int, h: int, u: int, v: int) -> int {
    let a = if u < 0 {
        0
    } else if u >= w {
        w - 1
    } else {
        u
    };
    let b = if v < 0 {
        0
    } else if v >= h {
        h - 1
    } else {
        v
    };
    p[b * w + a] as int
}

proof fn lemma_floor(total: int, n: int, v: int)
    requires
        0 < n,
        v == total / n,
    ensures
        v * n <= total < (v + 1) * n,
{
    assert(v * n <= total < (v + 1) * n) by (nonlinear_arith)
        requires
            0 < n,
            v == total / n,
    ;
}

proof fn lemma_span_between(f: spec_fn(int) -> int, a: int, b: int, lo: int, hi: int)
    requires
        a <= b,
        forall|k: int| a <= k < b ==> lo <= #[trigger] f(k) <= hi,
    ensures
        lo * (b - a) <= span_sum(f, a, b) <= hi * (b - a),
    decreases b - a,
{
    if a < b {
        lemma_span_between(f, a, b - 1, lo, hi);
        assert(lo <= f(b - 1) <= hi);
        assert(lo * (b - a) == lo * (b - 1 - a) + lo && hi * (b - a) == hi * (b - 1 - a) + hi) by (nonlinear_arith);
    } else {
        assert(lo * (b - a) == 0 && hi * (b - a) == 0) by (nonlinear_arith)
            requires
                a == b,
        ;
    }
}

/// A mean of values within 64 bits is one itself.
proof fn lemma_mean_fits(line: Seq<u64>, r: int, i: int)
    requires
        line.len() > 0,
        0 <= r,
    ensures
        0 <= box_mean(line, r, i) <= u64::MAX,
{
    let f = held_line(line);
    assert forall|k: int| i - r <= k < i + r + 1 implies 0 <= #[trigger] f(k) <= u64::MAX by {}
    lemma_span_between(f, i - r, i + r + 1, 0, u64::MAX as int);
    let (n, total) = (2 * r + 1, span_sum(f, i - r, i + r + 1));
    assert(0 <= total / n <= u64::MAX) by (nonlinear_arith)
        requires
            0 <= total <= u64::MAX * n,
            0 < n,
    ;
}

/// One round of the blur takes the mean of a square, twice the radius and one wide,
/// rounded down along rows and along columns. Beyond the sides the plane goes on as it
/// ends.
pub proof fn law_a_round_of_blur_is_the_mean_of_a_square(p: Seq<u64>, w: int, h: int, r: int, x: int, y: int)
    requires
        p.len() == w * h,
        0 <= r,
        0 <= x < w,
        0 <= y < h,
    ensures
        ({
            let n = 2 * r + 1;
            let all = span_sum(
                |v: int| span_sum(|u: int| clamped_value(p, w, h, u, v), x - r, x + r + 1),
                y - r,
                y + r + 1,
            );
            let mean = both_ways(p, w, h, r)[y * w + x];
            mean * (n * n) <= all < (mean + 2) * (n * n)
        }),
{
    let n = 2 * r + 1;
    let rows = boxed(p, w, h, r, true);
    lemma_at_bound(w, h, x, y);
    lemma_at_split(w, x, y);
    let column = column_at(rows, w, h, x);
    let f = held_line(column);
    let line = |v: int| span_sum(|u: int| clamped_value(p, w, h, u, v), x - r, x + r + 1);
    let mean = both_ways(p, w, h, r)[y * w + x] as int;
    lemma_mean_fits(column, r, y);
    let total = span_sum(f, y - r, y + r + 1);
    lemma_floor(total, n, mean);
    assert forall|v: int| y - r <= v < y + r + 1 implies #[trigger] f(v) * n <= line(v) < (f(v) + 1) * n by {
        let b = if v < 0 {
            0
        } else if v >= h {
            h - 1
        } else {
            v
        };
        lemma_at_bound(w, h, x, b);
        lemma_at_split(w, x, b);
        let row = row_at(p, w, b);
        let g = held_line(row);
        let e = |u: int| clamped_value(p, w, h, u, v);
        assert forall|u: int| x - r <= u < x + r + 1 implies #[trigger] g(u) == e(u) by {}
        lemma_span_same(g, e, x - r, x + r + 1);
        lemma_mean_fits(row, r, x);
        lemma_floor(span_sum(g, x - r, x + r + 1), n, f(v));
    }
    lemma_floors_add(f, line, n, y - r, y + r + 1);
    let all = span_sum(line, y - r, y + r + 1);
    assert(mean * (n * n) <= all && all < (mean + 2) * (n * n)) by (nonlinear_arith)
        requires
            mean * n <= total < (mean + 1) * n,
            total * n <= all <= total * n + n * n,
            0 < n,
    ;
}

proof fn lemma_floors_add(f: spec_fn(int) -> int, g: spec_fn(int) -> int, n: int, a: int, b: int)
    requires
        0 < n,
        a <= b,
        forall|k: int| a <= k < b ==> #[trigger] f(k) * n <= g(k) < (f(k) + 1) * n,
    ensures
        span_sum(f, a, b) * n <= span_sum(g, a, b) <= span_sum(f, a, b) * n + n * (b - a),
    decreases b - a,
{
    if a < b {
        lemma_floors_add(f, g, n, a, b - 1);
        let (s, t, u, v) = (span_sum(f, a, b - 1), span_sum(g, a, b - 1), f(b - 1), g(b - 1));
        assert(f(b - 1) * n <= g(b - 1) < (f(b - 1) + 1) * n);
        assert((s + u) * n <= t + v <= (s + u) * n + n * (b - a)) by (nonlinear_arith)
            requires
                s * n <= t <= s * n + n * (b - 1 - a),
                u * n <= v < (u + 1) * n,
        ;
    } else {
        assert(0 * n == 0 && n * (b - a) == 0) by (nonlinear_arith)
            requires
                a == b,
        ;
    }
}

/// Between the middles of cells a field goes straight: where the cells lie on a plane,
/// `a` at the first and `b` and `c` more for each column and row, the pixel gets what
/// that plane has at its middle, rounded down.
pub proof fn law_a_field_goes_straight_between_cells(
    p: Seq<u64>,
    cols: int,
    rows: int,
    w: int,
    h: int,
    x: int,
    y: int,
    a: int,
    b: int,
    c: int,
)
    requires
        0 < cols,
        0 < rows,
        0 < w,
        0 < h,
        p.len() == cols * rows,
        forall|u: int, v: int| 0 <= u < cols && 0 <= v < rows ==> #[trigger] p[v * cols + u] == a + b * u + c * v,
        0 <= (2 * x + 1) * cols - w < (cols - 1) * (2 * w),
        0 <= (2 * y + 1) * rows - h < (rows - 1) * (2 * h),
    ensures
        ({
            let across = (2 * x + 1) * cols - w;
            let down = (2 * y + 1) * rows - h;
            let value = interpolated(p, cols, rows, w, h, x, y);
            let exact = a * ((2 * w) * (2 * h)) + b * (across * (2 * h)) + c * (down * (2 * w));
            value * ((2 * w) * (2 * h)) <= exact < (value + 1) * ((2 * w) * (2 * h))
        }),
{
    let across = (2 * x + 1) * cols - w;
    let down = (2 * y + 1) * rows - h;
    let (cx, tx) = cell_before(x, cols, w);
    let (cy, ty) = cell_before(y, rows, h);
    lemma_parts(across, 2 * w, cols);
    lemma_parts(down, 2 * h, rows);
    let (e, f) = (2 * w, 2 * h);
    assert(across == cx * e + tx && down == cy * f + ty);
    assert(held_at(cx, cols) == cx && held_at(cx + 1, cols) == cx + 1);
    assert(held_at(cy, rows) == cy && held_at(cy + 1, rows) == cy + 1);
    assert(p[cy * cols + cx] == a + b * cx + c * cy);
    assert(p[cy * cols + (cx + 1)] == a + b * (cx + 1) + c * cy);
    assert(p[(cy + 1) * cols + cx] == a + b * cx + c * (cy + 1));
    assert(p[(cy + 1) * cols + (cx + 1)] == a + b * (cx + 1) + c * (cy + 1));
    let base = a + b * cx + c * cy;
    let top = between(base, a + b * (cx + 1) + c * cy, tx, e);
    let bottom = between(a + b * cx + c * (cy + 1), a + b * (cx + 1) + c * (cy + 1), tx, e);
    assert(a + b * (cx + 1) + c * cy == base + b && a + b * cx + c * (cy + 1) == base + c && a + b * (cx + 1) + c * (cy
        + 1) == base + c + b) by (nonlinear_arith)
        requires
            base == a + b * cx + c * cy,
    ;
    assert(top == base * e + b * tx) by (nonlinear_arith)
        requires
            top == base * (e - tx) + (base + b) * tx,
    ;
    let under = base + c;
    assert(bottom == under * e + b * tx) by (nonlinear_arith)
        requires
            bottom == under * (e - tx) + (under + b) * tx,
    ;
    assert(under * e == base * e + c * e) by (nonlinear_arith)
        requires
            under == base + c,
    ;
    let whole = between(top, bottom, ty, f);
    assert(whole == top * f + (c * e) * ty) by (nonlinear_arith)
        requires
            whole == top * (f - ty) + bottom * ty,
            bottom == top + c * e,
    ;
    let exact = a * (e * f) + b * (across * f) + c * (down * e);
    assert(whole == exact) by {
        assert(top * f == base * (e * f) + b * (tx * f)) by (nonlinear_arith)
            requires
                top == base * e + b * tx,
        ;
        assert(base * (e * f) == a * (e * f) + b * (cx * (e * f)) + c * (cy * (e * f))) by (nonlinear_arith)
            requires
                base == a + b * cx + c * cy,
        ;
        assert(b * (across * f) == b * (cx * (e * f)) + b * (tx * f)) by (nonlinear_arith)
            requires
                across == cx * e + tx,
        ;
        assert(c * (down * e) == c * (cy * (e * f)) + (c * e) * ty) by (nonlinear_arith)
            requires
                down == cy * f + ty,
        ;
    }
    assert(0 < e * f) by (nonlinear_arith)
        requires
            0 < e,
            0 < f,
    ;
    lemma_floor(whole, e * f, interpolated(p, cols, rows, w, h, x, y));
}

proof fn lemma_parts(n: int, of: int, cells: int)
    requires
        0 < of,
        0 <= n < (cells - 1) * of,
    ensures
        n == (n / of) * of + n % of,
        0 <= n % of < of,
        0 <= n / of < cells - 1,
{
    let (q, r) = (n / of, n % of);
    assert(n == q * of + r && 0 <= r < of) by (nonlinear_arith)
        requires
            q == n / of,
            r == n % of,
            0 < of,
    ;
    assert(0 <= q < cells - 1) by (nonlinear_arith)
        requires
            n == q * of + r,
            0 <= r < of,
            0 <= n < (cells - 1) * of,
            0 < of,
    ;
}

/// A field of one value has that value at every pixel.
pub proof fn law_a_field_of_one_value_has_it_everywhere(
    p: Seq<u64>,
    cols: int,
    rows: int,
    w: int,
    h: int,
    x: int,
    y: int,
    value: u64,
)
    requires
        0 < cols,
        0 < rows,
        0 < w,
        0 < h,
        p.len() == cols * rows,
        forall|i: int| 0 <= i < p.len() ==> #[trigger] p[i] == value,
    ensures
        interpolated(p, cols, rows, w, h, x, y) == value,
{
    let (cx, tx) = cell_before(x, cols, w);
    let (cy, ty) = cell_before(y, rows, h);
    let (x0, x1) = (held_at(cx, cols), held_at(cx + 1, cols));
    let (y0, y1) = (held_at(cy, rows), held_at(cy + 1, rows));
    lemma_at_bound(cols, rows, x0, y0);
    lemma_at_bound(cols, rows, x1, y0);
    lemma_at_bound(cols, rows, x0, y1);
    lemma_at_bound(cols, rows, x1, y1);
    let (v, e, f) = (value as int, 2 * w, 2 * h);
    let top = v * (e - tx) + v * tx;
    assert(top == v * e) by (nonlinear_arith)
        requires
            top == v * (e - tx) + v * tx,
    ;
    assert(top * (f - ty) + top * ty == v * (e * f)) by (nonlinear_arith)
        requires
            top == v * e,
    ;
    assert((v * (e * f)) / (e * f) == v) by (nonlinear_arith)
        requires
            0 < e,
            0 < f,
    ;
}

/// Before the middle of the first cell, and past that of the last, a field does not
/// change: in a corner the pixel has the value of the cell there.
pub proof fn law_a_field_ends_level(p: Seq<u64>, cols: int, rows: int, w: int, h: int, x: int, y: int)
    requires
        0 < cols <= w,
        0 < rows <= h,
        p.len() == cols * rows,
        0 <= x < w,
        0 <= y < h,
    ensures
        (2 * x + 1) * cols <= w && (2 * y + 1) * rows <= h ==> interpolated(p, cols, rows, w, h, x, y) == p[0],
        (2 * x + 1) * cols >= (2 * cols - 1) * w && (2 * y + 1) * rows >= (2 * rows - 1) * h ==> interpolated(
            p,
            cols,
            rows,
            w,
            h,
            x,
            y,
        ) == p[cols * rows - 1],
{
    lemma_end(x, cols, w);
    lemma_end(y, rows, h);
    assert(at(cols, cols - 1, rows - 1) == cols * rows - 1) by (nonlinear_arith)
        requires
            at(cols, cols - 1, rows - 1) == (rows - 1) * cols + (cols - 1),
    ;
    assert(at(cols, 0, 0) == 0);
    if (2 * x + 1) * cols <= w && (2 * y + 1) * rows <= h {
        lemma_corner(p, cols, rows, w, h, x, y, 0, 0);
    }
    if (2 * x + 1) * cols >= (2 * cols - 1) * w && (2 * y + 1) * rows >= (2 * rows - 1) * h {
        lemma_corner(p, cols, rows, w, h, x, y, cols - 1, rows - 1);
    }
}

proof fn lemma_end(x: int, cells: int, side: int)
    requires
        0 < cells <= side,
        0 <= x < side,
    ensures
        ({
            let (c, t) = cell_before(x, cells, side);
            &&& (2 * x + 1) * cells <= side ==> held_at(c, cells) == 0 && (held_at(c + 1, cells) == 0 || t == 0)
            &&& (2 * x + 1) * cells >= (2 * cells - 1) * side ==> held_at(c, cells) == cells - 1 && held_at(c + 1, cells)
                == cells - 1
        }),
{
    let n = (2 * x + 1) * cells - side;
    let (c, t) = cell_before(x, cells, side);
    let of = 2 * side;
    assert(n == c * of + t && 0 <= t < of) by (nonlinear_arith)
        requires
            c == n / of,
            t == n % of,
            0 < of,
    ;
    assert((2 * x + 1) * cells > 0) by (nonlinear_arith)
        requires
            0 <= x,
            0 < cells,
    ;
    if (2 * x + 1) * cells <= side {
        assert(c == -1 || (c == 0 && t == 0)) by (nonlinear_arith)
            requires
                n == c * of + t,
                0 <= t < of,
                -of < n <= 0,
        ;
    }
    if (2 * x + 1) * cells >= (2 * cells - 1) * side {
        assert(n >= (cells - 1) * of) by (nonlinear_arith)
            requires
                n == (2 * x + 1) * cells - side,
                (2 * x + 1) * cells >= (2 * cells - 1) * side,
                of == 2 * side,
        ;
        assert(c >= cells - 1) by (nonlinear_arith)
            requires
                n == c * of + t,
                0 <= t < of,
                n >= (cells - 1) * of,
        ;
    }
}

proof fn lemma_corner(p: Seq<u64>, cols: int, rows: int, w: int, h: int, x: int, y: int, u: int, v: int)
    requires
        0 < w,
        0 < h,
        ({
            let (cx, tx) = cell_before(x, cols, w);
            let (cy, ty) = cell_before(y, rows, h);
            &&& held_at(cx, cols) == u && (held_at(cx + 1, cols) == u || tx == 0)
            &&& held_at(cy, rows) == v && (held_at(cy + 1, rows) == v || ty == 0)
        }),
    ensures
        interpolated(p, cols, rows, w, h, x, y) == p[at(cols, u, v)],
{
    let (cx, tx) = cell_before(x, cols, w);
    let (cy, ty) = cell_before(y, rows, h);
    let (x1, y1) = (held_at(cx + 1, cols), held_at(cy + 1, rows));
    let (e, f, z) = (2 * w, 2 * h, p[at(cols, u, v)] as int);
    let q = p[at(cols, x1, v)] as int;
    let top = between(z, q, tx, e);
    assert(top == z * e) by (nonlinear_arith)
        requires
            top == z * (e - tx) + q * tx,
            q == z || tx == 0,
    ;
    let (r, s) = (p[at(cols, u, y1)] as int, p[at(cols, x1, y1)] as int);
    let bottom = between(r, s, tx, e);
    if y1 == v {
        assert(bottom == top);
    }
    let whole = between(top, bottom, ty, f);
    assert(whole == z * (e * f)) by (nonlinear_arith)
        requires
            whole == top * (f - ty) + bottom * ty,
            bottom == top || ty == 0,
            top == z * e,
    ;
    assert((z * (e * f)) / (e * f) == z) by (nonlinear_arith)
        requires
            0 < e,
            0 < f,
    ;
}

/// A blur is three rounds, one after the other; with no radius it changes nothing.
pub proof fn law_a_blur_is_three_rounds(p: Seq<u64>, w: int, h: int, r: int, once: Seq<u64>, twice: Seq<u64>)
    requires
        once == both_ways(p, w, h, r),
        twice == both_ways(once, w, h, r),
    ensures
        r != 0 ==> blurred(p, w, h, r) == both_ways(twice, w, h, r),
        r == 0 ==> blurred(p, w, h, r) == p,
{
}

/// A round of filling in leaves what was read as it is, and what the blur does not
/// reach. Elsewhere it puts the blurred colour over the blurred weight, rounded down and
/// held within full light: only cells that have a colour take part.
pub proof fn law_a_round_fills_in_what_the_blur_reaches(
    p: Seq<u64>,
    known: Seq<bool>,
    covered: Seq<bool>,
    w: int,
    h: int,
    r: int,
    colours: Seq<u64>,
    shares: Seq<u64>,
    i: int,
)
    requires
        p.len() == known.len() == covered.len() == colours.len() == shares.len(),
        forall|k: int| 0 <= k < p.len() ==> #[trigger] colours[k] == if covered[k] {
            p[k]
        } else {
            0
        },
        forall|k: int| 0 <= k < p.len() ==> #[trigger] shares[k] == if covered[k] {
            68_719_476_736
        } else {
            0u64
        },
        0 <= i < p.len(),
    ensures
        ({
            let (num, den) = (blurred(colours, w, h, r)[i], blurred(shares, w, h, r)[i]);
            let after = refilled(p, known, covered, w, h, r)[i];
            &&& known[i] || den <= 68_719_476 ==> after == p[i]
            &&& !known[i] && den > 68_719_476 ==> after <= 68_719_476_736 && after * den <= num * 68_719_476_736 && (after
                == 68_719_476_736 || num * 68_719_476_736 < (after + 1) * den)
        }),
{
    assert(colours =~= masked(p, covered));
    assert(shares =~= weights(covered));
    let (num, den) = (blurred(colours, w, h, r)[i] as int, blurred(shares, w, h, r)[i] as int);
    if den > 68_719_476 {
        let (n, q) = (num * 68_719_476_736, (num * 68_719_476_736) / den);
        assert(q * den <= n < (q + 1) * den && 0 <= q) by (nonlinear_arith)
            requires
                q == n / den,
                0 < den,
                0 <= n,
        ;
        assert(q >= 68_719_476_736 ==> 68_719_476_736 * den <= q * den) by (nonlinear_arith)
            requires
                0 < den,
        ;
    }
}

/// Where every cell could be read, nothing is filled in.
pub proof fn law_a_grid_that_was_read_stays(w: int, h: int, values: Seq<Option<[u64; 3]>>, fallback: [u64; 3], k: int, i: int)
    requires
        0 <= k < 3,
        0 <= i < values.len(),
        forall|j: int| 0 <= j < values.len() ==> (#[trigger] values[j]) is Some,
    ensures
        filled(w, h, values, fallback, k)[i] == values[i].unwrap()[k],
{
    let known = read_cells(values);
    assert forall|j: int| 0 <= j < known.len() implies #[trigger] known[j] by {
        assert(values[j] is Some);
    }
    assert(is_done(known, 0, 0, most_rounds(w, h)));
    assert(values[i] is Some);
}

/// The blur is as wide as a sixteenth of the long side, to the cell, and each widening
/// doubles that.
pub proof fn law_the_blur_is_a_part_of_the_long_side(s: int, v: int, times: int)
    requires
        0 <= s,
        is_window(s, v),
        0 <= times,
    ensures
        16 * v <= s + 24,
        s < 16 * v + 8,
        doubled(s, times + 1) == 2 * doubled(s, times),
        doubled(s, 0) == s,
{
    assert(8 * (2 * v - 1) <= s + 16) by (nonlinear_arith)
        requires
            64 * ((2 * v - 1) * (2 * v - 1)) <= s * s + 256,
            0 <= s,
            1 <= v,
    ;
    assert(s < 8 * (2 * v + 1)) by (nonlinear_arith)
        requires
            s * s + 256 < 64 * ((2 * v + 1) * (2 * v + 1)),
            0 <= s,
            1 <= v,
    ;
}

/// The cells of a field are those that were read, in linear light, with the gaps filled
/// in and all evened out by the narrowest blur.
pub proof fn law_a_field_is_evened_out_once(
    grid: &FieldGrid,
    size: (u32, u32),
    rgb: [u8; 3],
    linear: Seq<u64>,
    values: Seq<Option<[u64; 3]>>,
    fallback: [u64; 3],
    cells: &FieldCells,
    k: int,
    i: int,
)
    requires
        is_field(grid, size, rgb, linear, values, fallback, cells),
        0 <= k < 3,
        0 <= i < values.len(),
    ensures
        grid.colours@[i] matches Some(c) ==> (values[i] matches Some(v) && v[k] == linear[c[k] as int]),
        grid.colours@[i] is None ==> values[i] is None,
        fallback[k] == linear[rgb[k] as int],
        cells.plane(k) == blurred(
            filled(grid.cols as int, grid.rows as int, values, fallback, k),
            grid.cols as int,
            grid.rows as int,
            1,
        ),
        cells.width() == size.0 && cells.height() == size.1,
{
    assert(lighted(linear, grid.colours@[i], values[i]));
    assert(lighted(linear, Some(rgb), Some(fallback)));
}

} // verus!
