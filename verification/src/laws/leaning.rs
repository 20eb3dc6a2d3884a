//! Laws of the colours around a pixel and of the side it leans to.
use vstd::prelude::*;

use crate::cutout::blur::{window_end, window_from};
use crate::cutout::cells::{
    borrowed, grid_column, grid_row, in_reach, is_nearest, lender, occupied, row_sums, window_sums, Sums,
};
use crate::cutout::chamfer::span;
use crate::cutout::classify::{apart, can_judge, is_root, lean_of, mean_at, mean_colour, mean_square, root, spread};
use crate::cutout::local_colour::{
    borrow_cells, cell_side, contribution, window_cells, window_pixels, Cells, Lean, Role,
};
use crate::geometry::{at, lemma_at_bound, lemma_at_join, lemma_at_split, Rect};
use crate::laws::boundary::way_cost;
use crate::raster::RgbaImage;
use crate::sums::{lemma_span_same, rect_sum, row_sum, span_sum, sum};

verus! {

/// What a pixel counts for in the cell it lies in: each channel in linear light, the
/// squares of all three, and one; in another cell, outside the rectangle or in
/// another role nothing.
pub proof fn law_a_pixel_counts_in_its_cell(
    image: &RgbaImage,
    roi: Rect,
    roles: Seq<Role>,
    role: Role,
    linear: Seq<u32>,
    grid: &Cells,
    cx: int,
    cy: int,
    k: int,
    x: int,
    y: int,
)
    requires
        image.wf(),
        0 <= x < image.w(),
        0 <= y < image.h(),
        0 <= k < 5,
        0 < grid.step,
        grid.cx * grid.step <= roi.0,
        grid.cy * grid.step <= roi.1,
        roi.2 < (grid.cx + grid.gw) * grid.step,
        roi.3 < (grid.cy + grid.gh) * grid.step,
        0 <= cx < grid.gw,
        0 <= cy < grid.gh,
    ensures
        ({
            let p = image@[y * image.w() + x];
            let (r, g, b) = (linear[p[0] as int] as int, linear[p[1] as int] as int, linear[p[2] as int] as int);
            let here = {
                &&& roi.0 <= x <= roi.2
                &&& roi.1 <= y <= roi.3
                &&& roles[y * image.w() + x] == role
                &&& (grid.cx + cx) * grid.step <= x < (grid.cx + cx + 1) * grid.step
                &&& (grid.cy + cy) * grid.step <= y < (grid.cy + cy + 1) * grid.step
            };
            contribution(image, roi, roles, role, linear, grid, cy * grid.gw + cx, k)[y * image.w() + x] == if !here {
                0
            } else if k == 0 {
                r
            } else if k == 1 {
                g
            } else if k == 2 {
                b
            } else if k == 3 {
                r * r + g * g + b * b
            } else {
                1
            }
        }),
{
    let (w, h) = (image.w() as int, image.h() as int);
    lemma_at_bound(w, h, x, y);
    lemma_at_split(w, x, y);
    let step = grid.step as int;
    lemma_step(x, step, grid.cx + cx);
    lemma_step(y, step, grid.cy + cy);
    if roi.0 <= x <= roi.2 && roi.1 <= y <= roi.3 {
        let (a, b) = (x / step - grid.cx, y / step - grid.cy);
        lemma_step(x, step, x / step);
        lemma_step(y, step, y / step);
        assert(0 <= a < grid.gw) by (nonlinear_arith)
            requires
                a == x / step - grid.cx,
                (x / step) * step <= x < (x / step + 1) * step,
                grid.cx * step <= x,
                x < (grid.cx + grid.gw) * step,
                0 < step,
        ;
        assert(0 <= b) by (nonlinear_arith)
            requires
                b == y / step - grid.cy,
                (y / step) * step <= y < (y / step + 1) * step,
                grid.cy * step <= y,
                0 < step,
        ;
        lemma_at_split(grid.gw as int, a, b);
        lemma_at_split(grid.gw as int, cx, cy);
    }
}

proof fn lemma_step(x: int, step: int, c: int)
    requires
        0 < step,
        0 <= x,
    ensures
        x / step == c <==> c * step <= x < (c + 1) * step,
{
    let q = x / step;
    assert(q * step <= x < (q + 1) * step) by (nonlinear_arith)
        requires
            q == x / step,
            0 < step,
    ;
    if c * step <= x < (c + 1) * step {
        assert(q == c) by (nonlinear_arith)
            requires
                c * step <= x < (c + 1) * step,
                q * step <= x < (q + 1) * step,
                0 < step,
        ;
    }
}

/// The sums of a cell are taken over all cells that are no farther than `r` from it,
/// sideways, up and down, each counted once.
pub proof fn law_sums_are_taken_over_squares_of_cells(s: Seq<int>, w: int, h: int, r: int, x: int, y: int)
    requires
        s.len() == w * h,
        0 <= r,
        0 <= x < w,
        0 <= y < h,
    ensures
        window_sums(s, w, h, r)[y * w + x] == rect_sum(
            |u: int, v: int| s[v * w + u],
            if x - r > 0 {
                x - r
            } else {
                0
            },
            if x + r + 1 < w {
                x + r + 1
            } else {
                w
            },
            if y - r > 0 {
                y - r
            } else {
                0
            },
            if y + r + 1 < h {
                y + r + 1
            } else {
                h
            },
        ),
{
    lemma_at_bound(w, h, x, y);
    lemma_at_split(w, x, y);
    let rows = row_sums(s, w, r);
    let column = grid_column(rows, w, h, x);
    let (a, b) = (window_from(r, x), window_end(w, r, x));
    let (c, d) = (window_from(r, y), window_end(h, r, y));
    let g = |u: int, v: int| s[v * w + u];
    let lines = |v: int| row_sum(g, a, b, v);
    let f = |v: int| column[v];
    lemma_run(column, c, d, f);
    assert forall|v: int| c <= v < d implies #[trigger] f(v) == lines(v) by {
        lemma_at_bound(w, h, x, v);
        lemma_at_split(w, x, v);
        let row = grid_row(s, w, v);
        let gx = |u: int| g(u, v);
        lemma_at_bound(w, h, 0, v);
        lemma_at_bound(w, h, w - 1, v);
        assert forall|u: int| a <= u < b implies row[u] == #[trigger] gx(u) by {}
        lemma_run(row, a, b, gx);
    }
    lemma_span_same(f, lines, c, d);
}

/// The sum of a part of a sequence.
proof fn lemma_run(s: Seq<int>, a: int, b: int, f: spec_fn(int) -> int)
    requires
        0 <= a <= b <= s.len(),
        forall|k: int| a <= k < b ==> s[k] == #[trigger] f(k),
    ensures
        sum(s.subrange(a, b)) == span_sum(f, a, b),
    decreases b - a,
{
    if a < b {
        lemma_run(s, a, b - 1, f);
        assert(s.subrange(a, b).drop_last() =~= s.subrange(a, b - 1));
        assert(s[b - 1] == f(b - 1));
    } else {
        assert(s.subrange(a, b) =~= Seq::empty());
    }
}

/// The two sides count alike: exchange the colours behind and in front, and what
/// leaned to the background leans to the foreground.
pub proof fn law_the_sides_count_alike(behind: Sums, front: Sums, c: (int, int, int))
    ensures
        can_judge(behind, front) == can_judge(front, behind),
        lean_of(behind, front, c) == match lean_of(front, behind, c) {
            Some(Lean::Background) => Some(Lean::Foreground),
            Some(Lean::Foreground) => Some(Lean::Background),
            other => other,
        },
{
    let (p, q) = (mean_colour(behind), mean_colour(front));
    lemma_far_both_ways(p, q);
    assert(apart(q, behind) == apart(p, front));
    let (sb, sf) = (spread(behind) + 251_643, spread(front) + 251_643);
    let (db, df) = (root(apart(c, behind)), root(apart(c, front)));
    lemma_some_root(apart(c, behind));
    lemma_some_root(apart(c, front));
    lemma_spread(behind);
    lemma_spread(front);
    lemma_squares(c, behind);
    lemma_squares(c, front);
    assert(db * sf >= 0 && df * sb >= 0) by (nonlinear_arith)
        requires
            0 <= db,
            0 <= df,
            0 < sb,
            0 < sf,
    ;
}

proof fn lemma_squares(c: (int, int, int), s: Sums)
    ensures
        apart(c, s) >= 0,
{
    let (r, g, b) = (c.0 - mean_at(s, 0), c.1 - mean_at(s, 1), c.2 - mean_at(s, 2));
    assert(r * r + g * g + b * b >= 0) by (nonlinear_arith);
}

proof fn lemma_far_both_ways(p: (int, int, int), q: (int, int, int))
    ensures
        (p.0 - q.0) * (p.0 - q.0) + (p.1 - q.1) * (p.1 - q.1) + (p.2 - q.2) * (p.2 - q.2) == (q.0 - p.0) * (q.0 - p.0)
            + (q.1 - p.1) * (q.1 - p.1) + (q.2 - p.2) * (q.2 - p.2),
{
    assert((p.0 - q.0) * (p.0 - q.0) == (q.0 - p.0) * (q.0 - p.0)) by (nonlinear_arith);
    assert((p.1 - q.1) * (p.1 - q.1) == (q.1 - p.1) * (q.1 - p.1)) by (nonlinear_arith);
    assert((p.2 - q.2) * (p.2 - q.2) == (q.2 - p.2) * (q.2 - p.2)) by (nonlinear_arith);
}

/// Every number that is not negative has one root.
proof fn lemma_some_root(x: int)
    ensures
        0 <= x ==> is_root(x, root(x)),
        forall|r: int| is_root(x, r) ==> r == root(x),
{
    if 0 <= x {
        assert(x < (x + 1) * (x + 1)) by (nonlinear_arith)
            requires
                0 <= x,
        ;
        let r = lemma_find_root(x, x);
        assert(is_root(x, r));
    }
    assert forall|r: int| is_root(x, r) implies r == root(x) by {
        let q = root(x);
        assert(is_root(x, q));
        assert(q == r) by (nonlinear_arith)
            requires
                0 <= r,
                r * r <= x < (r + 1) * (r + 1),
                0 <= q,
                q * q <= x < (q + 1) * (q + 1),
        ;
    }
}

proof fn lemma_find_root(x: int, top: int) -> (r: int)
    requires
        0 <= x,
        0 <= top,
        x < (top + 1) * (top + 1),
    ensures
        is_root(x, r),
    decreases top,
{
    if top * top <= x {
        top
    } else {
        assert(top > 0) by (nonlinear_arith)
            requires
                top * top > x,
                0 <= x,
                0 <= top,
        ;
        lemma_find_root(x, top - 1)
    }
}

proof fn lemma_spread(s: Sums)
    ensures
        0 <= spread(s),
{
    let v = mean_square(s) - (mean_at(s, 0) * mean_at(s, 0) + mean_at(s, 1) * mean_at(s, 1) + mean_at(s, 2) * mean_at(
        s,
        2,
    ));
    lemma_some_root(if v < 0 {
        0
    } else {
        v / 3
    });
}

/// A pixel leans to the side whose mean colour is more than twice as near, each
/// distance taken in spreads of that side; to neither if both are about as near.
/// Nothing is said where a side has no pixels, or the two are nearer to each other
/// than twice their spreads together. Distances and spreads are roots, rounded down,
/// in parts of which full light has 16,776,192; a spread has 251,643 added to it.
pub proof fn law_a_pixel_leans_to_the_nearer_side(
    behind: Sums,
    front: Sums,
    c: (int, int, int),
    mb: (int, int, int),
    mf: (int, int, int),
    db: int,
    df: int,
    between: int,
)
    requires
        behind.n > 0,
        front.n > 0,
        mb == (mean_of_channel(behind, 0), mean_of_channel(behind, 1), mean_of_channel(behind, 2)),
        mf == (mean_of_channel(front, 0), mean_of_channel(front, 1), mean_of_channel(front, 2)),
        0 <= db && db * db <= gap_of(c, mb) < (db + 1) * (db + 1),
        0 <= df && df * df <= gap_of(c, mf) < (df + 1) * (df + 1),
        0 <= between && between * between <= gap_of(mf, mb) < (between + 1) * (between + 1),
    ensures
        ({
            let (sb, sf) = (spread(behind) + 251_643, spread(front) + 251_643);
            let judged = between >= 2 * (sb + sf);
            &&& lean_of(behind, front, c) is None <==> !judged
            &&& lean_of(behind, front, c) == Some(Lean::Background) <==> judged && 2 * (db * sf) < df * sb
            &&& lean_of(behind, front, c) == Some(Lean::Foreground) <==> judged && 2 * (df * sb) < db * sf
        }),
{
    lemma_some_root(apart(c, behind));
    lemma_some_root(apart(c, front));
    lemma_some_root(apart(mean_colour(front), behind));
    assert(is_root(apart(c, behind), db));
    assert(is_root(apart(c, front), df));
    assert(is_root(apart(mean_colour(front), behind), between));
    lemma_spread(behind);
    lemma_spread(front);
    let (sb, sf) = (spread(behind) + 251_643, spread(front) + 251_643);
    assert(db * sf >= 0 && df * sb >= 0) by (nonlinear_arith)
        requires
            0 <= db,
            0 <= df,
            0 < sb,
            0 < sf,
    ;
}

/// The mean of a channel in 1024ths of a unit, rounded down.
pub open spec fn mean_of_channel(s: Sums, k: int) -> int {
    (1024 * s.rgb[k]) / (s.n as int)
}

/// The squared distance of two colours.
pub open spec fn gap_of(p: (int, int, int), q: (int, int, int)) -> int {
    (p.0 - q.0) * (p.0 - q.0) + (p.1 - q.1) * (p.1 - q.1) + (p.2 - q.2) * (p.2 - q.2)
}

/// Where a side has no pixels nothing is said.
pub proof fn law_a_side_without_pixels_is_not_judged(behind: Sums, front: Sums, c: (int, int, int))
    requires
        behind.n == 0 || front.n == 0,
    ensures
        lean_of(behind, front, c) is None,
{
}

/// The spread is the root of a third of the variance, the mean of the squares less
/// the square of the mean, rounded down.
pub proof fn law_the_spread_is_the_root_of_the_variance(s: Sums, v: int)
    requires
        s.n > 0,
        v == (1_048_576 * s.squares) / (s.n as int) - (mean_of_channel(s, 0) * mean_of_channel(s, 0) + mean_of_channel(
            s,
            1,
        ) * mean_of_channel(s, 1) + mean_of_channel(s, 2) * mean_of_channel(s, 2)),
    ensures
        0 <= spread(s),
        v < 0 ==> spread(s) == 0,
        v >= 0 ==> 3 * (spread(s) * spread(s)) <= v < 3 * ((spread(s) + 1) * (spread(s) + 1)),
{
    let u = mean_square(s) - (mean_at(s, 0) * mean_at(s, 0) + mean_at(s, 1) * mean_at(s, 1) + mean_at(s, 2) * mean_at(
        s,
        2,
    ));
    assert(u == v);
    lemma_some_root(if v < 0 {
        0
    } else {
        v / 3
    });
    if v < 0 {
        assert(is_root(0, 0));
    }
}

/// A cell without pixels of its own gets the sums of an occupied cell that none is
/// nearer than, by the cost of the way, if that is within the limit; every other cell
/// keeps its own.
pub proof fn law_an_empty_cell_borrows_from_the_nearest(
    cells: Seq<Sums>,
    w: int,
    h: int,
    limit: int,
    x: int,
    y: int,
    after: Sums,
    u: int,
    v: int,
)
    requires
        cells.len() == w * h,
        0 <= x < w,
        0 <= y < h,
        0 <= u < w,
        0 <= v < h,
        borrowed(cells, w, h, limit, y * w + x, after),
        cells[v * w + u].n > 0,
    ensures
        cells[y * w + x].n > 0 ==> after == cells[y * w + x],
        cells[y * w + x].n == 0 && way_cost(x - u, y - v) <= limit ==> exists|a: int, b: int|
            0 <= a < w && 0 <= b < h && after == #[trigger] cells[b * w + a] && after.n > 0 && way_cost(x - a, y - b)
                <= way_cost(x - u, y - v),
        after != cells[y * w + x] ==> exists|a: int, b: int|
            0 <= a < w && 0 <= b < h && after == #[trigger] cells[b * w + a] && after.n > 0 && way_cost(x - a, y - b)
                <= limit,
{
    let seed = occupied(cells);
    let (i, q) = (at(w, x, y), at(w, u, v));
    lemma_at_bound(w, h, x, y);
    lemma_at_split(w, x, y);
    lemma_at_bound(w, h, u, v);
    lemma_at_split(w, u, v);
    assert(seed[q]);
    if cells[i].n == 0 && in_reach(seed, w, limit, i) {
        let j = lender(seed, w, h, i);
        assert(is_nearest(seed, w, i, j));
        assert(seed[j]);
        let (a, b) = (j % w, j / w);
        lemma_at_join(w, h, j);
        assert(after == cells[b * w + a]);
        let p = choose|p: int|
            0 <= p < seed.len() && #[trigger] seed[p] && span(true, i % w - p % w, i / w - p / w) <= limit;
        assert(seed[p]);
        assert(span(true, x - a, y - b) == way_cost(x - a, y - b));
        assert(span(true, x - u, y - v) == way_cost(x - u, y - v));
    }
    if cells[i].n == 0 && way_cost(x - u, y - v) <= limit {
        assert(in_reach(seed, w, limit, i)) by {
            assert(span(true, i % w - q % w, i / w - q / w) <= limit);
        }
    }
}

/// The windows of the rim grow with the image: a cell is as wide as the long edge has
/// thousands, to the nearest pixel; the window reaches eight times that, to the next
/// pixel and to the next cell; and colours are borrowed from sixteen windows away, to
/// the nearest cell.
pub proof fn law_windows_of_the_rim_grow_with_the_image(scale: int)
    requires
        1000 <= scale,
    ensures
        ({
            let (side, window, cells, borrow) = (
                cell_side(scale),
                window_pixels(scale),
                window_cells(scale),
                borrow_cells(scale),
            );
            &&& 1 <= side
            &&& scale - 500 < 1000 * side <= scale + 500
            &&& 8 * scale <= 1000 * window < 8 * scale + 1000
            &&& (cells - 1) * side < window <= cells * side
            &&& 128 * scale - 500 * side < 1000 * (borrow * side) <= 128 * scale + 500 * side
        }),
{
    let (side, window, cells, borrow) = (
        cell_side(scale),
        window_pixels(scale),
        window_cells(scale),
        borrow_cells(scale),
    );
    assert((cells - 1) * side < window <= cells * side) by (nonlinear_arith)
        requires
            cells == (window + side - 1) / side,
            0 < side,
    ;
    let n = 256 * scale + 1000 * side;
    let d = 2000 * side;
    assert(2 * 16 * 8 * scale == 256 * scale);
    assert(borrow * d <= n < (borrow + 1) * d) by (nonlinear_arith)
        requires
            borrow == n / d,
            0 < d,
    ;
    assert(borrow * d == 2000 * (borrow * side) && (borrow + 1) * d == 2000 * (borrow * side) + 2000 * side)
        by (nonlinear_arith)
        requires
            d == 2000 * side,
    ;
}

} // verus!
