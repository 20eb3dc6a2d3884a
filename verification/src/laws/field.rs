//! Laws of what is read from the background and of the box of the product.
use vstd::prelude::*;

use crate::cutout::background::{are_quantiles, cell_rect, cut, grid_size, DeltaEQuantiles, KnownBackground};
use crate::cutout::field::{
    covered_next, fill_run, filled, is_done, most_rounds, reach, reached, read_cells, read_plane, refilled,
};
use crate::cutout::fill::{gained, missed};
use crate::cutout::subject::{pixels_of, widened, Span};
use crate::geometry::{in_rect, on_plane};
use crate::sorting::{ranked, sorted, sorts};

verus! {

/// Sorted keys are the same in whatever way they were sorted, so a rank has one
/// value.
pub proof fn law_a_rank_has_one_value(s: Seq<u64>, k: int, l: int, v: u64, u: u64)
    requires
        ranked(s, k, v),
        ranked(s, l, u),
        k <= l,
    ensures
        v <= u,
        k == l ==> v == u,
{
    let a = choose|t: Seq<u64>| #[trigger] sorts(t, s) && 0 <= k < t.len() && v == t[k];
    let b = choose|t: Seq<u64>| #[trigger] sorts(t, s) && 0 <= l < t.len() && u == t[l];
    let leq = |x: u64, y: u64| x <= y;
    assert(vstd::relations::sorted_by(a, leq));
    assert(vstd::relations::sorted_by(b, leq));
    vstd::seq_lib::lemma_sorted_unique(a, b, leq);
    assert(sorted(a));
}

/// The quantiles are in order.
pub proof fn law_quantiles_are_in_order(s: Seq<u64>, q: DeltaEQuantiles)
    requires
        are_quantiles(s, q),
    ensures
        q.p50 <= q.p90 <= q.max,
{
    let n = s.len() as int;
    if n > 0 {
        law_a_rank_has_one_value(s, n / 2, (9 * (n - 1) + 5) / 10, q.p50, q.p90);
        law_a_rank_has_one_value(s, (9 * (n - 1) + 5) / 10, n - 1, q.p90, q.max);
    }
}

/// Widening takes in all of the stretch, and stays on the edge.
pub proof fn law_a_widened_stretch_holds_the_stretch(s: Span)
    requires
        0 < s.of < 0x1_0000_0000,
        s.lo <= s.hi <= s.of,
    ensures
        widened(s).lo * s.of <= s.lo * widened(s).of,
        s.hi * widened(s).of <= widened(s).hi * s.of,
        widened(s).hi <= widened(s).of,
{
    let t = widened(s);
    let (lo, hi, of) = (s.lo as int, s.hi as int, s.of as int);
    assert(t.of == 100 * of);
    assert(t.lo * of <= lo * (100 * of)) by (nonlinear_arith)
        requires
            t.lo == 0 || t.lo == 100 * lo - of,
            0 <= lo,
            0 < of,
    ;
    assert(hi * (100 * of) <= t.hi * of) by (nonlinear_arith)
        requires
            t.hi == 100 * of || t.hi == 100 * hi + of,
            0 <= hi <= of,
            0 < of,
    ;
}

/// The pixels of a stretch hold all of it: rounding goes outward.
pub proof fn law_pixels_hold_the_stretch(s: Span, n: u32)
    requires
        0 < n,
        0 < s.of,
        s.lo <= s.hi <= s.of,
    ensures
        pixels_of(s, n).0 * s.of <= s.lo * n,
        s.hi * n <= (pixels_of(s, n).1 + 1) * s.of,
        0 <= pixels_of(s, n).0 <= pixels_of(s, n).1 < n,
{
    let (lo, hi, of, m) = (s.lo as int, s.hi as int, s.of as int, n as int);
    let q = (lo * m) / of;
    let r = (hi * m + of - 1) / of;
    let (first, last) = pixels_of(s, n);
    assert(0 <= q && q * of <= lo * m && hi * m <= r * of) by (nonlinear_arith)
        requires
            q == (lo * m) / of,
            r == (hi * m + of - 1) / of,
            0 <= lo,
            0 <= hi,
            0 < of,
            0 < m,
    ;
    assert(first * of <= q * of) by (nonlinear_arith)
        requires
            first <= q,
            0 < of,
    ;
    assert(hi * m <= (last + 1) * of) by (nonlinear_arith)
        requires
            hi * m <= r * of,
            last + 1 >= r || last + 1 == m,
            hi <= of,
            0 < of,
            0 < m,
    ;
}

/// The part of a side that a place lies in.
pub open spec fn part_of(x: int, n: int, parts: int, c: int) -> bool {
    0 <= c < parts && cut(c, n, parts) <= x < cut(c + 1, n, parts)
}

/// Every place of a side lies in one part, and in one only.
pub proof fn law_parts_cover_a_side(x: int, n: int, parts: int)
    requires
        0 < parts <= n,
        0 <= x < n,
    ensures
        exists|c: int| part_of(x, n, parts, c),
        forall|c: int, d: int| part_of(x, n, parts, c) && part_of(x, n, parts, d) ==> c == d,
{
    assert(cut(0, n, parts) == 0) by (nonlinear_arith)
        requires
            cut(0, n, parts) == (0 * n) / parts,
            0 < parts,
    ;
    assert(cut(parts, n, parts) == n) by (nonlinear_arith)
        requires
            cut(parts, n, parts) == (parts * n) / parts,
            0 < parts,
    ;
    let c = lemma_find_part(x, n, parts, parts);
    assert(part_of(x, n, parts, c));
    assert forall|c: int, d: int| part_of(x, n, parts, c) && part_of(x, n, parts, d) implies c == d by {
        if c < d {
            lemma_cut_grows(c + 1, d, n, parts);
        } else if d < c {
            lemma_cut_grows(d + 1, c, n, parts);
        }
    }
}

proof fn lemma_cut_grows(a: int, b: int, n: int, parts: int)
    requires
        0 <= a <= b,
        0 < parts,
        0 <= n,
    ensures
        cut(a, n, parts) <= cut(b, n, parts),
{
    assert((a * n) / parts <= (b * n) / parts) by (nonlinear_arith)
        requires
            0 <= a <= b,
            0 < parts,
            0 <= n,
    ;
}

proof fn lemma_find_part(x: int, n: int, parts: int, end: int) -> (c: int)
    requires
        0 < parts <= n,
        0 < end <= parts,
        cut(0, n, parts) <= x < cut(end, n, parts),
    ensures
        part_of(x, n, parts, c),
    decreases end,
{
    if cut(end - 1, n, parts) <= x {
        end - 1
    } else if end == 1 {
        0
    } else {
        lemma_find_part(x, n, parts, end - 1)
    }
}

/// Every pixel of an image lies in a cell of the grid of its field.
pub proof fn law_every_pixel_has_a_cell(w: u32, h: u32, x: int, y: int)
    requires
        on_plane(w as int, h as int, x, y),
    ensures
        exists|cx: int, cy: int|
            on_plane(grid_size(w as int, h as int).0, grid_size(w as int, h as int).1, cx, cy) && in_rect(
                #[trigger] cell_rect(
                    w as int,
                    h as int,
                    grid_size(w as int, h as int).0,
                    grid_size(w as int, h as int).1,
                    cx,
                    cy,
                ),
                x,
                y,
            ),
{
    let (wi, hi) = (w as int, h as int);
    let (cols, rows) = grid_size(wi, hi);
    assert(1 <= cols <= wi && 1 <= rows <= hi) by {
        if wi > 256 && wi >= hi {
            assert((hi * 256) / wi <= hi) by (nonlinear_arith)
                requires
                    256 < wi,
                    0 < hi,
            ;
        } else if hi > 256 {
            assert((wi * 256) / hi <= wi) by (nonlinear_arith)
                requires
                    256 < hi,
                    0 < wi,
            ;
        }
    }
    law_parts_cover_a_side(x, wi, cols);
    law_parts_cover_a_side(y, hi, rows);
    let cx = choose|c: int| part_of(x, wi, cols, c);
    let cy = choose|c: int| part_of(y, hi, rows, c);
    lemma_cut_grows(cx + 1, cols, wi, cols);
    lemma_cut_grows(cy + 1, rows, hi, rows);
    assert(cut(cols, wi, cols) == wi) by (nonlinear_arith)
        requires
            cut(cols, wi, cols) == (cols * wi) / cols,
            0 < cols,
    ;
    assert(cut(rows, hi, rows) == hi) by (nonlinear_arith)
        requires
            cut(rows, hi, rows) == (rows * hi) / rows,
            0 < rows,
    ;
    assert(0 <= cut(cx, wi, cols) && 0 <= cut(cy, hi, rows)) by {
        lemma_cut_grows(0, cx, wi, cols);
        lemma_cut_grows(0, cy, hi, rows);
        assert((0 * wi) / cols == 0 && (0 * hi) / rows == 0) by (nonlinear_arith)
            requires
                0 < cols,
                0 < rows,
        ;
    }
    assert(on_plane(cols, rows, cx, cy) && in_rect(cell_rect(wi, hi, cols, rows, cx, cy), x, y));
}

/// What is known of the background only grows with a wider band.
pub proof fn law_a_wider_band_knows_no_less(k: KnownBackground<'_>, band: u32, x: int, y: int, w: int, h: int)
    requires
        k.band <= band,
        k.knows(x, y, w, h),
    ensures
        (KnownBackground { band, ..k }).knows(x, y, w, h),
{
    let m = KnownBackground { band, ..k };
    if k.banded(x, y, w, h) {
        assert(m.banded(x, y, w, h));
    }
    assert(m.marked(x, y, w, h) == k.marked(x, y, w, h));
    assert(m.reached(x, y, w) == k.reached(x, y, w));
}

/// Rounds of filling leave alone what was read.
proof fn lemma_rounds_keep_what_was_read(
    w: int,
    h: int,
    known: Seq<bool>,
    planes: (Seq<u64>, Seq<u64>, Seq<u64>),
    covered: Seq<bool>,
    widened: int,
    calm: int,
    made: int,
    most: int,
    i: int,
)
    requires
        known.len() == covered.len() == planes.0.len() == planes.1.len() == planes.2.len(),
        0 <= i < known.len(),
        known[i],
        covered[i],
    ensures
        ({
            let (after, reached) = fill_run(w, h, known, planes, covered, widened, calm, made, most);
            &&& reached.len() == known.len()
            &&& reached[i]
            &&& after.0[i] == planes.0[i]
            &&& after.1[i] == planes.1[i]
            &&& after.2[i] == planes.2[i]
        }),
    decreases most - made,
{
    if !(is_done(known, calm, made, most) || made >= most) {
        let r = reach(if w < h { h } else { w }, widened);
        let hit = reached(covered, w, h, r);
        let next = (
            refilled(planes.0, known, covered, w, h, r),
            refilled(planes.1, known, covered, w, h, r),
            refilled(planes.2, known, covered, w, h, r),
        );
        lemma_rounds_keep_what_was_read(
            w,
            h,
            known,
            next,
            covered_next(covered, hit),
            widened + if missed(known, hit) && !gained(covered, hit) { 1int } else { 0 },
            calm + if missed(known, hit) { 0int } else { 1 },
            made + 1,
            most,
            i,
        );
    }
}

/// Filling the cells that could not be read leaves the others as they were read.
pub proof fn law_what_was_read_stays(w: int, h: int, values: Seq<Option<[u64; 3]>>, fallback: [u64; 3], k: int, i: int)
    requires
        0 <= k < 3,
        0 <= i < values.len(),
        values[i] is Some,
    ensures
        filled(w, h, values, fallback, k)[i] == values[i].unwrap()[k],
{
    let known = read_cells(values);
    lemma_rounds_keep_what_was_read(
        w,
        h,
        known,
        (read_plane(values, 0), read_plane(values, 1), read_plane(values, 2)),
        known,
        0,
        0,
        0,
        most_rounds(w, h),
        i,
    );
}

} // verus!
