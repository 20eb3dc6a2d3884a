//! Laws of marks.
use vstd::prelude::*;

use crate::cutout::constraints::{
    disc, nearest_on, nearest_place, painted, resamples, trimap_says, Constraint, Constraints,
};
use crate::cutout::floodfill::{protects, FG_SEED_RADIUS};
use crate::cutout::luma::{lemma_single_close, luma_of, single};
use crate::cutout::polygon::{centre, crossed_before, crosses, inside, interior, passed};
use crate::geometry::{at, lemma_at_bound, lemma_at_join, lemma_at_split, on_plane};
use crate::tally::{lemma_tally_step, lemma_tally_zero, tally};

verus! {

/// Without a conflict every pixel is foreground, background or free, and the
/// three add up.
pub proof fn law_shares_add_up(c: &Constraints)
    requires
        c.wf(),
        tally(c.both()) == 0,
    ensures
        tally(c.fg()) + tally(c.bg()) + tally(c.free()) == c.fg().len(),
{
    let n = c.fg().len() as int;
    lemma_tally_zero(c.both());
    lemma_prefix_adds_up(c, n);
    assert(c.fg().take(n) =~= c.fg());
    assert(c.bg().take(n) =~= c.bg());
    assert(c.free().take(n) =~= c.free());
}

proof fn lemma_prefix_adds_up(c: &Constraints, i: int)
    requires
        c.wf(),
        0 <= i <= c.fg().len(),
        forall|k: int| 0 <= k < c.both().len() ==> !(#[trigger] c.both()[k]),
    ensures
        tally(c.fg().take(i)) + tally(c.bg().take(i)) + tally(c.free().take(i)) == i,
    decreases i,
{
    if i == 0 {
        assert(c.fg().take(0) =~= Seq::empty());
        assert(c.bg().take(0) =~= Seq::empty());
        assert(c.free().take(0) =~= Seq::empty());
    } else {
        lemma_prefix_adds_up(c, i - 1);
        lemma_tally_step(c.fg(), i - 1);
        lemma_tally_step(c.bg(), i - 1);
        lemma_tally_step(c.free(), i - 1);
        assert(!c.both()[i - 1]);
    }
}

/// Marking takes no mark away.
pub proof fn law_marking_keeps_marks(before: &Constraints, after: &Constraints, kind: Constraint, area: Seq<bool>, i: int)
    requires
        painted(before, after, kind, area),
        0 <= i < before.fg().len(),
        before.wf(),
    ensures
        before.fg()[i] ==> after.fg()[i],
        before.bg()[i] ==> after.bg()[i],
{
}

/// Marking the same area again changes nothing.
pub proof fn law_marking_twice_changes_nothing(
    first: &Constraints,
    second: &Constraints,
    third: &Constraints,
    kind: Constraint,
    area: Seq<bool>,
)
    requires
        first.wf(),
        painted(first, second, kind, area),
        painted(second, third, kind, area),
    ensures
        third.fg() == second.fg(),
        third.bg() == second.bg(),
{
    assert(third.fg() =~= second.fg());
    assert(third.bg() =~= second.bg());
}

/// The order of two markings does not matter.
pub proof fn law_markings_commute(
    start: &Constraints,
    a: &Constraints,
    ab: &Constraints,
    b: &Constraints,
    ba: &Constraints,
    kind_a: Constraint,
    area_a: Seq<bool>,
    kind_b: Constraint,
    area_b: Seq<bool>,
)
    requires
        start.wf(),
        painted(start, a, kind_a, area_a),
        painted(a, ab, kind_b, area_b),
        painted(start, b, kind_b, area_b),
        painted(b, ba, kind_a, area_a),
    ensures
        ab.fg() == ba.fg(),
        ab.bg() == ba.bg(),
{
    assert(ab.fg() =~= ba.fg());
    assert(ab.bg() =~= ba.bg());
}

/// A pixel with both marks is foreground: what a user points at goes before all.
pub proof fn law_foreground_goes_first(c: &Constraints, x: int, y: int)
    requires
        c.wf(),
        on_plane(c.w() as int, c.h() as int, x, y),
        c.fg()[at(c.w() as int, x, y)],
    ensures
        c.said_at(x, y) == Constraint::ForcedFg,
{
}

/// Marks that are brought to the size they have stay as they are.
pub proof fn law_marks_keep_their_places_on_their_own_size(a: &Constraints, b: &Constraints)
    requires
        a.wf(),
        0 < a.w(),
        0 < a.h(),
        resamples(a, (a.w(), a.h()), b),
    ensures
        b.fg() == a.fg(),
        b.bg() == a.bg(),
        b.listed() == a.listed(),
{
    let (w, h) = (a.w() as int, a.h() as int);
    assert forall|i: int| 0 <= i < a.fg().len() implies b.fg()[i] == a.fg()[i] && b.bg()[i] == a.bg()[i] by {
        lemma_at_join(w, h, i);
        lemma_nearest_same((i % w) as u32, a.w());
        lemma_nearest_same((i / w) as u32, a.h());
        assert(b.fg()[i] == a.fg()[nearest_place((a.w(), a.h()), (a.w(), a.h()), i)]);
    }
    assert(b.fg() =~= a.fg());
    assert(b.bg() =~= a.bg());
}

/// A pixel lies where it lies.
proof fn lemma_nearest_same(v: u32, n: u32)
    requires
        v < n,
    ensures
        nearest_on(v, n, n) == v,
{
    let m = n as int;
    let x = (2 * v + 1) * m;
    assert(x == v * (2 * m) + m) by (nonlinear_arith)
        requires
            x == (2 * v + 1) * m,
    ;
    vstd::arithmetic::div_mod::lemma_fundamental_div_mod_converse(x, 2 * m, v as int, m);
}

/// Seeds protect just what is marked by a disc around each of them, drawn one after
/// the other on a table without marks.
pub proof fn law_seeds_protect_what_their_discs_mark(tables: Seq<Constraints>, seeds: Seq<(u32, u32)>)
    requires
        tables.len() == seeds.len() + 1,
        tables[0].wf(),
        forall|i: int| 0 <= i < tables[0].fg().len() ==> !(#[trigger] tables[0].fg()[i]),
        forall|k: int|
            0 <= k < seeds.len() ==> painted(
                &tables[k],
                &tables[k + 1],
                Constraint::ForcedFg,
                disc(tables[k].w(), tables[k].h(), (#[trigger] seeds[k]).0, seeds[k].1, FG_SEED_RADIUS),
            ),
    ensures
        tables.last().fg().len() == tables[0].w() * tables[0].h(),
        forall|i: int|
            0 <= i < tables.last().fg().len() ==> #[trigger] tables.last().fg()[i] == protects(
                tables[0].w(),
                tables[0].h(),
                seeds,
                i,
            ),
{
    lemma_discs_so_far(tables, seeds, seeds.len() as int);
    assert(seeds.take(seeds.len() as int) =~= seeds);
}

/// The discs around the first `n` seeds.
proof fn lemma_discs_so_far(tables: Seq<Constraints>, seeds: Seq<(u32, u32)>, n: int)
    requires
        tables.len() == seeds.len() + 1,
        0 <= n <= seeds.len(),
        tables[0].wf(),
        forall|i: int| 0 <= i < tables[0].fg().len() ==> !(#[trigger] tables[0].fg()[i]),
        forall|k: int|
            0 <= k < seeds.len() ==> painted(
                &tables[k],
                &tables[k + 1],
                Constraint::ForcedFg,
                disc(tables[k].w(), tables[k].h(), (#[trigger] seeds[k]).0, seeds[k].1, FG_SEED_RADIUS),
            ),
    ensures
        tables[n].wf(),
        tables[n].w() == tables[0].w(),
        tables[n].h() == tables[0].h(),
        forall|i: int|
            0 <= i < tables[n].fg().len() ==> #[trigger] tables[n].fg()[i] == protects(
                tables[0].w(),
                tables[0].h(),
                seeds.take(n),
                i,
            ),
    decreases n,
{
    let (w, h) = (tables[0].w(), tables[0].h());
    if n > 0 {
        lemma_discs_so_far(tables, seeds, n - 1);
        let (shorter, longer) = (seeds.take(n - 1), seeds.take(n));
        let (x, y) = seeds[n - 1];
        assert(painted(&tables[n - 1], &tables[n - 1 + 1], Constraint::ForcedFg, disc(w, h, x, y, FG_SEED_RADIUS)));
        assert forall|i: int| 0 <= i < tables[n].fg().len() implies #[trigger] tables[n].fg()[i] == protects(
            w,
            h,
            longer,
            i,
        ) by {
            assert(tables[n].fg()[i] == (tables[n - 1].fg()[i] || disc(w, h, x, y, FG_SEED_RADIUS)[i]));
            if protects(w, h, shorter, i) {
                let k = choose|k: int|
                    0 <= k < shorter.len() && disc(w, h, (#[trigger] shorter[k]).0, shorter[k].1, FG_SEED_RADIUS)[i];
                assert(longer[k] == shorter[k]);
            }
            if disc(w, h, x, y, FG_SEED_RADIUS)[i] {
                assert(longer[n - 1] == (x, y));
            }
            if protects(w, h, longer, i) {
                let k = choose|k: int|
                    0 <= k < longer.len() && disc(w, h, (#[trigger] longer[k]).0, longer[k].1, FG_SEED_RADIUS)[i];
                if k < n - 1 {
                    assert(shorter[k] == longer[k]);
                }
            }
        }
    } else {
        assert forall|i: int| 0 <= i < tables[0].fg().len() implies !protects(w, h, seeds.take(0), i) by {}
    }
}

/// A seed outside the image protects nothing and marks nothing.
pub proof fn law_a_seed_outside_protects_nothing(w: u32, h: u32, x: u32, y: u32, i: int)
    requires
        x >= w || y >= h,
        0 <= i < w * h,
    ensures
        !protects(w, h, seq![(x, y)], i),
        !disc(w, h, x, y, FG_SEED_RADIUS)[i],
{
}

/// Marking reaches every pixel of the area and no other: those of the area carry
/// the new mark, and none loses or gains another.
pub proof fn law_marking_reaches_the_area(before: &Constraints, after: &Constraints, kind: Constraint, area: Seq<bool>, i: int)
    requires
        painted(before, after, kind, area),
        before.wf(),
        0 <= i < before.fg().len(),
    ensures
        kind == Constraint::ForcedFg ==> after.fg()[i] == (before.fg()[i] || area[i]) && after.bg()[i] == before.bg()[i],
        kind == Constraint::ForcedBg ==> after.bg()[i] == (before.bg()[i] || area[i]) && after.fg()[i] == before.fg()[i],
        kind == Constraint::Free ==> after.fg()[i] == before.fg()[i] && after.bg()[i] == before.bg()[i],
{
}

/// A disc holds the pixels that are no farther from its centre than its radius, if
/// the centre lies on the image.
pub proof fn law_a_disc_is_round(width: u32, height: u32, cx: u32, cy: u32, radius: u32, x: int, y: int)
    requires
        0 <= x < width,
        0 <= y < height,
    ensures
        disc(width, height, cx, cy, radius)[y * width + x] <==> cx < width && cy < height && (x - cx) * (x - cx) + (y
            - cy) * (y - cy) <= radius * radius,
{
    lemma_at_bound(width as int, height as int, x, y);
    lemma_at_split(width as int, x, y);
}

/// What is said of a pixel: foreground if it carries that mark, else background if
/// it carries that one, else nothing; and nothing outside.
pub proof fn law_marks_say_what_they_are(c: &Constraints, x: int, y: int)
    requires
        c.wf(),
    ensures
        c.said_at(x, y) == Constraint::ForcedFg <==> 0 <= x < c.w() && 0 <= y < c.h() && c.fg()[y * c.w() + x],
        c.said_at(x, y) == Constraint::ForcedBg <==> 0 <= x < c.w() && 0 <= y < c.h() && c.bg()[y * c.w() + x]
            && !c.fg()[y * c.w() + x],
{
}

/// On another size a pixel takes the marks of the pixel that its middle falls into.
pub proof fn law_marks_are_taken_from_under_the_middle(
    from: &Constraints,
    size: (u32, u32),
    to: &Constraints,
    x: int,
    y: int,
    u: int,
    v: int,
)
    requires
        from.wf(),
        resamples(from, size, to),
        0 <= x < size.0,
        0 <= y < size.1,
        0 <= u < from.w(),
        0 <= v < from.h(),
        u * (2 * size.0) <= (2 * x + 1) * from.w() < (u + 1) * (2 * size.0),
        v * (2 * size.1) <= (2 * y + 1) * from.h() < (v + 1) * (2 * size.1),
    ensures
        to.fg()[y * size.0 + x] == from.fg()[v * from.w() + u],
        to.bg()[y * size.0 + x] == from.bg()[v * from.w() + u],
{
    lemma_at_bound(size.0 as int, size.1 as int, x, y);
    lemma_at_split(size.0 as int, x, y);
    lemma_under_middle(x, size.0, from.w(), u);
    lemma_under_middle(y, size.1, from.h(), v);
    let i = at(size.0 as int, x, y);
    assert(0 <= i < size.0 * size.1);
    assert(nearest_place((from.w(), from.h()), size, i) == at(from.w() as int, u, v));
    assert(to.fg()[i] == from.fg()[nearest_place((from.w(), from.h()), size, i)]);
}

proof fn lemma_under_middle(v: int, n: u32, m: u32, p: int)
    requires
        0 <= v < n,
        0 <= p < m,
        p * (2 * n) <= (2 * v + 1) * m < (p + 1) * (2 * n),
    ensures
        nearest_on(v as u32, n, m) == p,
{
    let k = 2 * n as int;
    let x = (2 * v + 1) * m;
    assert((p + 1) * k == p * k + k) by (nonlinear_arith);
    vstd::arithmetic::div_mod::lemma_fundamental_div_mod_converse(x, k, p, x - p * k);
}

/// A trimap means foreground from 192 on, background up to 63, and nothing between.
pub proof fn law_a_trimap_has_three_tones(l: u8)
    ensures
        trimap_says(l) == Some(Constraint::ForcedFg) <==> l >= 192,
        trimap_says(l) == Some(Constraint::ForcedBg) <==> l < 64,
{
}

/// The luminance is the weighted mean of the channels, 21.26 parts red, 71.52 green
/// and 7.22 blue, to the nearest whole, but for what single precision loses.
pub proof fn law_luminance_weighs_the_channels(p: [u8; 4])
    ensures
        2126 * p[0] + 7152 * p[1] + 722 * p[2] - 5001 <= 10_000 * luma_of(p) <= 2126 * p[0] + 7152 * p[1] + 722 * p[2]
            + 5001,
{
    let (a, b, c) = ((28_534_688 * p[0]) as nat, (95_992_520 * p[1]) as nat, (9_690_520 * p[2]) as nat);
    let (r, g, bl) = (single(a), single(b), single(c));
    lemma_single_close(a);
    lemma_single_close(b);
    lemma_single_close(c);
    lemma_single_close(r + g);
    lemma_single_close(single(r + g) + bl);
}

/// The middle of pixel `x` along an edge, where a pixel is 65,536 parts wide.
pub open spec fn middle_of(x: int) -> int {
    65_536 * x + 32_768
}

/// A polygon with a level top and a level bottom holds the pixels whose middles lie
/// from its top to above its bottom, and from its left side to before its right
/// one, however the sides slant.
pub proof fn law_a_polygon_holds_what_lies_between_its_sides(
    t: i64,
    b: i64,
    l1: i64,
    r1: i64,
    l2: i64,
    r2: i64,
    x: int,
    y: int,
)
    requires
        t < b,
        l1 <= r1,
        l2 <= r2,
    ensures
        inside(seq![[l1, t], [r1, t], [r2, b], [l2, b]], x, y) <==> t <= middle_of(y) < b && l1 * (b - t) + (middle_of(y)
            - t) * (l2 - l1) <= middle_of(x) * (b - t) < r1 * (b - t) + (middle_of(y) - t) * (r2 - r1),
{
    let points = seq![[l1, t], [r1, t], [r2, b], [l2, b]];
    let (cx, cy) = (middle_of(x), middle_of(y));
    assert(centre(x) == cx && centre(y) == cy);
    let dy = b - t;
    let left = l1 * dy + (cy - t) * (l2 - l1);
    let right = r1 * dy + (cy - t) * (r2 - r1);
    let s = passed(points, x, y);
    assert(points[0] == [l1, t] && points[1] == [r1, t] && points[2] == [r2, b] && points[3] == [l2, b]);
    assert(!s[0] && !s[2]);
    let band = t <= cy < b;
    assert(s[1] == (band && right <= cx * dy));
    assert(s[3] == (band && left <= cx * dy)) by {
        let up = l2 * (t - b) + (cy - b) * (l1 - l2);
        assert(up == -left && cx * (t - b) == -(cx * dy)) by (nonlinear_arith)
            requires
                up == l2 * (t - b) + (cy - b) * (l1 - l2),
                left == l1 * dy + (cy - t) * (l2 - l1),
                dy == b - t,
        ;
        assert((3int + 1) % 4 == 0);
    }
    if band {
        assert(left <= right) by (nonlinear_arith)
            requires
                left == l1 * dy + (cy - t) * (l2 - l1),
                right == r1 * dy + (cy - t) * (r2 - r1),
                dy == b - t,
                t <= cy < b,
                l1 <= r1,
                l2 <= r2,
        ;
    }
    let s3 = s.drop_last();
    let s2 = s3.drop_last();
    let s1 = s2.drop_last();
    assert(s1.drop_last() =~= Seq::empty());
    assert(s.last() == s[3] && s3.last() == s[2] && s2.last() == s[1] && s1.last() == s[0]);
    reveal_with_fuel(tally, 5);
    assert(tally(s) == (if s[1] {
        1nat
    } else {
        0nat
    }) + (if s[3] {
        1nat
    } else {
        0nat
    }));
}

/// In which direction an edge is drawn makes no difference.
pub proof fn law_an_edge_has_no_direction(a: [i64; 2], b: [i64; 2], scan: int, cx: int)
    requires
        a[1] != b[1],
    ensures
        crosses(a, b, scan) == crosses(b, a, scan),
        crossed_before(a, b, scan, cx) == crossed_before(b, a, scan, cx),
{
    let (dx, dy) = (b[0] - a[0], b[1] - a[1]);
    assert(b[0] * (a[1] - b[1]) + (scan - b[1]) * (a[0] - b[0]) == -(a[0] * dy + (scan - a[1]) * dx) && cx * (a[1]
        - b[1]) == -(cx * dy)) by (nonlinear_arith)
        requires
            dx == b[0] - a[0],
            dy == b[1] - a[1],
    ;
}

/// Fewer than three corners hold nothing.
pub proof fn law_two_corners_hold_nothing(points: Seq<[i64; 2]>, x: int, y: int)
    requires
        points.len() < 3,
    ensures
        !inside(points, x, y),
{
}

/// The pixels of a polygon are those whose middles lie in it.
pub proof fn law_a_polygon_marks_what_it_holds(points: Seq<[i64; 2]>, width: u32, height: u32, x: int, y: int)
    requires
        0 <= x < width,
        0 <= y < height,
    ensures
        interior(points, width, height)[y * width + x] == inside(points, x, y),
{
    lemma_at_bound(width as int, height as int, x, y);
    lemma_at_split(width as int, x, y);
}

} // verus!
