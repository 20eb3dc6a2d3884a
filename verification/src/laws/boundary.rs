//! Laws of the boundary: contours, distances, bands and alpha, told in pixels.
use vstd::prelude::*;

use crate::cutout::chamfer::{is_distance, span};
use crate::cutout::constraints::disc;
use crate::cutout::contour::{ends_at, grown, on_contour, rim_plane, seed_distance};
use crate::cutout::mask::Mask;
use crate::cutout::matte::{along, apart, mean_of, share, Answer, Scene};
use crate::cutout::morphology::in_window;
use crate::cutout::refine::{is_band_width, rests, side_width, width_of};
use crate::geometry::{at, in_rect, lemma_at_bound, lemma_at_split, on_plane, Rect};
use crate::laws::walks::side_by_side;
use crate::sums::{lemma_rect_bound, lemma_span_same, rect_sum, row_sum};

verus! {

/// Among `a` and `b`, three for each of the greater and one for each of the lesser:
/// what it takes to go that far to the side and that far up or down, where a step
/// to the side costs three and one over a corner four.
pub open spec fn way_cost(a: int, b: int) -> int {
    let (a, b) = (
        if a < 0 {
            -a
        } else {
            a
        },
        if b < 0 {
            -b
        } else {
            b
        },
    );
    if a > b {
        3 * a + b
    } else {
        3 * b + a
    }
}

/// No way is cheaper than its cost: a step never shortens the rest by more than it
/// takes, and some step shortens it by just that.
pub proof fn law_the_cost_of_a_way_is_the_least(a: int, b: int)
    ensures
        span(true, a, b) == way_cost(a, b),
        span(true, 0, 0) == 0,
        forall|s: int, t: int|
            -1 <= s <= 1 && -1 <= t <= 1 ==> way_cost(a, b) <= #[trigger] way_cost(a - s, b - t) + if s == 0 && t == 0 {
                0
            } else if s == 0 || t == 0 {
                3
            } else {
                4int
            },
        a != 0 || b != 0 ==> exists|s: int, t: int|
            -1 <= s <= 1 && -1 <= t <= 1 && (s != 0 || t != 0) && way_cost(a, b) == #[trigger] way_cost(a - s, b - t)
                + if s == 0 || t == 0 {
                3
            } else {
                4int
            },
{
    let s: int = if a > 0 {
        1
    } else if a < 0 {
        -1
    } else {
        0
    };
    let t: int = if b > 0 {
        1
    } else if b < 0 {
        -1
    } else {
        0
    };
    if a != 0 || b != 0 {
        assert(way_cost(a, b) == way_cost(a - s, b - t) + if s == 0 || t == 0 {
            3
        } else {
            4int
        });
    }
}

/// A distance is that to the nearest seed, and no more than the cap.
pub proof fn law_a_distance_is_to_the_nearest_seed(seed: Seq<bool>, w: int, h: int, cap: int, x: int, y: int, v: int)
    requires
        is_distance(true, seed, w, h, cap, x, y, v),
    ensures
        0 <= v <= cap,
        forall|p: int, q: int|
            0 <= p < w && 0 <= q < h && #[trigger] seed[q * w + p] ==> v <= way_cost(x - p, y - q),
        v == cap || exists|p: int, q: int|
            0 <= p < w && 0 <= q < h && #[trigger] seed[q * w + p] && v == way_cost(x - p, y - q),
{
    assert forall|p: int, q: int| 0 <= p < w && 0 <= q < h && #[trigger] seed[q * w + p] implies v <= way_cost(
        x - p,
        y - q,
    ) by {
        assert(seed[at(w, p, q)]);
    }
    if v != cap {
        let (p, q) = choose|p: int, q: int|
            on_plane(w, h, p, q) && #[trigger] seed[at(w, p, q)] && span(true, x - p, y - q) == v;
        assert(seed[q * w + p]);
    }
}

/// The distance from the contour is that to its nearest pixel, and no more than 255.
pub proof fn law_a_contour_is_as_far_as_its_nearest_pixel(
    seeds: Seq<(u32, u32)>,
    roi: Rect,
    x: int,
    y: int,
    v: int,
    k: int,
)
    requires
        seed_distance(seeds, roi, x, y, v),
        0 <= k < seeds.len(),
        roi.0 <= seeds[k].0 <= roi.2,
        roi.1 <= seeds[k].1 <= roi.3,
    ensures
        0 <= v <= 255,
        v <= way_cost(x - seeds[k].0, y - seeds[k].1),
        v == 255 || exists|j: int|
            0 <= j < seeds.len() && v == #[trigger] way_cost(x - seeds[j].0, y - seeds[j].1),
{
    assert(in_rect(roi, seeds[k].0 as int, seeds[k].1 as int));
    if v != 255 {
        let j = choose|j: int|
            0 <= j < seeds.len() && in_rect(roi, (#[trigger] seeds[j]).0 as int, seeds[j].1 as int) && v == span(
                true,
                x - seeds[j].0,
                y - seeds[j].1,
            );
        assert(v == way_cost(x - seeds[j].0, y - seeds[j].1));
    }
}

/// A pixel lies on the contour if it is foreground and one of its four neighbours on
/// the image, and in the box, is not.
pub proof fn law_a_contour_lies_beside_background(m: &Mask, bbox: Option<Rect>, x: int, y: int)
    requires
        m.wf(),
        0 <= x < m.w(),
        0 <= y < m.h(),
    ensures
        on_contour(m, bbox, x, y) <==> m@[y * m.w() + x] >= 128 && exists|p: (int, int)| #[trigger]
            side_by_side((x, y), p) && 0 <= p.0 < m.w() && 0 <= p.1 < m.h() && m@[p.1 * m.w() + p.0] < 128 && (
            bbox matches Some(r) ==> r.0 <= p.0 && p.0 <= r.2 && r.1 <= p.1 && p.1 <= r.3),
{
    if on_contour(m, bbox, x, y) {
        if ends_at(m, bbox, x - 1, y) {
            assert(side_by_side((x, y), (x - 1, y)));
        } else if ends_at(m, bbox, x + 1, y) {
            assert(side_by_side((x, y), (x + 1, y)));
        } else if ends_at(m, bbox, x, y - 1) {
            assert(side_by_side((x, y), (x, y - 1)));
        } else {
            assert(side_by_side((x, y), (x, y + 1)));
        }
    }
    if m@[y * m.w() + x] >= 128 && exists|p: (int, int)| #[trigger]
        side_by_side((x, y), p) && 0 <= p.0 < m.w() && 0 <= p.1 < m.h() && m@[p.1 * m.w() + p.0] < 128 && (
        bbox matches Some(r) ==> r.0 <= p.0 && p.0 <= r.2 && r.1 <= p.1 && p.1 <= r.3) {
        let p = choose|p: (int, int)| #[trigger]
            side_by_side((x, y), p) && 0 <= p.0 < m.w() && 0 <= p.1 < m.h() && m@[p.1 * m.w() + p.0] < 128 && (
            bbox matches Some(r) ==> r.0 <= p.0 && p.0 <= r.2 && r.1 <= p.1 && p.1 <= r.3);
        assert(ends_at(m, bbox, p.0, p.1));
    }
}

/// The rim is the foreground that lacks a foreground neighbour on some side.
pub proof fn law_the_rim_is_foreground_with_a_bare_side(m: &Mask, x: int, y: int)
    requires
        m.wf(),
        0 <= x < m.w(),
        0 <= y < m.h(),
    ensures
        rim_plane(m)[y * m.w() + x] <==> m.foreground().contains((x, y)) && exists|p: (int, int)| #[trigger]
            side_by_side((x, y), p) && !m.foreground().contains(p),
{
    lemma_at_bound(m.w() as int, m.h() as int, x, y);
    lemma_at_split(m.w() as int, x, y);
    if m.bare_side(x, y) {
        assert(side_by_side((x, y), (x - 1, y)));
        assert(side_by_side((x, y), (x + 1, y)));
        assert(side_by_side((x, y), (x, y - 1)));
        assert(side_by_side((x, y), (x, y + 1)));
    }
}

/// The width that is measured at a pixel of the contour stands if it lies between
/// the narrowest and the widest; otherwise the nearer of the two does, and the
/// narrowest where nothing could be measured.
pub proof fn law_widths_are_held_between_bounds(measured: Option<u32>, lo: int, hi: int)
    requires
        lo <= hi,
    ensures
        lo <= width_of(measured, lo, hi) <= hi,
        measured is None ==> width_of(measured, lo, hi) == lo,
        measured matches Some(v) ==> {
            &&& lo <= v <= hi ==> width_of(measured, lo, hi) == v
            &&& v < lo ==> width_of(measured, lo, hi) == lo
            &&& v > hi ==> width_of(measured, lo, hi) == hi
        },
{
}

/// The band is the union of round patches about the pixels of the contour, each as
/// wide as the band there; where they overlap the widest counts.
pub proof fn law_the_band_is_made_of_round_patches(
    contour: Seq<(u32, u32)>,
    measured: Seq<Option<u32>>,
    w: u32,
    h: u32,
    lo: int,
    hi: int,
    x: int,
    y: int,
    v: u8,
    k: int,
)
    requires
        is_band_width(contour, measured, w, h, lo, hi, contour.len() as int, y * w + x, v),
        0 <= x < w,
        0 <= y < h,
        0 <= lo <= hi <= 255,
        0 <= k < contour.len(),
        contour[k].0 < w,
        contour[k].1 < h,
    ensures
        ({
            let r = width_of(measured[k], lo, hi);
            (x - contour[k].0) * (x - contour[k].0) + (y - contour[k].1) * (y - contour[k].1) <= r * r ==> v >= r
        }),
        v > 0 ==> exists|j: int|
            0 <= j < contour.len() && v == width_of(measured[j], lo, hi) && (x - (#[trigger] contour[j]).0) * (x
                - contour[j].0) + (y - contour[j].1) * (y - contour[j].1) <= v * v,
{
    lemma_at_bound(w as int, h as int, x, y);
    lemma_at_split(w as int, x, y);
    let i = at(w as int, x, y);
    law_widths_are_held_between_bounds(measured[k], lo, hi);
    let r = width_of(measured[k], lo, hi) as u32;
    assert(disc(w, h, contour[k].0, contour[k].1, r)[i] <==> (x - contour[k].0) * (x - contour[k].0) + (y
        - contour[k].1) * (y - contour[k].1) <= r * r);
    if v > 0 {
        let j = choose|j: int|
            0 <= j < contour.len() && disc(
                w,
                h,
                (#[trigger] contour[j]).0,
                contour[j].1,
                width_of(measured[j], lo, hi) as u32,
            )[i] && width_of(measured[j], lo, hi) == v;
        assert((x - contour[j].0) * (x - contour[j].0) + (y - contour[j].1) * (y - contour[j].1) <= v * v);
    }
}

/// Alpha is the mixture that comes nearest to what was seen: of all 256 shares of
/// front and behind, none is closer to the observed colour.
pub proof fn law_alpha_is_the_mixture_that_fits_best(a: Answer, s: &Scene<'_>, k: int)
    requires
        s.answers(a),
        apart(a.front, a.behind) > 0,
        0 <= k <= 255,
    ensures
        misfit(a.observed, a.front, a.behind, a.alpha as int) <= misfit(a.observed, a.front, a.behind, k),
{
    let (part, whole) = (along(a.observed, a.behind, a.front), apart(a.front, a.behind));
    let m = a.alpha as int;
    let d = [
        a.front[0] - a.behind[0],
        a.front[1] - a.behind[1],
        a.front[2] - a.behind[2],
    ];
    let e = [
        a.observed[0] - a.behind[0],
        a.observed[1] - a.behind[1],
        a.observed[2] - a.behind[2],
    ];
    assert(whole == d[0] * d[0] + d[1] * d[1] + d[2] * d[2]);
    assert(part == e[0] * d[0] + e[1] * d[1] + e[2] * d[2]);
    lemma_misfit(a.observed[0] as int, a.front[0] as int, a.behind[0] as int, m, k);
    lemma_misfit(a.observed[1] as int, a.front[1] as int, a.behind[1] as int, m, k);
    lemma_misfit(a.observed[2] as int, a.front[2] as int, a.behind[2] as int, m, k);
    let n = (k - m) * (k + m);
    assert(misfit(a.observed, a.front, a.behind, k) - misfit(a.observed, a.front, a.behind, m) == n * whole - 510 * (k
        - m) * part) by (nonlinear_arith)
        requires
            misfit(a.observed, a.front, a.behind, k) - misfit(a.observed, a.front, a.behind, m) == (n * (d[0] * d[0])
                - 510 * (k - m) * (e[0] * d[0])) + (n * (d[1] * d[1]) - 510 * (k - m) * (e[1] * d[1])) + (n * (d[2]
                * d[2]) - 510 * (k - m) * (e[2] * d[2])),
            whole == d[0] * d[0] + d[1] * d[1] + d[2] * d[2],
            part == e[0] * d[0] + e[1] * d[1] + e[2] * d[2],
    ;
    assert(n * whole - 510 * (k - m) * part == (k - m) * ((k + m) * whole - 510 * part)) by (nonlinear_arith)
        requires
            n == (k - m) * (k + m),
    ;
    lemma_share_is_nearest(part, whole, m);
    if k > m {
        assert((k + m) * whole >= 510 * part) by (nonlinear_arith)
            requires
                k >= m + 1,
                whole > 0,
                m == 255 || 510 * part <= (2 * m + 1) * whole,
                k <= 255,
        ;
        assert((k - m) * ((k + m) * whole - 510 * part) >= 0) by (nonlinear_arith)
            requires
                k > m,
                (k + m) * whole - 510 * part >= 0,
        ;
    } else if k < m {
        assert((k + m) * whole <= 510 * part) by (nonlinear_arith)
            requires
                k <= m - 1,
                whole > 0,
                m == 0 || 510 * part >= (2 * m - 1) * whole,
                0 <= k,
        ;
        assert((k - m) * ((k + m) * whole - 510 * part) >= 0) by (nonlinear_arith)
            requires
                k < m,
                (k + m) * whole - 510 * part <= 0,
        ;
    } else {
        assert((k - m) * ((k + m) * whole - 510 * part) == 0) by (nonlinear_arith)
            requires
                k == m,
        ;
    }
}

/// How far a mixture of `k` parts front and the rest of 255 behind is from what was
/// seen, squared over the channels.
pub open spec fn misfit(observed: [u64; 3], front: [u64; 3], behind: [u64; 3], k: int) -> int {
    miss(observed[0] as int, front[0] as int, behind[0] as int, k) + miss(
        observed[1] as int,
        front[1] as int,
        behind[1] as int,
        k,
    ) + miss(observed[2] as int, front[2] as int, behind[2] as int, k)
}

pub open spec fn miss(observed: int, front: int, behind: int, k: int) -> int {
    (255 * observed - (k * front + (255 - k) * behind)) * (255 * observed - (k * front + (255 - k) * behind))
}

proof fn lemma_misfit(o: int, f: int, b: int, m: int, k: int)
    ensures
        miss(o, f, b, k) - miss(o, f, b, m) == ((k - m) * (k + m)) * ((f - b) * (f - b)) - 510 * (k - m) * ((o - b) * (f
            - b)),
{
    let (e, d) = (o - b, f - b);
    assert(255 * o - (k * f + (255 - k) * b) == 255 * e - k * d) by (nonlinear_arith)
        requires
            e == o - b,
            d == f - b,
    ;
    assert(255 * o - (m * f + (255 - m) * b) == 255 * e - m * d) by (nonlinear_arith)
        requires
            e == o - b,
            d == f - b,
    ;
    let (p, q) = (255 * e - k * d, 255 * e - m * d);
    assert(p * p - q * q == (p - q) * (p + q)) by (nonlinear_arith);
    assert(p - q == -((k - m) * d)) by (nonlinear_arith)
        requires
            p == 255 * e - k * d,
            q == 255 * e - m * d,
    ;
    assert(p + q == 510 * e - (k + m) * d) by (nonlinear_arith)
        requires
            p == 255 * e - k * d,
            q == 255 * e - m * d,
    ;
    let (a, b) = (k - m, k + m);
    assert((-(a * d)) * (510 * e - b * d) == (a * b) * (d * d) - 510 * a * (e * d)) by (nonlinear_arith);
}

proof fn lemma_share_is_nearest(part: int, whole: int, m: int)
    requires
        whole > 0,
        m == share(part, whole),
    ensures
        0 <= m <= 255,
        m == 255 || 510 * part <= (2 * m + 1) * whole,
        m == 0 || 510 * part >= (2 * m - 1) * whole,
{
    if 0 < part < whole {
        assert(m * (2 * whole) <= 510 * part + whole < (m + 1) * (2 * whole)) by (nonlinear_arith)
            requires
                m == (510 * part + whole) / (2 * whole),
                whole > 0,
        ;
        assert((2 * m + 1) * whole == (m + 1) * (2 * whole) - whole) by (nonlinear_arith);
        assert((2 * m - 1) * whole == m * (2 * whole) - whole) by (nonlinear_arith);
        assert(0 <= m <= 255) by (nonlinear_arith)
            requires
                m * (2 * whole) <= 510 * part + whole < (m + 1) * (2 * whole),
                0 < part < whole,
        ;
    } else if part >= whole {
        assert((2 * m - 1) * whole == 509 * whole) by (nonlinear_arith)
            requires
                m == 255,
        ;
    } else {
        assert((2 * m + 1) * whole == whole) by (nonlinear_arith)
            requires
                m == 0,
        ;
    }
}

/// The walk along one side of the contour ends at the first pixel whose colour
/// differs by no more than two from where it comes to rest.
pub proof fn law_a_side_ends_where_the_colour_rests(steps: &[Option<u64>], lo: int, hi: int, r: int)
    requires
        side_width(Some(steps), lo, hi, r),
        steps@.len() <= hi,
    ensures
        r <= steps@.len() || r == hi,
        forall|t: int|
            0 <= t < r - 1 && t < steps@.len() && (#[trigger] steps@[t]) is Some ==> steps@[t].unwrap()
                > 0x4000_0000_0000_0000,
        r < hi ==> steps@[r - 1] is Some && steps@[r - 1].unwrap() <= 0x4000_0000_0000_0000,
{
    assert forall|t: int| 0 <= t < r - 1 && t < steps@.len() && (#[trigger] steps@[t]) is Some implies steps@[t].unwrap()
        > 0x4000_0000_0000_0000 by {
        assert(!rests(steps@, t));
    }
}

/// The pixel is surely on one side: it lies neither in the band nor in a closed gap,
/// and the mask is at least half opaque there, or less.
pub open spec fn surely(s: &Scene<'_>, foreground: bool, x: int, y: int) -> bool {
    let i = y * s.w() + x;
    &&& s.band@[i] == 0
    &&& s.sealed@.len() == 0 || !s.sealed@[i]
    &&& (s.binary@[i] >= 128) == foreground
}

/// One channel of a pixel in linear light where `which` holds, or one for a fourth
/// channel; nothing elsewhere.
pub open spec fn counted(s: &Scene<'_>, which: spec_fn(int, int) -> bool, k: int) -> spec_fn(int, int) -> int {
    |x: int, y: int|
        if which(x, y) {
            if k < 3 {
                s.linear@[s.image@[y * s.w() + x][k] as int] as int
            } else {
                1
            }
        } else {
            0
        }
}

/// The sum over all pixels of the image that are no farther than `r` from `(x, y)`,
/// sideways, up and down.
pub open spec fn sum_around(s: &Scene<'_>, g: spec_fn(int, int) -> int, r: int, x: int, y: int) -> int {
    rect_sum(
        g,
        if x - r > 0 {
            x - r
        } else {
            0
        },
        if x + r + 1 < s.w() {
            x + r + 1
        } else {
            s.w()
        },
        if y - r > 0 {
            y - r
        } else {
            0
        },
        if y + r + 1 < s.h() {
            y + r + 1
        } else {
            s.h()
        },
    )
}

/// The colour behind a pixel of the band is the mean of what is surely background
/// around it, within three more than twice the width of the band. Where there is
/// none, it is that of the background as a whole. The colour of the product is the
/// mean of what is surely foreground there, if there is any.
pub proof fn law_the_colours_around_a_pixel_are_means(s: &Scene<'_>, a: Answer, k: int)
    requires
        s.wf(),
        s.answers(a),
        0 <= k < 3,
    ensures
        ({
            let (x, y) = (a.x as int, a.y as int);
            let r = 2 * s.band@[y * s.w() + x] + 3;
            let (back, front) = (|u: int, v: int| surely(s, false, u, v), |u: int, v: int| surely(s, true, u, v));
            let (n, m) = (
                sum_around(s, counted(s, back, 3), r, x, y),
                sum_around(s, counted(s, front, 3), r, x, y),
            );
            &&& n > 0 ==> 2 * n * a.behind[k] - n <= 2 * sum_around(s, counted(s, back, k), r, x, y) < 2 * n
                * a.behind[k] + n
            &&& n == 0 ==> a.behind[k] == s.linear@[s.background[k] as int]
            &&& m > 0 ==> 2 * m * a.front[k] - m <= 2 * sum_around(s, counted(s, front, k), r, x, y) < 2 * m * a.front[k]
                + m
            &&& a.observed[k] == s.linear@[s.image@[y * s.w() + x][k] as int]
            &&& n >= 0
        }),
{
    let (x, y) = (a.x as int, a.y as int);
    let i = at(s.w(), x, y);
    let r = 2 * s.band@[i] + 3;
    let (back, front) = (|u: int, v: int| surely(s, false, u, v), |u: int, v: int| surely(s, true, u, v));
    let area = s.reach(x, y);
    lemma_totals(s, false, area, k);
    lemma_totals(s, false, area, 3);
    lemma_totals(s, true, area, k);
    lemma_totals(s, true, area, 3);
    let n = sum_around(s, counted(s, back, 3), r, x, y);
    let m = sum_around(s, counted(s, front, 3), r, x, y);
    assert(sum_around(s, counted(s, back, k), r, x, y) == s.total(s.confirmed(false), k, area));
    assert(sum_around(s, counted(s, front, k), r, x, y) == s.total(s.confirmed(true), k, area));
    assert(n == s.total(s.confirmed(false), 3, area));
    assert(m == s.total(s.confirmed(true), 3, area));
    lemma_rect_bound(
        counted(s, back, 3),
        area.0 as int,
        area.2 + 1,
        area.1 as int,
        area.3 + 1,
        1,
    );
    assert(s.shows(a.observed, x, y));
    assert(a.observed[k] == s.light(x, y, k));
    if n > 0 {
        assert(s.is_mean(s.confirmed(false), area, Some(a.behind)));
        lemma_mean_value(s, s.confirmed(false), area, a.behind, k);
        lemma_nearest_mean(sum_around(s, counted(s, back, k), r, x, y), n, a.behind[k] as int);
    } else {
        assert(a.behind[k] == s.base(k));
    }
    if m > 0 {
        assert(s.is_mean(s.confirmed(true), area, Some(a.front)));
        lemma_mean_value(s, s.confirmed(true), area, a.front, k);
        lemma_nearest_mean(sum_around(s, counted(s, front, k), r, x, y), m, a.front[k] as int);
    }
}

proof fn lemma_mean_value(s: &Scene<'_>, p: spec_fn(int, int) -> bool, r: Rect, c: [u64; 3], k: int)
    requires
        s.is_mean(p, r, Some(c)),
        0 <= k < 3,
    ensures
        c[k] == mean_of(s.total(p, k, r), s.total(p, 3, r)),
{
}

proof fn lemma_nearest_mean(total: int, n: int, v: int)
    requires
        0 < n,
        v == mean_of(total, n),
    ensures
        2 * n * v - n <= 2 * total < 2 * n * v + n,
{
    assert(v * (2 * n) <= 2 * total + n < (v + 1) * (2 * n)) by (nonlinear_arith)
        requires
            v == (2 * total + n) / (2 * n),
            0 < n,
    ;
    assert(2 * n * v == v * (2 * n) && (v + 1) * (2 * n) == v * (2 * n) + 2 * n) by (nonlinear_arith);
}

proof fn lemma_totals(s: &Scene<'_>, foreground: bool, r: Rect, k: int)
    requires
        s.wf(),
        0 <= k <= 3,
        r.2 < s.w(),
        r.3 < s.h(),
    ensures
        s.total(s.confirmed(foreground), k, r) == rect_sum(
            counted(s, |u: int, v: int| surely(s, foreground, u, v), k),
            r.0 as int,
            r.2 + 1,
            r.1 as int,
            r.3 + 1,
        ),
{
    let g = s.picked(s.confirmed(foreground), k);
    let f = counted(s, |u: int, v: int| surely(s, foreground, u, v), k);
    let (rows, lines) = (
        |y: int| row_sum(g, r.0 as int, r.2 + 1, y),
        |y: int| row_sum(f, r.0 as int, r.2 + 1, y),
    );
    assert forall|y: int| r.1 <= y < r.3 + 1 implies #[trigger] rows(y) == lines(y) by {
        let (gx, fx) = (|x: int| g(x, y), |x: int| f(x, y));
        assert forall|x: int| r.0 <= x < r.2 + 1 implies #[trigger] gx(x) == fx(x) by {
            lemma_at_bound(s.w(), s.h(), x, y);
        }
        lemma_span_same(gx, fx, r.0 as int, r.2 + 1);
    }
    lemma_span_same(rows, lines, r.1 as int, r.3 + 1);
}

/// `(u, v)` lies in the rectangle and no farther than the margin from `(x, y)`,
/// sideways, up and down.
pub open spec fn is_near(r: Rect, margin: int, x: int, y: int, u: int, v: int) -> bool {
    r.0 <= u <= r.2 && r.1 <= v <= r.3 && -margin <= x - u <= margin && -margin <= y - v <= margin
}

/// A pixel belongs to a grown rectangle if it lies on the image and some pixel of the
/// rectangle is near it.
pub proof fn law_a_rectangle_grows_to_all_sides(r: Rect, margin: int, w: int, h: int, x: int, y: int)
    requires
        r.0 <= r.2 && r.2 < w <= u32::MAX,
        r.1 <= r.3 && r.3 < h <= u32::MAX,
        0 <= margin,
    ensures
        ({
            let g = grown(r, margin, w, h);
            g.0 <= x <= g.2 && g.1 <= y <= g.3 <==> 0 <= x < w && 0 <= y < h && exists|u: int, v: int| #[trigger]
                is_near(r, margin, x, y, u, v)
        }),
{
    let g = grown(r, margin, w, h);
    if g.0 <= x <= g.2 && g.1 <= y <= g.3 {
        let u = if x < r.0 {
            r.0 as int
        } else if x > r.2 {
            r.2 as int
        } else {
            x
        };
        let v = if y < r.1 {
            r.1 as int
        } else if y > r.3 {
            r.3 as int
        } else {
            y
        };
        assert(is_near(r, margin, x, y, u, v));
    }
}

/// A heart of a thin structure is foreground with a colour other than the background,
/// and no pixel within the window is more than a quarter farther from the background.
pub proof fn law_a_heart_is_nearly_the_farthest_around(s: &Scene<'_>, x: int, y: int)
    requires
        s.wf(),
        0 <= x < s.w(),
        0 <= y < s.h(),
    ensures
        s.heart_in(s.all(), x, y) <==> remoteness(s, x, y) > 0 && forall|u: int, v: int|
            0 <= u < s.w() && 0 <= v < s.h() && -s.core_window <= u - x <= s.core_window && -s.core_window <= v - y
                <= s.core_window ==> 16 * #[trigger] remoteness(s, u, v) <= 25 * remoteness(s, x, y),
{
    let all = s.all();
    let r = s.core_window as int;
    assert forall|u: int, v: int| #[trigger] s.distance(u, v) == remoteness(s, u, v) by {}
    assert forall|u: int, v: int| #[trigger] remoteness(s, u, v) == s.distance(u, v) by {}
    if s.heart_in(all, x, y) {
        assert forall|u: int, v: int|
            0 <= u < s.w() && 0 <= v < s.h() && -s.core_window <= u - x <= s.core_window && -s.core_window <= v - y
                <= s.core_window implies 16 * #[trigger] remoteness(s, u, v) <= 25 * remoteness(s, x, y) by {
            assert(in_rect(all, u, v));
            assert(s.distance(u, v) == remoteness(s, u, v));
        }
    }
    if remoteness(s, x, y) > 0 && forall|u: int, v: int|
        0 <= u < s.w() && 0 <= v < s.h() && -s.core_window <= u - x <= s.core_window && -s.core_window <= v - y
            <= s.core_window ==> 16 * #[trigger] remoteness(s, u, v) <= 25 * remoteness(s, x, y) {
        assert forall|u: int, v: int|
            in_rect(all, u, v) && in_window(r, r, x, y, u, v) implies 25 * s.distance(x, y) >= 16
            * #[trigger] s.distance(u, v) by {
            assert(s.distance(u, v) == remoteness(s, u, v));
        }
    }
}

/// How far a foreground pixel is from the background in linear light, squared over the
/// channels; nothing elsewhere.
pub open spec fn remoteness(s: &Scene<'_>, x: int, y: int) -> int {
    let p = s.image@[y * s.w() + x];
    let (r, g, b) = (
        s.linear@[p[0] as int] - s.linear@[s.background[0] as int],
        s.linear@[p[1] as int] - s.linear@[s.background[1] as int],
        s.linear@[p[2] as int] - s.linear@[s.background[2] as int],
    );
    if s.binary@[y * s.w() + x] >= 128 {
        r * r + g * g + b * b
    } else {
        0
    }
}

/// `(u, v)` is a foreground pixel within `r` of `(x, y)` than which none there is
/// farther from the background.
pub open spec fn is_remotest(s: &Scene<'_>, r: int, x: int, y: int, u: int, v: int) -> bool {
    &&& 0 <= u < s.w() && 0 <= v < s.h() && -r <= u - x <= r && -r <= v - y <= r
    &&& remoteness(s, u, v) > 0
    &&& forall|b: int, c: int|
        0 <= b < s.w() && 0 <= c < s.h() && -r <= b - x <= r && -r <= c - y <= r ==> #[trigger] remoteness(s, b, c)
            <= remoteness(s, u, v)
}

/// Where nothing around is surely foreground, the colour of the product is the mean of
/// the hearts there; without any, it is that of a pixel of the foreground that is
/// farthest from the background.
pub proof fn law_thin_structures_show_their_hearts(s: &Scene<'_>, a: Answer, k: int)
    requires
        s.wf(),
        s.answers(a),
        0 <= k < 3,
        ({
            let (x, y) = (a.x as int, a.y as int);
            let r = 2 * s.band@[y * s.w() + x] + 3;
            sum_around(s, counted(s, |u: int, v: int| surely(s, true, u, v), 3), r, x, y) <= 0
        }),
    ensures
        ({
            let (x, y) = (a.x as int, a.y as int);
            let r = 2 * s.band@[y * s.w() + x] + 3;
            let heart = |u: int, v: int| s.heart_in(s.all(), u, v);
            let n = sum_around(s, counted(s, heart, 3), r, x, y);
            &&& n > 0 ==> 2 * n * a.front[k] - n <= 2 * sum_around(s, counted(s, heart, k), r, x, y) < 2 * n
                * a.front[k] + n
            &&& n <= 0 ==> exists|u: int, v: int| #[trigger]
                is_remotest(s, r, x, y, u, v) && a.front[k] == s.linear@[s.image@[v * s.w() + u][k] as int]
        }),
{
    let (x, y) = (a.x as int, a.y as int);
    let i = at(s.w(), x, y);
    let r = 2 * s.band@[i] + 3;
    let area = s.reach(x, y);
    let heart = |u: int, v: int| s.heart_in(s.all(), u, v);
    let sure = |u: int, v: int| surely(s, true, u, v);
    lemma_totals(s, true, area, 3);
    assert(sum_around(s, counted(s, sure, 3), r, x, y) == s.total(s.confirmed(true), 3, area));
    lemma_hearts(s, area, k);
    lemma_hearts(s, area, 3);
    let n = sum_around(s, counted(s, heart, 3), r, x, y);
    assert(n == s.total(s.hearts(s.all()), 3, area));
    assert(sum_around(s, counted(s, heart, k), r, x, y) == s.total(s.hearts(s.all()), k, area));
    if n > 0 {
        assert(s.is_mean(s.hearts(s.all()), area, Some(a.front)));
        lemma_mean_value(s, s.hearts(s.all()), area, a.front, k);
        lemma_nearest_mean(sum_around(s, counted(s, heart, k), r, x, y), n, a.front[k] as int);
    } else {
        assert(s.is_farthest(area, Some(a.front)));
        lemma_farthest(s, area, a.front, r, x, y, k);
    }
}

proof fn lemma_farthest(s: &Scene<'_>, area: Rect, f: [u64; 3], r: int, x: int, y: int, k: int)
    requires
        s.wf(),
        s.is_farthest(area, Some(f)),
        0 <= k < 3,
        forall|u: int, v: int| #[trigger]
            in_rect(area, u, v) <==> 0 <= u < s.w() && 0 <= v < s.h() && -r <= u - x <= r && -r <= v - y <= r,
    ensures
        exists|u: int, v: int| #[trigger]
            is_remotest(s, r, x, y, u, v) && f[k] == s.linear@[s.image@[v * s.w() + u][k] as int],
{
    let (u, v) = choose|u: int, v: int| #[trigger] s.first_farthest(area, u, v) && s.shows(f, u, v);
    assert(in_rect(area, u, v));
    assert(s.distance(u, v) == remoteness(s, u, v));
    assert forall|b: int, c: int|
        0 <= b < s.w() && 0 <= c < s.h() && -r <= b - x <= r && -r <= c - y <= r implies #[trigger] remoteness(s, b, c)
        <= remoteness(s, u, v) by {
        assert(in_rect(area, b, c));
        assert(s.distance(b, c) == remoteness(s, b, c));
    }
    assert(f[k] == s.light(u, v, k));
    assert(is_remotest(s, r, x, y, u, v));
}

proof fn lemma_hearts(s: &Scene<'_>, r: Rect, k: int)
    requires
        0 <= k <= 3,
    ensures
        s.total(s.hearts(s.all()), k, r) == rect_sum(
            counted(s, |u: int, v: int| s.heart_in(s.all(), u, v), k),
            r.0 as int,
            r.2 + 1,
            r.1 as int,
            r.3 + 1,
        ),
{
    let g = s.picked(s.hearts(s.all()), k);
    let f = counted(s, |u: int, v: int| s.heart_in(s.all(), u, v), k);
    let (rows, lines) = (
        |y: int| row_sum(g, r.0 as int, r.2 + 1, y),
        |y: int| row_sum(f, r.0 as int, r.2 + 1, y),
    );
    assert forall|y: int| r.1 <= y < r.3 + 1 implies #[trigger] rows(y) == lines(y) by {
        let (gx, fx) = (|x: int| g(x, y), |x: int| f(x, y));
        assert forall|x: int| r.0 <= x < r.2 + 1 implies #[trigger] gx(x) == fx(x) by {}
        lemma_span_same(gx, fx, r.0 as int, r.2 + 1);
    }
    lemma_span_same(rows, lines, r.1 as int, r.3 + 1);
}

/// The fine share of an answer is the same share in finer parts, rounded down: it lies
/// as far along from behind to front as the observed colour.
pub proof fn law_the_fine_share_is_the_share(a: Answer, s: &Scene<'_>, part: int, whole: int)
    requires
        s.answers(a),
        part == (a.observed[0] - a.behind[0]) * (a.front[0] - a.behind[0]) + (a.observed[1] - a.behind[1]) * (a.front[1]
            - a.behind[1]) + (a.observed[2] - a.behind[2]) * (a.front[2] - a.behind[2]),
        whole == (a.front[0] - a.behind[0]) * (a.front[0] - a.behind[0]) + (a.front[1] - a.behind[1]) * (a.front[1]
            - a.behind[1]) + (a.front[2] - a.behind[2]) * (a.front[2] - a.behind[2]),
        whole > 0,
    ensures
        part <= 0 ==> a.share == 0 && a.alpha == 0,
        part >= whole ==> a.share == 1_073_741_824 && a.alpha == 255,
        0 < part < whole ==> a.share * whole <= part * 1_073_741_824 < (a.share + 1) * whole,
        0 < part < whole ==> 2 * (a.alpha * whole) - whole <= 510 * part < 2 * (a.alpha * whole) + whole,
{
    assert(part == along(a.observed, a.behind, a.front));
    assert(whole == apart(a.front, a.behind));
    if 0 < part < whole {
        let (f, m) = (a.share as int, a.alpha as int);
        let one = 1_073_741_824int;
        assert(f * whole <= part * one < (f + 1) * whole) by (nonlinear_arith)
            requires
                f == (part * one) / whole,
                whole > 0,
        ;
        assert(m * (2 * whole) <= 510 * part + whole < (m + 1) * (2 * whole)) by (nonlinear_arith)
            requires
                m == (510 * part + whole) / (2 * whole),
                whole > 0,
        ;
        assert(m * (2 * whole) == 2 * (m * whole) && (m + 1) * (2 * whole) == 2 * (m * whole) + 2 * whole)
            by (nonlinear_arith);
    }
}

} // verus!
