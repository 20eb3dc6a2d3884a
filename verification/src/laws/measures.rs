//! Laws of what is measured along a boundary, told in pixels.
use vstd::prelude::*;

use crate::cutout::blur::{column_of, row_of, rows_smoothed};
use crate::cutout::chamfer::span;
use crate::cutout::constraints::disc;
use crate::cutout::diagnostics::{
    adds_up, any_lean, background_lean, band_thirds, band_where, binary, blurred, capped, clear_channel, clear_one,
    contaminates, distances, first_low, halo_plane, is_local_background, judged_lean, last_high, local_window,
    near_boundary, over, rim_role, smoothed_values, spreads, Level, RimPlan, Share,
};
use crate::cutout::feather::feathered;
use crate::cutout::finish::{cleaned_value, inset_of, with_lower_alpha, CutoutOptions};
use crate::cutout::floodfill::protects;
use crate::cutout::local_colour::{Lean, Role};
use crate::cutout::mask::Mask;
use crate::cutout::morphology::speck_reach;
use crate::cutout::separability::Boundary;
use crate::geometry::{at, in_rect, lemma_at_bound, lemma_at_split, Rect};
use crate::laws::walks::side_by_side;
use crate::raster::RgbaImage;
use crate::sums::{lemma_rect_bound, lemma_span_same, lemma_sum_nonneg, rect_sum, row_sum, sum};

verus! {

/// A boundary that colour has drawn runs between the two pixels: the first is
/// foreground, the second is not, both lie on the mask and the second in the box,
/// and neither was put on its side by a mark made for this size.
pub open spec fn colour_parts(b: Boundary<'_>, p: (int, int), q: (int, int)) -> bool {
    let w = b.mask.w();
    &&& side_by_side(p, q)
    &&& b.mask@[p.1 * w + p.0] >= 128
    &&& 0 <= q.0 < w
    &&& 0 <= q.1 < b.mask.h()
    &&& b.mask@[q.1 * w + q.0] < 128
    &&& b.bbox matches Some(r) ==> r.0 <= q.0 && q.0 <= r.2 && r.1 <= q.1 && q.1 <= r.3
    &&& b.constraints matches Some(c) ==> {
        ||| c.w() != w
        ||| c.h() != b.mask.h()
        ||| !c.fg()[p.1 * w + p.0] && (!c.bg()[q.1 * w + q.0] || c.fg()[q.1 * w + q.0])
    }
}

/// A pixel is measured from just where colour has drawn a boundary on one of its four
/// sides; and the way inward leads straight away from such a side.
pub proof fn law_separation_is_measured_from_colour_boundaries(b: Boundary<'_>, x: int, y: int)
    requires
        b.wf(),
        0 <= x < b.mask.w(),
        0 <= y < b.mask.h(),
    ensures
        b.plane()[y * b.mask.w() + x] <==> exists|q: (int, int)| #[trigger] colour_parts(b, (x, y), q),
        b.inward(x, y) matches Some(d) ==> colour_parts(b, (x, y), (x - d.0, y - d.1)),
{
    lemma_at_bound(b.mask.w() as int, b.mask.h() as int, x, y);
    lemma_at_split(b.mask.w() as int, x, y);
    if let Some(d) = b.inward(x, y) {
        assert(colour_parts(b, (x, y), (x - d.0, y - d.1)));
    }
    if exists|q: (int, int)| #[trigger] colour_parts(b, (x, y), q) {
        let q = choose|q: (int, int)| #[trigger] colour_parts(b, (x, y), q);
        assert(b.leaves(x, y, q.0 - x, q.1 - y));
    }
}

/// The first `t` steps from `(x, y)` stay on foreground, on the mask and in the box.
pub open spec fn runs_inside(b: Boundary<'_>, x: int, y: int, d: (int, int), t: int) -> bool {
    forall|k: int| 1 <= k <= t ==> #[trigger] lies_inside(b, x + d.0 * k, y + d.1 * k)
}

pub open spec fn lies_inside(b: Boundary<'_>, x: int, y: int) -> bool {
    &&& 0 <= x < b.mask.w()
    &&& 0 <= y < b.mask.h()
    &&& b.mask@[y * b.mask.w() + x] >= 128
    &&& b.bbox matches Some(r) ==> r.0 <= x && x <= r.2 && r.1 <= y && y <= r.3
}

/// What is measured is the greatest distance from the background on the way inward,
/// as far as the depth and the foreground go.
pub proof fn law_separation_is_the_greatest_on_the_way_in(
    b: Boundary<'_>,
    x: int,
    y: int,
    d: (int, int),
    v: u64,
    t: int,
)
    requires
        b.is_best(x, y, d, v),
        0 <= t <= b.depth,
        runs_inside(b, x, y, d, t),
    ensures
        b.delta@[(y + d.1 * t) * b.mask.w() + (x + d.0 * t)] <= v,
        exists|k: int|
            0 <= k <= b.depth && #[trigger] runs_inside(b, x, y, d, k) && b.delta@[(y + d.1 * k) * b.mask.w() + (x + d.0
                * k)] == v,
{
    assert(b.stays(x, y, d, t)) by {
        assert forall|k: int| 1 <= k <= t implies #[trigger] b.inside(x + d.0 * k, y + d.1 * k) && b.mask.fg(
            x + d.0 * k,
            y + d.1 * k,
        ) by {
            assert(lies_inside(b, x + d.0 * k, y + d.1 * k));
        }
    }
    let k = choose|k: int|
        0 <= k <= b.depth && #[trigger] b.stays(x, y, d, k) && b.delta_at(x + d.0 * k, y + d.1 * k) == v;
    assert(runs_inside(b, x, y, d, k)) by {
        assert forall|j: int| 1 <= j <= k implies #[trigger] lies_inside(b, x + d.0 * j, y + d.1 * j) by {
            assert(b.inside(x + d.0 * j, y + d.1 * j));
        }
    }
}

/// A halo is looked for at the foreground that has other pixels of the mask within
/// three of it, sideways, up and down, that are none.
pub proof fn law_halos_are_looked_for_near_the_boundary(m: &Mask, x: int, y: int)
    requires
        m.wf(),
        0 <= x < m.w(),
        0 <= y < m.h(),
    ensures
        near_boundary(m, x, y) <==> m@[y * m.w() + x] >= 128 && exists|u: int, v: int|
            0 <= u < m.w() && 0 <= v < m.h() && -3 <= u - x <= 3 && -3 <= v - y <= 3 && #[trigger] m@[v * m.w() + u]
                < 128,
{
    if near_boundary(m, x, y) {
        let (u, v) = choose|u: int, v: int|
            m.inside(u, v) && -3 <= u - x <= 3 && -3 <= v - y <= 3 && !#[trigger] m.fg(u, v);
        assert(m@[v * m.w() + u] < 128);
    }
    if m@[y * m.w() + x] >= 128 && exists|u: int, v: int|
        0 <= u < m.w() && 0 <= v < m.h() && -3 <= u - x <= 3 && -3 <= v - y <= 3 && #[trigger] m@[v * m.w() + u] < 128 {
        let (u, v) = choose|u: int, v: int|
            0 <= u < m.w() && 0 <= v < m.h() && -3 <= u - x <= 3 && -3 <= v - y <= 3 && #[trigger] m@[v * m.w() + u]
                < 128;
        assert(m.inside(u, v) && !m.fg(u, v));
    }
}

/// The background around a probe is the mean, rounded down, of the fully transparent
/// pixels no farther than eight from it, sideways, up and down; there is none if none
/// is transparent.
pub proof fn law_the_background_around_a_probe_is_a_mean(
    image: &RgbaImage,
    m: &Mask,
    x: u32,
    y: u32,
    colour: Option<[u8; 3]>,
    k: int,
)
    requires
        image.wf(),
        m.wf(),
        image.w() == m.w(),
        image.h() == m.h(),
        x < m.w(),
        y < m.h(),
        is_local_background(image, m, x, y, colour),
        0 <= k < 3,
    ensures
        ({
            let (left, right) = (
                if x > 8 {
                    x - 8
                } else {
                    0
                },
                if x + 9 < m.w() {
                    x + 9
                } else {
                    m.w() as int
                },
            );
            let (top, bottom) = (
                if y > 8 {
                    y - 8
                } else {
                    0
                },
                if y + 9 < m.h() {
                    y + 9
                } else {
                    m.h() as int
                },
            );
            let n = rect_sum(
                |u: int, v: int|
                    if m@[v * m.w() + u] == 0 {
                        1int
                    } else {
                        0
                    },
                left,
                right,
                top,
                bottom,
            );
            let light = rect_sum(
                |u: int, v: int|
                    if m@[v * m.w() + u] == 0 {
                        image@[v * m.w() + u][k] as int
                    } else {
                        0
                    },
                left,
                right,
                top,
                bottom,
            );
            &&& colour is Some <==> n > 0
            &&& colour matches Some(c) ==> n * c[k] <= light < n * (c[k] + 1)
        }),
{
    let r = local_window(m, x, y);
    let one = |u: int, v: int|
        if m@[v * m.w() + u] == 0 {
            1int
        } else {
            0
        };
    let channel = |u: int, v: int|
        if m@[v * m.w() + u] == 0 {
            image@[v * m.w() + u][k] as int
        } else {
            0
        };
    lemma_same_over(clear_one(m), one, r);
    lemma_same_over(clear_channel(image, m, k), channel, r);
    let n = over(clear_one(m), r);
    let light = over(clear_channel(image, m, k), r);
    lemma_rect_bound(clear_one(m), r.0 as int, r.2 + 1, r.1 as int, r.3 + 1, 1);
    if let Some(c) = colour {
        let v = c[k] as int;
        assert(v == light / n);
        assert(n * v <= light < n * (v + 1)) by (nonlinear_arith)
            requires
                v == light / n,
                0 < n,
        ;
    }
}

proof fn lemma_same_over(f: spec_fn(int, int) -> int, g: spec_fn(int, int) -> int, r: Rect)
    requires
        forall|u: int, v: int| #[trigger] f(u, v) == g(u, v),
    ensures
        over(f, r) == rect_sum(g, r.0 as int, r.2 + 1, r.1 as int, r.3 + 1),
{
    let (a, b) = (|y: int| row_sum(f, r.0 as int, r.2 + 1, y), |y: int| row_sum(g, r.0 as int, r.2 + 1, y));
    assert forall|y: int| r.1 <= y < r.3 + 1 implies #[trigger] a(y) == b(y) by {
        let (p, q) = (|x: int| f(x, y), |x: int| g(x, y));
        assert forall|x: int| r.0 <= x < r.2 + 1 implies #[trigger] p(x) == q(x) by {
            assert(f(x, y) == g(x, y));
        }
        lemma_span_same(p, q, r.0 as int, r.2 + 1);
    }
    lemma_span_same(a, b, r.1 as int, r.3 + 1);
}

/// A probe is part of a halo if its colour is no farther than three from the
/// background around it.
pub proof fn law_a_halo_has_the_colour_around_it(deltas: Seq<u64>, i: int)
    requires
        0 <= i < deltas.len(),
    ensures
        halo_plane(deltas)[i] <==> deltas[i] <= 0x4008_0000_0000_0000,
{
}

/// What is fully transparent shows the background. What is fully opaque shows the
/// product beyond the band, and nothing else does either.
pub proof fn law_only_full_pixels_show_a_colour(alpha: u8, distance: u8, band: int)
    ensures
        rim_role(alpha, distance, band) == Role::Background <==> alpha == 0,
        rim_role(alpha, distance, band) == Role::Foreground <==> alpha == 255 && distance > band,
{
}

/// The band of the rim is three pixels at a long edge of a thousand, and grows with
/// it, to the next pixel; distances are counted in thirds, and none is longer than 85
/// pixels.
pub proof fn law_the_rim_grows_with_the_image(scale: int)
    requires
        1000 <= scale,
    ensures
        band_thirds(scale) == 255 || 9 * scale <= 1000 * band_thirds(scale) < 9 * scale + 3000,
        band_thirds(scale) <= 255,
        band_thirds(scale) % 3 == 0,
{
}

/// The contamination is the share of pixels that lean to the background among those
/// that lean at all, on the foreground within the band. It is told only if at least
/// half of these could be judged.
pub proof fn law_contamination_is_a_share_of_what_was_judged(
    m: &Mask,
    plan: &RimPlan,
    leans: Seq<Option<Lean>>,
    r: Option<Share>,
)
    requires
        contaminates(m, plan, leans, r),
    ensures
        ({
            let in_band = |x: int, y: int| m@[y * m.w() + x] >= 128 && plan.distance.value(x, y) <= plan.band;
            let (left, right, top, bottom) = (
                plan.judged.0 as int,
                plan.judged.2 + 1,
                plan.judged.1 as int,
                plan.judged.3 + 1,
            );
            let all = rect_sum(
                |x: int, y: int|
                    if in_band(x, y) {
                        1int
                    } else {
                        0
                    },
                left,
                right,
                top,
                bottom,
            );
            let judged = rect_sum(
                |x: int, y: int|
                    if in_band(x, y) && leans[y * m.w() + x] is Some {
                        1int
                    } else {
                        0
                    },
                left,
                right,
                top,
                bottom,
            );
            let dirty = rect_sum(
                |x: int, y: int|
                    if in_band(x, y) && leans[y * m.w() + x] == Some(Lean::Background) {
                        1int
                    } else {
                        0
                    },
                left,
                right,
                top,
                bottom,
            );
            &&& r is Some <==> judged > 0 && all - judged <= judged
            &&& r matches Some(v) ==> v.part == dirty && v.whole == judged
        }),
{
    let in_band = |x: int, y: int| m@[y * m.w() + x] >= 128 && plan.distance.value(x, y) <= plan.band;
    let f = |x: int, y: int|
        if in_band(x, y) {
            1int
        } else {
            0
        };
    let g = |x: int, y: int|
        if in_band(x, y) && leans[y * m.w() + x] is Some {
            1int
        } else {
            0
        };
    let h = |x: int, y: int|
        if in_band(x, y) && leans[y * m.w() + x] == Some(Lean::Background) {
            1int
        } else {
            0
        };
    lemma_same_over(band_where(plan, m, leans, any_lean()), f, plan.judged);
    lemma_same_over(band_where(plan, m, leans, judged_lean()), g, plan.judged);
    lemma_same_over(band_where(plan, m, leans, background_lean()), h, plan.judged);
}

/// A transition runs from the last high sample to the first low one. Between the two
/// nothing is high or low.
pub proof fn law_a_transition_runs_from_high_to_low(samples: Seq<Level>, i: int, j: int)
    requires
        first_low(samples, j),
        last_high(samples, j, i),
    ensures
        0 <= i < j < samples.len(),
        samples[i] == Level::High,
        samples[j] == Level::Low,
        forall|k: int| 0 <= k < j ==> #[trigger] samples[k] != Level::Low,
        forall|k: int| i < k < j ==> #[trigger] samples[k] != Level::High,
{
}

/// A pixel of the result has its own colour, and the lower of its own opacity and
/// that of the mask.
pub proof fn law_the_mask_only_covers(p: [u8; 4], a: u8, after: [u8; 4])
    requires
        with_lower_alpha(p, a, after),
    ensures
        forall|k: int| 0 <= k < 3 ==> #[trigger] after[k] == p[k],
        after[3] <= p[3],
        after[3] <= a,
        after[3] == p[3] || after[3] == a,
{
}

/// Cleaning leaves what the user points at fully opaque: what lies within five pixels
/// of a seed on the image, and what is marked as foreground for this size. Without
/// cleaning all else stays.
pub proof fn law_cleaning_spares_what_is_pointed_at(m: Seq<u8>, w: u32, h: u32, opts: &CutoutOptions, x: int, y: int)
    requires
        m.len() == w * h,
        0 <= x < w,
        0 <= y < h,
    ensures
        ({
            let pointed = {
                ||| exists|k: int|
                    0 <= k < opts.fg_seeds@.len() && (#[trigger] opts.fg_seeds@[k]).0 < w && opts.fg_seeds@[k].1 < h && (x
                        - opts.fg_seeds@[k].0) * (x - opts.fg_seeds@[k].0) + (y - opts.fg_seeds@[k].1) * (y
                        - opts.fg_seeds@[k].1) <= 25
                ||| opts.constraints matches Some(c) && c.w() == w && c.h() == h && c.fg()[y * w + x]
            };
            &&& pointed ==> cleaned_value(m, w, h, opts, y * w + x) == 255
            &&& !pointed && opts.cleanup == 0 ==> cleaned_value(m, w, h, opts, y * w + x) == m[y * w + x]
            &&& !pointed ==> cleaned_value(m, w, h, opts, y * w + x) == m[y * w + x] || cleaned_value(
                m,
                w,
                h,
                opts,
                y * w + x,
            ) == 0
        }),
{
    let i = at(w as int, x, y);
    lemma_at_bound(w as int, h as int, x, y);
    lemma_at_split(w as int, x, y);
    let seeds = opts.fg_seeds@;
    if protects(w, h, seeds, i) {
        let k = choose|k: int| 0 <= k < seeds.len() && disc(w, h, (#[trigger] seeds[k]).0, seeds[k].1, 5)[i];
        assert((x - opts.fg_seeds@[k].0) * (x - opts.fg_seeds@[k].0) + (y - opts.fg_seeds@[k].1) * (y
            - opts.fg_seeds@[k].1) <= 25);
    }
    if exists|k: int|
        0 <= k < opts.fg_seeds@.len() && (#[trigger] opts.fg_seeds@[k]).0 < w && opts.fg_seeds@[k].1 < h && (x
            - opts.fg_seeds@[k].0) * (x - opts.fg_seeds@[k].0) + (y - opts.fg_seeds@[k].1) * (y - opts.fg_seeds@[k].1)
            <= 25 {
        let k = choose|k: int|
            0 <= k < opts.fg_seeds@.len() && (#[trigger] opts.fg_seeds@[k]).0 < w && opts.fg_seeds@[k].1 < h && (x
                - opts.fg_seeds@[k].0) * (x - opts.fg_seeds@[k].0) + (y - opts.fg_seeds@[k].1) * (y
                - opts.fg_seeds@[k].1) <= 25;
        assert(disc(w, h, seeds[k].0, seeds[k].1, 5)[i]);
    }
}

/// The blur of a rectangle is the feather of what lies in it, as if that were all
/// there is; outside nothing moves.
pub proof fn law_a_rectangle_is_blurred_by_itself(m: Seq<u8>, w: int, h: int, roi: Rect, r: int, part: Seq<u8>, x: int, y: int)
    requires
        m.len() == w * h,
        0 <= r,
        roi.0 <= roi.2,
        roi.2 < w,
        roi.1 <= roi.3,
        roi.3 < h,
        part.len() == (roi.2 - roi.0 + 1) * (roi.3 - roi.1 + 1),
        forall|u: int, v: int|
            0 <= u <= roi.2 - roi.0 && 0 <= v <= roi.3 - roi.1 ==> #[trigger] part[v * (roi.2 - roi.0 + 1) + u] == m[(
            roi.1 + v) * w + roi.0 + u],
        0 <= x < w,
        0 <= y < h,
    ensures
        roi.0 <= x && x <= roi.2 && roi.1 <= y && y <= roi.3 ==> blurred(m, w, roi, r)[y * w + x] == feathered(
            part,
            roi.2 - roi.0 + 1,
            roi.3 - roi.1 + 1,
            r,
        )[(y - roi.1) * (roi.2 - roi.0 + 1) + x - roi.0],
        !(roi.0 <= x && x <= roi.2 && roi.1 <= y && y <= roi.3) ==> blurred(m, w, roi, r)[y * w + x] == m[y * w + x],
{
    let (x0, y0, x1, y1) = (roi.0 as int, roi.1 as int, roi.2 + 1, roi.3 + 1);
    let (pw, ph) = (x1 - x0, y1 - y0);
    lemma_at_bound(w, h, x, y);
    lemma_at_split(w, x, y);
    let rows = rows_smoothed(m, w, x0, y0, x1, y1, r);
    let lines = rows_smoothed(part, pw, 0, 0, pw, ph, r);
    if in_rect(roi, x, y) {
        let (a, b) = (x - x0, y - y0);
        lemma_at_bound(pw, ph, a, b);
        lemma_at_split(pw, a, b);
        assert forall|v: int| 0 <= v < ph implies rows[at(w, x, y0 + v)] == #[trigger] lines[at(pw, a, v)] by {
            lemma_at_bound(w, h, x, y0 + v);
            lemma_at_split(w, x, y0 + v);
            lemma_at_bound(pw, ph, a, v);
            lemma_at_split(pw, a, v);
            let (p, q) = (row_of(m, w, y0 + v, x0, x1), row_of(part, pw, v, 0, pw));
            assert forall|u: int| 0 <= u < pw implies #[trigger] p[u] == q[u] by {
                assert(part[v * pw + u] == m[(y0 + v) * w + x0 + u]);
            }
            assert(p =~= q);
        }
        let (p, q) = (column_of(rows, w, x, y0, y1), column_of(lines, pw, a, 0, ph));
        assert forall|v: int| 0 <= v < ph implies #[trigger] p[v] == q[v] by {
            assert(rows[at(w, x, y0 + v)] == lines[at(pw, a, v)]);
        }
        assert(p =~= q);
    }
}

/// Separation is measured past what the specks, the feather and the edges may leave
/// of a rim: four pixels more than the first two reach.
pub proof fn law_the_inset_goes_past_the_rim(opts: &CutoutOptions, width: u32, height: u32)
    ensures
        inset_of(opts, width, height) == u32::MAX || inset_of(opts, width, height) - opts.feather - 4 == speck_reach(
            opts.cleanup,
            width,
            height,
        ),
        inset_of(opts, width, height) <= u32::MAX,
{
}

/// The contour is smoothed by three blurs of the two-valued mask, one after the other.
pub proof fn law_a_mask_is_smoothed_by_three_blurs(
    m: Seq<u8>,
    w: int,
    roi: Rect,
    r: int,
    first: Seq<u8>,
    second: Seq<u8>,
    third: Seq<u8>,
)
    requires
        first.len() == m.len(),
        forall|i: int| 0 <= i < m.len() ==> #[trigger] first[i] == if m[i] >= 128 {
            255u8
        } else {
            0u8
        },
        second == blurred(first, w, roi, r),
        third == blurred(second, w, roi, r),
    ensures
        smoothed_values(m, w, roi, r) == blurred(third, w, roi, r),
{
    assert(first =~= binary(m));
}

/// The radius of that blur is twice the scale of the image, to the pixel.
pub proof fn law_the_blur_grows_with_the_image(scale: int, r: int)
    requires
        0 < scale,
        spreads(scale, r),
    ensures
        1000 * r <= 2 * scale + 500,
        2 * scale < 1000 * (r + 1),
{
    assert(1000 * r <= 2 * scale + 500) by (nonlinear_arith)
        requires
            4_000_000 * (r * r) <= 1_000_000 + 16 * (scale * scale),
            0 < scale,
            0 <= r,
    ;
    assert(2 * scale < 1000 * (r + 1)) by (nonlinear_arith)
        requires
            4_000_000 * ((r + 1) * (r + 1)) > 1_000_000 + 16 * (scale * scale),
            0 < scale,
            0 <= r,
    ;
}

/// The roughness sums up how far the pixels of the contour are from the smoothed one,
/// none for more than the reach of the smoothing: nothing if all of them lie on it, and
/// never more than they could.
pub proof fn law_roughness_sums_up_distances(
    contour: Seq<(u32, u32)>,
    smooth: Seq<(u32, u32)>,
    roi: Rect,
    cap: int,
    total: int,
)
    requires
        adds_up(contour, smooth, roi, cap, total),
        0 <= cap,
    ensures
        0 <= total <= cap * contour.len(),
        (forall|k: int|
            0 <= k < contour.len() ==> smooth.contains(#[trigger] contour[k]) && roi.0 <= contour[k].0 <= roi.2 && roi.1
                <= contour[k].1 <= roi.3) ==> total == 0,
        cap > 0 && (exists|k: int|
            0 <= k < contour.len() && !smooth.contains(#[trigger] contour[k])) ==> total > 0,
{
    let d = choose|d: Seq<int>| #[trigger] distances(contour, smooth, roi, d) && total == sum(capped(d, cap));
    let c = capped(d, cap);
    assert forall|k: int| 0 <= k < c.len() implies 0 <= #[trigger] c[k] <= cap by {
        assert(0 <= d[k]);
    }
    lemma_sum_span(c, cap);
    if forall|k: int|
        0 <= k < contour.len() ==> smooth.contains(#[trigger] contour[k]) && roi.0 <= contour[k].0 <= roi.2 && roi.1
            <= contour[k].1 <= roi.3 {
        assert forall|k: int| 0 <= k < c.len() implies 0 <= #[trigger] c[k] <= 0 by {
            assert(smooth.contains(contour[k]));
            let j = choose|j: int| 0 <= j < smooth.len() && smooth[j] == contour[k];
            assert(in_rect(roi, smooth[j].0 as int, smooth[j].1 as int));
            assert(d[k] <= span(true, 0, 0));
        }
        lemma_sum_span(c, 0);
    }
    if cap > 0 && exists|k: int| 0 <= k < contour.len() && !smooth.contains(#[trigger] contour[k]) {
        let k = choose|k: int| 0 <= k < contour.len() && !smooth.contains(#[trigger] contour[k]);
        assert(c[k] > 0) by {
            assert(0 <= d[k]);
            if d[k] == 0 {
                let j = choose|j: int|
                    0 <= j < smooth.len() && in_rect(roi, (#[trigger] smooth[j]).0 as int, smooth[j].1 as int) && d[k]
                        == span(true, contour[k].0 - smooth[j].0, contour[k].1 - smooth[j].1);
                assert(smooth[j] == contour[k]);
            }
        }
        lemma_sum_positive(c, k);
    }
}

proof fn lemma_sum_span(s: Seq<int>, top: int)
    requires
        forall|k: int| 0 <= k < s.len() ==> 0 <= #[trigger] s[k] <= top,
    ensures
        0 <= sum(s) <= top * s.len(),
    decreases s.len(),
{
    if s.len() > 0 {
        let t = s.drop_last();
        assert forall|k: int| 0 <= k < t.len() implies 0 <= #[trigger] t[k] <= top by {
            assert(t[k] == s[k]);
        }
        lemma_sum_span(t, top);
        assert(s.last() == s[s.len() - 1]);
        assert(top * s.len() == top * (s.len() - 1) + top) by (nonlinear_arith);
    } else {
        assert(top * s.len() == 0) by (nonlinear_arith)
            requires
                s.len() == 0,
        ;
    }
}

proof fn lemma_sum_positive(s: Seq<int>, i: int)
    requires
        forall|k: int| 0 <= k < s.len() ==> 0 <= #[trigger] s[k],
        0 <= i < s.len(),
        s[i] > 0,
    ensures
        sum(s) > 0,
    decreases s.len(),
{
    let t = s.drop_last();
    assert forall|k: int| 0 <= k < t.len() implies 0 <= #[trigger] t[k] by {
        assert(t[k] == s[k]);
    }
    assert(s.last() == s[s.len() - 1]);
    if i < t.len() {
        assert(t[i] == s[i]);
        lemma_sum_positive(t, i);
    } else {
        lemma_sum_nonneg(t);
    }
}

} // verus!
