//! Laws of repainting and of closing gaps again, told in pixels.
use vstd::prelude::*;

use crate::cutout::chamfer::span;
use crate::cutout::connect::{joined, lemma_joined_back};
use crate::cutout::contour::{contour_plane, lists_pixels, on_contour, whole, CHAMFER_MAX_PX};
use crate::cutout::local_colour::{Lean, Role};
use crate::cutout::mask::Mask;
use crate::cutout::morphology::{in_window, window_has};
use crate::cutout::repaint::{ballot, flipped, votes, votes_by_column, Repaint, Reshape, REACH_PASSES};
use crate::cutout::reshape::Gaps;
use crate::geometry::{at, lemma_at_bound, lemma_at_join, lemma_at_split, on_plane};
use crate::laws::boundary::way_cost;
use crate::laws::walks::{is_walk, lemma_joined_is_walk, lemma_walk_joins, lemma_walk_stays, maps, walled_in};
use crate::sums::{lemma_span_same, span_sum};
use crate::tally::{lemma_ones, ones};

verus! {

/// How many pixels of the mask lie on the other side than `(x, y)`, among those no
/// farther than `r` from it, sideways, up and down.
pub open spec fn opponents(m: &Mask, x: int, y: int, r: int) -> int {
    let (left, right) = (
        if x - r > 0 {
            x - r
        } else {
            0
        },
        if x + r + 1 < m.w() {
            x + r + 1
        } else {
            m.w() as int
        },
    );
    let (top, bottom) = (
        if y - r > 0 {
            y - r
        } else {
            0
        },
        if y + r + 1 < m.h() {
            y + r + 1
        } else {
            m.h() as int
        },
    );
    span_sum(
        |u: int|
            span_sum(
                |v: int|
                    if (m@[v * m.w() + u] >= 128) != (m@[y * m.w() + x] >= 128) {
                        1int
                    } else {
                        0
                    },
                top,
                bottom,
            ),
        left,
        right,
    )
}

/// How many pixels there are at all.
pub open spec fn electorate(m: &Mask, x: int, y: int, r: int) -> int {
    let (left, right) = (
        if x - r > 0 {
            x - r
        } else {
            0
        },
        if x + r + 1 < m.w() {
            x + r + 1
        } else {
            m.w() as int
        },
    );
    let (top, bottom) = (
        if y - r > 0 {
            y - r
        } else {
            0
        },
        if y + r + 1 < m.h() {
            y + r + 1
        } else {
            m.h() as int
        },
    );
    (right - left) * (bottom - top)
}

proof fn lemma_complement(f: spec_fn(int) -> int, g: spec_fn(int) -> int, top: int, a: int, b: int)
    requires
        a <= b,
        forall|k: int| a <= k < b ==> #[trigger] f(k) == top - g(k),
    ensures
        span_sum(f, a, b) == top * (b - a) - span_sum(g, a, b),
    decreases b - a,
{
    if a < b {
        lemma_complement(f, g, top, a, b - 1);
        assert(f(b - 1) == top - g(b - 1));
        assert(top * (b - a) == top * (b - 1 - a) + top) by (nonlinear_arith);
    } else {
        assert(top * (b - a) == 0) by (nonlinear_arith)
            requires
                a == b,
        ;
    }
}

/// The opponents of a foreground pixel are those that have no vote, of another those
/// that have.
proof fn lemma_opponents(m: &Mask, x: int, y: int, r: int)
    requires
        m.wf(),
        0 <= x < m.w(),
        0 <= y < m.h(),
        0 <= r,
    ensures
        m@[y * m.w() + x] >= 128 ==> opponents(m, x, y, r) == electorate(m, x, y, r) - votes(m, x, y, r),
        m@[y * m.w() + x] < 128 ==> opponents(m, x, y, r) == votes(m, x, y, r),
{
    let fg = m@[y * m.w() + x] >= 128;
    let (left, right) = (
        if x - r > 0 {
            x - r
        } else {
            0
        },
        if x + r + 1 < m.w() {
            x + r + 1
        } else {
            m.w() as int
        },
    );
    let (top, bottom) = (
        if y - r > 0 {
            y - r
        } else {
            0
        },
        if y + r + 1 < m.h() {
            y + r + 1
        } else {
            m.h() as int
        },
    );
    let against = |u: int|
        span_sum(
            |v: int|
                if (m@[v * m.w() + u] >= 128) != (m@[y * m.w() + x] >= 128) {
                    1int
                } else {
                    0
                },
            top,
            bottom,
        );
    let pro = votes_by_column(m, top, bottom);
    let n = bottom - top;
    assert forall|u: int| left <= u < right implies #[trigger] against(u) == if fg {
        n - pro(u)
    } else {
        pro(u)
    } by {
        let one = |v: int|
            if (m@[v * m.w() + u] >= 128) != (m@[y * m.w() + x] >= 128) {
                1int
            } else {
                0
            };
        let vote = |v: int| ballot(m)(u, v);
        if fg {
            lemma_complement(one, vote, 1, top, bottom);
        } else {
            lemma_span_same(one, vote, top, bottom);
        }
    }
    if fg {
        lemma_complement(against, pro, n, left, right);
        assert(n * (right - left) == (right - left) * n) by (nonlinear_arith);
    } else {
        lemma_span_same(against, pro, left, right);
    }
}

/// Majority moves a pixel of the band, within bounds and in reach, if more than half
/// of the pixels around it lie on the other side and its colour does not lean to the
/// side it is on; into the foreground only what was there at first. Nothing else
/// moves.
pub proof fn law_more_than_half_outvote_a_pixel(r: Repaint<'_>, shape: &Mask, radius: int, x: int, y: int)
    requires
        r.fits(shape),
        0 <= radius,
        0 <= x < shape.w(),
        0 <= y < shape.h(),
    ensures
        ({
            let i = y * shape.w() + x;
            let fg = shape@[i] >= 128;
            let moves = {
                &&& r.bounds.0 <= x <= r.bounds.2
                &&& r.bounds.1 <= y <= r.bounds.3
                &&& r.band@[i] != 0
                &&& r.out_of_reach@.len() == 0 || !r.out_of_reach@[i]
                &&& 2 * opponents(shape, x, y, radius) > electorate(shape, x, y, radius)
                &&& r.leans@[i] != Some(
                    if fg {
                        Lean::Foreground
                    } else {
                        Lean::Background
                    },
                )
                &&& fg || r.original@[i] >= 128
            };
            flipped(shape@, r.outvoted(shape, radius))[i] == if !moves {
                shape@[i]
            } else if fg {
                0
            } else {
                255
            }
        }),
{
    lemma_at_bound(shape.w() as int, shape.h() as int, x, y);
    lemma_at_split(shape.w() as int, x, y);
    lemma_opponents(shape, x, y, radius);
}

/// Colour moves a pixel of the band, within bounds and in reach, if it leans to the
/// other side. Nothing else moves.
pub proof fn law_a_colour_moves_what_leans_to_the_other_side(r: Repaint<'_>, shape: &Mask, x: int, y: int)
    requires
        r.fits(shape),
        0 <= x < shape.w(),
        0 <= y < shape.h(),
    ensures
        ({
            let i = y * shape.w() + x;
            let fg = shape@[i] >= 128;
            let moves = {
                &&& r.bounds.0 <= x <= r.bounds.2
                &&& r.bounds.1 <= y <= r.bounds.3
                &&& r.band@[i] != 0
                &&& r.out_of_reach@.len() == 0 || !r.out_of_reach@[i]
                &&& r.leans@[i] == Some(
                    if fg {
                        Lean::Background
                    } else {
                        Lean::Foreground
                    },
                )
            };
            flipped(shape@, r.recoloured(shape))[i] == if !moves {
                shape@[i]
            } else if fg {
                0
            } else {
                255
            }
        }),
{
    lemma_at_bound(shape.w() as int, shape.h() as int, x, y);
    lemma_at_split(shape.w() as int, x, y);
}

/// A pixel of the rectangle, counted from its corner, is background.
pub open spec fn bare(g: Gaps, shape: &Mask, a: int, b: int) -> bool {
    &&& 0 <= a <= g.roi.2 - g.roi.0
    &&& 0 <= b <= g.roi.3 - g.roi.1
    &&& shape@[(g.roi.1 + b) * shape.w() + g.roi.0 + a] < 128
}

/// So is all of the rectangle that lies within the seal of it.
pub open spec fn bare_around(g: Gaps, shape: &Mask, a: int, b: int) -> bool {
    &&& bare(g, shape, a, b)
    &&& forall|u: int, v: int|
        0 <= u <= g.roi.2 - g.roi.0 && 0 <= v <= g.roi.3 - g.roi.1 && -g.seal <= u - a <= g.seal && -g.seal <= v - b
            <= g.seal ==> #[trigger] bare(g, shape, u, v)
}

/// It is background that no gap leads to: outside the band, or on the frame of the
/// image.
pub open spec fn bare_before(g: Gaps, shape: &Mask, band: Seq<u8>, a: int, b: int) -> bool {
    &&& bare(g, shape, a, b)
    &&& {
        ||| band[(g.roi.1 + b) * shape.w() + g.roi.0 + a] == 0
        ||| g.roi.0 + a == 0
        ||| g.roi.1 + b == 0
        ||| g.roi.0 + a == shape.w() - 1
        ||| g.roi.1 + b == shape.h() - 1
    }
}

proof fn lemma_gap_vocabulary(g: Gaps, shape: &Mask, band: Seq<u8>)
    requires
        g.fits(shape),
    ensures
        maps(g.w(), g.h(), g.background(shape), |a: int, b: int| bare(g, shape, a, b)),
        maps(g.w(), g.h(), g.wide(shape), |a: int, b: int| bare_around(g, shape, a, b)),
        maps(g.w(), g.h(), g.start(shape, band), |a: int, b: int| bare_before(g, shape, band, a, b)),
        maps(
            g.w(),
            g.h(),
            g.trusted(shape, band),
            |a: int, b: int| bare_around(g, shape, a, b) || bare_before(g, shape, band, a, b),
        ),
{
    let (w, h, s) = (g.w(), g.h(), g.seal as int);
    let bg = g.background(shape);
    let plain = |a: int, b: int| bare(g, shape, a, b);
    let room = |a: int, b: int| bare_around(g, shape, a, b);
    let first = |a: int, b: int| bare_before(g, shape, band, a, b);
    let either = |a: int, b: int| bare_around(g, shape, a, b) || bare_before(g, shape, band, a, b);
    assert(0 <= w * h) by (nonlinear_arith)
        requires
            0 <= w,
            0 <= h,
    ;
    assert forall|a: int, b: int| 0 <= a < w && 0 <= b < h implies bg[b * w + a] == #[trigger] plain(a, b) by {
        lemma_at_bound(w, h, a, b);
        lemma_at_split(w, a, b);
    }
    assert forall|a: int, b: int| 0 <= a < w && 0 <= b < h implies g.start(shape, band)[b * w + a] == #[trigger] first(
        a,
        b,
    ) by {
        lemma_at_bound(w, h, a, b);
        lemma_at_split(w, a, b);
        assert(bg[b * w + a] == plain(a, b));
    }
    assert forall|a: int, b: int| 0 <= a < w && 0 <= b < h implies g.wide(shape)[b * w + a] == #[trigger] room(a, b) by {
        lemma_at_bound(w, h, a, b);
        lemma_at_split(w, a, b);
        assert(bg[b * w + a] == plain(a, b));
        if window_has(bg, w, h, s, s, a, b, false) {
            let (u, v) = choose|u: int, v: int|
                on_plane(w, h, u, v) && in_window(s, s, a, b, u, v) && #[trigger] bg[at(w, u, v)] == false;
            assert(bg[v * w + u] == plain(u, v));
            assert(!bare(g, shape, u, v));
        }
        if !room(a, b) {
            if !bare(g, shape, a, b) {
                assert(in_window(s, s, a, b, a, b) && bg[at(w, a, b)] == false);
            } else {
                let (u, v) = choose|u: int, v: int|
                    0 <= u <= g.roi.2 - g.roi.0 && 0 <= v <= g.roi.3 - g.roi.1 && -g.seal <= u - a <= g.seal && -g.seal
                        <= v - b <= g.seal && !(#[trigger] bare(g, shape, u, v));
                assert(bg[v * w + u] == plain(u, v));
                assert(on_plane(w, h, u, v) && in_window(s, s, a, b, u, v) && bg[at(w, u, v)] == false);
            }
            assert(window_has(bg, w, h, s, s, a, b, false));
        }
    }
    assert forall|a: int, b: int| 0 <= a < w && 0 <= b < h implies g.trusted(shape, band)[b * w + a]
        == #[trigger] either(a, b) by {
        lemma_at_bound(w, h, a, b);
        assert(g.wide(shape)[b * w + a] == room(a, b));
        assert(g.start(shape, band)[b * w + a] == first(a, b));
    }
}

/// Repainted background stays open where the seal fits through: a walk over
/// background with room for the seal leads from background that was there before to
/// within the seal of it.
pub proof fn law_a_wide_gap_stays_open(
    g: Gaps,
    shape: &Mask,
    original: &Mask,
    band: Seq<u8>,
    path: Seq<(int, int)>,
    a: int,
    b: int,
)
    requires
        g.fits(shape),
        is_walk(|u: int, v: int| bare_around(g, shape, u, v) || bare_before(g, shape, band, u, v), path),
        bare_before(g, shape, band, path[0].0, path[0].1),
        bare_around(g, shape, path.last().0, path.last().1),
        -g.seal <= a - path.last().0 <= g.seal,
        -g.seal <= b - path.last().1 <= g.seal,
        0 <= a <= g.roi.2 - g.roi.0,
        0 <= b <= g.roi.3 - g.roi.1,
    ensures
        !g.gap(shape, original, band, g.roi.0 + a, g.roi.1 + b),
{
    let (w, h, s) = (g.w(), g.h(), g.seal as int);
    let open = g.trusted(shape, band);
    let ground = |u: int, v: int| bare_around(g, shape, u, v) || bare_before(g, shape, band, u, v);
    let room = |u: int, v: int| bare_around(g, shape, u, v);
    let first = |u: int, v: int| bare_before(g, shape, band, u, v);
    let (p, q) = (path[0], path.last());
    lemma_gap_vocabulary(g, shape, band);
    assert(ground(path[0].0, path[0].1));
    assert(ground(path[path.len() - 1].0, path[path.len() - 1].1));
    lemma_walk_joins(w, h, false, open, ground, path);
    lemma_at_bound(w, h, p.0, p.1);
    lemma_at_bound(w, h, q.0, q.1);
    lemma_at_bound(w, h, a, b);
    lemma_at_split(w, a, b);
    assert(g.start(shape, band)[p.1 * w + p.0] == first(p.0, p.1));
    assert(g.wide(shape)[q.1 * w + q.0] == room(q.0, q.1));
    assert(joined(w, false, open, at(w, p.0, p.1), at(w, q.0, q.1)));
    assert(g.walked(shape, band, at(w, q.0, q.1)));
    let heart = g.heart(shape, band);
    assert(on_plane(w, h, q.0, q.1) && in_window(s, s, a, b, q.0, q.1) && heart[at(w, q.0, q.1)] == true);
    assert(window_has(heart, w, h, s, s, a, b, true));
}

/// It is closed again where the seal does not fit through: take a region that no
/// background with room for the seal, nor any that was there before, borders on,
/// and that holds none that was there before. What lies in the band, was foreground
/// at first and has room for the seal, within reach of it, in this region alone or
/// nowhere, is a gap.
pub proof fn law_a_narrow_gap_is_closed_again(
    g: Gaps,
    shape: &Mask,
    original: &Mask,
    band: Seq<u8>,
    region: spec_fn(int, int) -> bool,
    a: int,
    b: int,
)
    requires
        g.fits(shape),
        walled_in(|u: int, v: int| bare_around(g, shape, u, v) || bare_before(g, shape, band, u, v), region),
        forall|u: int, v: int| #[trigger] region(u, v) ==> !bare_before(g, shape, band, u, v),
        forall|u: int, v: int|
            #[trigger] bare_around(g, shape, u, v) && -g.seal <= u - a <= g.seal && -g.seal <= v - b <= g.seal
                ==> region(u, v),
        bare(g, shape, a, b),
        band[(g.roi.1 + b) * shape.w() + g.roi.0 + a] != 0,
        original.w() == shape.w(),
        original@[(g.roi.1 + b) * shape.w() + g.roi.0 + a] >= 128,
    ensures
        g.gap(shape, original, band, g.roi.0 + a, g.roi.1 + b),
{
    let (w, h, s) = (g.w(), g.h(), g.seal as int);
    let open = g.trusted(shape, band);
    let ground = |u: int, v: int| bare_around(g, shape, u, v) || bare_before(g, shape, band, u, v);
    let room = |u: int, v: int| bare_around(g, shape, u, v);
    let first = |u: int, v: int| bare_before(g, shape, band, u, v);
    lemma_gap_vocabulary(g, shape, band);
    lemma_at_bound(w, h, a, b);
    lemma_at_split(w, a, b);
    let i = at(w, a, b);
    if g.open(shape, band, i) {
        let heart = g.heart(shape, band);
        let st = g.start(shape, band);
        let (u, v) = choose|u: int, v: int|
            on_plane(w, h, u, v) && in_window(s, s, a, b, u, v) && #[trigger] heart[at(w, u, v)] == true;
        lemma_at_bound(w, h, u, v);
        lemma_at_split(w, u, v);
        let j = at(w, u, v);
        assert(g.wide(shape)[v * w + u] == room(u, v));
        assert(region(u, v));
        let k = choose|k: int| 0 <= k < st.len() && st[k] && #[trigger] joined(w, false, open, k, j);
        lemma_joined_back(w, false, open, k, j);
        let path = lemma_joined_is_walk(w, h, false, open, ground, j, k);
        lemma_walk_stays(false, ground, region, path, path.len() - 1);
        lemma_at_join(w, h, k);
        assert(st[(k / w) * w + k % w] == first(k % w, k / w));
    }
}

/// A pixel shows the side it is on, unless it lies in the band or in a closed gap.
pub proof fn law_the_band_shows_no_side(s: &Reshape, x: int, y: int)
    requires
        s.wf(),
        0 <= x < s.now().w(),
        0 <= y < s.now().h(),
    ensures
        ({
            let i = y * s.now().w() + x;
            let told = s.strip()[i] == 0 && (s.closed_gaps().len() == 0 || !s.closed_gaps()[i]);
            &&& s.role_at(i) == Role::Foreground <==> told && s.now()@[i] >= 128
            &&& s.role_at(i) == Role::Background <==> told && s.now()@[i] < 128
        }),
{
    lemma_at_split(s.now().w() as int, x, y);
}

/// What lies within twice the widest band of the contour is never out of reach.
pub proof fn law_what_is_near_the_contour_is_in_reach(
    s: &Reshape,
    binary: &Mask,
    band: Seq<u8>,
    reclassify: bool,
    smooth_radius: u32,
    seal: u32,
    max_radius: u32,
    x: int,
    y: int,
    u: int,
    v: int,
)
    requires
        binary.wf(),
        s.started(binary, band, reclassify, smooth_radius, seal, max_radius),
        !s.over(),
        0 <= x < binary.w(),
        0 <= y < binary.h(),
        0 <= u < binary.w(),
        0 <= v < binary.h(),
        on_contour(binary, None, u, v),
        way_cost(x - u, y - v) <= 6 * max_radius,
    ensures
        !s.far()@[y * binary.w() + x],
{
    let (w, h) = (binary.w() as int, binary.h() as int);
    let plane = contour_plane(binary, None, whole(binary));
    let contour = choose|contour: Seq<(u32, u32)>| #[trigger]
        lists_pixels(contour, w, plane) && s.far()@.len() == binary@.len() && forall|a: int, b: int|
            binary.inside(a, b) ==> (#[trigger] s.far()@[at(w, a, b)] <==> REACH_PASSES * max_radius < CHAMFER_MAX_PX
                && forall|k: int|
                0 <= k < contour.len() && binary.inside(contour[k].0 as int, contour[k].1 as int) ==> span(
                    true,
                    a - (#[trigger] contour[k]).0,
                    b - contour[k].1,
                ) > 3 * (REACH_PASSES * max_radius));
    lemma_at_bound(w, h, u, v);
    lemma_at_split(w, u, v);
    lemma_ones(plane);
    assert(plane[at(w, u, v)]);
    assert(ones(plane).contains(at(w, u, v)));
    let k = choose|k: int| 0 <= k < ones(plane).len() && ones(plane)[k] == at(w, u, v);
    let c = contour[k];
    assert(at(w, c.0 as int, c.1 as int) == at(w, u, v));
    lemma_at_split(w, c.0 as int, c.1 as int);
    assert(c.0 == u && c.1 == v);
    assert(span(true, x - u, y - v) == way_cost(x - u, y - v));
    assert(binary.inside(x, y));
    assert(s.far()@[at(w, x, y)] == s.far()@[y * binary.w() + x]);
}

} // verus!
