//! Laws of masks and their shapes, told in pixels.
use vstd::prelude::*;
use vstd::set_lib::{lemma_int_range, lemma_len_subset, set_int_range};

use crate::cutout::connect::joined;
use crate::cutout::mask::Mask;
use crate::cutout::morphology::{
    core_of, dilated, eroded, extreme, in_window, is_windowed, long_edge, speck_area, speck_reach, speck_side,
    visible, window_has, without_specks,
};
use crate::geometry::{at, box_of, lemma_at_bound, lemma_at_split, on_plane, Rect};
use crate::laws::walks::{
    is_free_walk, lemma_joined_is_walk, lemma_pixels_count, lemma_walk_joins, maps, side_by_side,
};

verus! {

/// Both pixels lie on the mask, and neither coordinate differs by more than `r`.
pub open spec fn within_reach(m: &Mask, r: int, x: int, y: int, u: int, v: int) -> bool {
    &&& 0 <= x < m.w()
    &&& 0 <= y < m.h()
    &&& 0 <= u < m.w()
    &&& 0 <= v < m.h()
    &&& -r <= x - u <= r
    &&& -r <= y - v <= r
}

/// Dilation gives each pixel the greatest value within reach, to all sides alike.
pub proof fn law_dilation_takes_the_greatest(out: &Mask, m: &Mask, radius: u32, x: int, y: int)
    requires
        m.wf(),
        dilated(out, m, radius),
        0 <= x < m.w(),
        0 <= y < m.h(),
    ensures
        forall|u: int, v: int| #[trigger]
            within_reach(m, radius as int, x, y, u, v) ==> m@[v * m.w() + u] <= out@[y * m.w() + x],
        exists|u: int, v: int| #[trigger]
            within_reach(m, radius as int, x, y, u, v) && m@[v * m.w() + u] == out@[y * m.w() + x],
{
    let (w, h, r) = (m.w() as int, m.h() as int, radius as int);
    let top = out@[at(w, x, y)];
    assert(extreme(m@, w, h, r, r, x, y, true, top));
    let (a, b) = choose|a: int, b: int|
        on_plane(w, h, a, b) && in_window(r, r, x, y, a, b) && #[trigger] m@[at(w, a, b)] == top;
    assert(within_reach(m, r, x, y, a, b));
    assert forall|u: int, v: int| #[trigger] within_reach(m, r, x, y, u, v) implies m@[v * m.w() + u] <= out@[y
        * m.w() + x] by {
        assert(on_plane(w, h, u, v) && in_window(r, r, x, y, u, v));
        assert(m@[at(w, u, v)] <= top);
    }
}

/// Erosion gives each pixel the least value within reach, to all sides alike.
pub proof fn law_erosion_takes_the_least(out: &Mask, m: &Mask, radius: u32, x: int, y: int)
    requires
        m.wf(),
        eroded(out, m, radius),
        0 <= x < m.w(),
        0 <= y < m.h(),
    ensures
        forall|u: int, v: int| #[trigger]
            within_reach(m, radius as int, x, y, u, v) ==> m@[v * m.w() + u] >= out@[y * m.w() + x],
        exists|u: int, v: int| #[trigger]
            within_reach(m, radius as int, x, y, u, v) && m@[v * m.w() + u] == out@[y * m.w() + x],
{
    let (w, h, r) = (m.w() as int, m.h() as int, radius as int);
    let low = out@[at(w, x, y)];
    assert(extreme(m@, w, h, r, r, x, y, false, low));
    let (a, b) = choose|a: int, b: int|
        on_plane(w, h, a, b) && in_window(r, r, x, y, a, b) && #[trigger] m@[at(w, a, b)] == low;
    assert(within_reach(m, r, x, y, a, b));
    assert forall|u: int, v: int| #[trigger] within_reach(m, r, x, y, u, v) implies m@[v * m.w() + u] >= out@[y
        * m.w() + x] by {
        assert(on_plane(w, h, u, v) && in_window(r, r, x, y, u, v));
        assert(m@[at(w, u, v)] >= low);
    }
}

/// Every pixel within reach of `(x, y)` is `t` or more.
pub open spec fn filled_around(m: &Mask, r: int, t: int, x: int, y: int) -> bool {
    forall|u: int, v: int| #[trigger] within_reach(m, r, x, y, u, v) ==> m@[v * m.w() + u] >= t
}

/// Some pixel within reach of `(x, y)` is `t` or more.
pub open spec fn touched_around(m: &Mask, r: int, t: int, x: int, y: int) -> bool {
    exists|u: int, v: int| #[trigger] within_reach(m, r, x, y, u, v) && m@[v * m.w() + u] >= t
}

/// Opening keeps just what a square of twice the radius and one pixel covers: at
/// every level, a pixel stays if some such square that holds it is filled, as far
/// as it lies on the mask.
pub proof fn law_opening_keeps_what_a_square_covers(
    m: &Mask,
    core: &Mask,
    out: &Mask,
    radius: u32,
    t: int,
    x: int,
    y: int,
)
    requires
        m.wf(),
        eroded(core, m, radius),
        dilated(out, core, radius),
        0 <= x < m.w(),
        0 <= y < m.h(),
    ensures
        out@[y * m.w() + x] >= t <==> exists|u: int, v: int| #[trigger]
            within_reach(m, radius as int, x, y, u, v) && filled_around(m, radius as int, t, u, v),
{
    let r = radius as int;
    let w = m.w() as int;
    law_dilation_takes_the_greatest(out, core, radius, x, y);
    if out@[y * m.w() + x] >= t {
        let (u, v) = choose|u: int, v: int| #[trigger]
            within_reach(core, r, x, y, u, v) && core@[v * core.w() + u] == out@[y * core.w() + x];
        law_erosion_takes_the_least(core, m, radius, u, v);
        assert(within_reach(m, r, x, y, u, v) && filled_around(m, r, t, u, v));
    }
    if exists|u: int, v: int| #[trigger] within_reach(m, r, x, y, u, v) && filled_around(m, r, t, u, v) {
        let (u, v) = choose|u: int, v: int| #[trigger]
            within_reach(m, r, x, y, u, v) && filled_around(m, r, t, u, v);
        law_erosion_takes_the_least(core, m, radius, u, v);
        let (a, b) = choose|a: int, b: int| #[trigger]
            within_reach(m, r, u, v, a, b) && m@[b * m.w() + a] == core@[v * m.w() + u];
        assert(core@[v * m.w() + u] >= t);
        assert(within_reach(core, r, x, y, u, v));
    }
}

/// Closing fills just what no square fits into: at every level, a pixel is filled
/// if every square of twice the radius and one pixel around a pixel within reach
/// touches the mask.
pub proof fn law_closing_fills_what_no_square_fits_in(
    m: &Mask,
    hull: &Mask,
    out: &Mask,
    radius: u32,
    t: int,
    x: int,
    y: int,
)
    requires
        m.wf(),
        dilated(hull, m, radius),
        eroded(out, hull, radius),
        0 <= x < m.w(),
        0 <= y < m.h(),
    ensures
        out@[y * m.w() + x] >= t <==> forall|u: int, v: int| #[trigger]
            within_reach(m, radius as int, x, y, u, v) ==> touched_around(m, radius as int, t, u, v),
{
    let r = radius as int;
    law_erosion_takes_the_least(out, hull, radius, x, y);
    if out@[y * m.w() + x] >= t {
        assert forall|u: int, v: int| #[trigger] within_reach(m, r, x, y, u, v) implies touched_around(m, r, t, u, v) by {
            assert(within_reach(hull, r, x, y, u, v));
            law_dilation_takes_the_greatest(hull, m, radius, u, v);
            let (a, b) = choose|a: int, b: int| #[trigger]
                within_reach(m, r, u, v, a, b) && m@[b * m.w() + a] == hull@[v * m.w() + u];
            assert(within_reach(m, r, u, v, a, b));
        }
    }
    if forall|u: int, v: int| #[trigger] within_reach(m, r, x, y, u, v) ==> touched_around(m, r, t, u, v) {
        let (u, v) = choose|u: int, v: int| #[trigger]
            within_reach(hull, r, x, y, u, v) && hull@[v * hull.w() + u] == out@[y * hull.w() + x];
        assert(within_reach(m, r, x, y, u, v));
        law_dilation_takes_the_greatest(hull, m, radius, u, v);
        let (a, b) = choose|a: int, b: int| #[trigger]
            within_reach(m, r, u, v, a, b) && m@[b * m.w() + a] >= t;
        assert(within_reach(m, r, u, v, a, b));
    }
}

/// On planes of truth values dilation asks for one set pixel in the square, erosion
/// for no other.
pub proof fn law_planes_are_filtered_by_squares(
    out: Seq<bool>,
    s: Seq<bool>,
    w: int,
    h: int,
    r: int,
    take_max: bool,
    x: int,
    y: int,
)
    requires
        is_windowed(out, s, w, h, r, r, take_max),
        0 <= x < w,
        0 <= y < h,
    ensures
        take_max ==> (out[y * w + x] <==> exists|u: int, v: int|
            0 <= u < w && 0 <= v < h && -r <= x - u <= r && -r <= y - v <= r && #[trigger] s[v * w + u]),
        !take_max ==> (out[y * w + x] <==> forall|u: int, v: int|
            0 <= u < w && 0 <= v < h && -r <= x - u <= r && -r <= y - v <= r ==> #[trigger] s[v * w + u]),
{
    assert(out[at(w, x, y)] == out[y * w + x]);
    if window_has(s, w, h, r, r, x, y, take_max) {
        let (u, v) = choose|u: int, v: int|
            on_plane(w, h, u, v) && in_window(r, r, x, y, u, v) && #[trigger] s[at(w, u, v)] == take_max;
        assert(s[v * w + u] == take_max);
    }
    if take_max {
        if exists|u: int, v: int|
            0 <= u < w && 0 <= v < h && -r <= x - u <= r && -r <= y - v <= r && #[trigger] s[v * w + u] {
            let (u, v) = choose|u: int, v: int|
                0 <= u < w && 0 <= v < h && -r <= x - u <= r && -r <= y - v <= r && #[trigger] s[v * w + u];
            assert(on_plane(w, h, u, v) && in_window(r, r, x, y, u, v) && s[at(w, u, v)] == true);
            assert(window_has(s, w, h, r, r, x, y, true));
        }
    } else {
        if window_has(s, w, h, r, r, x, y, false) {
            let (u, v) = choose|u: int, v: int|
                on_plane(w, h, u, v) && in_window(r, r, x, y, u, v) && #[trigger] s[at(w, u, v)] == false;
            assert(!s[v * w + u]);
        } else {
            assert forall|u: int, v: int|
                0 <= u < w && 0 <= v < h && -r <= x - u <= r && -r <= y - v <= r implies #[trigger] s[v * w + u] by {
                assert(on_plane(w, h, u, v) && in_window(r, r, x, y, u, v));
                assert(s[at(w, u, v)] == s[v * w + u]);
            }
        }
    }
}

/// A walk over sides and corners leads from `p` to `q`.
pub open spec fn hangs_freely(ground: spec_fn(int, int) -> bool, p: (int, int), q: (int, int)) -> bool {
    exists|path: Seq<(int, int)>| #[trigger] is_free_walk(ground, path) && path[0] == p && path.last() == q
}

/// A visible pixel keeps its value if at least `min_area` pixels that are half
/// opaque or more hang together with it over visible pixels, corners included.
/// Otherwise it is cleared. What is not visible stays so.
pub proof fn law_specks_are_measured_by_their_cores(
    m: Seq<u8>,
    w: int,
    h: int,
    min_area: int,
    x: int,
    y: int,
    core: Set<(int, int)>,
)
    requires
        0 < w,
        m.len() == w * h,
        0 <= x < w,
        0 <= y < h,
        forall|q: (int, int)| #[trigger]
            core.contains(q) <==> hangs_freely(
                |a: int, b: int| 0 <= a < w && 0 <= b < h && m[b * w + a] > 0,
                (x, y),
                q,
            ) && m[q.1 * w + q.0] >= 128,
    ensures
        core.finite(),
        without_specks(m, w, min_area, y * w + x) == if m[y * w + x] > 0 && core.len() >= min_area {
            m[y * w + x]
        } else {
            0
        },
{
    let ground = |a: int, b: int| 0 <= a < w && 0 <= b < h && m[b * w + a] > 0;
    let open = visible(m);
    let i = at(w, x, y);
    lemma_at_bound(w, h, x, y);
    lemma_at_split(w, x, y);
    assert forall|a: int, b: int| 0 <= a < w && 0 <= b < h implies open[b * w + a] == #[trigger] ground(a, b) by {
        lemma_at_bound(w, h, a, b);
    }
    assert(maps(w, h, open, ground));
    let places = core_of(m, w, i);
    assert forall|k: int| #[trigger] places.contains(k) implies 0 <= k < w * h by {
        let path = lemma_joined_is_walk(w, h, true, open, ground, i, k);
    }
    assert forall|q: (int, int)| #[trigger] core.contains(q) <==> 0 <= q.0 < w && 0 <= q.1 < h && places.contains(
        at(w, q.0, q.1),
    ) by {
        if hangs_freely(ground, (x, y), q) {
            let path = choose|path: Seq<(int, int)>| #[trigger]
                is_free_walk(ground, path) && path[0] == (x, y) && path.last() == q;
            assert(ground(path[path.len() - 1].0, path[path.len() - 1].1));
            lemma_walk_joins(w, h, true, open, ground, path);
        }
        if 0 <= q.0 < w && 0 <= q.1 < h && joined(w, true, open, i, at(w, q.0, q.1)) {
            lemma_at_split(w, q.0, q.1);
            let path = lemma_joined_is_walk(w, h, true, open, ground, i, at(w, q.0, q.1));
            assert(is_free_walk(ground, path) && path[0] == (x, y) && path.last() == q);
        }
    }
    let range = set_int_range(0, w * h);
    lemma_int_range(0, w * h);
    assert(places.subset_of(range));
    lemma_len_subset(places, range);
    lemma_pixels_count(w, h, places, core);
}

/// The area of a speck is that of its square at a long edge of a thousand pixels; on
/// larger images both its sides grow with the long edge. It is right to half a
/// pixel, as is the radius.
pub proof fn law_specks_grow_with_the_image(radius: u32, width: u32, height: u32, long: int)
    requires
        0 < radius,
        long >= 1000,
        long >= width,
        long >= height,
        long == 1000 || long == width || long == height,
    ensures
        ({
            let side = (2 * radius + 1) * long;
            let area = speck_area(radius, width, height);
            let reach = speck_reach(radius, width, height);
            &&& area == usize::MAX || 2 * side * side - 1_000_000 < 2_000_000 * area <= 2 * side * side + 1_000_000
            &&& reach == u32::MAX || 2000 * reach <= side < 2000 * reach + 2000
            &&& 0 <= area <= usize::MAX
        }),
        long == 1000 && radius <= 1000 ==> speck_area(radius, width, height) == (2 * radius + 1) * (2 * radius + 1),
{
    let side = (2 * radius + 1) * long;
    assert(long_edge(width, height) == long);
    assert(side == speck_side(radius, width, height));
    assert(2 * side * side == 2 * (side * side)) by (nonlinear_arith);
    assert(side * side >= 0) by (nonlinear_arith);
    if long == 1000 && radius <= 1000 {
        let k = 2 * radius + 1;
        assert(side * side == 1_000_000 * (k * k)) by (nonlinear_arith)
            requires
                side == k * 1000,
        ;
        assert(k * k <= 2001 * 2001) by (nonlinear_arith)
            requires
                0 <= k <= 2001,
        ;
    }
}

/// Foreground is what is at least half opaque, on the mask.
pub proof fn law_foreground_is_half_opaque(m: &Mask, p: (int, int))
    requires
        m.wf(),
    ensures
        m.foreground().contains(p) <==> 0 <= p.0 < m.w() && 0 <= p.1 < m.h() && m@[p.1 * m.w() + p.0] >= 128,
{
}

/// The box of some pixels lies in every rectangle that holds them all, and holds
/// them itself.
pub proof fn law_a_box_is_the_smallest(s: Set<(int, int)>, b: Rect, x1: int, y1: int, x2: int, y2: int)
    requires
        box_of(s, b),
        forall|p: (int, int)| #[trigger] s.contains(p) ==> x1 <= p.0 <= x2 && y1 <= p.1 <= y2,
    ensures
        x1 <= b.0 <= b.2 <= x2,
        y1 <= b.1 <= b.3 <= y2,
        forall|p: (int, int)| #[trigger] s.contains(p) ==> b.0 <= p.0 <= b.2 && b.1 <= p.1 <= b.3,
{
    let p = choose|p: (int, int)| #[trigger] s.contains(p) && p.0 == b.0;
    let q = choose|p: (int, int)| #[trigger] s.contains(p) && p.1 == b.1;
    let r = choose|p: (int, int)| #[trigger] s.contains(p) && p.0 == b.2;
    let t = choose|p: (int, int)| #[trigger] s.contains(p) && p.1 == b.3;
    assert(s.contains(p) && s.contains(q) && s.contains(r) && s.contains(t));
}

/// A pixel has a bare side where one of its four neighbours is no foreground, or is
/// missing.
pub proof fn law_a_bare_side_has_no_foreground(m: &Mask, x: int, y: int)
    requires
        m.wf(),
        0 <= x < m.w(),
        0 <= y < m.h(),
    ensures
        !m.bare_side(x, y) <==> forall|p: (int, int)|
            side_by_side((x, y), p) ==> #[trigger] m.foreground().contains(p),
{
    if forall|p: (int, int)| side_by_side((x, y), p) ==> #[trigger] m.foreground().contains(p) {
        assert(m.foreground().contains((x - 1, y)));
        assert(m.foreground().contains((x + 1, y)));
        assert(m.foreground().contains((x, y - 1)));
        assert(m.foreground().contains((x, y + 1)));
    }
}

/// What exceeds a threshold is more opaque than it, on the mask.
pub proof fn law_above_is_more_opaque(m: &Mask, threshold: u8, p: (int, int))
    requires
        m.wf(),
    ensures
        m.above(threshold).contains(p) <==> 0 <= p.0 < m.w() && 0 <= p.1 < m.h() && m@[p.1 * m.w() + p.0] > threshold,
{
}

} // verus!
