//! Laws of erosion, dilation and speck removal.
use vstd::prelude::*;

use crate::cutout::connect::{
    joined, lemma_joined_here, lemma_joined_more, lemma_joined_open, lemma_joined_within, lemma_joined_step,
    component, touching,
};
use crate::cutout::mask::Mask;
use crate::cutout::morphology::{
    core_of, dilated, eroded, extreme, in_window, is_filtered, is_windowed, lemma_core_shared, long_edge, speck_area,
    speck_reach, speck_side, speck_square, visible, window_has, without_specks,
};
use crate::geometry::{at, lemma_at_bound, lemma_at_join, on_plane};

verus! {

/// Planes that agree at every pixel are equal.
pub proof fn lemma_planes_equal<T>(a: Seq<T>, b: Seq<T>, w: int, h: int)
    requires
        a.len() == w * h,
        b.len() == w * h,
        0 <= w,
        0 <= h,
        forall|x: int, y: int| on_plane(w, h, x, y) ==> #[trigger] a[at(w, x, y)] == b[at(w, x, y)],
    ensures
        a == b,
{
    assert forall|i: int| 0 <= i < a.len() implies a[i] == b[i] by {
        assert(0 < w) by (nonlinear_arith)
            requires
                0 <= i < w * h,
                0 <= w,
        ;
        lemma_at_join(w, h, i);
        assert(a[at(w, i % w, i / w)] == b[at(w, i % w, i / w)]);
    }
    assert(a =~= b);
}

/// Erosion never raises a value and dilation never lowers one.
pub proof fn law_filters_bracket_the_mask(small: &Mask, m: &Mask, large: &Mask, radius: u32)
    requires
        m.wf(),
        eroded(small, m, radius),
        dilated(large, m, radius),
    ensures
        forall|x: int, y: int|
            m.inside(x, y) ==> small.px(x, y) <= #[trigger] m.px(x, y) <= large.px(x, y),
{
    assert forall|x: int, y: int| m.inside(x, y) implies small.px(x, y) <= #[trigger] m.px(x, y) <= large.px(x, y) by {
        let r = radius as int;
        assert(in_window(r, r, x, y, x, y));
        assert(extreme(m@, m.w() as int, m.h() as int, r, r, x, y, false, small@[at(m.w() as int, x, y)]));
        assert(extreme(m@, m.w() as int, m.h() as int, r, r, x, y, true, large@[at(m.w() as int, x, y)]));
    }
}

/// Eroding the complement is the complement of dilating.
pub proof fn law_erosion_is_dual_to_dilation(m: &Mask, negative: &Mask, small: &Mask, large: &Mask, radius: u32)
    requires
        m.wf(),
        negative.wf(),
        negative.w() == m.w(),
        negative.h() == m.h(),
        forall|x: int, y: int| m.inside(x, y) ==> #[trigger] negative.px(x, y) == 255 - m.px(x, y),
        eroded(small, negative, radius),
        dilated(large, m, radius),
    ensures
        forall|x: int, y: int| m.inside(x, y) ==> #[trigger] small.px(x, y) == 255 - large.px(x, y),
{
    let (w, h, r) = (m.w() as int, m.h() as int, radius as int);
    assert forall|x: int, y: int| m.inside(x, y) implies #[trigger] small.px(x, y) == 255 - large.px(x, y) by {
        let lo = small@[at(w, x, y)];
        let hi = large@[at(w, x, y)];
        assert(extreme(negative@, w, h, r, r, x, y, false, lo));
        assert(extreme(m@, w, h, r, r, x, y, true, hi));
        let (u, v) = choose|u: int, v: int|
            on_plane(w, h, u, v) && in_window(r, r, x, y, u, v) && #[trigger] negative@[at(w, u, v)] == lo;
        assert(negative.px(u, v) == 255 - m.px(u, v));
        assert(m@[at(w, u, v)] <= hi);
        let (a, b) = choose|a: int, b: int|
            on_plane(w, h, a, b) && in_window(r, r, x, y, a, b) && #[trigger] m@[at(w, a, b)] == hi;
        assert(negative.px(a, b) == 255 - m.px(a, b));
        assert(negative@[at(w, a, b)] >= lo);
    }
}

/// The frame eats nothing: a mask with one value everywhere keeps it under
/// erosion and under dilation.
pub proof fn law_a_constant_mask_is_fixed(m: &Mask, small: &Mask, large: &Mask, radius: u32, value: u8)
    requires
        m.wf(),
        forall|x: int, y: int| m.inside(x, y) ==> #[trigger] m.px(x, y) == value,
        eroded(small, m, radius),
        dilated(large, m, radius),
    ensures
        small@ == m@,
        large@ == m@,
{
    let (w, h, r) = (m.w() as int, m.h() as int, radius as int);
    assert forall|x: int, y: int| on_plane(w, h, x, y) implies #[trigger] small@[at(w, x, y)] == m@[at(w, x, y)]
        && large@[at(w, x, y)] == m@[at(w, x, y)] by {
        let lo = small@[at(w, x, y)];
        let hi = large@[at(w, x, y)];
        assert(extreme(m@, w, h, r, r, x, y, false, lo));
        assert(extreme(m@, w, h, r, r, x, y, true, hi));
        let (u, v) = choose|u: int, v: int|
            on_plane(w, h, u, v) && in_window(r, r, x, y, u, v) && #[trigger] m@[at(w, u, v)] == lo;
        assert(m.px(u, v) == value);
        let (a, b) = choose|a: int, b: int|
            on_plane(w, h, a, b) && in_window(r, r, x, y, a, b) && #[trigger] m@[at(w, a, b)] == hi;
        assert(m.px(a, b) == value);
        assert(m.px(x, y) == value);
    }
    lemma_planes_equal(small@, m@, w, h);
    assert forall|x: int, y: int| on_plane(w, h, x, y) implies #[trigger] large@[at(w, x, y)] == m@[at(w, x, y)] by {
        assert(small@[at(w, x, y)] == m@[at(w, x, y)]);
    }
    lemma_planes_equal(large@, m@, w, h);
}

/// Opening never raises a value, closing never lowers one.
pub proof fn law_opening_shrinks_and_closing_grows(
    m: &Mask,
    core: &Mask,
    opened: &Mask,
    hull: &Mask,
    closed: &Mask,
    radius: u32,
)
    requires
        m.wf(),
        eroded(core, m, radius),
        dilated(opened, core, radius),
        dilated(hull, m, radius),
        eroded(closed, hull, radius),
    ensures
        forall|x: int, y: int| m.inside(x, y) ==> opened.px(x, y) <= #[trigger] m.px(x, y) <= closed.px(x, y),
{
    let (w, h, r) = (m.w() as int, m.h() as int, radius as int);
    assert forall|x: int, y: int| m.inside(x, y) implies opened.px(x, y) <= #[trigger] m.px(x, y) <= closed.px(x, y) by {
        let lo = opened@[at(w, x, y)];
        assert(extreme(core@, w, h, r, r, x, y, true, lo));
        let (u, v) = choose|u: int, v: int|
            on_plane(w, h, u, v) && in_window(r, r, x, y, u, v) && #[trigger] core@[at(w, u, v)] == lo;
        assert(extreme(m@, w, h, r, r, u, v, false, core@[at(w, u, v)]));
        assert(in_window(r, r, u, v, x, y));
        let hi = closed@[at(w, x, y)];
        assert(extreme(hull@, w, h, r, r, x, y, false, hi));
        let (a, b) = choose|a: int, b: int|
            on_plane(w, h, a, b) && in_window(r, r, x, y, a, b) && #[trigger] hull@[at(w, a, b)] == hi;
        assert(extreme(m@, w, h, r, r, a, b, true, hull@[at(w, a, b)]));
        assert(in_window(r, r, a, b, x, y));
        assert(m@[at(w, x, y)] == m.px(x, y));
    }
}

/// Opening twice is opening once.
pub proof fn law_opening_is_idempotent(
    m: &Mask,
    core: &Mask,
    opened: &Mask,
    core_again: &Mask,
    opened_again: &Mask,
    radius: u32,
)
    requires
        m.wf(),
        eroded(core, m, radius),
        dilated(opened, core, radius),
        eroded(core_again, opened, radius),
        dilated(opened_again, core_again, radius),
    ensures
        opened_again@ == opened@,
{
    lemma_filter_twice(
        m@,
        core@,
        opened@,
        core_again@,
        opened_again@,
        m.w() as int,
        m.h() as int,
        radius as int,
        true,
    );
}

/// Closing twice is closing once.
pub proof fn law_closing_is_idempotent(
    m: &Mask,
    hull: &Mask,
    closed: &Mask,
    hull_again: &Mask,
    closed_again: &Mask,
    radius: u32,
)
    requires
        m.wf(),
        dilated(hull, m, radius),
        eroded(closed, hull, radius),
        dilated(hull_again, closed, radius),
        eroded(closed_again, hull_again, radius),
    ensures
        closed_again@ == closed@,
{
    lemma_filter_twice(
        m@,
        hull@,
        closed@,
        hull_again@,
        closed_again@,
        m.w() as int,
        m.h() as int,
        radius as int,
        false,
    );
}

/// Opening (`up`) and closing change nothing the second time.
proof fn lemma_filter_twice(
    m: Seq<u8>,
    core: Seq<u8>,
    done: Seq<u8>,
    core_again: Seq<u8>,
    done_again: Seq<u8>,
    w: int,
    h: int,
    r: int,
    up: bool,
)
    requires
        0 <= w,
        0 <= h,
        is_filtered(core, m, w, h, r, r, !up),
        is_filtered(done, core, w, h, r, r, up),
        is_filtered(core_again, done, w, h, r, r, !up),
        is_filtered(done_again, core_again, w, h, r, r, up),
    ensures
        done_again == done,
{
    assert forall|x: int, y: int| on_plane(w, h, x, y) implies #[trigger] core_again[at(w, x, y)] == core[at(
        w,
        x,
        y,
    )] by {
        let e = core[at(w, x, y)];
        let f = core_again[at(w, x, y)];
        assert(extreme(m, w, h, r, r, x, y, !up, e));
        assert(extreme(done, w, h, r, r, x, y, !up, f));
        let (u, v) = choose|u: int, v: int|
            on_plane(w, h, u, v) && in_window(r, r, x, y, u, v) && #[trigger] done[at(w, u, v)] == f;
        assert(extreme(core, w, h, r, r, u, v, up, done[at(w, u, v)]));
        assert(in_window(r, r, u, v, x, y));
        let (a, b) = choose|a: int, b: int|
            on_plane(w, h, a, b) && in_window(r, r, x, y, a, b) && #[trigger] m[at(w, a, b)] == e;
        let g = done[at(w, a, b)];
        assert(extreme(core, w, h, r, r, a, b, up, g));
        let (c, d) = choose|c: int, d: int|
            on_plane(w, h, c, d) && in_window(r, r, a, b, c, d) && #[trigger] core[at(w, c, d)] == g;
        assert(extreme(m, w, h, r, r, c, d, !up, core[at(w, c, d)]));
        assert(in_window(r, r, c, d, a, b));
    }
    lemma_planes_equal(core_again, core, w, h);
    assert forall|x: int, y: int| on_plane(w, h, x, y) implies #[trigger] done_again[at(w, x, y)] == done[at(
        w,
        x,
        y,
    )] by {
        assert(extreme(core, w, h, r, r, x, y, up, done_again[at(w, x, y)]));
        assert(extreme(core, w, h, r, r, x, y, up, done[at(w, x, y)]));
        lemma_extreme_unique(core, w, h, r, x, y, up, done_again[at(w, x, y)], done[at(w, x, y)]);
    }
    lemma_planes_equal(done_again, done, w, h);
}

/// Closing the complement is the complement of opening.
pub proof fn law_closing_is_dual_to_opening(
    m: &Mask,
    core: &Mask,
    opened: &Mask,
    negative: &Mask,
    hull: &Mask,
    closed: &Mask,
    radius: u32,
)
    requires
        m.wf(),
        negative.wf(),
        negative.w() == m.w(),
        negative.h() == m.h(),
        forall|x: int, y: int| m.inside(x, y) ==> #[trigger] negative.px(x, y) == 255 - m.px(x, y),
        eroded(core, m, radius),
        dilated(opened, core, radius),
        dilated(hull, negative, radius),
        eroded(closed, hull, radius),
    ensures
        forall|x: int, y: int| m.inside(x, y) ==> #[trigger] closed.px(x, y) == 255 - opened.px(x, y),
{
    assert forall|x: int, y: int| negative.inside(x, y) implies #[trigger] m.px(x, y) == 255 - negative.px(x, y) by {
        assert(negative.px(x, y) == 255 - m.px(x, y));
    }
    law_erosion_is_dual_to_dilation(negative, m, core, hull, radius);
    assert forall|x: int, y: int| core.inside(x, y) implies #[trigger] hull.px(x, y) == 255 - core.px(x, y) by {
        assert(core.px(x, y) == 255 - hull.px(x, y));
    }
    law_erosion_is_dual_to_dilation(core, hull, closed, opened, radius);
}

/// Erosion, dilation, opening and closing keep the order of masks.
pub proof fn law_filters_keep_the_order(
    low: &Mask,
    high: &Mask,
    low_core: &Mask,
    high_core: &Mask,
    low_opened: &Mask,
    high_opened: &Mask,
    low_hull: &Mask,
    high_hull: &Mask,
    low_closed: &Mask,
    high_closed: &Mask,
    radius: u32,
)
    requires
        low.wf(),
        high.wf(),
        high.w() == low.w(),
        high.h() == low.h(),
        forall|x: int, y: int| low.inside(x, y) ==> #[trigger] low.px(x, y) <= high.px(x, y),
        eroded(low_core, low, radius),
        eroded(high_core, high, radius),
        dilated(low_opened, low_core, radius),
        dilated(high_opened, high_core, radius),
        dilated(low_hull, low, radius),
        dilated(high_hull, high, radius),
        eroded(low_closed, low_hull, radius),
        eroded(high_closed, high_hull, radius),
    ensures
        forall|x: int, y: int| low.inside(x, y) ==> #[trigger] low_core.px(x, y) <= high_core.px(x, y),
        forall|x: int, y: int| low.inside(x, y) ==> #[trigger] low_opened.px(x, y) <= high_opened.px(x, y),
        forall|x: int, y: int| low.inside(x, y) ==> #[trigger] low_hull.px(x, y) <= high_hull.px(x, y),
        forall|x: int, y: int| low.inside(x, y) ==> #[trigger] low_closed.px(x, y) <= high_closed.px(x, y),
{
    lemma_filter_keeps_order(low, high, low_core, high_core, radius, false);
    lemma_filter_keeps_order(low_core, high_core, low_opened, high_opened, radius, true);
    lemma_filter_keeps_order(low, high, low_hull, high_hull, radius, true);
    lemma_filter_keeps_order(low_hull, high_hull, low_closed, high_closed, radius, false);
}

proof fn lemma_filter_keeps_order(low: &Mask, high: &Mask, small: &Mask, large: &Mask, radius: u32, up: bool)
    requires
        low.wf(),
        high.wf(),
        high.w() == low.w(),
        high.h() == low.h(),
        forall|x: int, y: int| low.inside(x, y) ==> #[trigger] low.px(x, y) <= high.px(x, y),
        up ==> dilated(small, low, radius) && dilated(large, high, radius),
        !up ==> eroded(small, low, radius) && eroded(large, high, radius),
    ensures
        forall|x: int, y: int| small.inside(x, y) ==> #[trigger] small.px(x, y) <= large.px(x, y),
{
    let (w, h, r) = (low.w() as int, low.h() as int, radius as int);
    assert forall|x: int, y: int| small.inside(x, y) implies #[trigger] small.px(x, y) <= large.px(x, y) by {
        let (a, b) = (small@[at(w, x, y)], large@[at(w, x, y)]);
        assert(extreme(low@, w, h, r, r, x, y, up, a));
        assert(extreme(high@, w, h, r, r, x, y, up, b));
        if up {
            let (u, v) = choose|u: int, v: int|
                on_plane(w, h, u, v) && in_window(r, r, x, y, u, v) && #[trigger] low@[at(w, u, v)] == a;
            assert(low.px(u, v) <= high.px(u, v));
            assert(high@[at(w, u, v)] <= b);
        } else {
            let (u, v) = choose|u: int, v: int|
                on_plane(w, h, u, v) && in_window(r, r, x, y, u, v) && #[trigger] high@[at(w, u, v)] == b;
            assert(low.px(u, v) <= high.px(u, v));
            assert(low@[at(w, u, v)] >= a);
        }
    }
}

/// Dilation and erosion belong together: a dilated mask fits under another just
/// when the mask fits under the other's erosion.
pub proof fn law_dilation_and_erosion_are_adjoint(f: &Mask, g: &Mask, large: &Mask, small: &Mask, radius: u32)
    requires
        f.wf(),
        g.wf(),
        g.w() == f.w(),
        g.h() == f.h(),
        dilated(large, f, radius),
        eroded(small, g, radius),
    ensures
        (forall|x: int, y: int| f.inside(x, y) ==> #[trigger] large.px(x, y) <= g.px(x, y)) <==> (forall|x: int, y: int|
            f.inside(x, y) ==> #[trigger] f.px(x, y) <= small.px(x, y)),
{
    let (w, h, r) = (f.w() as int, f.h() as int, radius as int);
    if forall|x: int, y: int| f.inside(x, y) ==> #[trigger] large.px(x, y) <= g.px(x, y) {
        assert forall|x: int, y: int| f.inside(x, y) implies #[trigger] f.px(x, y) <= small.px(x, y) by {
            let lo = small@[at(w, x, y)];
            assert(extreme(g@, w, h, r, r, x, y, false, lo));
            let (u, v) = choose|u: int, v: int|
                on_plane(w, h, u, v) && in_window(r, r, x, y, u, v) && #[trigger] g@[at(w, u, v)] == lo;
            assert(extreme(f@, w, h, r, r, u, v, true, large@[at(w, u, v)]));
            assert(in_window(r, r, u, v, x, y));
            assert(f@[at(w, x, y)] <= large@[at(w, u, v)]);
            assert(large.px(u, v) <= g.px(u, v));
        }
    }
    if forall|x: int, y: int| f.inside(x, y) ==> #[trigger] f.px(x, y) <= small.px(x, y) {
        assert forall|x: int, y: int| f.inside(x, y) implies #[trigger] large.px(x, y) <= g.px(x, y) by {
            let hi = large@[at(w, x, y)];
            assert(extreme(f@, w, h, r, r, x, y, true, hi));
            let (u, v) = choose|u: int, v: int|
                on_plane(w, h, u, v) && in_window(r, r, x, y, u, v) && #[trigger] f@[at(w, u, v)] == hi;
            assert(extreme(g@, w, h, r, r, u, v, false, small@[at(w, u, v)]));
            assert(in_window(r, r, u, v, x, y));
            assert(small@[at(w, u, v)] <= g@[at(w, x, y)]);
            assert(f.px(u, v) <= small.px(u, v));
        }
    }
}

/// Radii add up: dilating by one and then by another is dilating by their sum.
pub proof fn law_dilation_radii_add_up(m: &Mask, once: &Mask, twice: &Mask, whole: &Mask, a: u32, b: u32, sum: u32)
    requires
        m.wf(),
        sum == a + b,
        dilated(once, m, a),
        dilated(twice, once, b),
        dilated(whole, m, sum),
    ensures
        twice@ == whole@,
{
    lemma_radii_add_up(m@, once@, twice@, whole@, m.w() as int, m.h() as int, a as int, b as int, true);
}

/// Radii add up for erosion, too.
pub proof fn law_erosion_radii_add_up(m: &Mask, once: &Mask, twice: &Mask, whole: &Mask, a: u32, b: u32, sum: u32)
    requires
        m.wf(),
        sum == a + b,
        eroded(once, m, a),
        eroded(twice, once, b),
        eroded(whole, m, sum),
    ensures
        twice@ == whole@,
{
    lemma_radii_add_up(m@, once@, twice@, whole@, m.w() as int, m.h() as int, a as int, b as int, false);
}

/// A coordinate between `x` and `u`, at most `b` away from `x`.
spec fn halfway(x: int, u: int, b: int) -> int {
    if u > x + b {
        x + b
    } else if u < x - b {
        x - b
    } else {
        u
    }
}

proof fn lemma_radii_add_up(
    m: Seq<u8>,
    once: Seq<u8>,
    twice: Seq<u8>,
    whole: Seq<u8>,
    w: int,
    h: int,
    a: int,
    b: int,
    up: bool,
)
    requires
        0 <= w,
        0 <= h,
        0 <= a,
        0 <= b,
        is_filtered(once, m, w, h, a, a, up),
        is_filtered(twice, once, w, h, b, b, up),
        is_filtered(whole, m, w, h, a + b, a + b, up),
    ensures
        twice == whole,
{
    assert forall|x: int, y: int| on_plane(w, h, x, y) implies #[trigger] twice[at(w, x, y)] == whole[at(w, x, y)] by {
        let (s, t) = (twice[at(w, x, y)], whole[at(w, x, y)]);
        assert(extreme(once, w, h, b, b, x, y, up, s));
        assert(extreme(m, w, h, a + b, a + b, x, y, up, t));
        let (u, v) = choose|u: int, v: int|
            on_plane(w, h, u, v) && in_window(a + b, a + b, x, y, u, v) && #[trigger] m[at(w, u, v)] == t;
        let (p, q) = (halfway(x, u, b), halfway(y, v, b));
        assert(on_plane(w, h, p, q) && in_window(b, b, x, y, p, q) && in_window(a, a, p, q, u, v));
        assert(extreme(m, w, h, a, a, p, q, up, once[at(w, p, q)]));
        let (c, d) = choose|c: int, d: int|
            on_plane(w, h, c, d) && in_window(b, b, x, y, c, d) && #[trigger] once[at(w, c, d)] == s;
        assert(extreme(m, w, h, a, a, c, d, up, once[at(w, c, d)]));
        let (e, f) = choose|e: int, f: int|
            on_plane(w, h, e, f) && in_window(a, a, c, d, e, f) && #[trigger] m[at(w, e, f)] == s;
        assert(in_window(a + b, a + b, x, y, e, f));
    }
    lemma_planes_equal(twice, whole, w, h);
}

/// A window has one largest and one smallest value.
proof fn lemma_extreme_unique(m: Seq<u8>, w: int, h: int, r: int, x: int, y: int, take_max: bool, a: u8, b: u8)
    requires
        extreme(m, w, h, r, r, x, y, take_max, a),
        extreme(m, w, h, r, r, x, y, take_max, b),
    ensures
        a == b,
{
    let (u, v) = choose|u: int, v: int|
        on_plane(w, h, u, v) && in_window(r, r, x, y, u, v) && #[trigger] m[at(w, u, v)] == a;
    let (c, d) = choose|c: int, d: int|
        on_plane(w, h, c, d) && in_window(r, r, x, y, c, d) && #[trigger] m[at(w, c, d)] == b;
}

/// On bit planes, too, eroding the complement is the complement of dilating.
pub proof fn law_plane_erosion_is_dual(s: Seq<bool>, t: Seq<bool>, small: Seq<bool>, large: Seq<bool>, w: int, h: int, r: int)
    requires
        0 <= w,
        0 <= h,
        s.len() == w * h,
        t == s.map_values(|v: bool| !v),
        is_windowed(small, t, w, h, r, r, false),
        is_windowed(large, s, w, h, r, r, true),
    ensures
        small == large.map_values(|v: bool| !v),
{
    let flipped = large.map_values(|v: bool| !v);
    assert forall|x: int, y: int| on_plane(w, h, x, y) implies #[trigger] small[at(w, x, y)] == flipped[at(w, x, y)] by {
        lemma_at_bound(w, h, x, y);
        assert(large[at(w, x, y)] == window_has(s, w, h, r, r, x, y, true));
        if window_has(s, w, h, r, r, x, y, true) {
            let (u, v) = choose|u: int, v: int|
                on_plane(w, h, u, v) && in_window(r, r, x, y, u, v) && #[trigger] s[at(w, u, v)] == true;
            lemma_at_bound(w, h, u, v);
            assert(t[at(w, u, v)] == false);
            assert(window_has(t, w, h, r, r, x, y, false));
        }
        if window_has(t, w, h, r, r, x, y, false) {
            let (u, v) = choose|u: int, v: int|
                on_plane(w, h, u, v) && in_window(r, r, x, y, u, v) && #[trigger] t[at(w, u, v)] == false;
            lemma_at_bound(w, h, u, v);
            assert(s[at(w, u, v)] == true);
        }
    }
    lemma_planes_equal(small, flipped, w, h);
}

/// The mask that speck removal leaves.
pub open spec fn cleaned(m: Seq<u8>, w: int, min_area: int) -> Seq<u8> {
    Seq::new(m.len(), |i: int| without_specks(m, w, min_area, i))
}

/// Connected pixels stay or go together, and what stays keeps its value.
pub proof fn law_specks_go_as_a_whole(m: Seq<u8>, w: int, min_area: int, i: int, j: int)
    requires
        joined(w, true, visible(m), i, j),
    ensures
        without_specks(m, w, min_area, i) == m[i] <==> without_specks(m, w, min_area, j) == m[j],
        without_specks(m, w, min_area, i) == 0 || without_specks(m, w, min_area, i) == m[i],
{
    lemma_joined_open(w, true, visible(m), i, j);
    lemma_core_shared(m, w, i, j);
}

/// What speck removal leaves of a component has the core that it had.
proof fn lemma_core_stays(m: Seq<u8>, w: int, min_area: int, i: int)
    requires
        0 <= i < m.len(),
        cleaned(m, w, min_area)[i] != 0,
    ensures
        core_of(cleaned(m, w, min_area), w, i) == core_of(m, w, i),
{
    let c = cleaned(m, w, min_area);
    let open = visible(m);
    let left = visible(c);
    let kept = component(w, true, left, i);
    lemma_joined_here(w, true, left, i);
    assert forall|p: int, q: int|
        kept.contains(p) && 0 <= q < open.len() && open[q] && #[trigger] touching(w, true, p, q) implies kept.contains(
        q,
    ) by {
        lemma_joined_open(w, true, left, i, p);
        assert forall|k: int| 0 <= k < left.len() && #[trigger] left[k] implies open[k] by {}
        lemma_joined_more(w, true, left, open, i, p);
        lemma_joined_step(w, true, open, i, p, q);
        law_specks_go_as_a_whole(m, w, min_area, i, q);
        assert(left[q]);
        lemma_joined_step(w, true, left, i, p, q);
    }
    assert forall|j: int| core_of(c, w, i).contains(j) <==> core_of(m, w, i).contains(j) by {
        if joined(w, true, left, i, j) {
            assert forall|k: int| 0 <= k < left.len() && #[trigger] left[k] implies open[k] by {}
            lemma_joined_more(w, true, left, open, i, j);
            lemma_joined_open(w, true, left, i, j);
        }
        if joined(w, true, open, i, j) {
            lemma_joined_within(w, true, open, i, j, kept);
            lemma_joined_open(w, true, left, i, j);
        }
    }
    assert(core_of(c, w, i) =~= core_of(m, w, i));
}

/// Removing specks twice is removing them once, by the larger of the two areas.
pub proof fn law_speck_removals_combine(m: Seq<u8>, w: int, first: int, second: int)
    ensures
        cleaned(cleaned(m, w, first), w, second) == cleaned(
            m,
            w,
            if first < second {
                second
            } else {
                first
            },
        ),
{
    let c = cleaned(m, w, first);
    let both = cleaned(
        m,
        w,
        if first < second {
            second
        } else {
            first
        },
    );
    assert forall|i: int| 0 <= i < c.len() implies without_specks(c, w, second, i) == both[i] by {
        if c[i] != 0 {
            lemma_core_stays(m, w, first, i);
        }
    }
    assert(cleaned(c, w, second) =~= both);
}

/// Removing specks twice is removing them once.
pub proof fn law_speck_removal_is_idempotent(m: Seq<u8>, w: int, min_area: int)
    ensures
        cleaned(cleaned(m, w, min_area), w, min_area) == cleaned(m, w, min_area),
{
    law_speck_removals_combine(m, w, min_area, min_area);
}

/// A larger radius counts no fewer components as specks, so that removing them
/// with two radii, in either order, is removing them with the larger one.
pub proof fn law_the_larger_radius_of_specks_decides(m: Seq<u8>, small: u32, large: u32, width: u32, height: u32)
    requires
        small <= large,
    ensures
        speck_area(small, width, height) <= speck_area(large, width, height),
        speck_reach(small, width, height) <= speck_reach(large, width, height),
        ({
            let w = width as int;
            let (a, b) = (speck_area(small, width, height), speck_area(large, width, height));
            &&& cleaned(cleaned(m, w, a), w, b) == cleaned(m, w, b)
            &&& cleaned(cleaned(m, w, b), w, a) == cleaned(m, w, b)
        }),
{
    let (p, q) = (speck_side(small, width, height), speck_side(large, width, height));
    assert(0 <= p <= q) by (nonlinear_arith)
        requires
            p == (2 * small + 1) * long_edge(width, height),
            q == (2 * large + 1) * long_edge(width, height),
            small <= large,
            0 <= long_edge(width, height),
    ;
    assert(p * p <= q * q) by (nonlinear_arith)
        requires
            0 <= p <= q,
    ;
    let (a, b) = (speck_area(small, width, height), speck_area(large, width, height));
    assert(a <= b);
    law_speck_removals_combine(m, width as int, a, b);
    law_speck_removals_combine(m, width as int, b, a);
}

/// The radius and the area of specks are of one square: as long as the area can be
/// counted, the side by the radius is within a pixel of the side by the area. Up
/// to a long edge of 1000 pixels the radius is as given, and radius 0 stays 0.
pub proof fn law_the_radius_of_specks_fits_their_area(radius: u32, width: u32, height: u32)
    ensures
        radius > 0 && speck_square(radius, width, height) <= usize::MAX ==> ({
            let side = 2 * speck_reach(radius, width, height) + 1;
            let area = speck_area(radius, width, height);
            (side - 1) * (side - 1) <= area <= (side + 1) * (side + 1)
        }),
        width <= 1000 && height <= 1000 ==> speck_reach(radius, width, height) == radius,
        speck_reach(0, width, height) == 0,
        speck_area(0, width, height) == 0,
{
    let n = speck_side(radius, width, height);
    assert(1000 <= n) by (nonlinear_arith)
        requires
            n == (2 * radius + 1) * long_edge(width, height),
            long_edge(width, height) >= 1000,
            radius >= 0,
    ;
    let half = n / 2000;
    let side = 2 * half + 1;
    let area = (n * n + 500_000) / 1_000_000;
    let (low, high) = (side - 1, side + 1);
    assert(1000 * low <= n < 1000 * high);
    assert((1000 * low) * (1000 * low) <= n * n <= (1000 * high) * (1000 * high)) by (nonlinear_arith)
        requires
            0 <= 1000 * low <= n < 1000 * high,
    ;
    assert((1000 * low) * (1000 * low) == 1_000_000 * (low * low)) by (nonlinear_arith);
    assert((1000 * high) * (1000 * high) == 1_000_000 * (high * high)) by (nonlinear_arith);
    assert(low * low <= area <= high * high);
    if half > u32::MAX && area <= usize::MAX {
        assert(low * low > 0xffff_ffff_ffff_ffff) by (nonlinear_arith)
            requires
                low >= 0x2_0000_0000,
        ;
        assert(false);
    }
    if width <= 1000 && height <= 1000 {
        assert((2 * radius + 1) * 1000 / 2000 == radius);
    }
}

} // verus!
