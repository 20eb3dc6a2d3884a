//! Laws of where the product is found, told in pixels and walks.
use vstd::prelude::*;
use vstd::set_lib::{lemma_int_range, lemma_len_subset, set_int_range};

use crate::cutout::background::UNIFORM_DELTA_E;
use crate::cutout::connect::{component, joined, lemma_joined_here, lemma_joined_open};
use crate::cutout::subject::{
    at_least, channel_over, far_plane, hints, in_largest, outside_plane, piece, pixels_at, pixels_of, widened,
    Component, Confidence, Span, SubjectHint,
};
use crate::geometry::{at, box_of, in_rect, lemma_at_bound, lemma_at_join, lemma_at_split, Rect};
use crate::laws::field::law_pixels_hold_the_stretch;
use crate::laws::walks::{
    is_walk, lemma_joined_is_walk, lemma_pixels_count, lemma_plane_sum, lemma_tally_counts, lemma_walk_joins, maps,
};
use crate::raster::RgbaImage;
use crate::sums::rect_sum;

verus! {

/// The pixel stands out: it is at least half opaque, and farther from the
/// background than the border of the image is, and than five.
pub open spec fn stands_out(image: &RgbaImage, delta: Seq<u64>, border: u64, x: int, y: int) -> bool {
    &&& 0 <= x < image.w()
    &&& 0 <= y < image.h()
    &&& image@[y * image.w() + x][3] >= 128
    &&& delta[y * image.w() + x] > border
    &&& delta[y * image.w() + x] > 0x4014_0000_0000_0000
}

/// A walk from side to side over pixels of which `ground` holds leads from `p` to
/// `q`.
pub open spec fn hangs_together(ground: spec_fn(int, int) -> bool, p: (int, int), q: (int, int)) -> bool {
    exists|path: Seq<(int, int)>| #[trigger] is_walk(ground, path) && path[0] == p && path.last() == q
}

proof fn lemma_joined_hangs(w: int, h: int, open: Seq<bool>, ground: spec_fn(int, int) -> bool, p: (int, int), q: (int, int))
    requires
        maps(w, h, open, ground),
        0 <= p.0 < w,
        0 <= p.1 < h,
        0 <= q.0 < w,
        0 <= q.1 < h,
    ensures
        joined(w, false, open, at(w, p.0, p.1), at(w, q.0, q.1)) == hangs_together(ground, p, q),
{
    lemma_at_split(w, p.0, p.1);
    lemma_at_split(w, q.0, q.1);
    if joined(w, false, open, at(w, p.0, p.1), at(w, q.0, q.1)) {
        let path = lemma_joined_is_walk(w, h, false, open, ground, at(w, p.0, p.1), at(w, q.0, q.1));
        assert(is_walk(ground, path) && path[0] == p && path.last() == q);
    }
    if hangs_together(ground, p, q) {
        let path = choose|path: Seq<(int, int)>| #[trigger]
            is_walk(ground, path) && path[0] == p && path.last() == q;
        lemma_walk_joins(w, h, false, open, ground, path);
    }
}

proof fn lemma_hangs_inside(w: int, h: int, open: Seq<bool>, ground: spec_fn(int, int) -> bool, p: (int, int), q: (int, int))
    requires
        maps(w, h, open, ground),
        hangs_together(ground, p, q),
    ensures
        ground(p.0, p.1),
        ground(q.0, q.1),
{
    let path = choose|path: Seq<(int, int)>| #[trigger] is_walk(ground, path) && path[0] == p && path.last() == q;
    assert(ground(path[0].0, path[0].1));
    assert(ground(path[path.len() - 1].0, path[path.len() - 1].1));
}

proof fn lemma_far(image: &RgbaImage, delta: Seq<u64>, border: u64, threshold: u64)
    requires
        image.wf(),
        0 < image.w(),
        threshold == border && border >= 0x4014_0000_0000_0000 || threshold == 0x4014_0000_0000_0000 && border
            <= threshold,
    ensures
        maps(
            image.w() as int,
            image.h() as int,
            far_plane(image, delta, threshold),
            |x: int, y: int| stands_out(image, delta, border, x, y),
        ),
{
    let ground = |x: int, y: int| stands_out(image, delta, border, x, y);
    let far = far_plane(image, delta, threshold);
    assert forall|x: int, y: int| 0 <= x < image.w() && 0 <= y < image.h() implies far[y * image.w() as int + x]
        == #[trigger] ground(x, y) by {
        lemma_at_bound(image.w() as int, image.h() as int, x, y);
    }
}

/// The pixel from which the piece of a hint is told.
pub open spec fn origin(image: &RgbaImage, i: int) -> (int, int) {
    (i % image.w() as int, i / image.w() as int)
}

/// The pixels of the piece that a hint measures.
spec fn measured(image: &RgbaImage, delta: Seq<u64>, p90: u64, i: int) -> Set<(int, int)> {
    pixels_at(
        image.w() as int,
        piece(image.w() as int, far_plane(image, delta, at_least(p90, UNIFORM_DELTA_E)), i),
    )
}

/// The piece is what hangs together with its origin.
proof fn lemma_measured(
    image: &RgbaImage,
    full: (u32, u32),
    delta: Seq<u64>,
    p50: u64,
    p90: u64,
    i: int,
    c: Component,
    hint: SubjectHint,
)
    requires
        image.wf(),
        hints(image, full, delta, p50, p90, i, c, hint),
    ensures
        0 < image.w(),
        0 < image.h(),
        0 <= i < image@.len(),
        maps(
            image.w() as int,
            image.h() as int,
            far_plane(image, delta, at_least(p90, UNIFORM_DELTA_E)),
            |x: int, y: int| stands_out(image, delta, p90, x, y),
        ),
        stands_out(image, delta, p90, origin(image, i).0, origin(image, i).1),
        forall|q: (int, int)| #[trigger]
            measured(image, delta, p90, i).contains(q) <==> hangs_together(
                |x: int, y: int| stands_out(image, delta, p90, x, y),
                origin(image, i),
                q,
            ),
        box_of(measured(image, delta, p90, i), c.bbox),
        measured(image, delta, p90, i).finite(),
        measured(image, delta, p90, i).len() == hint.area,
        c.bbox.0 <= c.bbox.2 < image.w(),
        c.bbox.1 <= c.bbox.3 < image.h(),
{
    let (w, h) = (image.w() as int, image.h() as int);
    let far = far_plane(image, delta, at_least(p90, UNIFORM_DELTA_E));
    let ground = |x: int, y: int| stands_out(image, delta, p90, x, y);
    assert(in_largest(w, far, i));
    assert(0 < w && 0 < h) by (nonlinear_arith)
        requires
            0 <= i < w * h,
            0 <= w,
            0 <= h,
    ;
    lemma_far(image, delta, p90, at_least(p90, UNIFORM_DELTA_E));
    lemma_at_join(w, h, i);
    let o = origin(image, i);
    assert(ground(o.0, o.1) == far[o.1 * w + o.0]);
    let all = measured(image, delta, p90, i);
    let places = piece(w, far, i);
    assert forall|k: int| #[trigger] places.contains(k) implies 0 <= k < w * h by {
        lemma_joined_open(w, false, far, i, k);
    }
    assert forall|q: (int, int)| #[trigger] all.contains(q) <==> hangs_together(ground, o, q) by {
        if all.contains(q) {
            lemma_at_split(w, q.0, q.1);
            lemma_at_join(w, h, at(w, q.0, q.1));
        }
        if hangs_together(ground, o, q) {
            lemma_hangs_inside(w, h, far, ground, o, q);
        }
        if 0 <= q.0 < w && 0 <= q.1 < h {
            lemma_joined_hangs(w, h, far, ground, o, q);
        }
    }
    assert forall|q: (int, int)| #[trigger] all.contains(q) <==> 0 <= q.0 < w && 0 <= q.1 < h && places.contains(
        at(w, q.0, q.1),
    ) by {
        if all.contains(q) {
            lemma_at_split(w, q.0, q.1);
            lemma_at_join(w, h, at(w, q.0, q.1));
        }
    }
    lemma_pixels_count(w, h, places, all);
    let a = choose|q: (int, int)| #[trigger] all.contains(q) && q.0 == c.bbox.2;
    let b = choose|q: (int, int)| #[trigger] all.contains(q) && q.1 == c.bbox.3;
    assert(all.contains(a) && all.contains(b));
}

/// The box of a hint lies on the full image and holds all that hangs together with
/// the origin of the piece, brought to the full size, with a hundredth of the width
/// to spare on the left and on the right and a hundredth of the height above and
/// below, as far as the image reaches.
pub proof fn law_the_box_holds_the_product(
    image: &RgbaImage,
    full: (u32, u32),
    delta: Seq<u64>,
    p50: u64,
    p90: u64,
    i: int,
    c: Component,
    hint: SubjectHint,
    q: (int, int),
)
    requires
        image.wf(),
        image.w() <= 250,
        image.h() <= 250,
        0 < full.0,
        0 < full.1,
        hints(image, full, delta, p50, p90, i, c, hint),
        hangs_together(|x: int, y: int| stands_out(image, delta, p90, x, y), origin(image, i), q),
    ensures
        hint.bbox.0 <= hint.bbox.2 < full.0,
        hint.bbox.1 <= hint.bbox.3 < full.1,
        hint.bbox.0 * image.w() <= q.0 * full.0,
        (q.0 + 1) * full.0 <= (hint.bbox.2 + 1) * image.w(),
        hint.bbox.1 * image.h() <= q.1 * full.1,
        (q.1 + 1) * full.1 <= (hint.bbox.3 + 1) * image.h(),
        hint.bbox.0 == 0 || hint.bbox.0 * (100 * image.w()) <= (100 * q.0 - image.w()) * full.0,
        hint.bbox.2 + 1 == full.0 || (100 * (q.0 + 1) + image.w()) * full.0 <= (hint.bbox.2 + 1) * (100 * image.w()),
        hint.bbox.1 == 0 || hint.bbox.1 * (100 * image.h()) <= (100 * q.1 - image.h()) * full.1,
        hint.bbox.3 + 1 == full.1 || (100 * (q.1 + 1) + image.h()) * full.1 <= (hint.bbox.3 + 1) * (100 * image.h()),
        hint.across.lo * image.w() <= q.0 * hint.across.of,
        (q.0 + 1) * hint.across.of <= hint.across.hi * image.w(),
        hint.across.hi <= hint.across.of,
        hint.down.lo * image.h() <= q.1 * hint.down.of,
        (q.1 + 1) * hint.down.of <= hint.down.hi * image.h(),
        hint.down.hi <= hint.down.of,
{
    lemma_measured(image, full, delta, p50, p90, i, c, hint);
    assert(measured(image, delta, p90, i).contains(q));
    lemma_exact_span(c.bbox.0 as int, c.bbox.2 as int, image.w(), full.0, hint.bbox.0 as int, hint.bbox.2 as int);
    lemma_exact_span(c.bbox.1 as int, c.bbox.3 as int, image.h(), full.1, hint.bbox.1 as int, hint.bbox.3 as int);
    lemma_held(
        c.bbox.0 as int,
        c.bbox.2 as int,
        image.w() as int,
        full.0 as int,
        hint.bbox.0 as int,
        hint.bbox.2 as int,
        q.0,
    );
    lemma_held(
        c.bbox.1 as int,
        c.bbox.3 as int,
        image.h() as int,
        full.1 as int,
        hint.bbox.1 as int,
        hint.bbox.3 as int,
        q.1,
    );
    lemma_shares(c.bbox.0 as int, c.bbox.2 as int, image.w(), hint.across, q.0);
    lemma_shares(c.bbox.1 as int, c.bbox.3 as int, image.h(), hint.down, q.1);
}

proof fn lemma_shares(first: int, last: int, n: u32, s: Span, x: int)
    requires
        0 <= first <= x <= last < n <= 250,
        s == widened(Span { lo: first as u64, hi: (last + 1) as u64, of: n as u64 }),
    ensures
        s.lo * n <= x * s.of,
        (x + 1) * s.of <= s.hi * n,
        s.hi <= s.of,
{
    let m = n as int;
    let (lo, hi, of) = (s.lo as int, s.hi as int, s.of as int);
    assert(lo * m <= x * of && (x + 1) * of <= hi * m) by (nonlinear_arith)
        requires
            of == 100 * m,
            lo <= 100 * x,
            100 * (x + 1) <= hi,
            0 < m,
    ;
}

/// From `first` to `last` of `n` pixels, a hundredth wider on both sides, on an edge
/// of `full` pixels: the pixels `from` to `to`, rounded outward.
spec fn spans(first: int, last: int, n: int, full: int, from: int, to: int) -> bool {
    let lo = if 100 * first < n {
        0
    } else {
        100 * first - n
    };
    let hi = if 100 * (last + 1) + n < 100 * n {
        100 * (last + 1) + n
    } else {
        100 * n
    };
    &&& from * (100 * n) <= lo * full < (from + 1) * (100 * n)
    &&& to * (100 * n) < hi * full <= (to + 1) * (100 * n)
    &&& 0 <= from <= to < full
}

proof fn lemma_exact_span(first: int, last: int, n: u32, full: u32, from: int, to: int)
    requires
        0 <= first <= last < n <= 250,
        0 < full,
        ({
            let s = widened(Span { lo: first as u64, hi: (last + 1) as u64, of: n as u64 });
            from == pixels_of(s, full).0 && to == pixels_of(s, full).1
        }),
    ensures
        spans(first, last, n as int, full as int, from, to),
{
    let s = widened(Span { lo: first as u64, hi: (last + 1) as u64, of: n as u64 });
    let (lo, hi, of, m) = (s.lo as int, s.hi as int, s.of as int, full as int);
    assert(of == 100 * n && 0 <= lo < of && lo < hi <= of);
    law_pixels_hold_the_stretch(s, full);
    let q = (lo * m) / of;
    let r = (hi * m + of - 1) / of;
    assert(q * of <= lo * m < (q + 1) * of) by (nonlinear_arith)
        requires
            q == (lo * m) / of,
            0 < of,
    ;
    assert(q <= m - 1) by (nonlinear_arith)
        requires
            q * of <= lo * m,
            0 <= lo < of,
            0 < m,
    ;
    assert((r - 1) * of < hi * m <= r * of) by (nonlinear_arith)
        requires
            r == (hi * m + of - 1) / of,
            0 < of,
    ;
    assert(r <= m) by (nonlinear_arith)
        requires
            (r - 1) * of < hi * m,
            hi <= of,
            0 < of,
            0 < m,
    ;
    assert(q + 1 <= r) by (nonlinear_arith)
        requires
            q * of <= lo * m,
            hi * m <= r * of,
            lo < hi,
            0 < of,
            0 < m,
    ;
    assert(from == q && to == r - 1);
}

proof fn lemma_held(first: int, last: int, n: int, full: int, from: int, to: int, x: int)
    requires
        0 <= first <= x <= last < n,
        0 < full,
        spans(first, last, n, full, from, to),
    ensures
        from * n <= x * full,
        (x + 1) * full <= (to + 1) * n,
        from == 0 || from * (100 * n) <= (100 * x - n) * full,
        to + 1 == full || (100 * (x + 1) + n) * full <= (to + 1) * (100 * n),
{
    let lo = if 100 * first < n {
        0
    } else {
        100 * first - n
    };
    let hi = if 100 * (last + 1) + n < 100 * n {
        100 * (last + 1) + n
    } else {
        100 * n
    };
    assert(from * n <= x * full) by (nonlinear_arith)
        requires
            from * (100 * n) <= lo * full,
            lo <= 100 * x,
            0 < full,
    ;
    assert((x + 1) * full <= (to + 1) * n) by (nonlinear_arith)
        requires
            hi * full <= (to + 1) * (100 * n),
            100 * (x + 1) <= hi,
            0 < full,
    ;
    if from > 0 {
        assert(lo > 0) by (nonlinear_arith)
            requires
                from * (100 * n) <= lo * full,
                0 < from,
                0 < n,
                0 < full,
        ;
        assert(lo * full <= (100 * x - n) * full) by (nonlinear_arith)
            requires
                lo <= 100 * x - n,
                0 < full,
        ;
    }
    if to + 1 < full {
        if hi == 100 * n {
            assert(false) by (nonlinear_arith)
                requires
                    (100 * n) * full <= (to + 1) * (100 * n),
                    to + 1 < full,
                    0 < n,
            ;
        }
        assert((100 * (x + 1) + n) * full <= hi * full) by (nonlinear_arith)
            requires
                100 * (x + 1) + n <= hi,
                0 < full,
        ;
    }
}

/// The box is no larger than that asks for: some pixel of the piece reaches, with
/// its hundredth, into the first column of the box, some into the last, some into
/// the first row and some into the last.
pub proof fn law_the_box_is_tight(
    image: &RgbaImage,
    full: (u32, u32),
    delta: Seq<u64>,
    p50: u64,
    p90: u64,
    i: int,
    c: Component,
    hint: SubjectHint,
)
    requires
        image.wf(),
        image.w() <= 250,
        image.h() <= 250,
        0 < full.0,
        0 < full.1,
        hints(image, full, delta, p50, p90, i, c, hint),
    ensures
        ({
            let ground = |x: int, y: int| stands_out(image, delta, p90, x, y);
            let o = origin(image, i);
            let (w, h) = (image.w() as int, image.h() as int);
            &&& exists|q: (int, int)| #[trigger]
                hangs_together(ground, o, q) && (100 * q.0 - w) * full.0 < (hint.bbox.0 + 1) * (100 * w)
            &&& exists|q: (int, int)| #[trigger]
                hangs_together(ground, o, q) && hint.bbox.2 * (100 * w) < (100 * (q.0 + 1) + w) * full.0
            &&& exists|q: (int, int)| #[trigger]
                hangs_together(ground, o, q) && (100 * q.1 - h) * full.1 < (hint.bbox.1 + 1) * (100 * h)
            &&& exists|q: (int, int)| #[trigger]
                hangs_together(ground, o, q) && hint.bbox.3 * (100 * h) < (100 * (q.1 + 1) + h) * full.1
        }),
{
    lemma_measured(image, full, delta, p50, p90, i, c, hint);
    let all = measured(image, delta, p90, i);
    let ground = |x: int, y: int| stands_out(image, delta, p90, x, y);
    let o = origin(image, i);
    let (w, h) = (image.w() as int, image.h() as int);
    let far = far_plane(image, delta, at_least(p90, UNIFORM_DELTA_E));
    let a = choose|q: (int, int)| #[trigger] all.contains(q) && q.0 == c.bbox.0;
    let b = choose|q: (int, int)| #[trigger] all.contains(q) && q.0 == c.bbox.2;
    let d = choose|q: (int, int)| #[trigger] all.contains(q) && q.1 == c.bbox.1;
    let e = choose|q: (int, int)| #[trigger] all.contains(q) && q.1 == c.bbox.3;
    assert(all.contains(a) && all.contains(b) && all.contains(d) && all.contains(e));
    lemma_hangs_inside(w, h, far, ground, o, a);
    lemma_hangs_inside(w, h, far, ground, o, b);
    lemma_hangs_inside(w, h, far, ground, o, d);
    lemma_hangs_inside(w, h, far, ground, o, e);
    lemma_exact_span(c.bbox.0 as int, c.bbox.2 as int, image.w(), full.0, hint.bbox.0 as int, hint.bbox.2 as int);
    lemma_exact_span(c.bbox.1 as int, c.bbox.3 as int, image.h(), full.1, hint.bbox.1 as int, hint.bbox.3 as int);
    lemma_tight(c.bbox.0 as int, c.bbox.2 as int, w, full.0 as int, hint.bbox.0 as int, hint.bbox.2 as int);
    lemma_tight(c.bbox.1 as int, c.bbox.3 as int, h, full.1 as int, hint.bbox.1 as int, hint.bbox.3 as int);
    assert(hangs_together(ground, o, a) && hangs_together(ground, o, b));
    assert(hangs_together(ground, o, d) && hangs_together(ground, o, e));
}

proof fn lemma_tight(first: int, last: int, n: int, full: int, from: int, to: int)
    requires
        0 <= first <= last < n,
        0 < full,
        spans(first, last, n, full, from, to),
    ensures
        (100 * first - n) * full < (from + 1) * (100 * n),
        to * (100 * n) < (100 * (last + 1) + n) * full,
{
    let lo = if 100 * first < n {
        0
    } else {
        100 * first - n
    };
    let hi = if 100 * (last + 1) + n < 100 * n {
        100 * (last + 1) + n
    } else {
        100 * n
    };
    assert((100 * first - n) * full <= lo * full) by (nonlinear_arith)
        requires
            100 * first - n <= lo,
            0 < full,
    ;
    assert(hi * full <= (100 * (last + 1) + n) * full) by (nonlinear_arith)
        requires
            hi <= 100 * (last + 1) + n,
            0 < full,
    ;
}

/// The piece is all that hangs together with its origin, and there is no larger
/// one. It touches the edge where it has a pixel on the frame of the image.
pub proof fn law_the_product_is_the_largest_piece(
    image: &RgbaImage,
    full: (u32, u32),
    delta: Seq<u64>,
    p50: u64,
    p90: u64,
    i: int,
    c: Component,
    hint: SubjectHint,
    p: (int, int),
    other: Set<(int, int)>,
)
    requires
        image.wf(),
        hints(image, full, delta, p50, p90, i, c, hint),
        stands_out(image, delta, p90, p.0, p.1),
        forall|q: (int, int)| #[trigger]
            other.contains(q) <==> hangs_together(|x: int, y: int| stands_out(image, delta, p90, x, y), p, q),
    ensures
        stands_out(image, delta, p90, origin(image, i).0, origin(image, i).1),
        other.finite(),
        other.len() <= hint.area,
        p == origin(image, i) ==> other.len() == hint.area,
        p == origin(image, i) ==> (hint.touches_edge <==> exists|q: (int, int)| #[trigger]
            other.contains(q) && (q.0 == 0 || q.1 == 0 || q.0 == image.w() - 1 || q.1 == image.h() - 1)),
{
    let (w, h) = (image.w() as int, image.h() as int);
    lemma_measured(image, full, delta, p50, p90, i, c, hint);
    let far = far_plane(image, delta, at_least(p90, UNIFORM_DELTA_E));
    let ground = |x: int, y: int| stands_out(image, delta, p90, x, y);
    let j = at(w, p.0, p.1);
    lemma_at_bound(w, h, p.0, p.1);
    lemma_at_split(w, p.0, p.1);
    assert(ground(p.0, p.1) == far[p.1 * w + p.0]);
    lemma_piece_counts(w, h, far, ground, p, other);
    assert(piece(w, far, j).len() <= piece(w, far, i).len());
    let all = measured(image, delta, p90, i);
    if p == origin(image, i) {
        assert(other =~= all);
        if hint.touches_edge {
            let a = choose|q: (int, int)| #[trigger] all.contains(q) && q.0 == c.bbox.0;
            let b = choose|q: (int, int)| #[trigger] all.contains(q) && q.0 == c.bbox.2;
            let d = choose|q: (int, int)| #[trigger] all.contains(q) && q.1 == c.bbox.1;
            let e = choose|q: (int, int)| #[trigger] all.contains(q) && q.1 == c.bbox.3;
            assert(other.contains(a) && other.contains(b) && other.contains(d) && other.contains(e));
        }
        if exists|q: (int, int)| #[trigger]
            other.contains(q) && (q.0 == 0 || q.1 == 0 || q.0 == image.w() - 1 || q.1 == image.h() - 1) {
            let q = choose|q: (int, int)| #[trigger]
                other.contains(q) && (q.0 == 0 || q.1 == 0 || q.0 == image.w() - 1 || q.1 == image.h() - 1);
            assert(all.contains(q));
            let a = choose|q: (int, int)| #[trigger] all.contains(q) && q.0 == c.bbox.2;
            let b = choose|q: (int, int)| #[trigger] all.contains(q) && q.1 == c.bbox.3;
            assert(all.contains(a) && all.contains(b));
            lemma_hangs_inside(w, h, far, ground, p, a);
            lemma_hangs_inside(w, h, far, ground, p, b);
        }
    }
}

/// A set of pixels that hang together is as large as their component.
proof fn lemma_piece_counts(
    w: int,
    h: int,
    open: Seq<bool>,
    ground: spec_fn(int, int) -> bool,
    p: (int, int),
    all: Set<(int, int)>,
)
    requires
        maps(w, h, open, ground),
        ground(p.0, p.1),
        forall|q: (int, int)| #[trigger] all.contains(q) <==> hangs_together(ground, p, q),
    ensures
        all.finite(),
        all.len() == component(w, false, open, at(w, p.0, p.1)).len(),
{
    let places = component(w, false, open, at(w, p.0, p.1));
    assert forall|k: int| #[trigger] places.contains(k) implies 0 <= k < w * h by {
        lemma_joined_open(w, false, open, at(w, p.0, p.1), k);
    }
    assert forall|q: (int, int)| #[trigger] all.contains(q) <==> 0 <= q.0 < w && 0 <= q.1 < h && places.contains(
        at(w, q.0, q.1),
    ) by {
        if hangs_together(ground, p, q) {
            lemma_hangs_inside(w, h, open, ground, p, q);
        }
        if 0 <= q.0 < w && 0 <= q.1 < h {
            lemma_joined_hangs(w, h, open, ground, p, q);
        }
    }
    let range = set_int_range(0, w * h);
    lemma_int_range(0, w * h);
    assert(places.subset_of(range));
    lemma_len_subset(places, range);
    lemma_pixels_count(w, h, places, all);
}

/// The counts of a hint are those of the image, and it is trusted if the piece is
/// at least a twentieth of the image, at least seven tenths of all that stands out,
/// and less than three twentieths of the image were left outside in one piece.
pub proof fn law_trust_rests_on_counts(
    image: &RgbaImage,
    full: (u32, u32),
    delta: Seq<u64>,
    p50: u64,
    p90: u64,
    i: int,
    c: Component,
    hint: SubjectHint,
    all: Set<(int, int)>,
)
    requires
        image.wf(),
        hints(image, full, delta, p50, p90, i, c, hint),
        forall|q: (int, int)| #[trigger] all.contains(q) <==> stands_out(image, delta, p90, q.0, q.1),
    ensures
        hint.pixels == image.w() * image.h(),
        all.finite(),
        hint.far == all.len(),
        hint.confidence == Confidence::High <==> 20 * hint.area >= hint.pixels && 10 * hint.area >= 7 * hint.far && 20
            * hint.leftover < 3 * hint.pixels,
{
    let (w, h) = (image.w() as int, image.h() as int);
    lemma_measured(image, full, delta, p50, p90, i, c, hint);
    let far = far_plane(image, delta, at_least(p90, UNIFORM_DELTA_E));
    let ground = |x: int, y: int| stands_out(image, delta, p90, x, y);
    let places = Set::new(|k: int| 0 <= k < far.len() && far[k]);
    lemma_tally_counts(far, places);
    assert forall|q: (int, int)| #[trigger] all.contains(q) <==> 0 <= q.0 < w && 0 <= q.1 < h && places.contains(
        at(w, q.0, q.1),
    ) by {
        if 0 <= q.0 < w && 0 <= q.1 < h {
            lemma_at_bound(w, h, q.0, q.1);
            assert(ground(q.0, q.1) == far[q.1 * w + q.0]);
        }
    }
    lemma_pixels_count(w, h, places, all);
}

/// What was left outside is the largest piece that stands out from the background
/// beyond the box of the product, by the median of the border; there is none only
/// where nothing does.
pub proof fn law_the_leftover_is_the_largest_piece_outside(
    image: &RgbaImage,
    full: (u32, u32),
    delta: Seq<u64>,
    p50: u64,
    p90: u64,
    i: int,
    c: Component,
    hint: SubjectHint,
    bounds: Rect,
    p: (int, int),
    other: Set<(int, int)>,
)
    requires
        image.wf(),
        hints(image, full, delta, p50, p90, i, c, hint),
        box_of(
            Set::new(
                |q: (int, int)|
                    hangs_together(|x: int, y: int| stands_out(image, delta, p90, x, y), origin(image, i), q),
            ),
            bounds,
        ),
        stands_out(image, delta, p50, p.0, p.1),
        p.0 < bounds.0 || p.0 > bounds.2 || p.1 < bounds.1 || p.1 > bounds.3,
        forall|q: (int, int)| #[trigger]
            other.contains(q) <==> hangs_together(
                |x: int, y: int|
                    stands_out(image, delta, p50, x, y) && (x < bounds.0 || x > bounds.2 || y < bounds.1 || y
                        > bounds.3),
                p,
                q,
            ),
    ensures
        other.finite(),
        0 < other.len() <= hint.leftover,
{
    let (w, h) = (image.w() as int, image.h() as int);
    lemma_measured(image, full, delta, p50, p90, i, c, hint);
    let all = measured(image, delta, p90, i);
    assert(all =~= Set::new(
        |q: (int, int)| hangs_together(|x: int, y: int| stands_out(image, delta, p90, x, y), origin(image, i), q),
    ));
    lemma_one_box(all, bounds, c.bbox);
    let threshold = at_least(p50, UNIFORM_DELTA_E);
    lemma_far(image, delta, p50, threshold);
    let outside = outside_plane(image, delta, threshold, bounds);
    let plain = |x: int, y: int| stands_out(image, delta, p50, x, y);
    let ground = |x: int, y: int|
        stands_out(image, delta, p50, x, y) && (x < bounds.0 || x > bounds.2 || y < bounds.1 || y > bounds.3);
    assert forall|x: int, y: int| 0 <= x < w && 0 <= y < h implies outside[y * w + x] == #[trigger] ground(x, y) by {
        lemma_at_bound(w, h, x, y);
        lemma_at_split(w, x, y);
        assert(far_plane(image, delta, threshold)[y * w + x] == plain(x, y));
    }
    assert(maps(w, h, outside, ground));
    let j = at(w, p.0, p.1);
    lemma_at_bound(w, h, p.0, p.1);
    assert(ground(p.0, p.1) == outside[p.1 * w + p.0]);
    lemma_piece_counts(w, h, outside, ground, p, other);
    lemma_joined_here(w, false, outside, j);
    lemma_joined_hangs(w, h, outside, ground, p, p);
    assert(other.contains(p));
    assert(other.len() > 0) by {
        if other.len() == 0 {
            assert(other =~= Set::empty());
        }
    }
    assert(outside[j]);
    let k = choose|k: int| #[trigger] in_largest(w, outside, k) && hint.leftover == piece(w, outside, k).len();
    assert(piece(w, outside, j).len() <= piece(w, outside, k).len());
}

/// A set has one box.
proof fn lemma_one_box(s: Set<(int, int)>, a: Rect, b: Rect)
    requires
        box_of(s, a),
        box_of(s, b),
    ensures
        a == b,
{
    let a0 = choose|p: (int, int)| #[trigger] s.contains(p) && p.0 == a.0;
    let a1 = choose|p: (int, int)| #[trigger] s.contains(p) && p.1 == a.1;
    let a2 = choose|p: (int, int)| #[trigger] s.contains(p) && p.0 == a.2;
    let a3 = choose|p: (int, int)| #[trigger] s.contains(p) && p.1 == a.3;
    let b0 = choose|p: (int, int)| #[trigger] s.contains(p) && p.0 == b.0;
    let b1 = choose|p: (int, int)| #[trigger] s.contains(p) && p.1 == b.1;
    let b2 = choose|p: (int, int)| #[trigger] s.contains(p) && p.0 == b.2;
    let b3 = choose|p: (int, int)| #[trigger] s.contains(p) && p.1 == b.3;
    assert(in_rect(b, a0.0, a0.1) && in_rect(b, a1.0, a1.1) && in_rect(b, a2.0, a2.1) && in_rect(b, a3.0, a3.1));
    assert(in_rect(a, b0.0, b0.1) && in_rect(a, b1.0, b1.1) && in_rect(a, b2.0, b2.1) && in_rect(a, b3.0, b3.1));
}

/// The leftover is a piece that there is, or nothing.
pub proof fn law_a_leftover_is_there(
    image: &RgbaImage,
    full: (u32, u32),
    delta: Seq<u64>,
    p50: u64,
    p90: u64,
    i: int,
    c: Component,
    hint: SubjectHint,
)
    requires
        image.wf(),
        hints(image, full, delta, p50, p90, i, c, hint),
    ensures
        hint.leftover == 0 || exists|p: (int, int)| {
            &&& #[trigger] stands_out(image, delta, p50, p.0, p.1)
            &&& !in_rect(c.bbox, p.0, p.1)
            &&& hint.leftover == Set::new(
                |q: (int, int)|
                    hangs_together(
                        |x: int, y: int| stands_out(image, delta, p50, x, y) && !in_rect(c.bbox, x, y),
                        p,
                        q,
                    ),
            ).len()
        },
{
    let (w, h) = (image.w() as int, image.h() as int);
    lemma_measured(image, full, delta, p50, p90, i, c, hint);
    let threshold = at_least(p50, UNIFORM_DELTA_E);
    lemma_far(image, delta, p50, threshold);
    let outside = outside_plane(image, delta, threshold, c.bbox);
    let plain = |x: int, y: int| stands_out(image, delta, p50, x, y);
    let ground = |x: int, y: int| stands_out(image, delta, p50, x, y) && !in_rect(c.bbox, x, y);
    assert forall|x: int, y: int| 0 <= x < w && 0 <= y < h implies outside[y * w + x] == #[trigger] ground(x, y) by {
        lemma_at_bound(w, h, x, y);
        lemma_at_split(w, x, y);
        assert(far_plane(image, delta, threshold)[y * w + x] == plain(x, y));
    }
    assert(maps(w, h, outside, ground));
    if hint.leftover != 0 {
        let k = choose|k: int| #[trigger] in_largest(w, outside, k) && hint.leftover == piece(w, outside, k).len();
        lemma_at_join(w, h, k);
        let p = (k % w, k / w);
        assert(ground(p.0, p.1) == outside[p.1 * w + p.0]);
        let all = Set::new(|q: (int, int)| hangs_together(ground, p, q));
        lemma_piece_counts(w, h, outside, ground, p, all);
        assert(stands_out(image, delta, p50, p.0, p.1));
    }
}

/// The mean colour is that of all pixels of the piece, rounded down.
pub proof fn law_the_mean_is_that_of_the_piece(
    image: &RgbaImage,
    full: (u32, u32),
    delta: Seq<u64>,
    p50: u64,
    p90: u64,
    i: int,
    c: Component,
    hint: SubjectHint,
    k: int,
)
    requires
        image.wf(),
        hints(image, full, delta, p50, p90, i, c, hint),
        0 <= k < 3,
    ensures
        ({
            let ground = |x: int, y: int| stands_out(image, delta, p90, x, y);
            let light = rect_sum(
                |x: int, y: int|
                    if hangs_together(ground, origin(image, i), (x, y)) {
                        image@[y * image.w() + x][k] as int
                    } else {
                        0
                    },
                0,
                image.w() as int,
                0,
                image.h() as int,
            );
            hint.mean[k] * hint.area <= light < (hint.mean[k] + 1) * hint.area
        }),
{
    let (w, h) = (image.w() as int, image.h() as int);
    lemma_measured(image, full, delta, p50, p90, i, c, hint);
    let all = measured(image, delta, p90, i);
    let far = far_plane(image, delta, at_least(p90, UNIFORM_DELTA_E));
    let ground = |x: int, y: int| stands_out(image, delta, p90, x, y);
    let o = origin(image, i);
    let g = |x: int, y: int|
        if hangs_together(ground, o, (x, y)) {
            image@[y * image.w() + x][k] as int
        } else {
            0
        };
    let s = channel_over(image, piece(w, far, i), k);
    assert forall|x: int, y: int| 0 <= x < w && 0 <= y < h implies #[trigger] g(x, y) == s[y * w + x] by {
        lemma_at_bound(w, h, x, y);
        assert(all.contains((x, y)) <==> hangs_together(ground, o, (x, y)));
        assert(all.contains((x, y)) <==> piece(w, far, i).contains(at(w, x, y)));
    }
    lemma_plane_sum(s, w, h, g);
    let n = c.area as int;
    assert(all.contains(o)) by {
        lemma_at_join(w, h, i);
        lemma_joined_here(w, false, far, i);
    }
    assert(n > 0) by {
        if n == 0 {
            assert(all =~= Set::empty());
        }
    }
    let t = c.sum[k] as int;
    assert(hint.mean[k] == t / n);
    let m = hint.mean[k] as int;
    assert(m * n <= t < (m + 1) * n) by (nonlinear_arith)
        requires
            m == t / n,
            0 < n,
    ;
}

} // verus!
