//! Repainting of the band by colour and by majority.
use vstd::prelude::*;

use crate::cutout::blur::{window_end, window_from};
use crate::cutout::chamfer::span;
use crate::cutout::cells::{linear_ok, RIM_SQUARE_ONE};
use crate::cutout::contour::{
    contour_pixels, contour_plane, farther_than, grow, grown, lists_pixels, whole, CHAMFER_MAX_PX,
};
use crate::cutout::diagnostics::scale_at_1000;
use crate::cutout::local_colour::{build, window_pixels, Lean, LocalColours, Role, RIM_WINDOW};
use crate::cutout::mask::Mask;
use crate::cutout::morphology::{long_edge, BitPlane};
use crate::cutout::reshape::{band_bounds, band_set, close_new_gaps, Gaps};
use crate::geometry::{at, box_of_any, in_rect, lemma_at_bound, lemma_at_split, place, rect_on, Rect};
use crate::raster::RgbaImage;
use crate::sums::{lemma_span_bound, lemma_span_left, lemma_span_same, span_sum};
use crate::tally::{lemma_tally_step, lists, ones, tally};

verus! {

/// What one pass of repainting goes by.
pub struct Repaint<'a> {
    /// The mask before any repainting.
    pub original: &'a Mask,
    /// The width of the band at each pixel, 0 outside it.
    pub band: &'a [u8],
    /// Pixels too far from the original contour; an empty plane holds none.
    pub out_of_reach: &'a BitPlane,
    /// Which side the colour of each pixel leans to, where that can be told.
    pub leans: &'a [Option<Lean>],
    /// The rectangle that holds the band.
    pub bounds: Rect,
}

/// 1 at the foreground, 0 elsewhere.
pub open spec fn ballot(shape: &Mask) -> spec_fn(int, int) -> int {
    |u: int, v: int| if shape.fg(u, v) { 1int } else { 0 }
}

/// The foreground of column `u` in the rows `a..b`.
pub open spec fn column_votes(shape: &Mask, u: int, a: int, b: int) -> int {
    span_sum(|v: int| ballot(shape)(u, v), a, b)
}

/// The votes of the columns in the rows `a..b`.
pub open spec fn votes_by_column(shape: &Mask, a: int, b: int) -> spec_fn(int) -> int {
    |u: int| column_votes(shape, u, a, b)
}

/// How many pixels of the window around `(x, y)` are foreground.
pub open spec fn votes(shape: &Mask, x: int, y: int, r: int) -> int {
    let (w, h) = (shape.w() as int, shape.h() as int);
    span_sum(
        votes_by_column(shape, window_from(r, y), window_end(h, r, y)),
        window_from(r, x),
        window_end(w, r, x),
    )
}

/// How many pixels the window around `(x, y)` has on the image.
pub open spec fn voters(w: int, h: int, x: int, y: int, r: int) -> int {
    (window_end(w, r, x) - window_from(r, x)) * (window_end(h, r, y) - window_from(r, y))
}

impl<'a> Repaint<'a> {
    /// Everything is of the size of the mask.
    pub open spec fn fits(&self, shape: &Mask) -> bool {
        &&& shape.wf()
        &&& self.original.wf()
        &&& self.original.w() == shape.w()
        &&& self.original.h() == shape.h()
        &&& self.band@.len() == shape@.len()
        &&& self.leans@.len() == shape@.len()
        &&& self.out_of_reach.wf()
        &&& self.out_of_reach@.len() == 0 || self.out_of_reach@.len() == shape@.len()
        &&& rect_on(self.bounds, shape.w() as int, shape.h() as int)
    }

    /// Place `i` may be repainted: it lies in the band and in reach.
    pub open spec fn movable(&self, w: int, i: int) -> bool {
        &&& in_rect(self.bounds, i % w, i / w)
        &&& self.band@[i] != 0
        &&& !(self.out_of_reach@.len() > 0 && self.out_of_reach@[i])
    }

    /// The colour at `i` contradicts the mask.
    pub open spec fn recolours(&self, shape: &Mask, i: int) -> bool {
        let w = shape.w() as int;
        &&& self.movable(w, i)
        &&& self.leans@[i] == if shape.fg(i % w, i / w) {
            Some(Lean::Background)
        } else {
            Some(Lean::Foreground)
        }
    }

    /// The places that colour repaints.
    pub open spec fn recoloured(&self, shape: &Mask) -> Seq<bool> {
        Seq::new(shape@.len(), |i: int| self.recolours(shape, i))
    }

    /// The majority around `i` outvotes the mask there. Where the fill had found
    /// background, a majority alone brings nothing back; and it does not stand
    /// against a colour that leans the other way. A tie moves nothing.
    pub open spec fn outvotes(&self, shape: &Mask, r: int, i: int) -> bool {
        let (w, h) = (shape.w() as int, shape.h() as int);
        let (x, y) = (i % w, i / w);
        let inside = 2 * votes(shape, x, y, r);
        let total = voters(w, h, x, y, r);
        &&& self.movable(w, i)
        &&& if shape.fg(x, y) {
            inside < total && self.leans@[i] != Some(Lean::Foreground)
        } else {
            inside > total && self.leans@[i] != Some(Lean::Background) && self.original.fg(x, y)
        }
    }

    /// The places that the majority repaints.
    pub open spec fn outvoted(&self, shape: &Mask, r: int) -> Seq<bool> {
        Seq::new(shape@.len(), |i: int| self.outvotes(shape, r, i))
    }

    fn may_move(&self, shape: &Mask, x: u32, y: u32, i: usize) -> (b: bool)
        requires
            self.fits(shape),
            shape.inside(x as int, y as int),
            i == at(shape.w() as int, x as int, y as int),
        ensures
            b == self.movable(shape.w() as int, i as int),
    {
        proof {
            lemma_at_bound(shape.w() as int, shape.h() as int, x as int, y as int);
            lemma_at_split(shape.w() as int, x as int, y as int);
        }
        x >= self.bounds.0 && x <= self.bounds.2 && y >= self.bounds.1 && y <= self.bounds.3 && self.band[i] != 0
            && !self.out_of_reach.contains(i)
    }

    /// Repaints the pixels of the band whose colour leans to the other side, and
    /// returns how many there were. What cannot be told stays.
    pub fn reclassify_rim(&self, shape: &mut Mask) -> (changed: usize)
        requires
            self.fits(old(shape)),
        ensures
            self.fits(final(shape)),
            final(shape).w() == old(shape).w(),
            final(shape).h() == old(shape).h(),
            final(shape)@ == flipped(old(shape)@, self.recoloured(old(shape))),
            changed == tally(self.recoloured(old(shape))),
    {
        let w: u32 = shape.width();
        let h: u32 = shape.height();
        let ghost (wi, hi) = (w as int, h as int);
        let ghost s = self.recoloured(shape);
        let n: usize = (w as usize) * (h as usize);
        let mut changed: usize = 0;
        let mut i: usize = 0;
        assert(s.take(0) =~= Seq::empty());
        while i < n
            invariant
                self.fits(old(shape)),
                self.fits(shape),
                wi == w == shape.w() == old(shape).w(),
                hi == h == shape.h() == old(shape).h(),
                n == w * h == shape@.len() == old(shape)@.len(),
                s == self.recoloured(old(shape)),
                i <= n,
                changed == tally(s.take(i as int)),
                changed <= i,
                forall|k: int|
                    0 <= k < n ==> #[trigger] shape@[k] == if k < i {
                        flipped(old(shape)@, s)[k]
                    } else {
                        old(shape)@[k]
                    },
            decreases n - i,
        {
            proof {
                crate::cutout::cells::lemma_small_place(wi, hi, i as int);
                lemma_tally_step(s, i as int);
            }
            let x: u32 = (i % (w as usize)) as u32;
            let y: u32 = (i / (w as usize)) as u32;
            assert(shape.px(x as int, y as int) == old(shape).px(x as int, y as int));
            if self.may_move(shape, x, y, i) {
                let fg: bool = shape.is_foreground(x, y);
                match (fg, self.leans[i]) {
                    (true, Some(Lean::Background)) => {
                        shape.set(x, y, 0);
                        changed += 1;
                    },
                    (false, Some(Lean::Foreground)) => {
                        shape.set(x, y, 255);
                        changed += 1;
                    },
                    _ => {},
                }
            }
            i += 1;
        }
        assert(s.take(n as int) =~= s);
        assert(shape@ =~= flipped(old(shape)@, s));
        changed
    }

    /// Repaints the pixels of the band that the majority of the window of radius
    /// `radius` outvotes, and returns how many there were. Every vote is taken on
    /// the mask as it was.
    #[verifier::rlimit(60)]
    pub fn smooth_in_band(&self, shape: &mut Mask, radius: u32) -> (changed: usize)
        requires
            self.fits(old(shape)),
        ensures
            self.fits(final(shape)),
            final(shape).w() == old(shape).w(),
            final(shape).h() == old(shape).h(),
            final(shape)@ == flipped(old(shape)@, self.outvoted(old(shape), radius as int)),
            changed == tally(self.outvoted(old(shape), radius as int)),
    {
        let w: u32 = shape.width();
        let h: u32 = shape.height();
        let ghost (wi, hi, r) = (w as int, h as int, radius as int);
        let ghost s = self.outvoted(shape, r);
        let snapshot: BitPlane = snapshot_of(shape);
        let mut changed: usize = 0;
        let mut columns: Vec<u32> = first_columns(&snapshot, w, h, radius, Ghost(*shape));
        let mut y: u32 = 0;
        assert(s.take(0) =~= Seq::empty());
        assert(at(wi, 0, 0) == 0) by (nonlinear_arith)
            requires
                at(wi, 0, 0) == 0 * wi + 0,
        ;
        while y < h
            invariant
                self.fits(old(shape)),
                self.fits(shape),
                wi == w == shape.w() == old(shape).w(),
                hi == h == shape.h() == old(shape).h(),
                r == radius,
                wi * hi == shape@.len() == old(shape)@.len(),
                s == self.outvoted(old(shape), r),
                snapshot.wf(),
                snapshot@ == fg_plane(old(shape)),
                y <= h,
                columns@.len() == w,
                y < h ==> forall|u: int|
                    0 <= u < wi ==> #[trigger] columns@[u] == column_votes(
                        old(shape),
                        u,
                        window_from(r, y as int),
                        window_end(hi, r, y as int),
                    ),
                0 <= at(wi, 0, y as int) <= s.len(),
                changed == tally(s.take(at(wi, 0, y as int))),
                changed <= at(wi, 0, y as int),
                forall|k: int|
                    0 <= k < s.len() ==> #[trigger] shape@[k] == if k < at(wi, 0, y as int) {
                        flipped(old(shape)@, s)[k]
                    } else {
                        old(shape)@[k]
                    },
            decreases h - y,
        {
            let counts: Vec<u64> = window_votes(&columns, radius);
            let mut x: u32 = 0;
            while x < w
                invariant
                    self.fits(old(shape)),
                    self.fits(shape),
                    wi == w == shape.w() == old(shape).w(),
                    hi == h == shape.h() == old(shape).h(),
                    r == radius,
                    wi * hi == shape@.len() == old(shape)@.len(),
                    s == self.outvoted(old(shape), r),
                    snapshot.wf(),
                    snapshot@ == fg_plane(old(shape)),
                    x <= w,
                    y < h,
                    columns@.len() == w,
                    forall|u: int|
                        0 <= u < wi ==> #[trigger] columns@[u] == column_votes(
                            old(shape),
                            u,
                            window_from(r, y as int),
                            window_end(hi, r, y as int),
                        ),
                    counts@.len() == w,
                    forall|u: int|
                        0 <= u < wi ==> #[trigger] counts@[u] == span_sum(
                            as_function(columns@),
                            window_from(r, u),
                            window_end(wi, r, u),
                        ),
                    0 <= at(wi, x as int, y as int) <= s.len(),
                    changed == tally(s.take(at(wi, x as int, y as int))),
                    changed <= at(wi, x as int, y as int),
                    forall|k: int|
                        0 <= k < s.len() ==> #[trigger] shape@[k] == if k < at(wi, x as int, y as int) {
                            flipped(old(shape)@, s)[k]
                        } else {
                            old(shape)@[k]
                        },
                decreases w - x,
            {
                let i: usize = place(w as usize, x as usize, y as usize, Ghost(hi));
                proof {
                    lemma_at_split(wi, x as int, y as int);
                    lemma_tally_step(s, i as int);
                    assert(shape.px(x as int, y as int) == old(shape).px(x as int, y as int));
                    let a = window_from(r, y as int);
                    let b = window_end(hi, r, y as int);
                    assert forall|u: int| window_from(r, x as int) <= u < window_end(wi, r, x as int) implies (
                    #[trigger] as_function(columns@)(u)) == votes_by_column(old(shape), a, b)(u) by {
                        assert(columns@[u] == column_votes(old(shape), u, a, b));
                    }
                    lemma_span_same(
                        as_function(columns@),
                        votes_by_column(old(shape), a, b),
                        window_from(r, x as int),
                        window_end(wi, r, x as int),
                    );
                }
                if self.may_move(shape, x, y, i) {
                    let inside: u128 = counts[x as usize] as u128;
                    let across: u32 = window_size(w, radius, x);
                    let down: u32 = window_size(h, radius, y);
                    proof {
                        assert(across * down <= u32::MAX * u32::MAX) by (nonlinear_arith)
                            requires
                                across <= u32::MAX,
                                down <= u32::MAX,
                        ;
                    }
                    let total: u128 = (across as u128) * (down as u128);
                    let fg: bool = snapshot.get(i);
                    let lean: Option<Lean> = self.leans[i];
                    if fg {
                        if 2 * inside < total && !matches!(lean, Some(Lean::Foreground)) {
                            shape.set(x, y, 0);
                            changed += 1;
                        }
                    } else if 2 * inside > total && !matches!(lean, Some(Lean::Background))
                        && self.original.is_foreground(x, y) {
                        shape.set(x, y, 255);
                        changed += 1;
                    }
                }
                x += 1;
            }
            proof {
                assert(at(wi, wi, y as int) == at(wi, 0, y + 1)) by (nonlinear_arith)
                    requires
                        at(wi, wi, y as int) == y * wi + wi,
                        at(wi, 0, y + 1) == (y + 1) * wi + 0,
                ;
            }
            if y + 1 < h {
                next_columns(&mut columns, &snapshot, w, h, radius, y, Ghost(*old(shape)));
            }
            y += 1;
        }
        proof {
            assert(at(wi, 0, hi) == wi * hi) by (nonlinear_arith)
                requires
                    at(wi, 0, hi) == hi * wi + 0,
            ;
            assert(s.take(s.len() as int) =~= s);
            assert(shape@ =~= flipped(old(shape)@, s));
        }
        changed
    }
}

/// A mask with the places of `s` turned to the other side.
pub open spec fn flipped(m: Seq<u8>, s: Seq<bool>) -> Seq<u8> {
    Seq::new(
        m.len(),
        |i: int|
            if s[i] {
                if m[i] >= crate::cutout::mask::FOREGROUND_THRESHOLD { 0u8 } else { 255u8 }
            } else {
                m[i]
            },
    )
}

/// The foreground as a plane.
pub open spec fn fg_plane(shape: &Mask) -> Seq<bool> {
    shape@.map_values(|v: u8| v >= crate::cutout::mask::FOREGROUND_THRESHOLD)
}

/// Numbers in a row as a function of their place.
pub open spec fn as_function(s: Seq<u32>) -> spec_fn(int) -> int {
    |u: int| s[u] as int
}

fn snapshot_of(shape: &Mask) -> (r: BitPlane)
    requires
        shape.wf(),
    ensures
        r.wf(),
        r@ == fg_plane(shape),
{
    let values: &[u8] = shape.as_slice();
    let mut r: BitPlane = BitPlane::new(values.len());
    let mut i: usize = 0;
    while i < values.len()
        invariant
            values@ == shape@,
            i <= values@.len(),
            r.wf(),
            r@.len() == values@.len(),
            forall|k: int| 0 <= k < i ==> #[trigger] r@[k] == fg_plane(shape)[k],
        decreases values@.len() - i,
    {
        r.set(i, values[i] >= crate::cutout::mask::FOREGROUND_THRESHOLD);
        i += 1;
    }
    assert(r@ =~= fg_plane(shape));
    r
}

/// How many pixels the window around `x` has on a line of `n`.
fn window_size(n: u32, radius: u32, x: u32) -> (r: u32)
    requires
        x < n,
    ensures
        r == window_end(n as int, radius as int, x as int) - window_from(radius as int, x as int),
{
    let from: u32 = if x < radius { 0 } else { x - radius };
    let end: u32 = if radius < n - x && x + radius < n - 1 { x + radius + 1 } else { n };
    end - from
}

/// The votes of each column for the first row.
fn first_columns(snapshot: &BitPlane, w: u32, h: u32, radius: u32, shape: Ghost<Mask>) -> (columns: Vec<u32>)
    requires
        shape@.wf(),
        w == shape@.w(),
        h == shape@.h(),
        snapshot.wf(),
        snapshot@ == fg_plane(&shape@),
    ensures
        columns@.len() == w,
        0 < h ==> forall|u: int|
            0 <= u < w ==> #[trigger] columns@[u] == column_votes(
                &shape@,
                u,
                window_from(radius as int, 0),
                window_end(h as int, radius as int, 0),
            ),
{
    let ghost (wi, hi, r) = (w as int, h as int, radius as int);
    let mut columns: Vec<u32> = vec![0u32; w as usize];
    if h == 0 {
        return columns;
    }
    let end: u32 = if radius < h - 1 { radius + 1 } else { h };
    let mut v: u32 = 0;
    while v < end
        invariant
            wi == w == shape@.w(),
            hi == h == shape@.h(),
            shape@.wf(),
            snapshot.wf(),
            snapshot@ == fg_plane(&shape@),
            v <= end <= h,
            columns@.len() == w,
            forall|u: int| 0 <= u < wi ==> #[trigger] columns@[u] == column_votes(&shape@, u, 0, v as int),
            forall|u: int| 0 <= u < wi ==> #[trigger] columns@[u] <= v,
        decreases end - v,
    {
        add_row(&mut columns, snapshot, w, h, v, Ghost(0), shape);
        v += 1;
    }
    columns
}

/// Adds row `v` to the votes of each column.
fn add_row(
    columns: &mut Vec<u32>,
    snapshot: &BitPlane,
    w: u32,
    h: u32,
    v: u32,
    from: Ghost<int>,
    shape: Ghost<Mask>,
)
    requires
        shape@.wf(),
        w == shape@.w(),
        h == shape@.h(),
        snapshot.wf(),
        snapshot@ == fg_plane(&shape@),
        v < h,
        from@ <= v,
        old(columns)@.len() == w,
        forall|u: int| 0 <= u < w ==> #[trigger] old(columns)@[u] == column_votes(&shape@, u, from@, v as int),
        forall|u: int| 0 <= u < w ==> #[trigger] old(columns)@[u] <= v,
    ensures
        final(columns)@.len() == w,
        forall|u: int| 0 <= u < w ==> #[trigger] final(columns)@[u] == column_votes(&shape@, u, from@, v + 1),
        forall|u: int| 0 <= u < w ==> #[trigger] final(columns)@[u] <= v + 1,
{
    let ghost (wi, hi) = (w as int, h as int);
    let ghost was = columns@;
    let mut u: u32 = 0;
    while u < w
        invariant
            wi == w == shape@.w(),
            hi == h == shape@.h(),
            shape@.wf(),
            snapshot.wf(),
            snapshot@ == fg_plane(&shape@),
            v < h,
            from@ <= v,
            u <= w,
            columns@.len() == was.len() == w,
            forall|k: int| 0 <= k < wi ==> #[trigger] was[k] == column_votes(&shape@, k, from@, v as int),
            forall|k: int| 0 <= k < wi ==> #[trigger] was[k] <= v,
            forall|k: int|
                0 <= k < wi ==> #[trigger] columns@[k] == if k < u {
                    column_votes(&shape@, k, from@, v + 1)
                } else {
                    was[k] as int
                },
            forall|k: int| 0 <= k < wi ==> #[trigger] columns@[k] <= v + 1,
        decreases w - u,
    {
        let i: usize = place(w as usize, u as usize, v as usize, Ghost(hi));
        let c: u32 = columns[u as usize];
        assert(c == was[u as int]);
        assert(snapshot@[i as int] == shape@.fg(u as int, v as int));
        assert(column_votes(&shape@, u as int, from@, v + 1) == column_votes(&shape@, u as int, from@, v as int)
            + ballot(&shape@)(u as int, v as int));
        if snapshot.get(i) {
            columns.set(u as usize, c + 1);
        }
        u += 1;
    }
}

/// Moves the votes of each column from the window of row `y` to that of the next.
fn next_columns(
    columns: &mut Vec<u32>,
    snapshot: &BitPlane,
    w: u32,
    h: u32,
    radius: u32,
    y: u32,
    shape: Ghost<Mask>,
)
    requires
        shape@.wf(),
        w == shape@.w(),
        h == shape@.h(),
        snapshot.wf(),
        snapshot@ == fg_plane(&shape@),
        y + 1 < h,
        old(columns)@.len() == w,
        forall|u: int|
            0 <= u < w ==> #[trigger] old(columns)@[u] == column_votes(
                &shape@,
                u,
                window_from(radius as int, y as int),
                window_end(h as int, radius as int, y as int),
            ),
    ensures
        final(columns)@.len() == w,
        forall|u: int|
            0 <= u < w ==> #[trigger] final(columns)@[u] == column_votes(
                &shape@,
                u,
                window_from(radius as int, y + 1),
                window_end(h as int, radius as int, y + 1),
            ),
{
    let ghost (wi, hi, r) = (w as int, h as int, radius as int);
    let ghost from = window_from(r, y as int);
    let ghost end = window_end(hi, r, y as int);
    let ghost next = window_from(r, y + 1);
    if y >= radius {
        let v: u32 = y - radius;
        let ghost was = columns@;
        let mut u: u32 = 0;
        while u < w
            invariant
                wi == w == shape@.w(),
                hi == h == shape@.h(),
                shape@.wf(),
                snapshot.wf(),
                snapshot@ == fg_plane(&shape@),
                v == from,
                v < h,
                from < end,
                u <= w,
                columns@.len() == was.len() == w,
                forall|k: int| 0 <= k < wi ==> #[trigger] was[k] == column_votes(&shape@, k, from, end),
                forall|k: int|
                    0 <= k < wi ==> #[trigger] columns@[k] == if k < u {
                        column_votes(&shape@, k, from + 1, end)
                    } else {
                        was[k] as int
                    },
            decreases w - u,
        {
            let i: usize = place(w as usize, u as usize, v as usize, Ghost(hi));
            let c: u32 = columns[u as usize];
            proof {
                assert(c == was[u as int]);
                assert(snapshot@[i as int] == shape@.fg(u as int, v as int));
                let g = |v: int| ballot(&shape@)(u as int, v);
                lemma_span_left(g, from, end);
                lemma_span_bound(g, from + 1, end, 1);
            }
            if snapshot.get(i) {
                columns.set(u as usize, c - 1);
            }
            u += 1;
        }
    }
    assert forall|u: int| 0 <= u < wi implies #[trigger] columns@[u] == column_votes(&shape@, u, next, end)
        && columns@[u] <= end by {
        let g = |v: int| ballot(&shape@)(u, v);
        lemma_span_bound(g, next, end, 1);
        assert(columns@[u] == column_votes(&shape@, u, next, end));
    }
    if radius < h - 1 - y {
        add_row(columns, snapshot, w, h, y + radius + 1, Ghost(next), shape);
    }
}

/// The votes of each window along a row, from those of the columns.
fn window_votes(columns: &Vec<u32>, radius: u32) -> (counts: Vec<u64>)
    requires
        columns@.len() <= u32::MAX,
    ensures
        counts@.len() == columns@.len(),
        forall|x: int|
            0 <= x < columns@.len() ==> #[trigger] counts@[x] == span_sum(
                as_function(columns@),
                window_from(radius as int, x),
                window_end(columns@.len() as int, radius as int, x),
            ),
{
    let n: usize = columns.len();
    let ghost (ni, r) = (n as int, radius as int);
    let ghost f = as_function(columns@);
    let mut counts: Vec<u64> = Vec::with_capacity(n);
    if n == 0 {
        return counts;
    }
    let reach: usize = radius as usize;
    let last: usize = if reach < n { reach } else { n - 1 };
    let mut sum: u64 = 0;
    let mut k: usize = 0;
    while k <= last
        invariant
            n == columns@.len() <= u32::MAX,
            last < n,
            k <= last + 1,
            f == as_function(columns@),
            sum == span_sum(f, 0, k as int),
            sum <= 0xffff_ffff * k,
        decreases last + 1 - k,
    {
        sum += columns[k] as u64;
        k += 1;
    }
    let mut x: usize = 0;
    while x < n
        invariant
            ni == n == columns@.len() <= u32::MAX,
            r == radius == reach,
            f == as_function(columns@),
            x <= n,
            counts@.len() == x,
            x < n ==> sum == span_sum(f, window_from(r, x as int), window_end(ni, r, x as int)),
            forall|u: int|
                0 <= u < x ==> #[trigger] counts@[u] == span_sum(f, window_from(r, u), window_end(ni, r, u)),
        decreases n - x,
    {
        counts.push(sum);
        let ghost from = window_from(r, x as int);
        let ghost end = window_end(ni, r, x as int);
        let ghost next = if x >= reach { from + 1 } else { from };
        proof {
            assert forall|u: int| 0 <= u < n implies 0 <= #[trigger] f(u) <= 0xffff_ffff by {}
            if x >= reach {
                lemma_span_left(f, from, end);
            }
            lemma_span_bound(f, next, end, 0xffff_ffff);
        }
        if x >= reach {
            sum -= columns[x - reach] as u64;
        }
        if reach < n - x && x + reach + 1 < n {
            sum += columns[x + reach + 1] as u64;
        }
        x += 1;
    }
    counts
}

/// How many passes of repainting there are at most.
pub const RESHAPE_PASSES: u32 = 4;

/// How many band widths a pixel may lie from the original contour and still be
/// repainted. The band is drawn anew after each pass, so without this the passes
/// together could creep far into another region.
pub const REACH_PASSES: u32 = 2;

/// The repainting of a mask, pass by pass.
///
/// A pass needs to know which side the colours lean to, and after it the band has
/// to be drawn anew; both are measured on the picture by the caller. `pending`
/// tells where the next pass works, `repaint` takes the leans and `redraw` the
/// new band.
pub struct Reshape {
    original: Mask,
    shape: Mask,
    band: Vec<u8>,
    sealed: BitPlane,
    out_of_reach: BitPlane,
    passes: u32,
    done: bool,
    reclassify: bool,
    smooth_radius: u32,
    seal: u32,
}

/// What one pass makes of a mask: colour first, then the majority, each if it is
/// asked for.
pub open spec fn passed(
    r: Repaint<'_>,
    before: &Mask,
    middle: &Mask,
    after: &Mask,
    reclassify: bool,
    radius: int,
) -> bool {
    &&& r.fits(middle)
    &&& r.fits(after)
    &&& middle.w() == before.w() == after.w()
    &&& middle.h() == before.h() == after.h()
    &&& middle@ == if reclassify { flipped(before@, r.recoloured(before)) } else { before@ }
    &&& after@ == if radius > 0 { flipped(middle@, r.outvoted(middle, radius)) } else { middle@ }
}

/// How many places a pass repaints.
pub open spec fn moves(r: Repaint<'_>, before: &Mask, middle: &Mask, reclassify: bool, radius: int) -> int {
    (if reclassify { tally(r.recoloured(before)) as int } else { 0 }) + (if radius > 0 {
        tally(r.outvoted(middle, radius)) as int
    } else {
        0
    })
}

impl Reshape {
    /// The mask before any repainting.
    pub closed spec fn origin(&self) -> Mask {
        self.original
    }

    /// The mask as it stands.
    pub closed spec fn now(&self) -> Mask {
        self.shape
    }

    /// The width of the band at each pixel.
    pub closed spec fn strip(&self) -> Seq<u8> {
        self.band@
    }

    /// The gaps that were closed again.
    pub closed spec fn closed_gaps(&self) -> Seq<bool> {
        self.sealed@
    }

    /// The pixels too far from the original contour.
    pub closed spec fn far(&self) -> BitPlane {
        self.out_of_reach
    }

    pub closed spec fn count(&self) -> u32 {
        self.passes
    }

    /// No further pass is made.
    pub closed spec fn over(&self) -> bool {
        self.done
    }

    /// Whether colour repaints, the radius of the majority, and the seal.
    pub closed spec fn settings(&self) -> (bool, u32, u32) {
        (self.reclassify, self.smooth_radius, self.seal)
    }

    pub closed spec fn planes_ok(&self) -> bool {
        self.sealed.wf() && self.out_of_reach.wf()
    }

    pub open spec fn wf(&self) -> bool {
        let n = self.now()@.len();
        &&& self.now().wf()
        &&& self.origin().wf()
        &&& 0 < self.now().w()
        &&& 0 < self.now().h()
        &&& self.origin().w() == self.now().w()
        &&& self.origin().h() == self.now().h()
        &&& self.strip().len() == n
        &&& self.planes_ok()
        &&& self.closed_gaps().len() == 0 || self.closed_gaps().len() == n
        &&& self.far()@.len() == 0 || self.far()@.len() == n
        &&& !self.over() ==> self.closed_gaps().len() == n && self.count() < RESHAPE_PASSES
        &&& self.settings().2 < u32::MAX
    }

    /// A pass over the band with the given leans.
    pub open spec fn pass(&self, leans: &[Option<Lean>], band: &[u8], bounds: Rect) -> Repaint<'_> {
        Repaint { original: &self.origin(), band, out_of_reach: &self.far(), leans, bounds }
    }

    /// How repainting starts from a mask and its band. With neither colour nor
    /// majority asked for it is over. What is too far from the original contour
    /// is told once and for all.
    pub open spec fn started(
        &self,
        binary: &Mask,
        band: Seq<u8>,
        reclassify: bool,
        smooth_radius: u32,
        seal: u32,
        max_radius: u32,
    ) -> bool {
        &&& self.wf()
        &&& self.origin()@ == binary@
        &&& self.origin().w() == binary.w()
        &&& self.now()@ == binary@
        &&& self.now().w() == binary.w()
        &&& self.now().h() == binary.h()
        &&& self.strip() == band
        &&& self.count() == 0
        &&& self.settings() == (reclassify, smooth_radius, seal)
        &&& self.over() <==> !reclassify && smooth_radius == 0
        &&& forall|i: int| 0 <= i < self.closed_gaps().len() ==> !(#[trigger] self.closed_gaps()[i])
        &&& !self.over() ==> exists|contour: Seq<(u32, u32)>| #[trigger]
            lists_pixels(contour, binary.w() as int, contour_plane(binary, None, whole(binary)))
                && self.far()@.len() == binary@.len() && forall|x: int, y: int|
                binary.inside(x, y) ==> (#[trigger] self.far()@[at(binary.w() as int, x, y)] <==> REACH_PASSES
                    * max_radius < CHAMFER_MAX_PX && forall|k: int|
                    0 <= k < contour.len() && binary.inside(contour[k].0 as int, contour[k].1 as int) ==> span(
                        true,
                        x - (#[trigger] contour[k]).0,
                        y - contour[k].1,
                    ) > 3 * (REACH_PASSES * max_radius))
    }

    /// Starts from a mask and its band.
    pub fn start(
        binary: &Mask,
        band: Vec<u8>,
        reclassify: bool,
        smooth_radius: u32,
        seal: u32,
        max_radius: u32,
    ) -> (r: Self)
        requires
            binary.wf(),
            0 < binary.w(),
            0 < binary.h(),
            band@.len() == binary@.len(),
            seal < u32::MAX,
            max_radius < 0x8000_0000,
        ensures
            r.started(binary, band@, reclassify, smooth_radius, seal, max_radius),
    {
        let done: bool = !reclassify && smooth_radius == 0;
        if done {
            return Reshape {
                original: binary.clone(),
                shape: binary.clone(),
                band,
                sealed: BitPlane::default(),
                out_of_reach: BitPlane::default(),
                passes: 0,
                done,
                reclassify,
                smooth_radius,
                seal,
            };
        }
        let w: u32 = binary.width();
        let h: u32 = binary.height();
        let contour: Vec<(u32, u32)> = contour_pixels(binary, None);
        let out_of_reach: BitPlane = farther_than(w, h, contour.as_slice(), REACH_PASSES * max_radius);
        let n: usize = (w as usize) * (h as usize);
        let r: Reshape = Reshape {
            original: binary.clone(),
            shape: binary.clone(),
            band,
            sealed: BitPlane::new(n),
            out_of_reach,
            passes: 0,
            done,
            reclassify,
            smooth_radius,
            seal,
        };
        assert(lists_pixels(contour@, w as int, contour_plane(binary, None, whole(binary))));
        r
    }

    /// The rectangle that the next pass works in, or nothing if there is none.
    pub open spec fn awaits(&self, r: Option<Rect>) -> bool {
        &&& self.over() ==> r is None
        &&& !self.over() ==> box_of_any(band_set(self.strip(), self.now().w() as int, self.now().h() as int), r)
        &&& r matches Some(b) ==> rect_on(b, self.now().w() as int, self.now().h() as int)
    }

    pub fn pending(&self) -> (r: Option<Rect>)
        requires
            self.wf(),
        ensures
            self.awaits(r),
    {
        if self.done {
            None
        } else {
            band_bounds(self.band.as_slice(), self.shape.width(), self.shape.height())
        }
    }

    /// What a pixel says of the colours around it: the band and the closed gaps
    /// say nothing, the rest is what the mask says.
    pub open spec fn role_at(&self, i: int) -> Role {
        let w = self.now().w() as int;
        if self.strip()[i] != 0 || (self.closed_gaps().len() > 0 && self.closed_gaps()[i]) {
            Role::Skip
        } else if self.now().fg(i % w, i / w) {
            Role::Foreground
        } else {
            Role::Background
        }
    }

    /// The roles of all pixels.
    pub fn roles(&self) -> (r: Vec<Role>)
        requires
            self.wf(),
        ensures
            r@ == Seq::new(self.now()@.len(), |i: int| self.role_at(i)),
    {
        let w: u32 = self.shape.width();
        let ghost (wi, hi) = (self.now().w() as int, self.now().h() as int);
        let n: usize = self.band.len();
        let mut r: Vec<Role> = Vec::with_capacity(n);
        let mut i: usize = 0;
        while i < n
            invariant
                self.wf(),
                w == self.now().w(),
                wi == w,
                hi == self.now().h(),
                n == self.band@.len(),
                i <= n,
                r@.len() == i,
                forall|k: int| 0 <= k < i ==> #[trigger] r@[k] == self.role_at(k),
            decreases n - i,
        {
            proof {
                crate::cutout::cells::lemma_small_place(wi, hi, i as int);
            }
            let x: u32 = (i % (w as usize)) as u32;
            let y: u32 = (i / (w as usize)) as u32;
            let role: Role = if self.band[i] != 0 || self.sealed.contains(i) {
                Role::Skip
            } else if self.shape.is_foreground(x, y) {
                Role::Foreground
            } else {
                Role::Background
            };
            r.push(role);
            i += 1;
        }
        assert(r@ =~= Seq::new(self.now()@.len(), |k: int| self.role_at(k)));
        r
    }

    /// What no pass changes; it is the last if it moved nothing.
    pub open spec fn keeps(&self, then: &Reshape, again: bool) -> bool {
        &&& then.wf()
        &&& then.origin() == self.origin()
        &&& then.far() == self.far()
        &&& then.settings() == self.settings()
        &&& then.strip() == self.strip()
        &&& then.count() == self.count()
        &&& then.over() == !again
        &&& then.now().w() == self.now().w()
        &&& then.now().h() == self.now().h()
    }

    /// What one pass leads to. Without a move the repainted mask stands; otherwise
    /// the gaps that it opened are foreground again and marked as closed.
    pub open spec fn one_pass(
        &self,
        then: &Reshape,
        leans: &[Option<Lean>],
        bounds: Rect,
        band: &[u8],
        middle: &Mask,
        after: &Mask,
        again: bool,
    ) -> bool {
        let r = self.pass(leans, band, bounds);
        let (reclassify, radius, seal) = self.settings();
        let g = Gaps { roi: grown(bounds, seal + 1, self.now().w() as int, self.now().h() as int), seal };
        let gaps = g.gaps(after, &self.origin(), self.strip());
        &&& band@ == self.strip()
        &&& passed(r, &self.now(), middle, after, reclassify, radius as int)
        &&& again <==> moves(r, &self.now(), middle, reclassify, radius as int) > 0
        &&& if again {
            &&& then.now()@ == Seq::new(after@.len(), |i: int| if gaps[i] { 255u8 } else { after@[i] })
            &&& then.closed_gaps() == Seq::new(after@.len(), |i: int| self.closed_gaps()[i] || gaps[i])
        } else {
            &&& then.now()@ == after@
            &&& then.closed_gaps() == self.closed_gaps()
        }
    }

    /// Makes one pass and says whether the band has to be drawn anew. A pass that
    /// moves nothing is the last; otherwise the gaps that it opened are closed.
    pub fn repaint(&mut self, leans: &[Option<Lean>], bounds: Rect) -> (again: bool)
        requires
            old(self).wf(),
            !old(self).over(),
            leans@.len() == old(self).now()@.len(),
            rect_on(bounds, old(self).now().w() as int, old(self).now().h() as int),
        ensures
            old(self).keeps(final(self), again),
            exists|band: &[u8], middle: Mask, after: Mask| #[trigger]
                old(self).one_pass(final(self), leans, bounds, band, &middle, &after, again),
    {
        let ghost start = *self;
        let (reclassify, radius, seal) = (self.reclassify, self.smooth_radius, self.seal);
        let band: &[u8] = self.band.as_slice();
        let r: Repaint<'_> = Repaint {
            original: &self.original,
            band,
            out_of_reach: &self.out_of_reach,
            leans,
            bounds,
        };
        let mut by_colour: usize = 0;
        if reclassify {
            by_colour = r.reclassify_rim(&mut self.shape);
        }
        let ghost middle = self.shape;
        let mut by_vote: usize = 0;
        if radius > 0 {
            by_vote = r.smooth_in_band(&mut self.shape, radius);
        }
        let ghost after = self.shape;
        let again: bool = by_colour > 0 || by_vote > 0;
        assert(r == start.pass(leans, band, bounds));
        assert(passed(r, &start.now(), &middle, &after, reclassify, radius as int));
        if again {
            close_new_gaps(&mut self.shape, &self.original, band, &mut self.sealed, bounds, seal);
        } else {
            self.done = true;
        }
        assert(start.one_pass(self, leans, bounds, band, &middle, &after, again));
        again
    }

    /// The leans of a pass are those of the colours gathered around the band.
    pub open spec fn judged(
        &self,
        image: &RgbaImage,
        linear: Seq<u32>,
        bounds: Rect,
        colours: &LocalColours,
        leans: &[Option<Lean>],
    ) -> bool {
        let (w, h) = (self.now().w(), self.now().h());
        let scale = long_edge(w, h);
        &&& colours.built(
            image,
            grown(bounds, window_pixels(scale), w as int, h as int),
            scale,
            Seq::new(self.now()@.len(), |i: int| self.role_at(i)),
            linear,
        )
        &&& leans@.len() == self.now()@.len()
        &&& forall|x: int, y: int|
            self.now().inside(x, y) ==> #[trigger] leans@[at(w as int, x, y)] == colours.lean_at(image, linear, x, y)
    }

    /// One pass with the colours gathered around the band.
    pub open spec fn recolours(
        &self,
        then: &Reshape,
        image: &RgbaImage,
        linear: Seq<u32>,
        bounds: Rect,
        again: bool,
    ) -> bool {
        &&& self.keeps(then, again)
        &&& exists|colours: LocalColours, leans: &[Option<Lean>], band: &[u8], middle: Mask, after: Mask|
            #![trigger self.judged(image, linear, bounds, &colours, leans), self.one_pass(
                then,
                leans,
                bounds,
                band,
                &middle,
                &after,
                again,
            )]
            self.judged(image, linear, bounds, &colours, leans) && self.one_pass(
                then,
                leans,
                bounds,
                band,
                &middle,
                &after,
                again,
            )
    }

    /// Gathers the colours around the band and makes one pass with them.
    pub fn recolour(&mut self, image: &RgbaImage, linear: &[u32], bounds: Rect) -> (again: bool)
        requires
            old(self).wf(),
            !old(self).over(),
            image.wf(),
            image.w() == old(self).now().w(),
            image.h() == old(self).now().h(),
            image@.len() * RIM_SQUARE_ONE <= u64::MAX,
            linear_ok(linear@),
            rect_on(bounds, old(self).now().w() as int, old(self).now().h() as int),
        ensures
            old(self).recolours(final(self), image, linear@, bounds, again),
    {
        let ghost start = *self;
        let w: u32 = self.shape.width();
        let h: u32 = self.shape.height();
        let scale: u32 = scale_at_1000(w, h);
        assert(RIM_WINDOW * scale <= 8 * u32::MAX) by (nonlinear_arith)
            requires
                RIM_WINDOW == 8,
                scale <= u32::MAX,
        ;
        let window: u32 = (((RIM_WINDOW as u64) * (scale as u64) + 999) / 1000) as u32;
        let area: Rect = grow(bounds, window, w, h);
        let roles: Vec<Role> = self.roles();
        let colours: LocalColours = build(image, area, scale, roles.as_slice(), linear);
        let leans: Vec<Option<Lean>> = colours.leans(image, linear);
        let told: &[Option<Lean>] = leans.as_slice();
        assert(start.judged(image, linear@, bounds, &colours, told));
        self.repaint(told, bounds)
    }

    /// The same mask with a new band. After the last pass that is allowed the
    /// band only serves what follows.
    pub open spec fn redrawn(&self, then: &Reshape, band: Seq<u8>) -> bool {
        &&& then.wf()
        &&& then.origin() == self.origin()
        &&& then.now() == self.now()
        &&& then.far() == self.far()
        &&& then.settings() == self.settings()
        &&& then.closed_gaps() == self.closed_gaps()
        &&& then.strip() == band
        &&& then.count() == self.count() + 1
        &&& then.over() == (then.count() == RESHAPE_PASSES)
    }

    /// Takes the band that was drawn anew around the repainted mask.
    pub fn redraw(&mut self, band: Vec<u8>)
        requires
            old(self).wf(),
            !old(self).over(),
            band@.len() == old(self).now()@.len(),
        ensures
            old(self).redrawn(final(self), band@),
    {
        self.band = band;
        self.passes = self.passes + 1;
        if self.passes == RESHAPE_PASSES {
            self.done = true;
        }
    }

    /// The mask as it stands.
    pub fn shape(&self) -> (r: &Mask)
        ensures
            *r == self.now(),
    {
        &self.shape
    }

    /// The band without the closed gaps. What a seal decided is not put to colour
    /// again.
    pub open spec fn open_band(&self) -> Seq<u8> {
        Seq::new(
            self.strip().len(),
            |i: int|
                if self.closed_gaps().len() > 0 && self.closed_gaps()[i] {
                    0u8
                } else {
                    self.strip()[i]
                },
        )
    }

    /// Gives up the repainted mask, the band without the closed gaps, and the
    /// gaps.
    pub fn finish(self) -> (r: (Mask, Vec<u8>, BitPlane))
        requires
            self.wf(),
        ensures
            r.0 == self.now(),
            r.1@ == self.open_band(),
            r.2.wf(),
            r.2@ == self.closed_gaps(),
    {
        let places: Vec<usize> = self.sealed.for_each_set();
        let ghost s = self.sealed@;
        let ghost strip = self.band@;
        let mut band: Vec<u8> = self.band;
        let mut k: usize = 0;
        proof {
            crate::tally::lemma_ones(s);
            assert(places@.map_values(|v: usize| v as int).len() == places@.len());
        }
        while k < places.len()
            invariant
                band@.len() == strip.len(),
                s.len() == 0 || s.len() == strip.len(),
                lists(places@, s),
                places@.len() == ones(s).len(),
                forall|j: int| 0 <= j < ones(s).len() ==> 0 <= #[trigger] ones(s)[j] < s.len() && s[ones(s)[j]],
                k <= places@.len(),
                forall|i: int|
                    0 <= i < strip.len() ==> #[trigger] band@[i] == if exists|j: int|
                        0 <= j < k && #[trigger] ones(s)[j] == i {
                        0u8
                    } else {
                        strip[i]
                    },
            decreases places@.len() - k,
        {
            let p: usize = places[k];
            assert(places@.map_values(|v: usize| v as int)[k as int] == p);
            assert(ones(s)[k as int] == p);
            let ghost was = band@;
            band.set(p, 0);
            proof {
                assert forall|i: int| 0 <= i < strip.len() implies #[trigger] band@[i] == if exists|j: int|
                    0 <= j < k + 1 && #[trigger] ones(s)[j] == i {
                    0u8
                } else {
                    strip[i]
                } by {
                    if i != p {
                        assert(band@[i] == was[i]);
                    }
                }
            }
            k += 1;
        }
        proof {
            assert forall|i: int| 0 <= i < strip.len() implies band@[i] == if s.len() > 0 && s[i] {
                0u8
            } else {
                strip[i]
            } by {
                if s.len() > 0 && s[i] {
                    assert(ones(s).contains(i));
                }
            }
            assert(band@ =~= Seq::new(
                strip.len(),
                |i: int| if s.len() > 0 && s[i] { 0u8 } else { strip[i] },
            ));
        }
        (self.shape, band, self.sealed)
    }
}

} // verus!
