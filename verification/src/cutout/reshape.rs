//! Repainting the two-valued mask where colour backs it.
//!
//! This is the part of the boundary work that moves the shape; alpha comes later.
//! Only pixels of the band along the boundary are repainted, and what a seal had
//! closed stays closed.
use vstd::prelude::*;

use crate::cutout::connect::{
    flood, from_seed, joined, lemma_joined_back, lemma_joined_here, lemma_joined_step, lemma_joined_through,
    lemma_joined_within, search_ok, searched, touching,
};
use crate::cutout::contour::{grow, grown};
use crate::cutout::mask::Mask;
use crate::cutout::morphology::{is_windowed, separable, windowed, BitPlane};
use crate::geometry::{
    at, box_of_any, in_rect, lemma_at_bound, lemma_at_join, lemma_at_split, on_plane, place, rect_on, Bounds, Rect,
};
use crate::tally::{lemma_tally_step, tally};

verus! {

/// The pixels of the band.
pub open spec fn band_set(band: Seq<u8>, w: int, h: int) -> Set<(int, int)> {
    Set::new(|p: (int, int)| on_plane(w, h, p.0, p.1) && band[at(w, p.0, p.1)] != 0)
}

/// The bounding box of the band, if it has a pixel.
pub fn band_bounds(band: &[u8], w: u32, h: u32) -> (r: Option<Rect>)
    requires
        band@.len() == w * h,
    ensures
        box_of_any(band_set(band@, w as int, h as int), r),
        r matches Some(b) ==> rect_on(b, w as int, h as int),
{
    let ghost (wi, hi) = (w as int, h as int);
    let ghost all = band_set(band@, wi, hi);
    let ghost mut seen = Set::<(int, int)>::empty();
    let mut bounds: Bounds = Bounds::new();
    let mut i: usize = 0;
    while i < band.len()
        invariant
            wi == w,
            hi == h,
            all == band_set(band@, wi, hi),
            band@.len() == w * h,
            i <= band@.len(),
            bounds.holds(seen),
            forall|p: (int, int)| #[trigger] seen.contains(p) <==> all.contains(p) && at(wi, p.0, p.1) < i,
        decreases band@.len() - i,
    {
        proof {
            crate::cutout::cells::lemma_small_place(wi, hi, i as int);
        }
        if band[i] != 0 {
            let x: u32 = (i % (w as usize)) as u32;
            let y: u32 = (i / (w as usize)) as u32;
            bounds.insert(x, y, Ghost(seen));
            proof {
                seen = seen.insert((x as int, y as int));
            }
        }
        proof {
            assert forall|p: (int, int)| #[trigger]
                seen.contains(p) <==> all.contains(p) && at(wi, p.0, p.1) < i + 1 by {
                if on_plane(wi, hi, p.0, p.1) && at(wi, p.0, p.1) == i {
                    lemma_at_split(wi, p.0, p.1);
                }
            }
        }
        i += 1;
    }
    proof {
        assert forall|p: (int, int)| seen.contains(p) <==> all.contains(p) by {
            if all.contains(p) {
                lemma_at_bound(wi, hi, p.0, p.1);
            }
        }
        assert(seen =~= all);
    }
    let r: Option<Rect> = bounds.finish(Ghost(all));
    proof {
        if let Some(b) = r {
            let p = choose|p: (int, int)| #[trigger] all.contains(p) && p.0 == b.2;
            let q = choose|p: (int, int)| #[trigger] all.contains(p) && p.1 == b.3;
            assert(in_rect(b, p.0, p.1));
        }
    }
    r
}

/// The planes from which new gaps are told, over a rectangle of the image and in
/// its own coordinates.
pub struct Gaps {
    pub roi: Rect,
    pub seal: u32,
}

impl Gaps {
    pub open spec fn w(&self) -> int {
        self.roi.2 - self.roi.0 + 1
    }

    pub open spec fn h(&self) -> int {
        self.roi.3 - self.roi.1 + 1
    }

    /// The column and row in the image of a place of the rectangle.
    pub open spec fn x(&self, i: int) -> int {
        self.roi.0 + i % self.w()
    }

    pub open spec fn y(&self, i: int) -> int {
        self.roi.1 + i / self.w()
    }

    /// What is not foreground.
    pub open spec fn background(&self, shape: &Mask) -> Seq<bool> {
        Seq::new((self.w() * self.h()) as nat, |i: int| !shape.fg(self.x(i), self.y(i)))
    }

    /// Background wide enough for the seal: nothing but background around it.
    pub open spec fn wide(&self, shape: &Mask) -> Seq<bool> {
        let s = self.seal as int;
        Seq::new(
            (self.w() * self.h()) as nat,
            |i: int|
                windowed(self.background(shape), self.w(), self.h(), s, s, i % self.w(), i / self.w(), false),
        )
    }

    /// A pixel outside the band or on the border of the image. Background there
    /// was reached by the fill, not through a gap.
    pub open spec fn outside(&self, band: Seq<u8>, w: int, h: int, i: int) -> bool {
        let (x, y) = (self.x(i), self.y(i));
        band[at(w, x, y)] == 0 || x == 0 || y == 0 || x == w - 1 || y == h - 1
    }

    /// Where the walk starts: background outside.
    pub open spec fn start(&self, shape: &Mask, band: Seq<u8>) -> Seq<bool> {
        Seq::new(
            (self.w() * self.h()) as nat,
            |i: int|
                self.background(shape)[i] && self.outside(band, shape.w() as int, shape.h() as int, i),
        )
    }

    /// Where the walk may go: wide background, and where it starts.
    pub open spec fn trusted(&self, shape: &Mask, band: Seq<u8>) -> Seq<bool> {
        Seq::new(
            (self.w() * self.h()) as nat,
            |i: int| self.wide(shape)[i] || self.start(shape, band)[i],
        )
    }

    /// The walk gets to `i`.
    pub open spec fn walked(&self, shape: &Mask, band: Seq<u8>, i: int) -> bool {
        exists|s: int|
            0 <= s < self.start(shape, band).len() && self.start(shape, band)[s] && #[trigger] joined(
                self.w(),
                false,
                self.trusted(shape, band),
                s,
                i,
            )
    }

    /// The wide background that the walk gets to.
    pub open spec fn heart(&self, shape: &Mask, band: Seq<u8>) -> Seq<bool> {
        Seq::new(
            (self.w() * self.h()) as nat,
            |i: int| self.wide(shape)[i] && self.walked(shape, band, i),
        )
    }

    /// The open background: the core, grown back by the seal.
    pub open spec fn open(&self, shape: &Mask, band: Seq<u8>, i: int) -> bool {
        let s = self.seal as int;
        windowed(self.heart(shape, band), self.w(), self.h(), s, s, i % self.w(), i / self.w(), true)
    }

    /// Pixel `(x, y)` is a new gap: in the band, background that is not open, and
    /// foreground before the repainting.
    pub open spec fn gap(&self, shape: &Mask, original: &Mask, band: Seq<u8>, x: int, y: int) -> bool {
        let i = at(self.w(), x - self.roi.0, y - self.roi.1);
        &&& in_rect(self.roi, x, y)
        &&& band[at(shape.w() as int, x, y)] != 0
        &&& !shape.fg(x, y)
        &&& original.fg(x, y)
        &&& !self.open(shape, band, i)
    }

    /// The new gaps of the whole image.
    pub open spec fn gaps(&self, shape: &Mask, original: &Mask, band: Seq<u8>) -> Seq<bool> {
        let w = shape.w() as int;
        Seq::new(shape@.len(), |i: int| self.gap(shape, original, band, i % w, i / w))
    }

    pub open spec fn fits(&self, shape: &Mask) -> bool {
        shape.wf() && rect_on(self.roi, shape.w() as int, shape.h() as int)
    }

    /// A place of the rectangle is a pixel of the image.
    proof fn lemma_place(&self, shape: &Mask, i: int)
        requires
            self.fits(shape),
            0 <= i < self.w() * self.h(),
        ensures
            0 < self.w() <= shape.w(),
            0 < self.h() <= shape.h(),
            self.w() * self.h() <= shape@.len(),
            on_plane(self.w(), self.h(), i % self.w(), i / self.w()),
            at(self.w(), i % self.w(), i / self.w()) == i,
            in_rect(self.roi, self.x(i), self.y(i)),
            shape.inside(self.x(i), self.y(i)),
            at(self.w(), self.x(i) - self.roi.0, self.y(i) - self.roi.1) == i,
    {
        crate::cutout::cells::lemma_small_place(self.w(), self.h(), i);
        self.lemma_small(shape);
    }

    proof fn lemma_small(&self, shape: &Mask)
        requires
            self.fits(shape),
        ensures
            0 < self.w() <= shape.w(),
            0 < self.h() <= shape.h(),
            0 < self.w() * self.h() <= shape@.len(),
    {
        let (a, b, c, d) = (self.w(), self.h(), shape.w() as int, shape.h() as int);
        assert(0 < a * b <= c * d) by (nonlinear_arith)
            requires
                0 < a <= c,
                0 < b <= d,
        ;
    }

    fn background_plane(&self, shape: &Mask) -> (r: BitPlane)
        requires
            self.fits(shape),
        ensures
            r.wf(),
            r@ == self.background(shape),
    {
        proof {
            self.lemma_small(shape);
        }
        let pw: usize = (self.roi.2 - self.roi.0) as usize + 1;
        let ph: usize = (self.roi.3 - self.roi.1) as usize + 1;
        let n: usize = pw * ph;
        let mut r: BitPlane = BitPlane::new(n);
        let mut i: usize = 0;
        while i < n
            invariant
                self.fits(shape),
                pw == self.w(),
                n == self.w() * self.h(),
                i <= n,
                r.wf(),
                r@.len() == n,
                forall|k: int| 0 <= k < i ==> #[trigger] r@[k] == self.background(shape)[k],
            decreases n - i,
        {
            proof {
                self.lemma_place(shape, i as int);
            }
            let x: u32 = self.roi.0 + (i % pw) as u32;
            let y: u32 = self.roi.1 + (i / pw) as u32;
            r.set(i, !shape.is_foreground(x, y));
            i += 1;
        }
        assert(r@ =~= self.background(shape));
        r
    }

    fn start_plane(&self, shape: &Mask, band: &[u8], background: &BitPlane) -> (r: BitPlane)
        requires
            self.fits(shape),
            band@.len() == shape@.len(),
            background.wf(),
            background@ == self.background(shape),
        ensures
            r.wf(),
            r@ == self.start(shape, band@),
    {
        proof {
            self.lemma_small(shape);
        }
        let w: u32 = shape.width();
        let h: u32 = shape.height();
        let pw: usize = (self.roi.2 - self.roi.0) as usize + 1;
        let ph: usize = (self.roi.3 - self.roi.1) as usize + 1;
        let n: usize = pw * ph;
        let mut r: BitPlane = BitPlane::new(n);
        let mut i: usize = 0;
        while i < n
            invariant
                self.fits(shape),
                w == shape.w(),
                h == shape.h(),
                band@.len() == shape@.len(),
                background.wf(),
                background@ == self.background(shape),
                pw == self.w(),
                n == self.w() * self.h(),
                i <= n,
                r.wf(),
                r@.len() == n,
                forall|k: int| 0 <= k < i ==> #[trigger] r@[k] == self.start(shape, band@)[k],
            decreases n - i,
        {
            proof {
                self.lemma_place(shape, i as int);
            }
            let x: u32 = self.roi.0 + (i % pw) as u32;
            let y: u32 = self.roi.1 + (i / pw) as u32;
            let at: usize = place(w as usize, x as usize, y as usize, Ghost(h as int));
            let out: bool = band[at] == 0 || x == 0 || y == 0 || x == w - 1 || y == h - 1;
            r.set(i, background.get(i) && out);
            i += 1;
        }
        assert(r@ =~= self.start(shape, band@));
        r
    }
}

/// The truth values of two planes joined place by place.
pub fn either(a: &BitPlane, b: &BitPlane) -> (r: BitPlane)
    requires
        a.wf(),
        b.wf(),
        a@.len() == b@.len(),
    ensures
        r.wf(),
        r@ == Seq::new(a@.len(), |i: int| a@[i] || b@[i]),
{
    let n: usize = a.len();
    let mut r: BitPlane = BitPlane::new(n);
    let mut i: usize = 0;
    while i < n
        invariant
            a.wf(),
            b.wf(),
            n == a@.len() == b@.len(),
            i <= n,
            r.wf(),
            r@.len() == n,
            forall|k: int| 0 <= k < i ==> #[trigger] r@[k] == (a@[k] || b@[k]),
        decreases n - i,
    {
        r.set(i, a.get(i) || b.get(i));
        i += 1;
    }
    assert(r@ =~= Seq::new(a@.len(), |i: int| a@[i] || b@[i]));
    r
}

/// The places set in both planes.
pub fn both(a: &BitPlane, b: &BitPlane) -> (r: BitPlane)
    requires
        a.wf(),
        b.wf(),
        a@.len() == b@.len(),
    ensures
        r.wf(),
        r@ == Seq::new(a@.len(), |i: int| a@[i] && b@[i]),
{
    let n: usize = a.len();
    let mut r: BitPlane = BitPlane::new(n);
    let mut i: usize = 0;
    while i < n
        invariant
            a.wf(),
            b.wf(),
            n == a@.len() == b@.len(),
            i <= n,
            r.wf(),
            r@.len() == n,
            forall|k: int| 0 <= k < i ==> #[trigger] r@[k] == (a@[k] && b@[k]),
        decreases n - i,
    {
        r.set(i, a.get(i) && b.get(i));
        i += 1;
    }
    assert(r@ =~= Seq::new(a@.len(), |i: int| a@[i] && b@[i]));
    r
}

/// Everything that a walk over open places gets to from marked ones, which are
/// open themselves. The marked places are many and are not queued: the search
/// starts from the first steps out of them.
pub fn walk(w: usize, h: usize, open: &BitPlane, marks: BitPlane) -> (seen: BitPlane)
    requires
        0 < w,
        0 < h,
        w * h <= usize::MAX,
        open.wf(),
        marks.wf(),
        open@.len() == marks@.len() == w * h,
        forall|i: int| 0 <= i < open@.len() && #[trigger] marks@[i] ==> open@[i],
    ensures
        seen.wf(),
        seen@.len() == open@.len(),
        forall|i: int|
            0 <= i < open@.len() ==> (#[trigger] seen@[i] <==> exists|s: int|
                0 <= s < marks@.len() && marks@[s] && #[trigger] joined(w as int, false, open@, s, i)),
{
    let ghost (wi, hi) = (w as int, h as int);
    let ghost o = open@;
    let ghost m = marks@;
    let n: usize = open.len();
    let mut seen: BitPlane = BitPlane::new(n);
    let mut i: usize = 0;
    let mut seeds: Vec<usize> = Vec::new();
    while i < n
        invariant
            wi == w,
            hi == h,
            0 < w,
            0 < h,
            n == w * h == m.len() == o.len(),
            open.wf(),
            marks.wf(),
            o == open@,
            m == marks@,
            i <= n,
            seen.wf(),
            seen@.len() == n,
            seeds@.no_duplicates(),
            forall|k: int|
                0 <= k < seeds@.len() ==> (#[trigger] seeds@[k]) < i && o[seeds@[k] as int] && !m[seeds@[k] as int]
                    && beside(wi, hi, m, seeds@[k] as int),
            forall|j: int|
                0 <= j < i && o[j] && !m[j] && #[trigger] beside(wi, hi, m, j) ==> seeds@.contains(j as usize),
            forall|j: int| 0 <= j < n ==> (#[trigger] seen@[j] <==> j < i && (m[j] || seeds@.contains(j as usize))),
        decreases n - i,
    {
        let ghost had = seeds@;
        let ghost was = seen@;
        if marks.get(i) {
            seen.insert(i);
        } else if open.get(i) && is_beside(w, h, &marks, i) {
            seen.insert(i);
            seeds.push(i);
            assert(seeds@[had.len() as int] == i);
        }
        proof {
            assert forall|j: usize| had.contains(j) implies #[trigger] seeds@.contains(j) by {
                let k = choose|k: int| 0 <= k < had.len() && had[k] == j;
                assert(seeds@[k] == j);
            }
            assert forall|j: usize| #[trigger] seeds@.contains(j) implies had.contains(j) || j == i by {
                let k = choose|k: int| 0 <= k < seeds@.len() && seeds@[k] == j;
                if k < had.len() {
                    assert(had[k] == j);
                }
            }
            assert(!had.contains(i)) by {
                if had.contains(i) {
                    let k = choose|k: int| 0 <= k < had.len() && had[k] == i;
                    assert(had[k] < i);
                }
            }
            assert forall|j: int| 0 <= j < n implies (#[trigger] seen@[j] <==> j < i + 1 && (m[j] || seeds@.contains(
                j as usize,
            ))) by {
                if j != i {
                    assert(seen@[j] == was[j]);
                }
            }
            assert forall|j: int| 0 <= j < i + 1 && o[j] && !m[j] && #[trigger] beside(wi, hi, m, j) implies seeds@.contains(
                j as usize,
            ) by {
                if j < i {
                    assert(had.contains(j as usize));
                }
            }
        }
        i += 1;
    }
    let ghost first = seeds@;
    let ghost marked = seen@;
    let found: Vec<usize> = flood(w, h, open, false, &mut seen, seeds);
    proof {
        lemma_walk(wi, hi, o, m, first, marked, seen@, found@);
    }
    seen
}

/// Place `i` touches a marked one.
spec fn beside(w: int, h: int, m: Seq<bool>, i: int) -> bool {
    exists|j: int| 0 <= j < m.len() && m[j] && #[trigger] touching(w, false, i, j)
}

fn is_beside(w: usize, h: usize, marks: &BitPlane, i: usize) -> (r: bool)
    requires
        0 < w,
        0 < h,
        w * h <= usize::MAX,
        marks.wf(),
        marks@.len() == w * h,
        i < w * h,
    ensures
        r == beside(w as int, h as int, marks@, i as int),
{
    let ghost (wi, hi) = (w as int, h as int);
    let ghost m = marks@;
    proof {
        lemma_at_join(wi, hi, i as int);
    }
    let x: usize = i % w;
    let y: usize = i / w;
    proof {
        assert forall|j: int| 0 <= j < m.len() && #[trigger] touching(wi, false, i as int, j) implies (x > 0 && j == i
            - 1) || (x + 1 < w && j == i + 1) || (y > 0 && j == i - w) || (y + 1 < h && j == i + w) by {
            lemma_at_join(wi, hi, j);
            let (u, v) = (j % wi, j / wi);
            if v == y - 1 {
                assert(at(wi, x as int, y - 1) == i - w) by (nonlinear_arith)
                    requires
                        at(wi, x as int, y - 1) == (y - 1) * wi + x,
                        i == y * wi + x,
                        wi == w,
                ;
            }
            if v == y + 1 {
                assert(at(wi, x as int, y + 1) == i + w) by (nonlinear_arith)
                    requires
                        at(wi, x as int, y + 1) == (y + 1) * wi + x,
                        i == y * wi + x,
                        wi == w,
                ;
            }
        }
        lemma_touches(wi, hi, i as int);
    }
    let r: bool = (x > 0 && marks.get(i - 1)) || (x + 1 < w && marks.get(i + 1)) || (y > 0 && marks.get(i - w)) || (y
        + 1 < h && marks.get(i + w));
    proof {
        if r {
            if x > 0 && m[i - 1] {
                assert(touching(wi, false, i as int, i - 1));
            } else if x + 1 < w && m[i + 1] {
                assert(touching(wi, false, i as int, i + 1));
            } else if y > 0 && m[i - w] {
                assert(touching(wi, false, i as int, i - w));
            } else {
                assert(touching(wi, false, i as int, i + w));
            }
        }
    }
    r
}

/// The four neighbours of a place that lie on the plane touch it.
proof fn lemma_touches(w: int, h: int, i: int)
    requires
        0 < w,
        0 <= i < w * h,
    ensures
        i % w > 0 ==> 0 <= i - 1 && touching(w, false, i, i - 1),
        i % w + 1 < w ==> i + 1 < w * h && touching(w, false, i, i + 1),
        i / w > 0 ==> 0 <= i - w && touching(w, false, i, i - w),
        i / w + 1 < h ==> i + w < w * h && touching(w, false, i, i + w),
{
    lemma_at_join(w, h, i);
    let (x, y) = (i % w, i / w);
    if x > 0 {
        lemma_at_split(w, x - 1, y);
        lemma_at_bound(w, h, x - 1, y);
    }
    if x + 1 < w {
        lemma_at_split(w, x + 1, y);
        lemma_at_bound(w, h, x + 1, y);
    }
    assert(at(w, x, y - 1) == i - w && at(w, x, y + 1) == i + w) by (nonlinear_arith)
        requires
            at(w, x, y - 1) == (y - 1) * w + x,
            at(w, x, y + 1) == (y + 1) * w + x,
            i == y * w + x,
    ;
    if y > 0 {
        lemma_at_split(w, x, y - 1);
        lemma_at_bound(w, h, x, y - 1);
    }
    if y + 1 < h {
        lemma_at_split(w, x, y + 1);
        lemma_at_bound(w, h, x, y + 1);
    }
}

proof fn lemma_walk(
    w: int,
    h: int,
    o: Seq<bool>,
    m: Seq<bool>,
    seeds: Seq<usize>,
    marked: Seq<bool>,
    seen: Seq<bool>,
    found: Seq<usize>,
)
    requires
        o.len() == m.len() == marked.len() <= usize::MAX,
        forall|i: int| 0 <= i < o.len() && #[trigger] m[i] ==> o[i],
        search_ok(w, false, o, marked, seen, seeds, found),
        searched(w, false, o, seen, found, found.len() as int),
        forall|k: int|
            0 <= k < seeds.len() ==> (#[trigger] seeds[k]) < o.len() && o[seeds[k] as int] && beside(
                w,
                h,
                m,
                seeds[k] as int,
            ),
        forall|j: int|
            0 <= j < o.len() && o[j] && !m[j] && #[trigger] beside(w, h, m, j) ==> seeds.contains(j as usize),
        forall|j: int| 0 <= j < o.len() ==> (#[trigger] marked[j] <==> m[j] || seeds.contains(j as usize)),
    ensures
        forall|i: int|
            0 <= i < o.len() ==> (#[trigger] seen[i] <==> exists|s: int|
                0 <= s < m.len() && m[s] && #[trigger] joined(w, false, o, s, i)),
{
    reveal(search_ok);
    reveal(searched);
    let all = Set::new(|j: int| 0 <= j < o.len() && seen[j]);
    assert forall|i: int| 0 <= i < o.len() && seen[i] && !m[i] implies found.contains(i as usize) by {
        if marked[i] {
            let k = choose|k: int| 0 <= k < seeds.len() && seeds[k] == i as usize;
            assert(found.subrange(0, seeds.len() as int)[k] == found[k]);
        }
    }
    assert forall|p: int, q: int| all.contains(p) && 0 <= q < o.len() && o[q] && #[trigger] touching(w, false, p, q)
        implies all.contains(q) by {
        if m[p] {
            if !m[q] {
                assert(touching(w, false, q, p));
                assert(beside(w, h, m, q));
                assert(seeds.contains(q as usize));
                assert(marked[q]);
            } else {
                assert(marked[q]);
            }
            assert(seen[q]);
        } else {
            assert(found.contains(p as usize));
            let k = choose|k: int| 0 <= k < found.len() && found[k] == p as usize;
            assert(touching(w, false, found[k] as int, q));
        }
    }
    assert forall|i: int| 0 <= i < o.len() implies (#[trigger] seen[i] <==> exists|s: int|
        0 <= s < m.len() && m[s] && #[trigger] joined(w, false, o, s, i)) by {
        if seen[i] {
            if m[i] {
                lemma_joined_here(w, false, o, i);
            } else {
                assert(found.contains(i as usize));
                let k = choose|k: int| 0 <= k < found.len() && found[k] == i as usize;
                assert(from_seed(w, false, o, seeds, found[k] as int));
                let a = choose|a: int|
                    0 <= a < seeds.len() && joined(w, false, o, #[trigger] seeds[a] as int, found[k] as int);
                let b = seeds[a] as int;
                assert(beside(w, h, m, b));
                let c = choose|c: int| 0 <= c < m.len() && m[c] && #[trigger] touching(w, false, b, c);
                lemma_joined_here(w, false, o, b);
                lemma_joined_step(w, false, o, b, b, c);
                lemma_joined_back(w, false, o, b, c);
                lemma_joined_through(w, false, o, c, b, i);
            }
        }
        if exists|s: int| 0 <= s < m.len() && m[s] && #[trigger] joined(w, false, o, s, i) {
            let s = choose|s: int| 0 <= s < m.len() && m[s] && #[trigger] joined(w, false, o, s, i);
            assert(marked[s]);
            assert(seen[s]);
            lemma_joined_within(w, false, o, s, i, all);
        }
    }
}

/// Gives back to the foreground what repainting opened: holes, and gaps that the
/// seal had closed.
///
/// Background counts as open if it is wide enough for the seal and can be walked
/// to from outside over such background, or lies within the seal of such. What is
/// background now, was foreground before and is not open becomes foreground and
/// is marked as sealed, so that colour does not decide it again.
pub fn close_new_gaps(
    shape: &mut Mask,
    original: &Mask,
    band: &[u8],
    sealed: &mut BitPlane,
    bounds: Rect,
    seal: u32,
) -> (changed: usize)
    requires
        old(shape).wf(),
        original.wf(),
        original.w() == old(shape).w(),
        original.h() == old(shape).h(),
        band@.len() == old(shape)@.len(),
        old(sealed).wf(),
        old(sealed)@.len() == old(shape)@.len(),
        rect_on(bounds, old(shape).w() as int, old(shape).h() as int),
        seal < u32::MAX,
    ensures
        ({
            let g = Gaps {
                roi: grown(bounds, seal + 1, old(shape).w() as int, old(shape).h() as int),
                seal,
            };
            let gaps = g.gaps(old(shape), original, band@);
            &&& final(shape).wf()
            &&& final(shape).w() == old(shape).w()
            &&& final(shape).h() == old(shape).h()
            &&& final(shape)@ == Seq::new(
                old(shape)@.len(),
                |i: int| if gaps[i] { 255u8 } else { old(shape)@[i] },
            )
            &&& final(sealed).wf()
            &&& final(sealed)@ == Seq::new(old(sealed)@.len(), |i: int| old(sealed)@[i] || gaps[i])
            &&& changed == tally(gaps)
        }),
{
    let w: u32 = shape.width();
    let h: u32 = shape.height();
    let roi: Rect = grow(bounds, seal + 1, w, h);
    let g: Gaps = Gaps { roi, seal };
    let pw: usize = (roi.2 - roi.0) as usize + 1;
    let ph: usize = (roi.3 - roi.1) as usize + 1;
    let ghost (gw, gh) = (g.w(), g.h());
    proof {
        g.lemma_small(shape);
    }
    let background: BitPlane = g.background_plane(shape);
    let wide: BitPlane = separable(pw, ph, &background, seal, false);
    proof {
        lemma_windowed_plane(wide@, background@, gw, gh, seal as int, false);
        assert(wide@ =~= g.wide(shape));
    }
    let start: BitPlane = g.start_plane(shape, band, &background);
    let trusted: BitPlane = either(&wide, &start);
    assert(trusted@ =~= g.trusted(shape, band@));
    let walked: BitPlane = walk(pw, ph, &trusted, start);
    let core: BitPlane = both(&wide, &walked);
    proof {
        assert forall|i: int| 0 <= i < core@.len() implies core@[i] == g.heart(shape, band@)[i] by {
            assert(walked@[i] == g.walked(shape, band@, i));
        }
        assert(core@ =~= g.heart(shape, band@));
    }
    let open: BitPlane = separable(pw, ph, &core, seal, true);
    proof {
        lemma_windowed_plane(open@, core@, gw, gh, seal as int, true);
        assert forall|i: int| 0 <= i < open@.len() implies #[trigger] open@[i] == g.open(shape, band@, i) by {}
    }
    restore(shape, original, band, sealed, &g, &open)
}

/// A windowed plane, place by place.
pub proof fn lemma_windowed_plane(out: Seq<bool>, s: Seq<bool>, w: int, h: int, r: int, take_max: bool)
    requires
        is_windowed(out, s, w, h, r, r, take_max),
        0 <= w,
    ensures
        forall|i: int|
            0 <= i < out.len() ==> #[trigger] out[i] == windowed(s, w, h, r, r, i % w, i / w, take_max),
{
    assert forall|i: int| 0 <= i < out.len() implies #[trigger] out[i] == windowed(
        s,
        w,
        h,
        r,
        r,
        i % w,
        i / w,
        take_max,
    ) by {
        crate::cutout::cells::lemma_small_place(w, h, i);
        assert(out[at(w, i % w, i / w)] == windowed(s, w, h, r, r, i % w, i / w, take_max));
    }
}

fn restore(
    shape: &mut Mask,
    original: &Mask,
    band: &[u8],
    sealed: &mut BitPlane,
    g: &Gaps,
    open: &BitPlane,
) -> (changed: usize)
    requires
        g.fits(old(shape)),
        original.wf(),
        original.w() == old(shape).w(),
        original.h() == old(shape).h(),
        band@.len() == old(shape)@.len(),
        old(sealed).wf(),
        old(sealed)@.len() == old(shape)@.len(),
        open.wf(),
        open@.len() == g.w() * g.h(),
        forall|i: int| 0 <= i < open@.len() ==> #[trigger] open@[i] == g.open(old(shape), band@, i),
    ensures
        ({
            let gaps = g.gaps(old(shape), original, band@);
            &&& final(shape).wf()
            &&& final(shape).w() == old(shape).w()
            &&& final(shape).h() == old(shape).h()
            &&& final(shape)@ == Seq::new(
                old(shape)@.len(),
                |i: int| if gaps[i] { 255u8 } else { old(shape)@[i] },
            )
            &&& final(sealed).wf()
            &&& final(sealed)@ == Seq::new(old(sealed)@.len(), |i: int| old(sealed)@[i] || gaps[i])
            &&& changed == tally(gaps)
        }),
{
    let w: u32 = shape.width();
    let h: u32 = shape.height();
    let ghost (wi, hi) = (w as int, h as int);
    let ghost gaps = g.gaps(shape, original, band@);
    let pw: usize = (g.roi.2 - g.roi.0) as usize + 1;
    let n: usize = (w as usize) * (h as usize);
    let mut changed: usize = 0;
    let mut i: usize = 0;
    assert(gaps.take(0) =~= Seq::empty());
    while i < n
        invariant
            g.fits(old(shape)),
            shape.wf(),
            original.wf(),
            wi == w == shape.w() == original.w() == old(shape).w(),
            hi == h == shape.h() == original.h() == old(shape).h(),
            pw == g.w(),
            n == w * h == band@.len() == shape@.len() == old(shape)@.len(),
            sealed.wf(),
            sealed@.len() == old(sealed)@.len() == n,
            gaps == g.gaps(old(shape), original, band@),
            open.wf(),
            open@.len() == g.w() * g.h(),
            forall|k: int| 0 <= k < open@.len() ==> #[trigger] open@[k] == g.open(old(shape), band@, k),
            i <= n,
            changed == tally(gaps.take(i as int)),
            changed <= i,
            forall|k: int|
                0 <= k < n ==> #[trigger] shape@[k] == if k < i && gaps[k] { 255u8 } else { old(shape)@[k] },
            forall|k: int| 0 <= k < n ==> #[trigger] sealed@[k] == (old(sealed)@[k] || (k < i && gaps[k])),
        decreases n - i,
    {
        proof {
            crate::cutout::cells::lemma_small_place(wi, hi, i as int);
            lemma_tally_step(gaps, i as int);
        }
        let x: u32 = (i % (w as usize)) as u32;
        let y: u32 = (i / (w as usize)) as u32;
        let inside: bool = x >= g.roi.0 && x <= g.roi.2 && y >= g.roi.1 && y <= g.roi.3;
        assert(shape@[i as int] == old(shape)@[i as int]);
        assert(shape.px(x as int, y as int) == old(shape).px(x as int, y as int));
        if inside && band[i] != 0 && !shape.is_foreground(x, y) && original.is_foreground(x, y) {
            let (lx, ly): (usize, usize) = ((x - g.roi.0) as usize, (y - g.roi.1) as usize);
            proof {
                lemma_at_bound(g.w(), g.h(), lx as int, ly as int);
                assert(open@.len() <= old(shape)@.len()) by {
                    g.lemma_small(old(shape));
                }
            }
            let j: usize = ly * pw + lx;
            if !open.get(j) {
                assert(gaps[i as int]);
                shape.set(x, y, 255);
                sealed.insert(i);
                changed += 1;
            }
        }
        i += 1;
    }
    proof {
        assert(gaps.take(n as int) =~= gaps);
        assert(shape@ =~= Seq::new(old(shape)@.len(), |k: int| if gaps[k] { 255u8 } else { old(shape)@[k] }));
        assert(sealed@ =~= Seq::new(old(sealed)@.len(), |k: int| old(sealed)@[k] || gaps[k]));
    }
    changed
}

} // verus!
