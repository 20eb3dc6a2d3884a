//! How far the product is from the background along its boundary.
//!
//! Where the boundary was drawn by colour, the colours on both sides differ. If
//! they do not, the fill just stopped somewhere.
use vstd::prelude::*;

use crate::cutout::cells::lemma_small_place;
use crate::cutout::constraints::{Constraint, Constraints};
use crate::cutout::contour::in_box;
use crate::cutout::mask::Mask;
use crate::geometry::{at, place, Rect};
use crate::sorting::{is_median, median};
use crate::tally::{lemma_tally_step, ones};

verus! {

/// What the boundary is measured on.
pub struct Boundary<'a> {
    pub mask: &'a Mask,
    /// How far each pixel is from the background, as keys.
    pub delta: &'a [u64],
    pub bbox: Option<Rect>,
    pub constraints: Option<&'a Constraints>,
    /// How far inward colours are looked for.
    pub depth: u32,
}

impl<'a> Boundary<'a> {
    pub open spec fn wf(&self) -> bool {
        &&& self.mask.wf()
        &&& self.delta@.len() == self.mask@.len()
        &&& self.constraints matches Some(c) ==> c.wf()
    }

    /// `(x, y)` is on the image and in the box. Beyond the box everything was made
    /// background, whatever its colour.
    pub open spec fn inside(&self, x: int, y: int) -> bool {
        self.mask.inside(x, y) && in_box(self.bbox, x, y)
    }

    /// The line between two neighbours was drawn by a mark, on either side. Marks
    /// for another size say nothing.
    pub open spec fn drawn(&self, x: int, y: int, u: int, v: int) -> bool {
        match self.constraints {
            Some(c) => c.w() == self.mask.w() && c.h() == self.mask.h() && (c.said_at(x, y) == Constraint::ForcedFg
                || c.said_at(u, v) == Constraint::ForcedBg),
            None => false,
        }
    }

    /// From `(x, y)` a step leads over a boundary drawn by colour.
    pub open spec fn leaves(&self, x: int, y: int, dx: int, dy: int) -> bool {
        self.inside(x + dx, y + dy) && !self.mask.fg(x + dx, y + dy) && !self.drawn(x, y, x + dx, y + dy)
    }

    /// The way inward from a boundary pixel: away from the first side, of left,
    /// right, up and down, over which the boundary runs.
    pub open spec fn inward(&self, x: int, y: int) -> Option<(int, int)> {
        if !self.mask.fg(x, y) {
            None
        } else if self.leaves(x, y, -1, 0) {
            Some((1, 0))
        } else if self.leaves(x, y, 1, 0) {
            Some((-1, 0))
        } else if self.leaves(x, y, 0, -1) {
            Some((0, 1))
        } else if self.leaves(x, y, 0, 1) {
            Some((0, -1))
        } else {
            None
        }
    }

    /// All of the first `t` steps stay in the foreground.
    pub open spec fn stays(&self, x: int, y: int, d: (int, int), t: int) -> bool {
        forall|k: int|
            1 <= k <= t ==> #[trigger] self.inside(x + d.0 * k, y + d.1 * k) && self.mask.fg(
                x + d.0 * k,
                y + d.1 * k,
            )
    }

    pub open spec fn delta_at(&self, x: int, y: int) -> u64 {
        self.delta@[at(self.mask.w() as int, x, y)]
    }

    /// `v` is the largest distance on the way inward, as long as it stays in the
    /// foreground. The largest is taken because a rim in the colour of the
    /// background may lie before the product.
    pub open spec fn is_best(&self, x: int, y: int, d: (int, int), v: u64) -> bool {
        &&& exists|t: int|
            0 <= t <= self.depth && #[trigger] self.stays(x, y, d, t) && self.delta_at(x + d.0 * t, y + d.1 * t) == v
        &&& forall|t: int|
            0 <= t <= self.depth && #[trigger] self.stays(x, y, d, t) ==> self.delta_at(x + d.0 * t, y + d.1 * t) <= v
    }

    /// The boundary pixels.
    pub open spec fn plane(&self) -> Seq<bool> {
        let w = self.mask.w() as int;
        Seq::new(self.mask@.len(), |i: int| self.inward(i % w, i / w) is Some)
    }

    /// `d` holds the largest distance for each boundary pixel, in order.
    pub open spec fn measured(&self, d: Seq<u64>, n: int) -> bool {
        let w = self.mask.w() as int;
        let list = ones(self.plane().take(n));
        &&& d.len() == list.len()
        &&& forall|j: int|
            0 <= j < d.len() ==> self.is_best(
                list[j] % w,
                list[j] / w,
                self.inward(list[j] % w, list[j] / w).unwrap(),
                #[trigger] d[j],
            )
    }

    /// `r` is the median of the largest distances, and absent without a boundary.
    pub open spec fn separates(&self, r: Option<u64>) -> bool {
        exists|d: Seq<u64>| #[trigger]
            self.measured(d, self.mask@.len() as int) && (r is None <==> d.len() == 0) && (r matches Some(m)
                ==> is_median(d, m))
    }

    fn is_inside(&self, x: i64, y: i64) -> (r: bool)
        requires
            self.wf(),
        ensures
            r == self.inside(x as int, y as int),
    {
        if x < 0 || y < 0 || x >= self.mask.width() as i64 || y >= self.mask.height() as i64 {
            return false;
        }
        match self.bbox {
            Some(b) => x >= b.0 as i64 && x <= b.2 as i64 && y >= b.1 as i64 && y <= b.3 as i64,
            None => true,
        }
    }

    fn is_drawn(&self, x: u32, y: u32, u: u32, v: u32) -> (r: bool)
        requires
            self.wf(),
        ensures
            r == self.drawn(x as int, y as int, u as int, v as int),
    {
        match self.constraints {
            Some(c) => c.width() == self.mask.width() && c.height() == self.mask.height() && (matches!(
                c.at(x, y),
                Constraint::ForcedFg
            ) || matches!(c.at(u, v), Constraint::ForcedBg)),
            None => false,
        }
    }

    fn is_leaving(&self, x: u32, y: u32, dx: i64, dy: i64) -> (r: bool)
        requires
            self.wf(),
            self.mask.inside(x as int, y as int),
            -1 <= dx <= 1,
            -1 <= dy <= 1,
        ensures
            r == self.leaves(x as int, y as int, dx as int, dy as int),
    {
        let u: i64 = x as i64 + dx;
        let v: i64 = y as i64 + dy;
        self.is_inside(u, v) && !self.mask.is_foreground(u as u32, v as u32) && !self.is_drawn(
            x,
            y,
            u as u32,
            v as u32,
        )
    }

    fn way_inward(&self, x: u32, y: u32) -> (r: Option<(i64, i64)>)
        requires
            self.wf(),
            self.mask.inside(x as int, y as int),
        ensures
            r is Some == self.inward(x as int, y as int) is Some,
            r matches Some(d) ==> self.inward(x as int, y as int) == Some((d.0 as int, d.1 as int)) && -1 <= d.0 <= 1
                && -1 <= d.1 <= 1,
    {
        if !self.mask.is_foreground(x, y) {
            None
        } else if self.is_leaving(x, y, -1, 0) {
            Some((1, 0))
        } else if self.is_leaving(x, y, 1, 0) {
            Some((-1, 0))
        } else if self.is_leaving(x, y, 0, -1) {
            Some((0, 1))
        } else if self.is_leaving(x, y, 0, 1) {
            Some((0, -1))
        } else {
            None
        }
    }

    fn key_at(&self, x: u32, y: u32) -> (r: u64)
        requires
            self.wf(),
            self.mask.inside(x as int, y as int),
        ensures
            r == self.delta_at(x as int, y as int),
    {
        let i: usize = place(
            self.mask.width() as usize,
            x as usize,
            y as usize,
            Ghost(self.mask.h() as int),
        );
        self.delta[i]
    }

    /// The largest distance on the way inward.
    fn best(&self, x: u32, y: u32, dx: i64, dy: i64) -> (v: u64)
        requires
            self.wf(),
            self.mask.inside(x as int, y as int),
            -1 <= dx <= 1,
            -1 <= dy <= 1,
        ensures
            self.is_best(x as int, y as int, (dx as int, dy as int), v),
    {
        let ghost (xi, yi) = (x as int, y as int);
        let ghost d = (dx as int, dy as int);
        let mut best: u64 = self.key_at(x, y);
        let mut t: u32 = 0;
        let mut going: bool = true;
        proof {
            assert(d.0 * 0 == 0 && d.1 * 0 == 0) by (nonlinear_arith);
            assert(self.stays(xi, yi, d, 0));
        }
        while going && t < self.depth
            invariant
                self.wf(),
                self.mask.inside(xi, yi),
                xi == x,
                yi == y,
                d == (dx as int, dy as int),
                -1 <= dx <= 1,
                -1 <= dy <= 1,
                t <= self.depth,
                self.stays(xi, yi, d, t as int),
                !going ==> forall|k: int| t < k ==> !(#[trigger] self.stays(xi, yi, d, k)),
                exists|k: int|
                    0 <= k <= self.depth && #[trigger] self.stays(xi, yi, d, k) && self.delta_at(
                        xi + d.0 * k,
                        yi + d.1 * k,
                    ) == best,
                forall|k: int|
                    0 <= k <= t && #[trigger] self.stays(xi, yi, d, k) ==> self.delta_at(xi + d.0 * k, yi + d.1 * k)
                        <= best,
            decreases self.depth - t, going as int,
        {
            let k: i64 = t as i64 + 1;
            proof {
                assert(-0x1_0000_0000 <= dx * k <= 0x1_0000_0000 && -0x1_0000_0000 <= dy * k <= 0x1_0000_0000)
                    by (nonlinear_arith)
                    requires
                        -1 <= dx <= 1,
                        -1 <= dy <= 1,
                        1 <= k <= 0x1_0000_0000,
                ;
            }
            let u: i64 = x as i64 + dx * k;
            let v: i64 = y as i64 + dy * k;
            if self.is_inside(u, v) && self.mask.is_foreground(u as u32, v as u32) {
                let here: u64 = self.key_at(u as u32, v as u32);
                let ghost was = best;
                proof {
                    assert forall|j: int| 1 <= j <= k implies #[trigger] self.inside(xi + d.0 * j, yi + d.1 * j)
                        && self.mask.fg(xi + d.0 * j, yi + d.1 * j) by {
                        if j < k {
                            assert(self.stays(xi, yi, d, t as int));
                        }
                    }
                    assert(self.stays(xi, yi, d, k as int));
                    assert(self.delta_at(xi + d.0 * k, yi + d.1 * k) == here);
                }
                if here > best {
                    best = here;
                }
                t = t + 1;
            } else {
                proof {
                    assert forall|j: int| t < j implies !(#[trigger] self.stays(xi, yi, d, j)) by {
                        if self.stays(xi, yi, d, j) {
                            assert(1 <= k <= j);
                            assert(self.inside(xi + d.0 * (k as int), yi + d.1 * (k as int)));
                        }
                    }
                }
                going = false;
            }
        }
        best
    }

    /// The median of the largest distances along the boundary, if there is one.
    fn separability(&self) -> (r: Option<u64>)
        requires
            self.wf(),
        ensures
            self.separates(r),
    {
        let w: u32 = self.mask.width();
        let ghost (wi, hi) = (self.mask.w() as int, self.mask.h() as int);
        let n: usize = self.delta.len();
        let ghost s = self.plane();
        let mut d: Vec<u64> = Vec::new();
        assert(s.take(0) =~= Seq::empty());
        let mut i: usize = 0;
        while i < n
            invariant
                self.wf(),
                wi == w == self.mask.w(),
                hi == self.mask.h(),
                n == self.mask@.len() == wi * hi,
                s == self.plane(),
                i <= n,
                self.measured(d@, i as int),
            decreases n - i,
        {
            proof {
                lemma_small_place(wi, hi, i as int);
                lemma_tally_step(s, i as int);
            }
            let x: u32 = (i % (w as usize)) as u32;
            let y: u32 = (i / (w as usize)) as u32;
            let ghost had = d@;
            if let Some((dx, dy)) = self.way_inward(x, y) {
                let v: u64 = self.best(x, y, dx, dy);
                d.push(v);
                proof {
                    let list = ones(s.take(i + 1));
                    assert forall|j: int| 0 <= j < d@.len() implies self.is_best(
                        list[j] % wi,
                        list[j] / wi,
                        self.inward(list[j] % wi, list[j] / wi).unwrap(),
                        #[trigger] d@[j],
                    ) by {
                        if j < had.len() {
                            assert(d@[j] == had[j]);
                        }
                    }
                }
            }
            i += 1;
        }
        let ghost all = d@;
        let r: Option<u64> = median(d);
        assert(self.measured(all, n as int));
        r
    }
}

/// The median distance between product and background, measured inward from the
/// boundary. `delta` tells how far each pixel of an image of the given size is
/// from the background; a mask of another size has no answer, and neither has one
/// without a boundary drawn by colour.
pub fn boundary_separability(
    size: (u32, u32),
    mask: &Mask,
    delta: &[u64],
    inset: u32,
    bbox: Option<Rect>,
    constraints: Option<&Constraints>,
) -> (r: Option<u64>)
    requires
        mask.wf(),
        delta@.len() == size.0 * size.1,
        constraints matches Some(c) ==> c.wf(),
    ensures
        size != (mask.w(), mask.h()) ==> r is None,
        size == (mask.w(), mask.h()) ==> (Boundary {
            mask,
            delta,
            bbox,
            constraints,
            depth: if inset < 1 { 1 } else { inset },
        }).separates(r),
{
    if size.0 != mask.width() || size.1 != mask.height() {
        return None;
    }
    let b: Boundary<'_> = Boundary { mask, delta, bbox, constraints, depth: if inset < 1 { 1 } else { inset } };
    b.separability()
}

} // verus!
