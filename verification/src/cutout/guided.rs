//! Where the guided filter works.
//!
//! Where colour has decided the alpha of a pixel, the guided filter may move it;
//! elsewhere the picture has nothing to say, and the pixel stays.
use vstd::prelude::*;

use crate::cutout::contour::{grow, grown};
use crate::cutout::mask::Mask;
use crate::cutout::morphology::BitPlane;
use crate::cutout::refine::{band_box, band_in, tile_at, tile_rect};
use crate::geometry::{box_of, rect_on, Rect};

verus! {

/// Which pixels have had their alpha decided by colour.
pub enum Solved {
    /// Nothing is noted.
    Off,
    /// One mark for each pixel.
    On(BitPlane),
}

impl Default for Solved {
    fn default() -> (r: Self)
        ensures
            !r.kept(),
    {
        Solved::Off
    }
}

impl Solved {
    /// Place `i` is marked.
    pub open spec fn marked(&self, i: int) -> bool {
        match self {
            Solved::Off => false,
            Solved::On(plane) => 0 <= i < plane@.len() && plane@[i],
        }
    }

    /// There is a mark for each of `n` places, or none is kept.
    pub open spec fn covers(&self, n: nat) -> bool {
        match self {
            Solved::Off => true,
            Solved::On(plane) => plane.wf() && plane@.len() == n,
        }
    }

    /// Marks are kept.
    pub open spec fn kept(&self) -> bool {
        *self is On
    }

    /// No mark on any of `cells` places.
    pub fn new(cells: usize) -> (r: Self)
        ensures
            r.kept(),
            r.covers(cells as nat),
            forall|i: int| 0 <= i < cells ==> !(#[trigger] r.marked(i)),
    {
        Solved::On(BitPlane::new(cells))
    }

    /// Marks a place, if marks are kept.
    pub fn set(&mut self, index: usize)
        requires
            exists|n: nat| #[trigger] old(self).covers(n) && index < n,
        ensures
            forall|n: nat| #[trigger] old(self).covers(n) ==> final(self).covers(n),
            final(self).kept() == old(self).kept(),
            forall|i: int| #[trigger]
                final(self).marked(i) <==> old(self).marked(i) || (old(self).kept() && i == index),
    {
        let ghost n = choose|n: nat| #[trigger] self.covers(n) && index < n;
        match self {
            Solved::Off => {},
            Solved::On(plane) => {
                plane.insert(index);
            },
        }
    }

    pub fn get(&self, index: usize) -> (r: bool)
        requires
            exists|n: nat| #[trigger] self.covers(n) && index < n,
        ensures
            r == self.marked(index as int),
    {
        match self {
            Solved::Off => false,
            Solved::On(plane) => plane.get(index),
        }
    }
}

/// The areas that one tile takes.
#[derive(Clone, Copy)]
pub struct Tile {
    /// The bounding box of the band in the tile.
    pub band: Rect,
    /// Where coefficients are needed: one window around it.
    pub coefficients: Rect,
    /// Where sums are needed: two windows around it.
    pub sums: Rect,
}

/// The areas of the tile with the given corner, or nothing if no band runs
/// through it.
pub fn plan_tile(band: &[u8], w: u32, h: u32, x: u32, y: u32, radius: u32) -> (r: Option<Tile>)
    requires
        band@.len() == w * h,
        x < w,
        y < h,
        radius < 0x8000_0000,
    ensures
        r is None <==> band_in(band@, w as int, h as int, tile_rect(w as int, h as int, x, y)) == Set::<(int, int)>::empty(),
        r matches Some(t) ==> {
            &&& box_of(band_in(band@, w as int, h as int, tile_rect(w as int, h as int, x, y)), t.band)
            &&& t.coefficients == grown(t.band, radius as int, w as int, h as int)
            &&& t.sums == grown(t.band, 2 * radius, w as int, h as int)
            &&& rect_on(t.band, w as int, h as int)
            &&& rect_on(t.sums, w as int, h as int)
        },
{
    let tile: Rect = tile_at(w, h, x, y);
    let (found, _widest): (Option<Rect>, u8) = band_box(band, w, h, tile);
    match found {
        None => None,
        Some(b) => {
            proof {
                let s = band_in(band@, w as int, h as int, tile);
                let p = choose|p: (int, int)| #[trigger] s.contains(p) && p.0 == b.0;
                assert(s.contains(p));
            }
            Some(Tile { band: b, coefficients: grow(b, radius, w, h), sums: grow(b, 2 * radius, w, h) })
        },
    }
}

/// Writes the values of the filter where the band runs and colour has decided.
pub fn apply(alpha: &Mask, band: &[u8], solved: &Solved, values: &[u8]) -> (out: Mask)
    requires
        alpha.wf(),
        band@.len() == alpha@.len(),
        values@.len() == alpha@.len(),
        solved.covers(alpha@.len()),
    ensures
        out.wf(),
        out.w() == alpha.w(),
        out.h() == alpha.h(),
        out@ == Seq::new(
            alpha@.len(),
            |i: int|
                if band@[i] != 0 && solved.marked(i) {
                    values@[i]
                } else {
                    alpha@[i]
                },
        ),
{
    let from: &[u8] = alpha.as_slice();
    let n: usize = from.len();
    let mut data: Vec<u8> = Vec::with_capacity(n);
    let mut i: usize = 0;
    while i < n
        invariant
            from@ == alpha@,
            n == alpha@.len() == band@.len() == values@.len(),
            solved.covers(n as nat),
            i <= n,
            data@.len() == i,
            forall|k: int|
                0 <= k < i ==> #[trigger] data@[k] == if band@[k] != 0 && solved.marked(k) {
                    values@[k]
                } else {
                    alpha@[k]
                },
        decreases n - i,
    {
        let moved: bool = band[i] != 0 && solved.get(i);
        data.push(if moved { values[i] } else { from[i] });
        i += 1;
    }
    let out: Mask = Mask::from_values(alpha.width(), alpha.height(), data);
    assert(out@ =~= Seq::new(
        alpha@.len(),
        |i: int|
            if band@[i] != 0 && solved.marked(i) {
                values@[i]
            } else {
                alpha@[i]
            },
    ));
    out
}

} // verus!
