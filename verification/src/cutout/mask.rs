//! The foreground mask and the numbers read from it.
use vstd::prelude::*;

use crate::geometry::{at, before, box_of_any, lemma_at_bound, lemma_at_distinct, on_plane, place, Bounds, Rect};

verus! {

/// The value from which on a pixel counts as foreground, so that the feathered
/// rim does not.
pub const FOREGROUND_THRESHOLD: u8 = 128;

/// How much each pixel belongs to the foreground: 0 is background, 255 is
/// foreground, and feathering leaves values in between.
#[derive(Debug, PartialEq, Eq)]
pub struct Mask {
    width: u32,
    height: u32,
    data: Vec<u8>,
}

/// What `Mask::stats` counts.
#[derive(Debug, Clone, Copy, PartialEq, Eq)]
pub struct MaskStats {
    /// How many pixels are foreground.
    pub foreground: usize,
    /// How many pixels the mask has.
    pub total: usize,
    /// The bounding box of the foreground, if there is any.
    pub bbox: Option<Rect>,
    /// Whether the foreground reaches the border of the image.
    pub touches_edge: bool,
}

impl View for Mask {
    type V = Seq<u8>;

    closed spec fn view(&self) -> Seq<u8> {
        self.data@
    }
}

impl Clone for Mask {
    fn clone(&self) -> (r: Self)
        ensures
            r@ == self@,
            r.w() == self.w(),
            r.h() == self.h(),
    {
        let data: Vec<u8> = self.data.clone();
        assert(data@ =~= self.data@);
        Mask { width: self.width, height: self.height, data }
    }
}

/// The pixels of `s` that are read before `(x, y)`.
pub open spec fn scanned(s: Set<(int, int)>, x: int, y: int) -> Set<(int, int)> {
    Set::new(|p: (int, int)| s.contains(p) && before(p, x, y))
}

impl Mask {
    pub closed spec fn w(&self) -> u32 {
        self.width
    }

    pub closed spec fn h(&self) -> u32 {
        self.height
    }

    /// The buffer holds one value for each pixel.
    pub open spec fn wf(&self) -> bool {
        self@.len() == self.w() * self.h() <= usize::MAX
    }

    pub open spec fn inside(&self, x: int, y: int) -> bool {
        on_plane(self.w() as int, self.h() as int, x, y)
    }

    /// The value at `(x, y)`.
    pub open spec fn px(&self, x: int, y: int) -> u8 {
        self@[at(self.w() as int, x, y)]
    }

    /// `(x, y)` counts as foreground.
    pub open spec fn fg(&self, x: int, y: int) -> bool {
        self.px(x, y) >= FOREGROUND_THRESHOLD
    }

    /// The pixels whose value exceeds `threshold`.
    pub open spec fn above(&self, threshold: u8) -> Set<(int, int)> {
        Set::new(|p: (int, int)| self.inside(p.0, p.1) && self.px(p.0, p.1) > threshold)
    }

    /// The pixels that count as foreground.
    pub open spec fn foreground(&self) -> Set<(int, int)> {
        Set::new(|p: (int, int)| self.inside(p.0, p.1) && self.fg(p.0, p.1))
    }

    /// `(x, y)` lies on the outermost ring of the image.
    pub open spec fn on_edge(&self, x: int, y: int) -> bool {
        x == 0 || y == 0 || x == self.w() - 1 || y == self.h() - 1
    }

    pub fn new(width: u32, height: u32, value: u8) -> (m: Self)
        requires
            width * height <= usize::MAX,
        ensures
            m.wf(),
            m.w() == width,
            m.h() == height,
            m@ == Seq::new((width * height) as nat, |i: int| value),
    {
        let n: usize = (width as usize) * (height as usize);
        let data: Vec<u8> = vec![value; n];
        assert(data@ =~= Seq::new((width * height) as nat, |i: int| value));
        Mask { width, height, data }
    }

    /// A mask over values that are already laid out row by row.
    pub fn from_values(width: u32, height: u32, data: Vec<u8>) -> (m: Self)
        requires
            data@.len() == width * height,
        ensures
            m.wf(),
            m.w() == width,
            m.h() == height,
            m@ == data@,
    {
        assert(data.len() <= usize::MAX);
        Mask { width, height, data }
    }

    pub fn width(&self) -> (r: u32)
        ensures
            r == self.w(),
    {
        self.width
    }

    pub fn height(&self) -> (r: u32)
        ensures
            r == self.h(),
    {
        self.height
    }

    pub fn as_slice(&self) -> (r: &[u8])
        ensures
            r@ == self@,
    {
        self.data.as_slice()
    }

    fn index(&self, x: u32, y: u32) -> (i: usize)
        requires
            self.wf(),
            self.inside(x as int, y as int),
        ensures
            i == at(self.w() as int, x as int, y as int),
            i < self@.len(),
    {
        place(self.width as usize, x as usize, y as usize, Ghost(self.height as int))
    }

    pub fn get(&self, x: u32, y: u32) -> (v: u8)
        requires
            self.wf(),
            self.inside(x as int, y as int),
        ensures
            v == self.px(x as int, y as int),
    {
        self.data[self.index(x, y)]
    }

    pub fn set(&mut self, x: u32, y: u32, value: u8)
        requires
            old(self).wf(),
            old(self).inside(x as int, y as int),
        ensures
            final(self).wf(),
            final(self).w() == old(self).w(),
            final(self).h() == old(self).h(),
            final(self)@ == old(self)@.update(at(old(self).w() as int, x as int, y as int), value),
            forall|u: int, v: int|
                final(self).inside(u, v) ==> #[trigger] final(self).px(u, v) == if u == x && v == y {
                    value
                } else {
                    old(self).px(u, v)
                },
    {
        let i: usize = self.index(x, y);
        self.data.set(i, value);
        proof {
            assert forall|u: int, v: int| self.inside(u, v) implies #[trigger] self.px(u, v) == if u == x
                && v == y {
                value
            } else {
                old(self).px(u, v)
            } by {
                lemma_at_bound(self.w() as int, self.h() as int, u, v);
                if at(self.w() as int, u, v) == i {
                    lemma_at_distinct(self.w() as int, u, v, x as int, y as int);
                }
            }
        }
    }

    pub fn is_foreground(&self, x: u32, y: u32) -> (r: bool)
        requires
            self.wf(),
            self.inside(x as int, y as int),
        ensures
            r == self.fg(x as int, y as int),
    {
        self.get(x, y) >= FOREGROUND_THRESHOLD
    }

    /// A neighbour of `(x, y)`, of the four, is no foreground. The frame counts:
    /// beyond it there is none.
    pub open spec fn bare_side(&self, x: int, y: int) -> bool {
        ||| !self.inside(x - 1, y) || !self.fg(x - 1, y)
        ||| !self.inside(x + 1, y) || !self.fg(x + 1, y)
        ||| !self.inside(x, y - 1) || !self.fg(x, y - 1)
        ||| !self.inside(x, y + 1) || !self.fg(x, y + 1)
    }

    /// Whether a pixel touches what is no foreground, the frame included.
    pub fn touches_background(&self, x: u32, y: u32) -> (r: bool)
        requires
            self.wf(),
            self.inside(x as int, y as int),
        ensures
            r == self.bare_side(x as int, y as int),
    {
        let (w, h): (u32, u32) = (self.width, self.height);
        x == 0 || y == 0 || x == w - 1 || y == h - 1 || !self.is_foreground(x - 1, y) || !self.is_foreground(x + 1, y)
            || !self.is_foreground(x, y - 1) || !self.is_foreground(x, y + 1)
    }

    /// A mask from truth values, `true` being foreground.
    pub fn from_bools(width: u32, height: u32, values: &[bool]) -> (m: Self)
        requires
            values@.len() == width * height,
        ensures
            m.wf(),
            m.w() == width,
            m.h() == height,
            m@ == values@.map_values(|v: bool| if v { 255u8 } else { 0u8 }),
    {
        let mut data: Vec<u8> = Vec::with_capacity(values.len());
        let mut i: usize = 0;
        while i < values.len()
            invariant
                i <= values@.len(),
                data@.len() == i,
                forall|k: int| 0 <= k < i ==> data@[k] == if values@[k] { 255u8 } else { 0u8 },
            decreases values@.len() - i,
        {
            data.push(if values[i] { 255 } else { 0 });
            i += 1;
        }
        assert(data@ =~= values@.map_values(|v: bool| if v { 255u8 } else { 0u8 }));
        Mask { width, height, data }
    }

    /// The bounding box of the pixels whose value exceeds `threshold`.
    ///
    /// `stats` boxes what counts as foreground; placing on a canvas also wants
    /// the faint feathered rim, so here the threshold is the caller's.
    pub fn bbox_above(&self, threshold: u8) -> (r: Option<Rect>)
        requires
            self.wf(),
        ensures
            box_of_any(self.above(threshold), r),
    {
        let ghost all = self.above(threshold);
        let mut bounds: Bounds = Bounds::new();
        let mut y: u32 = 0;
        assert(scanned(all, 0, 0) =~= Set::empty());
        while y < self.height
            invariant
                self.wf(),
                y <= self.height,
                all == self.above(threshold),
                bounds.holds(scanned(all, 0, y as int)),
            decreases self.height - y,
        {
            let mut x: u32 = 0;
            while x < self.width
                invariant
                    self.wf(),
                    x <= self.width,
                    y < self.height,
                    all == self.above(threshold),
                    bounds.holds(scanned(all, x as int, y as int)),
                decreases self.width - x,
            {
                if self.get(x, y) > threshold {
                    bounds.insert(x, y, Ghost(scanned(all, x as int, y as int)));
                    assert(scanned(all, x as int, y as int).insert((x as int, y as int)) =~= scanned(
                        all,
                        x + 1,
                        y as int,
                    ));
                } else {
                    assert(scanned(all, x as int, y as int) =~= scanned(all, x + 1, y as int));
                }
                x += 1;
            }
            assert(scanned(all, x as int, y as int) =~= scanned(all, 0, y + 1));
            y += 1;
        }
        assert(scanned(all, 0, y as int) =~= all);
        bounds.finish(Ghost(all))
    }

    /// Counts and boxes the foreground.
    pub fn stats(&self) -> (s: MaskStats)
        requires
            self.wf(),
        ensures
            s.total == self.w() * self.h(),
            self.foreground().finite(),
            s.foreground == self.foreground().len(),
            box_of_any(self.foreground(), s.bbox),
            s.touches_edge <==> exists|p: (int, int)|
                #[trigger] self.foreground().contains(p) && self.on_edge(p.0, p.1),
    {
        let ghost all = self.foreground();
        let mut bounds: Bounds = Bounds::new();
        let mut count: usize = 0;
        let mut touches_edge: bool = false;
        let mut y: u32 = 0;
        assert(scanned(all, 0, 0) =~= Set::empty());
        assert(0 * self.w() == 0);
        while y < self.height
            invariant
                self.wf(),
                y <= self.height,
                all == self.foreground(),
                bounds.holds(scanned(all, 0, y as int)),
                scanned(all, 0, y as int).finite(),
                count == scanned(all, 0, y as int).len(),
                count <= y * self.w(),
                touches_edge <==> exists|p: (int, int)|
                    #[trigger] scanned(all, 0, y as int).contains(p) && self.on_edge(p.0, p.1),
            decreases self.height - y,
        {
            let mut x: u32 = 0;
            while x < self.width
                invariant
                    self.wf(),
                    x <= self.width,
                    y < self.height,
                    all == self.foreground(),
                    bounds.holds(scanned(all, x as int, y as int)),
                    scanned(all, x as int, y as int).finite(),
                    count == scanned(all, x as int, y as int).len(),
                    count <= y * self.w() + x,
                    touches_edge <==> exists|p: (int, int)|
                        #[trigger] scanned(all, x as int, y as int).contains(p) && self.on_edge(
                            p.0,
                            p.1,
                        ),
                decreases self.width - x,
            {
                let ghost seen = scanned(all, x as int, y as int);
                let ghost next = scanned(all, x + 1, y as int);
                let ghost here = (x as int, y as int);
                if self.is_foreground(x, y) {
                    proof {
                        lemma_at_bound(self.w() as int, self.h() as int, x as int, y as int);
                        assert(seen.insert(here) =~= next);
                    }
                    count += 1;
                    bounds.insert(x, y, Ghost(seen));
                    let edge: bool = x == 0 || y == 0 || x == self.width - 1 || y == self.height - 1;
                    proof {
                        assert(next.contains(here));
                        if touches_edge {
                            let p = choose|p: (int, int)|
                                #[trigger] seen.contains(p) && self.on_edge(p.0, p.1);
                            assert(next.contains(p));
                        }
                    }
                    if edge {
                        touches_edge = true;
                    }
                } else {
                    assert(seen =~= next);
                }
                x += 1;
            }
            assert(scanned(all, x as int, y as int) =~= scanned(all, 0, y + 1));
            assert(y * self.w() + self.w() == (y + 1) * self.w()) by (nonlinear_arith);
            y += 1;
        }
        assert(scanned(all, 0, y as int) =~= all);
        let total: usize = (self.width as usize) * (self.height as usize);
        MaskStats { foreground: count, total, bbox: bounds.finish(Ghost(all)), touches_edge }
    }
}

} // verus!
