//! Row-major pixel addressing and bounding boxes.
use vstd::prelude::*;

verus! {

/// A rectangle `(x1, y1, x2, y2)`; both corners belong to it.
pub type Rect = (u32, u32, u32, u32);

/// The place of pixel `(x, y)` in a row-major plane that is `w` wide.
pub open spec fn at(w: int, x: int, y: int) -> int {
    y * w + x
}

/// Pixel `(x, y)` lies on a plane of `w` by `h`.
pub open spec fn on_plane(w: int, h: int, x: int, y: int) -> bool {
    0 <= x < w && 0 <= y < h
}

/// Pixel `(x, y)` belongs to the rectangle.
pub open spec fn in_rect(r: Rect, x: int, y: int) -> bool {
    r.0 <= x <= r.2 && r.1 <= y <= r.3
}

/// The rectangle is not empty and lies on a plane of `w` by `h`.
pub open spec fn rect_on(r: Rect, w: int, h: int) -> bool {
    r.0 <= r.2 < w && r.1 <= r.3 < h
}

/// `p` comes before `(x, y)` when rows are read top down, left to right.
pub open spec fn before(p: (int, int), x: int, y: int) -> bool {
    p.1 < y || (p.1 == y && p.0 < x)
}

/// `b` is the smallest rectangle that holds every pixel of `s`.
pub open spec fn box_of(s: Set<(int, int)>, b: Rect) -> bool {
    &&& forall|p: (int, int)| #[trigger] s.contains(p) ==> in_rect(b, p.0, p.1)
    &&& exists|p: (int, int)| #[trigger] s.contains(p) && p.0 == b.0
    &&& exists|p: (int, int)| #[trigger] s.contains(p) && p.1 == b.1
    &&& exists|p: (int, int)| #[trigger] s.contains(p) && p.0 == b.2
    &&& exists|p: (int, int)| #[trigger] s.contains(p) && p.1 == b.3
}

/// `b` is the bounding box of `s`, and absent exactly when `s` is empty.
pub open spec fn box_of_any(s: Set<(int, int)>, b: Option<Rect>) -> bool {
    match b {
        Some(r) => box_of(s, r),
        None => s == Set::<(int, int)>::empty(),
    }
}

/// A pixel on the plane has a place inside the buffer.
pub proof fn lemma_at_bound(w: int, h: int, x: int, y: int)
    requires
        on_plane(w, h, x, y),
    ensures
        0 <= at(w, x, y) < w * h,
        0 <= y * w <= at(w, x, y),
{
    assert(0 <= y * w && y * w + x < w * h) by (nonlinear_arith)
        requires
            0 <= x < w,
            0 <= y < h,
    ;
}

/// Row and column can be read back from a place in the buffer.
pub proof fn lemma_at_split(w: int, x: int, y: int)
    requires
        0 <= x < w,
        0 <= y,
    ensures
        at(w, x, y) % w == x,
        at(w, x, y) / w == y,
{
    vstd::arithmetic::div_mod::lemma_fundamental_div_mod_converse(y * w + x, w, y, x);
}

/// Every place in the buffer belongs to one pixel of the plane.
pub proof fn lemma_at_join(w: int, h: int, i: int)
    requires
        0 < w,
        0 <= i < w * h,
    ensures
        on_plane(w, h, i % w, i / w),
        at(w, i % w, i / w) == i,
{
    vstd::arithmetic::div_mod::lemma_fundamental_div_mod(i, w);
    assert(w * (i / w) == (i / w) * w) by (nonlinear_arith);
    assert(0 <= i % w < w) by (nonlinear_arith)
        requires
            0 < w,
    ;
    assert(0 <= i / w < h) by (nonlinear_arith)
        requires
            0 < w,
            0 <= i < w * h,
            i == w * (i / w) + i % w,
            0 <= i % w < w,
    ;
}

/// Rows are told apart by where they begin.
pub proof fn lemma_row_before(w: int, i: int, y: int)
    requires
        0 < w,
        0 <= i,
    ensures
        i < at(w, 0, y) <==> i / w < y,
{
    vstd::arithmetic::div_mod::lemma_fundamental_div_mod(i, w);
    assert(0 <= i % w < w) by (nonlinear_arith)
        requires
            0 < w,
    ;
    assert(i < y * w <==> i / w < y) by (nonlinear_arith)
        requires
            0 < w,
            i == w * (i / w) + i % w,
            0 <= i % w < w,
    ;
}

/// Different pixels have different places.
pub proof fn lemma_at_distinct(w: int, x: int, y: int, u: int, v: int)
    requires
        0 <= x < w,
        0 <= u < w,
        0 <= y,
        0 <= v,
        at(w, x, y) == at(w, u, v),
    ensures
        x == u,
        y == v,
{
    lemma_at_split(w, x, y);
    lemma_at_split(w, u, v);
}

/// Pixels of a plane with few enough pixels can be addressed by `usize`.
pub(crate) fn place(w: usize, x: usize, y: usize, h: Ghost<int>) -> (i: usize)
    requires
        on_plane(w as int, h@, x as int, y as int),
        w * h@ <= usize::MAX,
    ensures
        i == at(w as int, x as int, y as int),
        i < w * h@,
{
    proof {
        lemma_at_bound(w as int, h@, x as int, y as int);
    }
    y * w + x
}

/// A bounding box that grows as pixels are handed to it.
pub struct Bounds {
    x0: u32,
    y0: u32,
    x1: u32,
    y1: u32,
    found: bool,
}

impl Bounds {
    /// The box holds exactly the pixels of `s`.
    pub closed spec fn holds(&self, s: Set<(int, int)>) -> bool {
        if self.found {
            box_of(s, (self.x0, self.y0, self.x1, self.y1))
        } else {
            &&& s == Set::<(int, int)>::empty()
            &&& self.x0 == u32::MAX
            &&& self.y0 == u32::MAX
            &&& self.x1 == 0
            &&& self.y1 == 0
        }
    }

    pub fn new() -> (b: Self)
        ensures
            b.holds(Set::empty()),
    {
        Bounds { x0: u32::MAX, y0: u32::MAX, x1: 0, y1: 0, found: false }
    }

    pub fn insert(&mut self, x: u32, y: u32, s: Ghost<Set<(int, int)>>)
        requires
            old(self).holds(s@),
        ensures
            final(self).holds(s@.insert((x as int, y as int))),
    {
        let ghost before = *self;
        if x < self.x0 {
            self.x0 = x;
        }
        if y < self.y0 {
            self.y0 = y;
        }
        if x > self.x1 {
            self.x1 = x;
        }
        if y > self.y1 {
            self.y1 = y;
        }
        self.found = true;
        proof {
            let p = (x as int, y as int);
            let t = s@.insert(p);
            let b = (self.x0, self.y0, self.x1, self.y1);
            assert(t.contains(p));
            if before.found {
                let o = (before.x0, before.y0, before.x1, before.y1);
                let a = choose|q: (int, int)| s@.contains(q) && q.0 == o.0;
                let c = choose|q: (int, int)| s@.contains(q) && q.1 == o.1;
                let d = choose|q: (int, int)| s@.contains(q) && q.0 == o.2;
                let e = choose|q: (int, int)| s@.contains(q) && q.1 == o.3;
                assert(t.contains(a) && t.contains(c) && t.contains(d) && t.contains(e));
            }
            assert(box_of(t, b));
        }
    }

    pub fn finish(self, s: Ghost<Set<(int, int)>>) -> (r: Option<Rect>)
        requires
            self.holds(s@),
        ensures
            box_of_any(s@, r),
    {
        if self.found {
            Some((self.x0, self.y0, self.x1, self.y1))
        } else {
            None
        }
    }
}

} // verus!
