//! Integral images: the sum over any rectangle in constant time.
//!
//! Values are whole numbers, so a sum taken as a difference of two large ones
//! loses nothing.
use vstd::prelude::*;

use crate::geometry::{at, lemma_at_bound, lemma_at_distinct, on_plane};
use crate::sums::{lemma_rect_bound, lemma_rect_corners, lemma_rect_step, lemma_row_step, rect_sum, row_sum};

verus! {

/// Plane `k` of a list of values as a function of column and row.
pub open spec fn plane_of<const N: usize>(values: Seq<[u64; N]>, w: int, k: int) -> spec_fn(int, int) -> int {
    |x: int, y: int| values[at(w, x, y)][k] as int
}

/// No value is above `top`.
pub open spec fn all_up_to<const N: usize>(values: Seq<[u64; N]>, top: int) -> bool {
    forall|i: int, k: int| 0 <= i < values.len() && 0 <= k < N ==> #[trigger] values[i][k] <= top
}

/// The sum of all values of a plane fits.
pub open spec fn sums_fit<const N: usize>(values: Seq<[u64; N]>) -> bool {
    exists|top: int| #[trigger] all_up_to(values, top) && 0 <= top && top * values.len() <= u64::MAX
}

/// The integral image of several planes.
pub struct Integral<const N: usize> {
    w: usize,
    h: usize,
    data: Vec<[u64; N]>,
    values: Ghost<Seq<[u64; N]>>,
}

impl<const N: usize> Integral<N> {
    /// The width of the planes.
    pub closed spec fn w(&self) -> int {
        self.w as int
    }

    pub closed spec fn h(&self) -> int {
        self.h as int
    }

    /// The values that are summed.
    pub closed spec fn values(&self) -> Seq<[u64; N]> {
        self.values@
    }

    pub closed spec fn wf(&self) -> bool {
        &&& self.values@.len() == self.w * self.h
        &&& self.data@.len() == (self.w + 1) * (self.h + 1)
        &&& self.w < usize::MAX
        &&& self.h < usize::MAX
        &&& corners(self.data@, self.values@, self.w as int, self.h as int, self.h + 1)
        &&& sums_fit(self.values@)
    }

    /// Builds the integral image of a `w` by `h` list of values.
    #[verifier::rlimit(60)]
    pub fn build(w: usize, h: usize, values: &[[u64; N]]) -> (r: Self)
        requires
            values@.len() == w * h,
            (w + 1) * (h + 1) <= usize::MAX,
            sums_fit(values@),
        ensures
            r.wf(),
            r.w() == w,
            r.h() == h,
            r.values() == values@,
    {
        let ghost (wi, hi) = (w as int, h as int);
        let ghost v = values@;
        let ghost top = choose|top: int| #[trigger] all_up_to(v, top) && 0 <= top && top * v.len() <= u64::MAX;
        proof {
            assert(w + 1 <= (w + 1) * (h + 1) && h + 1 <= (w + 1) * (h + 1)) by (nonlinear_arith)
                requires
                    0 <= w,
                    0 <= h,
            ;
        }
        let n: usize = values.len();
        let stride: usize = w + 1;
        let cells: usize = stride * (h + 1);
        let mut data: Vec<[u64; N]> = vec![[0u64; N]; cells];
        proof {
            assert forall|x: int, k: int| 0 <= x <= wi && 0 <= k < N implies #[trigger] data@[at(wi + 1, x, 0)][k]
                == rect_sum(plane_of(v, wi, k), 0, x, 0, 0) by {}
            assert forall|x: int, b: int| 0 <= x <= wi && 0 < b <= hi implies #[trigger] data@[at(wi + 1, x, b)]
                == [0u64; N] by {
                lemma_at_bound(wi + 1, hi + 1, x, b);
            }
        }
        let mut y: usize = 0;
        while y < h
            invariant
                wi == w,
                hi == h,
                v == values@,
                n == v.len() == w * h,
                stride == w + 1,
                cells == stride * (h + 1),
                data@.len() == cells,
                all_up_to(v, top),
                0 <= top,
                top * (w * h) <= u64::MAX,
                y <= h,
                corners(data@, v, wi, hi, y + 1),
                forall|x: int, b: int|
                    0 <= x <= wi && y < b <= hi ==> #[trigger] data@[at(wi + 1, x, b)] == [0u64; N],
            decreases h - y,
        {
            proof {
                lemma_at_bound(wi + 1, hi + 1, 0, y + 1);
                assert forall|k: int| 0 <= k < N implies #[trigger] data@[at(wi + 1, 0, y + 1)][k] == rect_sum(
                    plane_of(v, wi, k),
                    0,
                    0,
                    0,
                    y + 1,
                ) by {
                    assert(data@[at(wi + 1, 0, y + 1)] == [0u64; N]);
                    lemma_empty_columns(plane_of(v, wi, k), y + 1);
                }
            }
            let mut acc: [u64; N] = [0u64; N];
            let mut x: usize = 0;
            while x < w
                invariant
                    wi == w,
                    hi == h,
                    v == values@,
                    n == v.len() == w * h,
                    stride == w + 1,
                    cells == stride * (h + 1),
                    data@.len() == cells,
                    all_up_to(v, top),
                    0 <= top,
                    top * (w * h) <= u64::MAX,
                    x <= w,
                    y < h,
                    corners(data@, v, wi, hi, y + 1),
                    forall|k: int|
                        0 <= k < N ==> #[trigger] acc[k] == row_sum(plane_of(v, wi, k), 0, x as int, y as int),
                    forall|a: int, k: int|
                        0 <= a <= x && 0 <= k < N ==> #[trigger] data@[at(wi + 1, a, y + 1)][k] == rect_sum(
                            plane_of(v, wi, k),
                            0,
                            a,
                            0,
                            y + 1,
                        ),
                    forall|a: int, b: int|
                        0 <= a <= wi && y + 1 < b <= hi ==> #[trigger] data@[at(wi + 1, a, b)] == [0u64; N],
                decreases w - x,
            {
                proof {
                    lemma_at_bound(wi, hi, x as int, y as int);
                    lemma_at_bound(wi + 1, hi + 1, x + 1, y as int);
                    lemma_at_bound(wi + 1, hi + 1, x + 1, y + 1);
                }
                let i: usize = y * w + x;
                let above: usize = y * stride + x + 1;
                let here: usize = (y + 1) * stride + x + 1;
                assert(i == at(wi, x as int, y as int));
                assert(above == at(wi + 1, x + 1, y as int));
                assert(here == at(wi + 1, x + 1, y + 1));
                let mut cell: [u64; N] = [0u64; N];
                let ghost had = acc;
                let mut k: usize = 0;
                while k < N
                    invariant
                        wi == w,
                        hi == h,
                        v == values@,
                        v.len() == w * h,
                        data@.len() == cells,
                        all_up_to(v, top),
                        0 <= top,
                        top * (w * h) <= u64::MAX,
                        x < w,
                        y < h,
                        i == at(wi, x as int, y as int),
                        i < v.len(),
                        above == at(wi + 1, x + 1, y as int),
                        above < cells,
                        corners(data@, v, wi, hi, y + 1),
                        k <= N,
                        forall|j: int|
                            0 <= j < N ==> #[trigger] had[j] == row_sum(plane_of(v, wi, j), 0, x as int, y as int),
                        forall|j: int|
                            0 <= j < k ==> #[trigger] acc[j] == row_sum(plane_of(v, wi, j), 0, x + 1, y as int),
                        forall|j: int| k <= j < N ==> #[trigger] acc[j] == had[j],
                        forall|j: int|
                            0 <= j < k ==> #[trigger] cell[j] == rect_sum(plane_of(v, wi, j), 0, x + 1, 0, y + 1),
                    decreases N - k,
                {
                    let ghost g = plane_of(v, wi, k as int);
                    proof {
                        lemma_row_step(g, 0, x as int, y as int);
                        lemma_rect_step(g, 0, x + 1, 0, y as int);
                        lemma_cell_fits(v, wi, hi, k as int, x + 1, y + 1, top);
                        lemma_row_fits(v, wi, hi, k as int, x + 1, y as int, top);
                        assert(data@[at(wi + 1, x + 1, y as int)][k as int] == rect_sum(g, 0, x + 1, 0, y as int));
                        assert(acc[k as int] == had[k as int]);
                        assert(g(x as int, y as int) == v[i as int][k as int]);
                        lemma_rect_nonneg(v, wi, hi, k as int, x + 1, y as int, top);
                    }
                    acc[k] = acc[k] + values[i][k];
                    cell[k] = data[above][k] + acc[k];
                    k += 1;
                }
                let ghost was = data@;
                data.set(here, cell);
                proof {
                    lemma_put(was, data@, wi + 1, hi + 1, x + 1, y + 1, cell);
                }
                x += 1;
            }
            proof {
                assert(corners(data@, v, wi, hi, y + 2));
            }
            y += 1;
        }
        Integral { w, h, data, values: Ghost(v) }
    }

    /// The sums over the columns `x0..=x1` and the rows `y0..=y1`.
    pub fn sum(&self, x0: usize, y0: usize, x1: usize, y1: usize) -> (r: [u64; N])
        requires
            self.wf(),
            x0 <= x1 < self.w(),
            y0 <= y1 < self.h(),
        ensures
            forall|k: int|
                0 <= k < N ==> #[trigger] r[k] == rect_sum(
                    plane_of(self.values(), self.w(), k),
                    x0 as int,
                    x1 + 1,
                    y0 as int,
                    y1 + 1,
                ),
    {
        let ghost (wi, hi) = (self.w as int, self.h as int);
        let ghost v = self.values@;
        let ghost top = choose|top: int| #[trigger] all_up_to(v, top) && 0 <= top && top * v.len() <= u64::MAX;
        let n: usize = self.data.len();
        let s: usize = self.w + 1;
        proof {
            lemma_at_bound(wi + 1, hi + 1, x0 as int, y0 as int);
            lemma_at_bound(wi + 1, hi + 1, x1 + 1, y0 as int);
            lemma_at_bound(wi + 1, hi + 1, x0 as int, y1 + 1);
            lemma_at_bound(wi + 1, hi + 1, x1 + 1, y1 + 1);
        }
        let a: usize = y0 * s + x0;
        let b: usize = y0 * s + x1 + 1;
        let c: usize = (y1 + 1) * s + x0;
        let d: usize = (y1 + 1) * s + x1 + 1;
        let mut r: [u64; N] = [0u64; N];
        let mut k: usize = 0;
        while k < N
            invariant
                self.wf(),
                wi == self.w,
                hi == self.h,
                v == self.values@,
                x0 <= x1 < wi,
                y0 <= y1 < hi,
                a == at(wi + 1, x0 as int, y0 as int),
                b == at(wi + 1, x1 + 1, y0 as int),
                c == at(wi + 1, x0 as int, y1 + 1),
                d == at(wi + 1, x1 + 1, y1 + 1),
                a < n,
                b < n,
                c < n,
                d < n,
                n == self.data@.len(),
                all_up_to(v, top),
                k <= N,
                forall|j: int|
                    0 <= j < k ==> #[trigger] r[j] == rect_sum(
                        plane_of(v, wi, j),
                        x0 as int,
                        x1 + 1,
                        y0 as int,
                        y1 + 1,
                    ),
            decreases N - k,
        {
            let ghost g = plane_of(v, wi, k as int);
            proof {
                lemma_rect_corners(g, x0 as int, x1 + 1, y0 as int, y1 + 1);
                lemma_rect_corners(g, x0 as int, x1 + 1, 0, y0 as int);
                lemma_rect_corners(g, 0, x0 as int, y0 as int, y1 + 1);
                lemma_cut(v, wi, hi, k as int, x0 as int, x1 + 1, y0 as int, y1 + 1, top);
                assert(corners(self.data@, v, wi, hi, hi + 1));
                assert(self.data@[at(wi + 1, x0 as int, y0 as int)][k as int] == rect_sum(g, 0, x0 as int, 0, y0 as int));
                assert(self.data@[at(wi + 1, x1 + 1, y0 as int)][k as int] == rect_sum(g, 0, x1 + 1, 0, y0 as int));
                assert(self.data@[at(wi + 1, x0 as int, y1 + 1)][k as int] == rect_sum(g, 0, x0 as int, 0, y1 + 1));
                assert(self.data@[at(wi + 1, x1 + 1, y1 + 1)][k as int] == rect_sum(g, 0, x1 + 1, 0, y1 + 1));
            }
            r[k] = (self.data[d][k] - self.data[b][k]) - (self.data[c][k] - self.data[a][k]);
            k += 1;
        }
        r
    }
}

/// The first `rows` rows of corners hold the sums from the origin.
pub closed spec fn corners<const N: usize>(data: Seq<[u64; N]>, values: Seq<[u64; N]>, w: int, h: int, rows: int) -> bool {
    forall|x: int, y: int, k: int|
        0 <= x <= w && 0 <= y < rows && 0 <= k < N ==> #[trigger] data[at(w + 1, x, y)][k] == rect_sum(
            plane_of(values, w, k),
            0,
            x,
            0,
            y,
        )
}

/// A rectangle without columns sums up to nothing.
proof fn lemma_empty_columns(g: spec_fn(int, int) -> int, y: int)
    ensures
        rect_sum(g, 0, 0, 0, y) == 0,
    decreases y,
{
    if y > 0 {
        lemma_empty_columns(g, y - 1);
        lemma_rect_step(g, 0, 0, 0, y - 1);
        lemma_row_step(g, 0, 0, y - 1);
    }
}

/// Sums over part of the planes are not negative.
proof fn lemma_rect_nonneg<const N: usize>(v: Seq<[u64; N]>, w: int, h: int, k: int, x: int, y: int, top: int)
    requires
        v.len() == w * h,
        0 <= x <= w,
        0 <= y <= h,
        0 <= k < N,
        all_up_to(v, top),
    ensures
        0 <= rect_sum(plane_of(v, w, k), 0, x, 0, y) <= top * (x * y),
{
    let g = plane_of(v, w, k);
    assert forall|a: int, b: int| 0 <= a < x && 0 <= b < y implies 0 <= #[trigger] g(a, b) <= top by {
        lemma_at_bound(w, h, a, b);
        assert(v[at(w, a, b)][k] <= top);
    }
    lemma_rect_bound(g, 0, x, 0, y, top);
}

/// Sums from the origin fit.
proof fn lemma_cell_fits<const N: usize>(v: Seq<[u64; N]>, w: int, h: int, k: int, x: int, y: int, top: int)
    requires
        v.len() == w * h,
        0 <= x <= w,
        0 <= y <= h,
        0 <= k < N,
        all_up_to(v, top),
        0 <= top,
        top * (w * h) <= u64::MAX,
    ensures
        0 <= rect_sum(plane_of(v, w, k), 0, x, 0, y) <= u64::MAX,
{
    lemma_rect_nonneg(v, w, h, k, x, y, top);
    assert(top * (x * y) <= top * (w * h)) by (nonlinear_arith)
        requires
            0 <= top,
            0 <= x <= w,
            0 <= y <= h,
    ;
}

/// Sums along a row fit.
proof fn lemma_row_fits<const N: usize>(v: Seq<[u64; N]>, w: int, h: int, k: int, x: int, y: int, top: int)
    requires
        v.len() == w * h,
        0 <= x <= w,
        0 <= y < h,
        0 <= k < N,
        all_up_to(v, top),
        0 <= top,
        top * (w * h) <= u64::MAX,
    ensures
        0 <= row_sum(plane_of(v, w, k), 0, x, y) <= u64::MAX,
{
    let g = plane_of(v, w, k);
    lemma_cell_fits(v, w, h, k, x, y + 1, top);
    lemma_rect_nonneg(v, w, h, k, x, y, top);
    lemma_rect_step(g, 0, x, 0, y);
    let line = |b: int| g(b, y);
    assert forall|a: int| 0 <= a < x implies 0 <= #[trigger] line(a) <= top by {
        lemma_at_bound(w, h, a, y);
        assert(v[at(w, a, y)][k] <= top);
    }
    crate::sums::lemma_span_bound(line, 0, x, top);
}

/// The parts of which a rectangle is cut out are no larger than the whole.
proof fn lemma_cut<const N: usize>(v: Seq<[u64; N]>, w: int, h: int, k: int, x0: int, x1: int, y0: int, y1: int, top: int)
    requires
        v.len() == w * h,
        0 <= x0 <= x1 <= w,
        0 <= y0 <= y1 <= h,
        0 <= k < N,
        all_up_to(v, top),
    ensures
        rect_sum(plane_of(v, w, k), 0, x0, 0, y0) <= rect_sum(plane_of(v, w, k), 0, x0, 0, y1),
        rect_sum(plane_of(v, w, k), 0, x1, 0, y0) <= rect_sum(plane_of(v, w, k), 0, x1, 0, y1),
        0 <= rect_sum(plane_of(v, w, k), x0, x1, y0, y1),
{
    let g = plane_of(v, w, k);
    assert forall|a: int, b: int| 0 <= a < w && 0 <= b < h implies 0 <= #[trigger] g(a, b) <= top by {
        lemma_at_bound(w, h, a, b);
        assert(v[at(w, a, b)][k] <= top);
    }
    lemma_rect_bound(g, x0, x1, y0, y1, top);
    lemma_rect_bound(g, 0, x0, y0, y1, top);
    lemma_rect_bound(g, 0, x1, y0, y1, top);
    crate::sums::lemma_span_split(|y: int| row_sum(g, 0, x0, y), 0, y0, y1);
    crate::sums::lemma_span_split(|y: int| row_sum(g, 0, x1, y), 0, y0, y1);
}

/// Writing one place leaves the others.
proof fn lemma_put<T>(was: Seq<T>, now: Seq<T>, w: int, h: int, x: int, y: int, v: T)
    requires
        on_plane(w, h, x, y),
        was.len() == w * h,
        now == was.update(at(w, x, y), v),
    ensures
        now[at(w, x, y)] == v,
        forall|a: int, b: int|
            on_plane(w, h, a, b) && !(a == x && b == y) ==> #[trigger] now[at(w, a, b)] == was[at(w, a, b)],
{
    lemma_at_bound(w, h, x, y);
    assert forall|a: int, b: int| on_plane(w, h, a, b) && !(a == x && b == y) implies #[trigger] now[at(w, a, b)]
        == was[at(w, a, b)] by {
        lemma_at_bound(w, h, a, b);
        if at(w, a, b) == at(w, x, y) {
            lemma_at_distinct(w, a, b, x, y);
        }
    }
}

} // verus!
