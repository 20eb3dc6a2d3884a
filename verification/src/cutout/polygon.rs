//! Filling polygons by the even-odd rule.
use vstd::prelude::*;

use crate::cutout::constraints::{painted, says_bg, says_fg, Constraint, Constraints};
use crate::geometry::{at, lemma_at_split, place};
use crate::tally::{lemma_tally_step, tally};

verus! {

/// Vertices are given in parts of a pixel: this many make one.
pub const POLYGON_UNIT: i64 = 65_536;

/// Vertices lie at most this far from the origin: 2 to the 32 pixels.
pub const POLYGON_REACH: i64 = 281_474_976_710_656;

/// The centre of column or row `x`, in parts of a pixel.
pub open spec fn centre(x: int) -> int {
    x * POLYGON_UNIT + POLYGON_UNIT / 2
}

/// The edge from `a` to `b` crosses the line at height `scan`. Each edge holds
/// its upper end and not its lower one, so that a vertex on the line counts once
/// and a level edge not at all.
pub open spec fn crosses(a: [i64; 2], b: [i64; 2], scan: int) -> bool {
    (a[1] <= scan) != (b[1] <= scan)
}

/// That crossing lies at `cx` or left of it.
pub open spec fn crossed_before(a: [i64; 2], b: [i64; 2], scan: int, cx: int) -> bool {
    let dy = b[1] - a[1];
    let along = a[0] * dy + (scan - a[1]) * (b[0] - a[0]);
    if dy > 0 {
        along <= cx * dy
    } else {
        along >= cx * dy
    }
}

/// Walking in from the left, edge `k` is crossed before the centre of `(x, y)`.
pub open spec fn edge_passed(points: Seq<[i64; 2]>, k: int, x: int, y: int) -> bool {
    let a = points[k];
    let b = points[(k + 1) % (points.len() as int)];
    crosses(a, b, centre(y)) && crossed_before(a, b, centre(y), centre(x))
}

/// The edges crossed before the centre of `(x, y)`.
pub open spec fn passed(points: Seq<[i64; 2]>, x: int, y: int) -> Seq<bool> {
    Seq::new(points.len(), |k: int| edge_passed(points, k, x, y))
}

/// `(x, y)` lies inside the polygon: an odd number of edges was crossed.
pub open spec fn inside(points: Seq<[i64; 2]>, x: int, y: int) -> bool {
    points.len() >= 3 && tally(passed(points, x, y)) % 2 == 1
}

/// The pixels inside, as a plane.
pub open spec fn interior(points: Seq<[i64; 2]>, width: u32, height: u32) -> Seq<bool> {
    Seq::new((width * height) as nat, |i: int| inside(points, i % (width as int), i / (width as int)))
}

/// Every coordinate is within reach.
pub open spec fn within_reach(points: Seq<[i64; 2]>) -> bool {
    forall|k: int|
        0 <= k < points.len() ==> -POLYGON_REACH <= (#[trigger] points[k])[0] <= POLYGON_REACH && -POLYGON_REACH
            <= points[k][1] <= POLYGON_REACH
}

/// The first column, at most `width`, whose centre the crossing does not exceed.
fn first_column(a: [i64; 2], b: [i64; 2], y: u32, width: u32) -> (from: u32)
    requires
        -POLYGON_REACH <= a[0] <= POLYGON_REACH,
        -POLYGON_REACH <= a[1] <= POLYGON_REACH,
        -POLYGON_REACH <= b[0] <= POLYGON_REACH,
        -POLYGON_REACH <= b[1] <= POLYGON_REACH,
        crosses(a, b, centre(y as int)),
    ensures
        from <= width,
        forall|x: int| 0 <= x < width ==> (from <= x <==> #[trigger] crossed_before(a, b, centre(y as int), centre(x))),
{
    let unit: i128 = POLYGON_UNIT as i128;
    let half: i128 = unit / 2;
    let scan: i128 = (y as i128) * unit + half;
    let dy: i128 = (b[1] as i128) - (a[1] as i128);
    let dx: i128 = (b[0] as i128) - (a[0] as i128);
    let rise: i128 = scan - (a[1] as i128);
    let ghost bound: int = 0x2_0000_0000_0000;
    assert(-bound * bound <= a[0] * dy <= bound * bound) by (nonlinear_arith)
        requires
            -bound <= a[0] <= bound,
            -bound <= dy <= bound,
            bound == 0x2_0000_0000_0000,
    ;
    assert(-bound * bound <= rise * dx <= bound * bound) by (nonlinear_arith)
        requires
            -bound <= rise <= bound,
            -bound <= dx <= bound,
            bound == 0x2_0000_0000_0000,
    ;
    let along: i128 = (a[0] as i128) * dy + rise * dx - half * dy;
    let num: i128 = if dy > 0 { along } else { -along };
    let den: i128 = if dy > 0 { unit * dy } else { -(unit * dy) };
    proof {
        assert forall|x: int| 0 <= x < width implies (num <= x * den <==> #[trigger] crossed_before(
            a,
            b,
            centre(y as int),
            centre(x),
        )) by {
            assert(centre(x) * dy == x * (unit * dy) + half * dy) by (nonlinear_arith)
                requires
                    centre(x) == x * unit + half,
            ;
            assert(x * (-(unit * dy)) == -(x * (unit * dy))) by (nonlinear_arith);
        }
    }
    if num <= 0 {
        proof {
            assert forall|x: int| 0 <= x < width implies #[trigger] crossed_before(a, b, centre(y as int), centre(x)) by {
                assert(0 <= x * den) by (nonlinear_arith)
                    requires
                        0 <= x,
                        0 <= den,
                ;
            }
        }
        return 0;
    }
    let q: i128 = (num - 1) / den;
    proof {
        vstd::arithmetic::div_mod::lemma_fundamental_div_mod(num - 1, den as int);
        assert(0 <= (num - 1) % (den as int) < den) by (nonlinear_arith)
            requires
                0 < den,
        ;
        assert(0 <= q && q * den <= num - 1 < (q + 1) * den) by (nonlinear_arith)
            requires
                num - 1 == den * q + (num - 1) % (den as int),
                0 <= (num - 1) % (den as int) < den,
                0 < num,
                0 < den,
        ;
        assert forall|x: int| 0 <= x < width implies (q < x <==> #[trigger] crossed_before(
            a,
            b,
            centre(y as int),
            centre(x),
        )) by {
            assert(q < x <==> num <= x * den) by (nonlinear_arith)
                requires
                    q * den <= num - 1 < (q + 1) * den,
                    0 < den,
            ;
        }
    }
    if q >= (width as i128) {
        width
    } else {
        (q + 1) as u32
    }
}

/// Which pixels of row `y` lie inside.
fn fill_row(points: &[[i64; 2]], width: u32, y: u32) -> (row: Vec<bool>)
    requires
        within_reach(points@),
        points@.len() >= 3,
    ensures
        row@.len() == width,
        forall|x: int| 0 <= x < width ==> #[trigger] row@[x] == inside(points@, x, y as int),
{
    let n: usize = points.len();
    let mut row: Vec<bool> = vec![false; width as usize];
    let mut k: usize = 0;
    proof {
        assert forall|x: int| 0 <= x < width implies #[trigger] row@[x] == (tally(
            passed(points@, x, y as int).take(0),
        ) % 2 == 1) by {
            assert(passed(points@, x, y as int).take(0) =~= Seq::empty());
        }
    }
    while k < n
        invariant
            n == points@.len(),
            within_reach(points@),
            k <= n,
            row@.len() == width,
            forall|x: int|
                0 <= x < width ==> #[trigger] row@[x] == (tally(passed(points@, x, y as int).take(k as int)) % 2
                    == 1),
        decreases n - k,
    {
        let a: [i64; 2] = points[k];
        let next: usize = if k + 1 == n { 0 } else { k + 1 };
        let b: [i64; 2] = points[next];
        assert(next == (k + 1) % (n as int)) by (nonlinear_arith)
            requires
                next == if k + 1 == n { 0 } else { k + 1 },
                0 <= k < n,
        ;
        let scan: i64 = (y as i64) * POLYGON_UNIT + POLYGON_UNIT / 2;
        let ghost had = row@;
        proof {
            assert forall|x: int| 0 <= x < width implies tally(#[trigger] passed(points@, x, y as int).take(k + 1))
                == tally(passed(points@, x, y as int).take(k as int)) + if edge_passed(points@, k as int, x, y as int) {
                1nat
            } else {
                0nat
            } by {
                lemma_tally_step(passed(points@, x, y as int), k as int);
            }
        }
        if (a[1] <= scan) != (b[1] <= scan) {
            let from: u32 = first_column(a, b, y, width);
            let mut x: u32 = from;
            while x < width
                invariant
                    from <= x <= width,
                    row@.len() == width == had.len(),
                    forall|u: int| 0 <= u < width ==> #[trigger] row@[u] == if from <= u < x { !had[u] } else { had[u] },
                decreases width - x,
            {
                let flipped: bool = !row[x as usize];
                row.set(x as usize, flipped);
                x += 1;
            }
            proof {
                assert forall|u: int| 0 <= u < width implies #[trigger] row@[u] == (tally(
                    passed(points@, u, y as int).take(k + 1),
                ) % 2 == 1) by {
                    assert(crossed_before(a, b, centre(y as int), centre(u)) <==> from <= u);
                    assert(had[u] == (tally(passed(points@, u, y as int).take(k as int)) % 2 == 1));
                }
            }
        } else {
            proof {
                assert forall|u: int| 0 <= u < width implies #[trigger] row@[u] == (tally(
                    passed(points@, u, y as int).take(k + 1),
                ) % 2 == 1) by {
                    assert(had[u] == (tally(passed(points@, u, y as int).take(k as int)) % 2 == 1));
                }
            }
        }
        k += 1;
    }
    proof {
        assert forall|x: int| 0 <= x < width implies #[trigger] row@[x] == inside(points@, x, y as int) by {
            assert(passed(points@, x, y as int).take(k as int) =~= passed(points@, x, y as int));
        }
    }
    row
}

impl Constraints {
    /// Marks the inside of a polygon, by the even-odd rule, and returns how many
    /// pixels lie in it.
    ///
    /// Vertices are in parts of a pixel from the top left corner. What lies
    /// outside the image is dropped row by row, so that a polygon reaching out
    /// keeps its shape inside. Fewer than three vertices mark nothing.
    pub fn fill_polygon(&mut self, points: &[[i64; 2]], kind: Constraint) -> (marked: u64)
        requires
            old(self).wf(),
            within_reach(points@),
        ensures
            painted(old(self), final(self), kind, interior(points@, old(self).w(), old(self).h())),
            marked == tally(interior(points@, old(self).w(), old(self).h())),
    {
        let width: u32 = self.width();
        let height: u32 = self.height();
        let ghost area = interior(points@, width, height);
        let ghost (w, h) = (width as int, height as int);
        assert(0 <= width * height) by (nonlinear_arith);
        assert(area.len() == w * h);
        let mut marked: u64 = 0;
        if points.len() < 3 {
            proof {
                crate::tally::lemma_tally_zero(area);
                assert(self.fg() =~= Seq::new(self.fg().len(), |i: int| self.fg()[i] || (says_fg(kind) && area[i])));
                assert(self.bg() =~= Seq::new(self.bg().len(), |i: int| self.bg()[i] || (says_bg(kind) && area[i])));
            }
            return marked;
        }
        let mut y: u32 = 0;
        assert(at(w, 0, 0) == 0) by (nonlinear_arith)
            requires
                at(w, 0, 0) == 0 * w + 0,
        ;
        assert(area.take(0) =~= Seq::empty());
        while y < height
            invariant
                w == width == self.w(),
                h == height == self.h(),
                area == interior(points@, width, height),
                area.len() == w * h <= usize::MAX,
                points@.len() >= 3,
                within_reach(points@),
                old(self).wf(),
                self.wf(),
                self.w() == old(self).w(),
                self.h() == old(self).h(),
                self.listed() == old(self).listed(),
                self.fg().len() == old(self).fg().len() == area.len(),
                y <= height,
                0 <= at(w, 0, y as int) <= area.len(),
                marked == tally(area.take(at(w, 0, y as int))),
                marked <= at(w, 0, y as int),
                forall|i: int|
                    0 <= i < area.len() ==> #[trigger] self.fg()[i] == (old(self).fg()[i] || (says_fg(kind) && area[i] && i
                        < at(w, 0, y as int))),
                forall|i: int|
                    0 <= i < area.len() ==> #[trigger] self.bg()[i] == (old(self).bg()[i] || (says_bg(kind) && area[i] && i
                        < at(w, 0, y as int))),
            decreases height - y,
        {
            let row: Vec<bool> = fill_row(points, width, y);
            let mut x: u32 = 0;
            while x < width
                invariant
                    w == width == self.w(),
                    h == height == self.h(),
                    area == interior(points@, width, height),
                    area.len() == w * h <= usize::MAX,
                    old(self).wf(),
                    self.wf(),
                    self.w() == old(self).w(),
                    self.h() == old(self).h(),
                    self.listed() == old(self).listed(),
                    self.fg().len() == old(self).fg().len() == area.len(),
                    y < height,
                    x <= width,
                    row@.len() == width,
                    forall|u: int| 0 <= u < width ==> #[trigger] row@[u] == inside(points@, u, y as int),
                    0 <= at(w, x as int, y as int) <= area.len(),
                    marked == tally(area.take(at(w, x as int, y as int))),
                    marked <= at(w, x as int, y as int),
                    forall|i: int|
                        0 <= i < area.len() ==> #[trigger] self.fg()[i] == (old(self).fg()[i] || (says_fg(kind)
                            && area[i] && i < at(w, x as int, y as int))),
                    forall|i: int|
                        0 <= i < area.len() ==> #[trigger] self.bg()[i] == (old(self).bg()[i] || (says_bg(kind)
                            && area[i] && i < at(w, x as int, y as int))),
                decreases width - x,
            {
                let i: usize = place(width as usize, x as usize, y as usize, Ghost(h));
                proof {
                    lemma_at_split(w, x as int, y as int);
                    assert(area[i as int] == inside(points@, x as int, y as int));
                    lemma_tally_step(area, i as int);
                }
                if row[x as usize] {
                    let ghost was = *self;
                    self.mark_index(i, kind);
                    marked += 1;
                    proof {
                        assert forall|j: int| 0 <= j < area.len() implies #[trigger] self.fg()[j] == (was.fg()[j] || (
                        says_fg(kind) && j == i)) by {}
                        assert forall|j: int| 0 <= j < area.len() implies #[trigger] self.bg()[j] == (was.bg()[j] || (
                        says_bg(kind) && j == i)) by {}
                    }
                }
                x += 1;
            }
            assert(at(w, w, y as int) == at(w, 0, y + 1)) by (nonlinear_arith)
                requires
                    at(w, w, y as int) == y * w + w,
                    at(w, 0, y + 1) == (y + 1) * w + 0,
            ;
            y += 1;
        }
        proof {
            assert(at(w, 0, h) == w * h) by (nonlinear_arith)
                requires
                    at(w, 0, h) == h * w + 0,
            ;
            assert(area.take(area.len() as int) =~= area);
            assert(self.fg() =~= Seq::new(
                old(self).fg().len(),
                |i: int| old(self).fg()[i] || (says_fg(kind) && area[i]),
            ));
            assert(self.bg() =~= Seq::new(
                old(self).bg().len(),
                |i: int| old(self).bg()[i] || (says_bg(kind) && area[i]),
            ));
        }
        marked
    }
}

} // verus!
