//! Colour sums over a grid of cells, over windows of cells and borrowed from the
//! nearest occupied cell.
//!
//! Colours are linear light as integers, so that what a running sum takes off is
//! exactly what it put on and no result depends on the order of the walk.
use vstd::prelude::*;

use crate::cutout::blur::{window_end, window_from};
use crate::cutout::chamfer::{
    cost, lemma_backward, lemma_forward, lemma_step_cost, lemma_updated, reaches, reaches_forward, span,
};
use crate::geometry::{at, before, lemma_at_bound, lemma_at_join, lemma_at_split, on_plane};
use crate::sums::{counts_up, lemma_sum_le, lemma_sum_left, lemma_sum_part, lemma_sum_right, lemma_sum_split, sum};

verus! {

/// The integer that stands for full linear light.
pub const RIM_LINEAR_ONE: u32 = 16_383;

/// What one white pixel adds to the sum of squares.
pub const RIM_SQUARE_ONE: u64 = 805_208_067;

/// Sums over the pixels of a cell: each channel, all squares together, and how
/// many there are.
#[derive(Debug, Clone, Copy, PartialEq, Eq)]
pub struct Sums {
    pub rgb: [u64; 3],
    pub squares: u64,
    pub n: u64,
}

/// The parts of the sums: red, green, blue, squares and number.
pub open spec fn part(c: Sums, k: int) -> int {
    if k == 0 {
        c.rgb[0] as int
    } else if k == 1 {
        c.rgb[1] as int
    } else if k == 2 {
        c.rgb[2] as int
    } else if k == 3 {
        c.squares as int
    } else {
        c.n as int
    }
}

/// One part of a run of cells.
pub open spec fn parts(cells: Seq<Sums>, k: int) -> Seq<int> {
    cells.map_values(|c: Sums| part(c, k))
}

/// The table from 8-bit values to linear light is usable.
pub open spec fn linear_ok(linear: Seq<u32>) -> bool {
    &&& linear.len() == 256
    &&& forall|i: int| 0 <= i < 256 ==> #[trigger] linear[i] <= RIM_LINEAR_ONE
}

/// What a pixel adds to each part.
pub open spec fn weight(linear: Seq<u32>, p: [u8; 4], k: int) -> int {
    let (r, g, b) = (linear[p[0] as int] as int, linear[p[1] as int] as int, linear[p[2] as int] as int);
    if k == 0 {
        r
    } else if k == 1 {
        g
    } else if k == 2 {
        b
    } else if k == 3 {
        r * r + g * g + b * b
    } else {
        1
    }
}

/// A channel in linear light.
pub fn channel(linear: &[u32], v: u8) -> (r: u32)
    requires
        linear_ok(linear@),
    ensures
        r == linear@[v as int],
        r <= RIM_LINEAR_ONE,
{
    linear[v as usize]
}

pub proof fn lemma_weight(linear: Seq<u32>, p: [u8; 4], k: int)
    requires
        linear_ok(linear),
    ensures
        0 <= weight(linear, p, k) <= RIM_SQUARE_ONE,
{
    let (r, g, b) = (linear[p[0] as int] as int, linear[p[1] as int] as int, linear[p[2] as int] as int);
    assert(0 <= r * r + g * g + b * b <= 805_208_067) by (nonlinear_arith)
        requires
            0 <= r <= 16_383,
            0 <= g <= 16_383,
            0 <= b <= 16_383,
    ;
}

impl Sums {
    /// The sums of no pixel.
    pub fn none() -> (r: Self)
        ensures
            forall|k: int| #[trigger] part(r, k) == 0,
    {
        Sums { rgb: [0, 0, 0], squares: 0, n: 0 }
    }

    /// Adds one pixel.
    pub fn add(&mut self, linear: &[u32], p: [u8; 4])
        requires
            linear_ok(linear@),
            forall|k: int| 0 <= k < 5 ==> #[trigger] part(*old(self), k) + RIM_SQUARE_ONE <= u64::MAX,
        ensures
            forall|k: int|
                0 <= k < 5 ==> #[trigger] part(*final(self), k) == part(*old(self), k) + weight(linear@, p, k),
    {
        let r: u64 = channel(linear, p[0]) as u64;
        let g: u64 = channel(linear, p[1]) as u64;
        let b: u64 = channel(linear, p[2]) as u64;
        proof {
            lemma_weight(linear@, p, 3);
            assert(part(*self, 0) + RIM_SQUARE_ONE <= u64::MAX);
            assert(part(*self, 1) + RIM_SQUARE_ONE <= u64::MAX);
            assert(part(*self, 2) + RIM_SQUARE_ONE <= u64::MAX);
            assert(part(*self, 3) + RIM_SQUARE_ONE <= u64::MAX);
            assert(part(*self, 4) + RIM_SQUARE_ONE <= u64::MAX);
            assert(0 <= r * r <= 805_208_067 && 0 <= g * g <= 805_208_067 && 0 <= b * b <= 805_208_067)
                by (nonlinear_arith)
                requires
                    0 <= r <= 16_383,
                    0 <= g <= 16_383,
                    0 <= b <= 16_383,
            ;
        }
        self.rgb = [self.rgb[0] + r, self.rgb[1] + g, self.rgb[2] + b];
        self.squares = self.squares + (r * r + g * g + b * b);
        self.n = self.n + 1;
    }

    /// Adds another sum.
    pub fn join(&mut self, other: &Sums)
        requires
            forall|k: int| 0 <= k < 5 ==> #[trigger] part(*old(self), k) + part(*other, k) <= u64::MAX,
        ensures
            forall|k: int|
                0 <= k < 5 ==> #[trigger] part(*final(self), k) == part(*old(self), k) + part(*other, k),
    {
        proof {
            assert(part(*self, 0) + part(*other, 0) <= u64::MAX);
            assert(part(*self, 1) + part(*other, 1) <= u64::MAX);
            assert(part(*self, 2) + part(*other, 2) <= u64::MAX);
            assert(part(*self, 3) + part(*other, 3) <= u64::MAX);
            assert(part(*self, 4) + part(*other, 4) <= u64::MAX);
        }
        self.rgb = [self.rgb[0] + other.rgb[0], self.rgb[1] + other.rgb[1], self.rgb[2] + other.rgb[2]];
        self.squares = self.squares + other.squares;
        self.n = self.n + other.n;
    }

    /// Takes a sum off again.
    pub fn subtract(&mut self, other: &Sums)
        requires
            forall|k: int| 0 <= k < 5 ==> #[trigger] part(*old(self), k) >= part(*other, k),
        ensures
            forall|k: int|
                0 <= k < 5 ==> #[trigger] part(*final(self), k) == part(*old(self), k) - part(*other, k),
    {
        proof {
            assert(part(*self, 0) >= part(*other, 0));
            assert(part(*self, 1) >= part(*other, 1));
            assert(part(*self, 2) >= part(*other, 2));
            assert(part(*self, 3) >= part(*other, 3));
            assert(part(*self, 4) >= part(*other, 4));
        }
        self.rgb = [self.rgb[0] - other.rgb[0], self.rgb[1] - other.rgb[1], self.rgb[2] - other.rgb[2]];
        self.squares = self.squares - other.squares;
        self.n = self.n - other.n;
    }
}

/// The sums of the windows along a line.
pub open spec fn line_sums(s: Seq<int>, r: int) -> Seq<int> {
    Seq::new(s.len(), |x: int| sum(s.subrange(window_from(r, x), window_end(s.len() as int, r, x))))
}

/// One row of a grid.
pub open spec fn grid_row(s: Seq<int>, w: int, y: int) -> Seq<int> {
    s.subrange(y * w, y * w + w)
}

/// One column of a grid.
pub open spec fn grid_column(s: Seq<int>, w: int, h: int, x: int) -> Seq<int> {
    Seq::new(h as nat, |y: int| s[at(w, x, y)])
}

/// A grid whose rows are summed over windows.
pub open spec fn row_sums(s: Seq<int>, w: int, r: int) -> Seq<int> {
    Seq::new(s.len(), |i: int| line_sums(grid_row(s, w, i / w), r)[i % w])
}

/// A grid whose columns are summed over windows.
pub open spec fn column_sums(s: Seq<int>, w: int, h: int, r: int) -> Seq<int> {
    Seq::new(s.len(), |i: int| line_sums(grid_column(s, w, h, i % w), r)[i / w])
}

/// The sums over square windows of cells, cut off at the edge of the grid.
pub open spec fn window_sums(s: Seq<int>, w: int, h: int, r: int) -> Seq<int> {
    column_sums(row_sums(s, w, r), w, h, r)
}

/// Sums a line over windows, each from the one before.
fn running(line: &Vec<Sums>, radius: usize) -> (out: Vec<Sums>)
    requires
        forall|k: int| 0 <= k < 5 ==> sum(#[trigger] parts(line@, k)) <= u64::MAX,
    ensures
        out@.len() == line@.len(),
        forall|k: int| 0 <= k < 5 ==> #[trigger] parts(out@, k) == line_sums(parts(line@, k), radius as int),
{
    let n: usize = line.len();
    let mut out: Vec<Sums> = Vec::with_capacity(n);
    if n == 0 {
        proof {
            assert forall|k: int| 0 <= k < 5 implies #[trigger] parts(out@, k) == line_sums(
                parts(line@, k),
                radius as int,
            ) by {
                assert(parts(out@, k) =~= line_sums(parts(line@, k), radius as int));
            }
        }
        return out;
    }
    let ghost r = radius as int;
    let mut acc: Sums = Sums::none();
    let last: usize = if radius < n { radius } else { n - 1 };
    let mut j: usize = 0;
    proof {
        assert forall|k: int| 0 <= k < 5 implies #[trigger] part(acc, k) == sum(parts(line@, k).subrange(0, 0)) by {
            assert(parts(line@, k).subrange(0, 0) =~= Seq::empty());
        }
    }
    while j <= last
        invariant
            n == line@.len(),
            last < n,
            j <= last + 1,
            forall|k: int| 0 <= k < 5 ==> sum(#[trigger] parts(line@, k)) <= u64::MAX,
            forall|k: int| 0 <= k < 5 ==> #[trigger] part(acc, k) == sum(parts(line@, k).subrange(0, j as int)),
        decreases last + 1 - j,
    {
        proof {
            assert forall|k: int| 0 <= k < 5 implies #[trigger] part(acc, k) + part(line@[j as int], k) <= u64::MAX
                && part(acc, k) + part(line@[j as int], k) == sum(parts(line@, k).subrange(0, j + 1)) by {
                lemma_parts_count_up(line@, k);
                lemma_sum_right(parts(line@, k), 0, j as int);
                lemma_sum_part(parts(line@, k), 0, j + 1);
            }
        }
        acc.join(&line[j]);
        j += 1;
    }
    let mut x: usize = 0;
    while x < n
        invariant
            n == line@.len(),
            r == radius,
            forall|k: int| 0 <= k < 5 ==> sum(#[trigger] parts(line@, k)) <= u64::MAX,
            x <= n,
            out@.len() == x,
            x < n ==> forall|k: int|
                0 <= k < 5 ==> #[trigger] part(acc, k) == sum(
                    parts(line@, k).subrange(window_from(r, x as int), window_end(n as int, r, x as int)),
                ),
            forall|k: int, i: int|
                0 <= k < 5 && 0 <= i < x ==> #[trigger] part(out@[i], k) == sum(
                    parts(line@, k).subrange(window_from(r, i), window_end(n as int, r, i)),
                ),
        decreases n - x,
    {
        out.push(acc);
        let ghost from = window_from(r, x as int);
        let ghost end = window_end(n as int, r, x as int);
        let ghost next = if x >= radius { from + 1 } else { from };
        if x >= radius {
            proof {
                assert forall|k: int| 0 <= k < 5 implies #[trigger] part(acc, k) >= part(line@[from], k) && part(acc, k)
                    - part(line@[from], k) == sum(parts(line@, k).subrange(next, end)) by {
                    lemma_parts_count_up(line@, k);
                    lemma_sum_left(parts(line@, k), from, end);
                    lemma_sum_part(parts(line@, k), next, end);
                }
            }
            acc.subtract(&line[x - radius]);
        }
        if radius < n - x && x + radius + 1 < n {
            proof {
                assert forall|k: int| 0 <= k < 5 implies #[trigger] part(acc, k) + part(line@[end], k) <= u64::MAX
                    && part(acc, k) + part(line@[end], k) == sum(parts(line@, k).subrange(next, end + 1)) by {
                    lemma_parts_count_up(line@, k);
                    lemma_sum_right(parts(line@, k), next, end);
                    lemma_sum_part(parts(line@, k), next, end + 1);
                }
            }
            acc.join(&line[x + radius + 1]);
        }
        x += 1;
    }
    proof {
        assert forall|k: int| 0 <= k < 5 implies #[trigger] parts(out@, k) == line_sums(parts(line@, k), r) by {
            assert forall|i: int| 0 <= i < n implies parts(out@, k)[i] == line_sums(parts(line@, k), r)[i] by {
                assert(part(out@[i], k) == sum(
                    parts(line@, k).subrange(window_from(r, i), window_end(n as int, r, i)),
                ));
            }
            assert(parts(out@, k) =~= line_sums(parts(line@, k), r));
        }
    }
    out
}

pub proof fn lemma_parts_count_up(cells: Seq<Sums>, k: int)
    ensures
        counts_up(parts(cells, k)),
        parts(cells, k).len() == cells.len(),
        forall|i: int| 0 <= i < cells.len() ==> #[trigger] parts(cells, k)[i] == part(cells[i], k),
{
}

/// Every row adds up to no more than the grid.
proof fn lemma_row_part(s: Seq<int>, w: int, h: int, y: int)
    requires
        s.len() == w * h,
        counts_up(s),
        0 <= w,
        0 <= y < h,
    ensures
        0 <= y * w <= y * w + w <= s.len(),
        0 <= sum(grid_row(s, w, y)) <= sum(s),
{
    assert(0 <= y * w && y * w + w <= w * h) by (nonlinear_arith)
        requires
            0 <= w,
            0 <= y < h,
    ;
    lemma_sum_part(s, y * w, y * w + w);
}

/// The rows together add up to the grid.
proof fn lemma_rows_total(s: Seq<int>, w: int, h: int, y: int)
    requires
        s.len() == w * h,
        0 <= w,
        0 <= y <= h,
    ensures
        0 <= y * w <= s.len(),
        sum(Seq::new(y as nat, |v: int| sum(grid_row(s, w, v)))) == sum(s.subrange(0, y * w)),
    decreases y,
{
    assert(0 <= y * w <= w * h) by (nonlinear_arith)
        requires
            0 <= w,
            0 <= y <= h,
    ;
    let f = Seq::new(y as nat, |v: int| sum(grid_row(s, w, v)));
    if y == 0 {
        assert(s.subrange(0, 0 * w) =~= Seq::empty());
        assert(f =~= Seq::empty());
    } else {
        lemma_rows_total(s, w, h, y - 1);
        assert((y - 1) * w + w == y * w) by (nonlinear_arith);
        assert(f.drop_last() =~= Seq::new((y - 1) as nat, |v: int| sum(grid_row(s, w, v))));
        lemma_sum_split(s, 0, (y - 1) * w, y * w);
    }
}

/// A column of row sums adds up to no more than the grid.
proof fn lemma_column_part(s: Seq<int>, w: int, h: int, r: int, x: int)
    requires
        s.len() == w * h,
        counts_up(s),
        0 <= x < w,
        0 <= h,
        0 <= r,
    ensures
        sum(grid_column(row_sums(s, w, r), w, h, x)) <= sum(s),
{
    let c = grid_column(row_sums(s, w, r), w, h, x);
    let f = Seq::new(h as nat, |v: int| sum(grid_row(s, w, v)));
    assert forall|y: int| 0 <= y < h implies #[trigger] c[y] <= f[y] by {
        lemma_at_bound(w, h, x, y);
        lemma_at_split(w, x, y);
        lemma_row_part(s, w, h, y);
        let row = grid_row(s, w, y);
        assert(counts_up(row));
        lemma_sum_part(row, window_from(r, x), window_end(w, r, x));
    }
    lemma_sum_le(c, f);
    lemma_rows_total(s, w, h, h);
    assert(h * w == w * h) by (nonlinear_arith);
    assert(s.subrange(0, h * w) =~= s);
}

/// Sums every cell over a square window of cells, first along rows and then along
/// columns.
#[verifier::rlimit(60)]
pub fn box_sum(cells: &mut Vec<Sums>, gw: usize, gh: usize, radius: usize)
    requires
        old(cells)@.len() == gw * gh,
        forall|k: int| 0 <= k < 5 ==> sum(#[trigger] parts(old(cells)@, k)) <= u64::MAX,
    ensures
        final(cells)@.len() == old(cells)@.len(),
        forall|k: int|
            0 <= k < 5 ==> #[trigger] parts(final(cells)@, k) == window_sums(
                parts(old(cells)@, k),
                gw as int,
                gh as int,
                radius as int,
            ),
{
    let ghost start = cells@;
    sum_rows(cells, gw, gh, radius);
    proof {
        assert forall|k: int, x: int| 0 <= k < 5 && 0 <= x < gw implies sum(
            #[trigger] grid_column(parts(cells@, k), gw as int, gh as int, x),
        ) <= u64::MAX by {
            lemma_parts_count_up(start, k);
            assert(parts(cells@, k) == row_sums(parts(start, k), gw as int, radius as int));
            lemma_column_part(parts(start, k), gw as int, gh as int, radius as int, x);
            assert(sum(parts(start, k)) <= u64::MAX);
        }
    }
    sum_columns(cells, gw, gh, radius);
    proof {
        assert forall|k: int| 0 <= k < 5 implies #[trigger] parts(cells@, k) == window_sums(
            parts(start, k),
            gw as int,
            gh as int,
            radius as int,
        ) by {}
    }
}

fn sum_rows(cells: &mut Vec<Sums>, gw: usize, gh: usize, radius: usize)
    requires
        old(cells)@.len() == gw * gh,
        forall|k: int| 0 <= k < 5 ==> sum(#[trigger] parts(old(cells)@, k)) <= u64::MAX,
    ensures
        final(cells)@.len() == old(cells)@.len(),
        forall|k: int|
            0 <= k < 5 ==> #[trigger] parts(final(cells)@, k) == row_sums(
                parts(old(cells)@, k),
                gw as int,
                radius as int,
            ),
{
    let ghost start = cells@;
    let ghost (w, h, r) = (gw as int, gh as int, radius as int);
    proof {
        assert forall|i: int| 0 <= i < start.len() implies 0 <= #[trigger] (i / w) by {
            lemma_small_place(w, h, i);
        }
    }
    let mut y: usize = 0;
    while y < gh
        invariant
            w == gw,
            h == gh,
            r == radius,
            y <= gh,
            cells@.len() == start.len() == gw * gh,
            forall|k: int| 0 <= k < 5 ==> sum(#[trigger] parts(start, k)) <= u64::MAX,
            forall|k: int, i: int|
                0 <= k < 5 && 0 <= i < start.len() ==> #[trigger] part(cells@[i], k) == if i / w < y {
                    row_sums(parts(start, k), w, r)[i]
                } else {
                    part(start[i], k)
                },
            forall|i: int| 0 <= i < start.len() && i / w >= y ==> #[trigger] cells@[i] == start[i],
        decreases gh - y,
    {
        let mut line: Vec<Sums> = Vec::with_capacity(gw);
        let mut x: usize = 0;
        while x < gw
            invariant
                w == gw,
                h == gh,
                y < gh,
                x <= gw,
                cells@.len() == start.len() == gw * gh,
                line@.len() == x,
                forall|i: int| 0 <= i < start.len() && i / w >= y ==> #[trigger] cells@[i] == start[i],
                forall|j: int| 0 <= j < x ==> #[trigger] line@[j] == start[y * w + j],
            decreases gw - x,
        {
            proof {
                lemma_at_bound(w, h, x as int, y as int);
                lemma_at_split(w, x as int, y as int);
                assert(cells.len() <= usize::MAX);
            }
            line.push(cells[y * gw + x]);
            x += 1;
        }
        proof {
            assert forall|k: int| 0 <= k < 5 implies #[trigger] parts(line@, k) == grid_row(
                parts(start, k),
                w,
                y as int,
            ) && sum(parts(line@, k)) <= u64::MAX by {
                lemma_parts_count_up(start, k);
                lemma_row_part(parts(start, k), w, h, y as int);
                assert(parts(line@, k) =~= grid_row(parts(start, k), w, y as int));
                assert(sum(parts(start, k)) <= u64::MAX);
            }
        }
        let done: Vec<Sums> = running(&line, radius);
        let ghost was = cells@;
        proof {
            assert forall|i: int| 0 <= i < was.len() implies 0 <= #[trigger] (i % w) by {
                lemma_small_place(w, h, i);
            }
        }
        let mut x: usize = 0;
        while x < gw
            invariant
                w == gw,
                h == gh,
                y < gh,
                x <= gw,
                done@.len() == gw,
                cells@.len() == was.len() == gw * gh,
                forall|i: int|
                    0 <= i < was.len() ==> #[trigger] cells@[i] == if i / w == y && i % w < x {
                        done@[i % w]
                    } else {
                        was[i]
                    },
            decreases gw - x,
        {
            proof {
                lemma_at_bound(w, h, x as int, y as int);
                lemma_at_split(w, x as int, y as int);
                assert(cells.len() <= usize::MAX);
            }
            let i: usize = y * gw + x;
            let ghost had = cells@;
            cells.set(i, done[x]);
            proof {
                assert forall|j: int| 0 <= j < was.len() implies #[trigger] cells@[j] == if j / w == y && j % w < x + 1 {
                    done@[j % w]
                } else {
                    was[j]
                } by {
                    if j != i {
                        assert(cells@[j] == had[j]);
                        lemma_at_join(w, h, j);
                    }
                }
            }
            x += 1;
        }
        proof {
            assert forall|k: int, i: int| 0 <= k < 5 && 0 <= i < start.len() implies #[trigger] part(cells@[i], k)
                == if i / w < y + 1 {
                row_sums(parts(start, k), w, r)[i]
            } else {
                part(start[i], k)
            } by {
                lemma_small_place(w, h, i);
                if i / w == y {
                    assert(cells@[i] == done@[i % w]);
                    assert(parts(line@, k) == grid_row(parts(start, k), w, y as int));
                    assert(parts(done@, k)[i % w] == line_sums(parts(line@, k), r)[i % w]);
                } else {
                    assert(cells@[i] == was[i]);
                }
            }
        }
        y += 1;
    }
    proof {
        assert forall|k: int| 0 <= k < 5 implies #[trigger] parts(cells@, k) == row_sums(parts(start, k), w, r) by {
            assert forall|i: int| 0 <= i < start.len() implies parts(cells@, k)[i] == row_sums(parts(start, k), w, r)[i] by {
                lemma_small_place(w, h, i);
                assert(part(cells@[i], k) == row_sums(parts(start, k), w, r)[i]);
            }
            assert(parts(cells@, k) =~= row_sums(parts(start, k), w, r));
        }
    }
}

/// A place of a grid has a row and a column of it.
pub proof fn lemma_small_place(w: int, h: int, i: int)
    requires
        0 <= w,
        0 <= i < w * h,
    ensures
        0 < w,
        on_plane(w, h, i % w, i / w),
        at(w, i % w, i / w) == i,
{
    assert(0 < w) by (nonlinear_arith)
        requires
            0 <= i < w * h,
            0 <= w,
    ;
    lemma_at_join(w, h, i);
}

fn sum_columns(cells: &mut Vec<Sums>, gw: usize, gh: usize, radius: usize)
    requires
        old(cells)@.len() == gw * gh,
        forall|k: int, x: int|
            0 <= k < 5 && 0 <= x < gw ==> sum(
                #[trigger] grid_column(parts(old(cells)@, k), gw as int, gh as int, x),
            ) <= u64::MAX,
    ensures
        final(cells)@.len() == old(cells)@.len(),
        forall|k: int|
            0 <= k < 5 ==> #[trigger] parts(final(cells)@, k) == column_sums(
                parts(old(cells)@, k),
                gw as int,
                gh as int,
                radius as int,
            ),
{
    let ghost start = cells@;
    let ghost (w, h, r) = (gw as int, gh as int, radius as int);
    proof {
        assert forall|i: int| 0 <= i < start.len() implies 0 <= #[trigger] (i % w) by {
            lemma_small_place(w, h, i);
        }
    }
    let mut x: usize = 0;
    while x < gw
        invariant
            w == gw,
            h == gh,
            r == radius,
            x <= gw,
            cells@.len() == start.len() == gw * gh,
            forall|k: int, u: int|
                0 <= k < 5 && 0 <= u < gw ==> sum(#[trigger] grid_column(parts(start, k), w, h, u)) <= u64::MAX,
            forall|k: int, i: int|
                0 <= k < 5 && 0 <= i < start.len() ==> #[trigger] part(cells@[i], k) == if i % w < x {
                    column_sums(parts(start, k), w, h, r)[i]
                } else {
                    part(start[i], k)
                },
            forall|i: int| 0 <= i < start.len() && i % w >= x ==> #[trigger] cells@[i] == start[i],
        decreases gw - x,
    {
        let mut line: Vec<Sums> = Vec::with_capacity(gh);
        let mut y: usize = 0;
        while y < gh
            invariant
                w == gw,
                h == gh,
                x < gw,
                y <= gh,
                cells@.len() == start.len() == gw * gh,
                line@.len() == y,
                forall|i: int| 0 <= i < start.len() && i % w >= x ==> #[trigger] cells@[i] == start[i],
                forall|j: int| 0 <= j < y ==> #[trigger] line@[j] == start[at(w, x as int, j)],
            decreases gh - y,
        {
            proof {
                lemma_at_bound(w, h, x as int, y as int);
                lemma_at_split(w, x as int, y as int);
                assert(cells.len() <= usize::MAX);
            }
            line.push(cells[y * gw + x]);
            y += 1;
        }
        proof {
            assert forall|k: int| 0 <= k < 5 implies #[trigger] parts(line@, k) == grid_column(
                parts(start, k),
                w,
                h,
                x as int,
            ) && sum(parts(line@, k)) <= u64::MAX by {
                assert forall|j: int| 0 <= j < h implies parts(line@, k)[j] == grid_column(parts(start, k), w, h, x as int)[j] by {
                    lemma_at_bound(w, h, x as int, j);
                    assert(line@[j] == start[at(w, x as int, j)]);
                }
                assert(parts(line@, k) =~= grid_column(parts(start, k), w, h, x as int));
                assert(sum(grid_column(parts(start, k), w, h, x as int)) <= u64::MAX);
            }
        }
        let done: Vec<Sums> = running(&line, radius);
        let ghost was = cells@;
        proof {
            assert forall|i: int| 0 <= i < was.len() implies 0 <= #[trigger] (i / w) by {
                lemma_small_place(w, h, i);
            }
        }
        let mut y: usize = 0;
        while y < gh
            invariant
                w == gw,
                h == gh,
                x < gw,
                y <= gh,
                done@.len() == gh,
                cells@.len() == was.len() == gw * gh,
                forall|i: int|
                    0 <= i < was.len() ==> #[trigger] cells@[i] == if i % w == x && i / w < y {
                        done@[i / w]
                    } else {
                        was[i]
                    },
            decreases gh - y,
        {
            proof {
                lemma_at_bound(w, h, x as int, y as int);
                lemma_at_split(w, x as int, y as int);
                assert(cells.len() <= usize::MAX);
            }
            let i: usize = y * gw + x;
            let ghost had = cells@;
            cells.set(i, done[y]);
            proof {
                assert forall|j: int| 0 <= j < was.len() implies #[trigger] cells@[j] == if j % w == x && j / w < y + 1 {
                    done@[j / w]
                } else {
                    was[j]
                } by {
                    if j != i {
                        assert(cells@[j] == had[j]);
                        lemma_at_join(w, h, j);
                    }
                }
            }
            y += 1;
        }
        proof {
            assert forall|k: int, i: int| 0 <= k < 5 && 0 <= i < start.len() implies #[trigger] part(cells@[i], k)
                == if i % w < x + 1 {
                column_sums(parts(start, k), w, h, r)[i]
            } else {
                part(start[i], k)
            } by {
                lemma_small_place(w, h, i);
                if i % w == x {
                    assert(cells@[i] == done@[i / w]);
                    assert(parts(line@, k) == grid_column(parts(start, k), w, h, x as int));
                    assert(parts(done@, k)[i / w] == line_sums(parts(line@, k), r)[i / w]);
                } else {
                    assert(cells@[i] == was[i]);
                }
            }
        }
        x += 1;
    }
    proof {
        assert forall|k: int| 0 <= k < 5 implies #[trigger] parts(cells@, k) == column_sums(parts(start, k), w, h, r) by {
            assert forall|i: int| 0 <= i < start.len() implies parts(cells@, k)[i] == column_sums(
                parts(start, k),
                w,
                h,
                r,
            )[i] by {
                lemma_small_place(w, h, i);
                assert(part(cells@[i], k) == column_sums(parts(start, k), w, h, r)[i]);
            }
            assert(parts(cells@, k) =~= column_sums(parts(start, k), w, h, r));
        }
    }
}

/// The way to a seed: what it costs, or `u64::MAX` without one, and where it is.
type Way = (u64, usize);

/// The cost stands, or the way leads to a seed that is no farther.
spec fn leads(seed: Seq<bool>, w: int, h: int, x: int, y: int, way: Way) -> bool {
    way.0 == u64::MAX || (way.1 < seed.len() && seed[way.1 as int] && span(
        true,
        x - way.1 as int % w,
        y - way.1 as int / w,
    ) <= way.0)
}

/// The costs of a plane of ways.
spec fn costs(d: Seq<Way>) -> Seq<int> {
    d.map_values(|v: Way| v.0 as int)
}

/// A way to a seed, what it costs and where it leads, or the one through a
/// neighbour, if that is shorter. Of two that cost the same the first is kept.
pub open spec fn shorter_way(best: Option<(int, int)>, through: Option<(int, int)>, cost: int) -> Option<(int, int)> {
    match (best, through) {
        (_, None) => best,
        (None, Some(t)) => Some((t.0 + cost, t.1)),
        (Some(b), Some(t)) => if t.0 + cost < b.0 {
            Some((t.0 + cost, t.1))
        } else {
            best
        },
    }
}

/// The way that a walk down the rows finds. It looks up first, then up to the left
/// and to the right, then left.
pub open spec fn way_down(seed: Seq<bool>, w: int, h: int, x: int, y: int) -> Option<(int, int)>
    decreases y + 1, x + 1,
{
    if !on_plane(w, h, x, y) {
        None
    } else {
        let own = if seed[at(w, x, y)] {
            Some((0int, at(w, x, y)))
        } else {
            None
        };
        let up = shorter_way(own, way_down(seed, w, h, x, y - 1), 3);
        let left_up = shorter_way(up, way_down(seed, w, h, x - 1, y - 1), 4);
        let right_up = shorter_way(left_up, way_down(seed, w, h, x + 1, y - 1), 4);
        shorter_way(right_up, way_down(seed, w, h, x - 1, y), 3)
    }
}

/// The way that is known after a second walk, back up the rows. It looks down
/// first, then down to the left and to the right, then right.
pub open spec fn way_found(seed: Seq<bool>, w: int, h: int, x: int, y: int) -> Option<(int, int)>
    decreases h - y, w - x,
{
    if !on_plane(w, h, x, y) {
        None
    } else {
        let own = way_down(seed, w, h, x, y);
        let down = shorter_way(own, way_found(seed, w, h, x, y + 1), 3);
        let left_down = shorter_way(down, way_found(seed, w, h, x - 1, y + 1), 4);
        let right_down = shorter_way(left_down, way_found(seed, w, h, x + 1, y + 1), 4);
        shorter_way(right_down, way_found(seed, w, h, x + 1, y), 3)
    }
}

/// The seed that lends to place `i`: where its way leads.
pub open spec fn lender(seed: Seq<bool>, w: int, h: int, i: int) -> int {
    way_found(seed, w, h, i % w, i / w).unwrap().1
}

/// What a way stands for.
spec fn told(way: Way) -> Option<(int, int)> {
    if way.0 == u64::MAX {
        None
    } else {
        Some((way.0 as int, way.1 as int))
    }
}

/// `r` is the shorter of a way and the one through a neighbour.
#[verifier::opaque]
spec fn takes(best: Way, through: Way, cost: int, r: Way) -> bool {
    told(r) == shorter_way(told(best), told(through), cost)
}

/// The way is the one that the walk down the rows finds.
#[verifier::opaque]
spec fn is_down(seed: Seq<bool>, w: int, h: int, x: int, y: int, way: Way) -> bool {
    told(way) == way_down(seed, w, h, x, y)
}

/// The way is the one known after both walks.
#[verifier::opaque]
spec fn is_found(seed: Seq<bool>, w: int, h: int, x: int, y: int, way: Way) -> bool {
    told(way) == way_found(seed, w, h, x, y)
}

/// The way that is known before the walks: a seed has none to go.
#[verifier::opaque]
spec fn begins(seed: Seq<bool>, w: int, x: int, y: int, way: Way) -> bool {
    told(way) == if seed[at(w, x, y)] {
        Some((0int, at(w, x, y)))
    } else {
        None
    }
}

proof fn lemma_goes_down(seed: Seq<bool>, d: Seq<Way>, w: int, h: int, x: int, y: int, b: Seq<Way>)
    requires
        on_plane(w, h, x, y),
        b.len() == 5,
        begins(seed, w, x, y, b[0]),
        on_plane(w, h, x, y - 1) ==> takes(b[0], d[at(w, x, y - 1)], 3, b[1]) && is_down(
            seed,
            w,
            h,
            x,
            y - 1,
            d[at(w, x, y - 1)],
        ),
        !on_plane(w, h, x, y - 1) ==> b[1] == b[0],
        on_plane(w, h, x - 1, y - 1) ==> takes(b[1], d[at(w, x - 1, y - 1)], 4, b[2]) && is_down(
            seed,
            w,
            h,
            x - 1,
            y - 1,
            d[at(w, x - 1, y - 1)],
        ),
        !on_plane(w, h, x - 1, y - 1) ==> b[2] == b[1],
        on_plane(w, h, x + 1, y - 1) ==> takes(b[2], d[at(w, x + 1, y - 1)], 4, b[3]) && is_down(
            seed,
            w,
            h,
            x + 1,
            y - 1,
            d[at(w, x + 1, y - 1)],
        ),
        !on_plane(w, h, x + 1, y - 1) ==> b[3] == b[2],
        on_plane(w, h, x - 1, y) ==> takes(b[3], d[at(w, x - 1, y)], 3, b[4]) && is_down(
            seed,
            w,
            h,
            x - 1,
            y,
            d[at(w, x - 1, y)],
        ),
        !on_plane(w, h, x - 1, y) ==> b[4] == b[3],
    ensures
        is_down(seed, w, h, x, y, b[4]),
{
    reveal(takes);
    reveal(begins);
    reveal(is_down);
    reveal_with_fuel(way_down, 2);
}

proof fn lemma_goes_up(seed: Seq<bool>, d: Seq<Way>, w: int, h: int, x: int, y: int, b: Seq<Way>)
    requires
        on_plane(w, h, x, y),
        b.len() == 5,
        is_down(seed, w, h, x, y, b[0]),
        on_plane(w, h, x, y + 1) ==> takes(b[0], d[at(w, x, y + 1)], 3, b[1]) && is_found(
            seed,
            w,
            h,
            x,
            y + 1,
            d[at(w, x, y + 1)],
        ),
        !on_plane(w, h, x, y + 1) ==> b[1] == b[0],
        on_plane(w, h, x - 1, y + 1) ==> takes(b[1], d[at(w, x - 1, y + 1)], 4, b[2]) && is_found(
            seed,
            w,
            h,
            x - 1,
            y + 1,
            d[at(w, x - 1, y + 1)],
        ),
        !on_plane(w, h, x - 1, y + 1) ==> b[2] == b[1],
        on_plane(w, h, x + 1, y + 1) ==> takes(b[2], d[at(w, x + 1, y + 1)], 4, b[3]) && is_found(
            seed,
            w,
            h,
            x + 1,
            y + 1,
            d[at(w, x + 1, y + 1)],
        ),
        !on_plane(w, h, x + 1, y + 1) ==> b[3] == b[2],
        on_plane(w, h, x + 1, y) ==> takes(b[3], d[at(w, x + 1, y)], 3, b[4]) && is_found(
            seed,
            w,
            h,
            x + 1,
            y,
            d[at(w, x + 1, y)],
        ),
        !on_plane(w, h, x + 1, y) ==> b[4] == b[3],
    ensures
        is_found(seed, w, h, x, y, b[4]),
{
    reveal(takes);
    reveal(is_down);
    reveal(is_found);
    reveal_with_fuel(way_found, 2);
}

/// The shorter of a way and the one through a neighbour.
fn shorter(
    best: Way,
    d: &Vec<Way>,
    w: usize,
    h: usize,
    x: usize,
    y: usize,
    u: usize,
    v: usize,
    seed: Ghost<Seq<bool>>,
    limit: Ghost<int>,
) -> (r: Way)
    requires
        d@.len() == w * h,
        on_plane(w as int, h as int, u as int, v as int),
        -1 <= x - u <= 1,
        -1 <= y - v <= 1,
        x != u || y != v,
        leads(seed@, w as int, h as int, x as int, y as int, best),
        leads(seed@, w as int, h as int, u as int, v as int, d@[at(w as int, u as int, v as int)]),
        best.0 == u64::MAX || best.0 <= limit@ + 4,
        d@[at(w as int, u as int, v as int)].0 == u64::MAX || d@[at(w as int, u as int, v as int)].0 <= limit@,
        limit@ + 4 < u64::MAX,
    ensures
        r.0 <= best.0,
        r.0 <= d@[at(w as int, u as int, v as int)].0 + cost(true, x - u, y - v),
        leads(seed@, w as int, h as int, x as int, y as int, r),
        r.0 == u64::MAX || r.0 <= limit@ + 4,
        takes(
            best,
            d@[at(w as int, u as int, v as int)],
            if x != u && y != v {
                4
            } else {
                3
            },
            r,
        ),
{
    proof {
        lemma_at_bound(w as int, h as int, u as int, v as int);
        assert(d.len() <= usize::MAX);
        reveal(takes);
    }
    let through: Way = d[v * w + u];
    if through.0 == u64::MAX {
        return best;
    }
    let c: u64 = if x != u && y != v { 4 } else { 3 };
    if through.0 + c < best.0 {
        proof {
            let (p, q) = (through.1 as int % w as int, through.1 as int / w as int);
            lemma_step_cost(true, u - p, v - q, x - u, y - v);
        }
        (through.0 + c, through.1)
    } else {
        best
    }
}

/// No seed is nearer to place `i` than `j` is.
pub open spec fn is_nearest(seed: Seq<bool>, w: int, i: int, j: int) -> bool {
    &&& 0 <= j < seed.len()
    &&& seed[j]
    &&& forall|q: int|
        0 <= q < seed.len() && #[trigger] seed[q] ==> span(true, i % w - j % w, i / w - j / w) <= span(
            true,
            i % w - q % w,
            i / w - q / w,
        )
}

/// Finds for every place of a grid the way to a nearest seed.
#[verifier::rlimit(60)]
fn nearest_seeds(seed: &Vec<bool>, w: usize, h: usize) -> (d: Vec<Way>)
    requires
        seed@.len() == w * h <= 0x1000_0000_0000_0000,
    ensures
        d@.len() == seed@.len(),
        forall|i: int|
            0 <= i < d@.len() ==> if (#[trigger] d@[i]).0 == u64::MAX {
                forall|q: int| 0 <= q < seed@.len() ==> !(#[trigger] seed@[q])
            } else {
                is_nearest(seed@, w as int, i, d@[i].1 as int) && d@[i].0 == span(
                    true,
                    i % (w as int) - d@[i].1 as int % (w as int),
                    i / (w as int) - d@[i].1 as int / (w as int),
                ) && d@[i].1 == lender(seed@, w as int, h as int, i)
            },
{
    let ghost (wi, hi) = (w as int, h as int);
    let ghost s = seed@;
    let n: usize = seed.len();
    let mut d: Vec<Way> = Vec::with_capacity(n);
    let mut i: usize = 0;
    while i < n
        invariant
            s == seed@,
            n == s.len(),
            i <= n,
            d@.len() == i,
            forall|k: int|
                0 <= k < i ==> #[trigger] d@[k] == if s[k] { (0u64, k as usize) } else { (u64::MAX, 0usize) },
        decreases n - i,
    {
        d.push(if seed[i] { (0, i) } else { (u64::MAX, 0) });
        i += 1;
    }
    proof {
        assert forall|x: int, y: int| on_plane(wi, hi, x, y) implies #[trigger] d@[at(wi, x, y)] == if s[at(wi, x, y)] {
            (0u64, at(wi, x, y) as usize)
        } else {
            (u64::MAX, 0usize)
        } by {
            lemma_at_bound(wi, hi, x, y);
        }
    }
    first_walk(&mut d, w, h, Ghost(s));
    second_walk(&mut d, w, h, Ghost(s));
    proof {
        assert forall|i: int| 0 <= i < d@.len() implies if (#[trigger] d@[i]).0 == u64::MAX {
            forall|q: int| 0 <= q < s.len() ==> !(#[trigger] s[q])
        } else {
            is_nearest(s, wi, i, d@[i].1 as int) && d@[i].0 == span(
                true,
                i % wi - d@[i].1 as int % wi,
                i / wi - d@[i].1 as int / wi,
            ) && d@[i].1 == lender(s, wi, hi, i)
        } by {
            lemma_small_place(wi, hi, i);
            let (x, y) = (i % wi, i / wi);
            assert(d@[at(wi, x, y)] == d@[i]);
            lemma_way_found(s, wi, hi, x, y, d@[i]);
            reveal(is_found);
        }
    }
    d
}

proof fn lemma_way_found(s: Seq<bool>, w: int, h: int, x: int, y: int, way: Way)
    requires
        s.len() == w * h,
        s.len() <= 0x1000_0000_0000_0000,
        on_plane(w, h, x, y),
        w <= usize::MAX,
        h <= usize::MAX,
        reaches(true, s, w, h, x, y, way.0 as int),
        leads(s, w, h, x, y, way),
    ensures
        way.0 == u64::MAX ==> forall|q: int| 0 <= q < s.len() ==> !(#[trigger] s[q]),
        way.0 != u64::MAX ==> is_nearest(s, w, at(w, x, y), way.1 as int) && way.0 == span(
            true,
            x - way.1 as int % w,
            y - way.1 as int / w,
        ),
{
    reveal(reaches);
    let i = at(w, x, y);
    lemma_at_split(w, x, y);
    if way.0 == u64::MAX {
        assert forall|q: int| 0 <= q < s.len() implies !(#[trigger] s[q]) by {
            if s[q] {
                lemma_small_place(w, h, q);
                let (a, b) = (q % w, q / w);
                assert(s[at(w, a, b)]);
                assert(u64::MAX <= span(true, x - a, y - b));
                lemma_few_rows(w, h);
            }
        }
    } else {
        let j = way.1 as int;
        lemma_small_place(w, h, j);
        assert(s[at(w, j % w, j / w)]);
        assert forall|q: int| 0 <= q < s.len() && #[trigger] s[q] implies span(true, i % w - j % w, i / w - j / w)
            <= span(true, i % w - q % w, i / w - q / w) by {
            lemma_small_place(w, h, q);
            assert(s[at(w, q % w, q / w)]);
        }
    }
}

/// A plane with few pixels is not wide or high.
proof fn lemma_few_rows(w: int, h: int)
    requires
        0 < w,
        0 < h,
        w * h <= 0x1000_0000_0000_0000,
    ensures
        w <= 0x1000_0000_0000_0000,
        h <= 0x1000_0000_0000_0000,
{
    assert(w <= w * h && h <= w * h) by (nonlinear_arith)
        requires
            0 < w,
            0 < h,
    ;
}

spec fn near_enough(way: Way, limit: int) -> bool {
    way.0 == u64::MAX || way.0 <= limit
}

/// The way from `(x, y)` on the walk down the rows, given those before it.
fn best_down(d: &Vec<Way>, w: usize, h: usize, x: usize, y: usize, seed: Ghost<Seq<bool>>) -> (best: Way)
    requires
        d@.len() == seed@.len() == w * h,
        w * h <= 0x1000_0000_0000_0000,
        on_plane(w as int, h as int, x as int, y as int),
        begins(seed@, w as int, x as int, y as int, d@[at(w as int, x as int, y as int)]),
        forall|a: int, b: int|
            on_plane(w as int, h as int, a, b) && before((a, b), x as int, y as int) ==> is_down(
                seed@,
                w as int,
                h as int,
                a,
                b,
                #[trigger] d@[at(w as int, a, b)],
            ),
        forall|a: int, b: int|
            on_plane(w as int, h as int, a, b) && before((a, b), x as int, y as int) ==> reaches_forward(
                true,
                seed@,
                w as int,
                h as int,
                a,
                b,
                (#[trigger] d@[at(w as int, a, b)]).0 as int,
            ),
        forall|a: int, b: int|
            on_plane(w as int, h as int, a, b) ==> leads(seed@, w as int, h as int, a, b, #[trigger] d@[at(w as int, a, b)]),
        forall|a: int, b: int|
            on_plane(w as int, h as int, a, b) ==> near_enough(
                #[trigger] d@[at(w as int, a, b)],
                4 * at(w as int, a, b),
            ),
    ensures
        is_down(seed@, w as int, h as int, x as int, y as int, best),
        reaches_forward(true, seed@, w as int, h as int, x as int, y as int, best.0 as int),
        leads(seed@, w as int, h as int, x as int, y as int, best),
        near_enough(best, 4 * at(w as int, x as int, y as int)),
{
    let ghost (wi, hi) = (w as int, h as int);
    let ghost s = seed@;
    let ghost here = at(wi, x as int, y as int);
    let ghost lim = 4 * here - 4;
    proof {
        lemma_at_bound(wi, hi, x as int, y as int);
        assert(d.len() <= usize::MAX);
        assert(at(wi, x - 1, y as int) == here - 1);
        assert(at(wi, x as int, y - 1) == here - w && at(wi, x - 1, y - 1) == here - w - 1 && at(
            wi,
            x + 1,
            y - 1,
        ) == here - w + 1) by (nonlinear_arith)
            requires
                wi == w,
                here == y * wi + x,
                at(wi, x as int, y - 1) == (y - 1) * wi + x,
                at(wi, x - 1, y - 1) == (y - 1) * wi + (x - 1),
                at(wi, x + 1, y - 1) == (y - 1) * wi + (x + 1),
        ;
    }
    let i: usize = y * w + x;
    assert(i == here);
    let ghost was = d@;
    let own: Way = d[i];
    assert(own == was[at(wi, x as int, y as int)]);
    let straight: Way = if y > 0 {
        shorter(own, d, w, h, x, y, x, y - 1, seed, Ghost(lim))
    } else {
        own
    };
    let left: Way = if y > 0 && x > 0 {
        shorter(straight, d, w, h, x, y, x - 1, y - 1, seed, Ghost(lim))
    } else {
        straight
    };
    let right: Way = if y > 0 && x + 1 < w {
        shorter(left, d, w, h, x, y, x + 1, y - 1, seed, Ghost(lim))
    } else {
        left
    };
    let best: Way = if x > 0 {
        shorter(right, d, w, h, x, y, x - 1, y, seed, Ghost(lim))
    } else {
        right
    };
    proof {
        lemma_costs(was, wi, hi);
        assert(s[at(wi, x as int, y as int)] ==> best.0 <= 0) by {
            reveal(begins);
        }
        lemma_goes_down(s, was, wi, hi, x as int, y as int, seq![own, straight, left, right, best]);
        lemma_forward(true, s, costs(was), wi, hi, x as int, y as int, best.0 as int);
    }
    best
}

fn first_walk(d: &mut Vec<Way>, w: usize, h: usize, seed: Ghost<Seq<bool>>)
    requires
        old(d)@.len() == seed@.len() == w * h,
        w * h <= 0x1000_0000_0000_0000,
        forall|x: int, y: int|
            on_plane(w as int, h as int, x, y) ==> #[trigger] old(d)@[at(w as int, x, y)] == if seed@[at(
                w as int,
                x,
                y,
            )] {
                (0u64, at(w as int, x, y) as usize)
            } else {
                (u64::MAX, 0usize)
            },
    ensures
        final(d)@.len() == old(d)@.len(),
        forall|x: int, y: int|
            on_plane(w as int, h as int, x, y) ==> reaches_forward(
                true,
                seed@,
                w as int,
                h as int,
                x,
                y,
                (#[trigger] final(d)@[at(w as int, x, y)]).0 as int,
            ),
        forall|x: int, y: int|
            on_plane(w as int, h as int, x, y) ==> leads(
                seed@,
                w as int,
                h as int,
                x,
                y,
                #[trigger] final(d)@[at(w as int, x, y)],
            ),
        forall|x: int, y: int|
            on_plane(w as int, h as int, x, y) ==> near_enough(
                #[trigger] final(d)@[at(w as int, x, y)],
                4 * at(w as int, x, y),
            ),
        forall|x: int, y: int|
            on_plane(w as int, h as int, x, y) ==> is_down(
                seed@,
                w as int,
                h as int,
                x,
                y,
                #[trigger] final(d)@[at(w as int, x, y)],
            ),
{
    let ghost (wi, hi) = (w as int, h as int);
    let ghost s = seed@;
    let ghost start = d@;
    assert(d.len() <= usize::MAX);
    proof {
        assert forall|x: int, y: int| on_plane(wi, hi, x, y) implies leads(
            s,
            wi,
            hi,
            x,
            y,
            #[trigger] d@[at(wi, x, y)],
        ) && near_enough(d@[at(wi, x, y)], 4 * at(wi, x, y)) by {
            lemma_at_bound(wi, hi, x, y);
            lemma_at_split(wi, x, y);
        }
        assert forall|x: int, y: int| on_plane(wi, hi, x, y) implies begins(s, wi, x, y, #[trigger] start[at(wi, x, y)]) by {
            reveal(begins);
            lemma_at_bound(wi, hi, x, y);
        }
    }
    let mut y: usize = 0;
    while y < h
        invariant
            wi == w,
            hi == h,
            s == seed@,
            d@.len() == start.len() == s.len() == w * h,
            w * h <= 0x1000_0000_0000_0000,
            y <= h,
            forall|a: int, b: int|
                on_plane(wi, hi, a, b) ==> begins(s, wi, a, b, #[trigger] start[at(wi, a, b)]),
            forall|a: int, b: int|
                on_plane(wi, hi, a, b) && b < y ==> is_down(s, wi, hi, a, b, #[trigger] d@[at(wi, a, b)]),
            forall|a: int, b: int|
                on_plane(wi, hi, a, b) && b >= y ==> #[trigger] d@[at(wi, a, b)] == start[at(wi, a, b)],
            forall|a: int, b: int|
                on_plane(wi, hi, a, b) && b < y ==> reaches_forward(
                    true,
                    s,
                    wi,
                    hi,
                    a,
                    b,
                    (#[trigger] d@[at(wi, a, b)]).0 as int,
                ),
            forall|a: int, b: int|
                on_plane(wi, hi, a, b) ==> leads(s, wi, hi, a, b, #[trigger] d@[at(wi, a, b)]),
            forall|a: int, b: int|
                on_plane(wi, hi, a, b) ==> near_enough(#[trigger] d@[at(wi, a, b)], 4 * at(wi, a, b)),
        decreases h - y,
    {
        let mut x: usize = 0;
        while x < w
            invariant
                wi == w,
                hi == h,
                s == seed@,
                d@.len() == start.len() == s.len() == w * h,
                w * h <= 0x1000_0000_0000_0000,
                y < h,
                x <= w,
                forall|a: int, b: int|
                    on_plane(wi, hi, a, b) ==> begins(s, wi, a, b, #[trigger] start[at(wi, a, b)]),
                forall|a: int, b: int|
                    on_plane(wi, hi, a, b) && before((a, b), x as int, y as int) ==> is_down(
                        s,
                        wi,
                        hi,
                        a,
                        b,
                        #[trigger] d@[at(wi, a, b)],
                    ),
                forall|a: int, b: int|
                    on_plane(wi, hi, a, b) && !before((a, b), x as int, y as int) ==> #[trigger] d@[at(wi, a, b)]
                        == start[at(wi, a, b)],
                forall|a: int, b: int|
                    on_plane(wi, hi, a, b) && before((a, b), x as int, y as int) ==> reaches_forward(
                        true,
                        s,
                        wi,
                        hi,
                        a,
                        b,
                        (#[trigger] d@[at(wi, a, b)]).0 as int,
                    ),
                forall|a: int, b: int|
                    on_plane(wi, hi, a, b) ==> leads(s, wi, hi, a, b, #[trigger] d@[at(wi, a, b)]),
                forall|a: int, b: int|
                    on_plane(wi, hi, a, b) ==> near_enough(#[trigger] d@[at(wi, a, b)], 4 * at(wi, a, b)),
            decreases w - x,
        {
            let ghost here = at(wi, x as int, y as int);
            let ghost was = d@;
            proof {
                lemma_at_bound(wi, hi, x as int, y as int);
                assert(d.len() <= usize::MAX);
                assert(d@[at(wi, x as int, y as int)] == start[here]);
            }
            let best: Way = best_down(d, w, h, x, y, seed);
            let i: usize = y * w + x;
            assert(i == here);
            d.set(i, best);
            proof {
                lemma_updated(was, d@, wi, hi, x as int, y as int, best);
            }
            x += 1;
        }
        y += 1;
    }
}

proof fn lemma_costs(d: Seq<Way>, w: int, h: int)
    requires
        d.len() == w * h,
    ensures
        forall|x: int, y: int|
            on_plane(w, h, x, y) ==> #[trigger] costs(d)[at(w, x, y)] == d[at(w, x, y)].0,
{
    assert forall|x: int, y: int| on_plane(w, h, x, y) implies #[trigger] costs(d)[at(w, x, y)] == d[at(
        w,
        x,
        y,
    )].0 by {
        lemma_at_bound(w, h, x, y);
    }
}

/// The way from `(x, y)` on the walk back up the rows, given those after it.
fn best_up(d: &Vec<Way>, w: usize, h: usize, x: usize, y: usize, seed: Ghost<Seq<bool>>) -> (best: Way)
    requires
        d@.len() == seed@.len() == w * h,
        w * h <= 0x1000_0000_0000_0000,
        on_plane(w as int, h as int, x as int, y as int),
        is_down(seed@, w as int, h as int, x as int, y as int, d@[at(w as int, x as int, y as int)]),
        reaches_forward(
            true,
            seed@,
            w as int,
            h as int,
            x as int,
            y as int,
            d@[at(w as int, x as int, y as int)].0 as int,
        ),
        forall|a: int, b: int|
            on_plane(w as int, h as int, a, b) && !before((a, b), x + 1, y as int) ==> is_found(
                seed@,
                w as int,
                h as int,
                a,
                b,
                #[trigger] d@[at(w as int, a, b)],
            ),
        forall|a: int, b: int|
            on_plane(w as int, h as int, a, b) && !before((a, b), x + 1, y as int) ==> reaches(
                true,
                seed@,
                w as int,
                h as int,
                a,
                b,
                (#[trigger] d@[at(w as int, a, b)]).0 as int,
            ),
        forall|a: int, b: int|
            on_plane(w as int, h as int, a, b) ==> leads(seed@, w as int, h as int, a, b, #[trigger] d@[at(w as int, a, b)]),
        forall|a: int, b: int|
            on_plane(w as int, h as int, a, b) ==> near_enough(
                #[trigger] d@[at(w as int, a, b)],
                8 * (w * h) - 4 * at(w as int, a, b),
            ),
    ensures
        is_found(seed@, w as int, h as int, x as int, y as int, best),
        reaches(true, seed@, w as int, h as int, x as int, y as int, best.0 as int),
        leads(seed@, w as int, h as int, x as int, y as int, best),
        near_enough(best, 8 * (w * h) - 4 * at(w as int, x as int, y as int)),
{
    let ghost (wi, hi) = (w as int, h as int);
    let ghost s = seed@;
    let ghost n = (w * h) as int;
    let ghost here = at(wi, x as int, y as int);
    let ghost lim = 8 * n - 4 * here - 4;
    proof {
        lemma_at_bound(wi, hi, x as int, y as int);
        assert(d.len() <= usize::MAX);
        assert(at(wi, x + 1, y as int) == here + 1);
        assert(at(wi, x as int, y + 1) == here + w && at(wi, x - 1, y + 1) == here + w - 1 && at(
            wi,
            x + 1,
            y + 1,
        ) == here + w + 1) by (nonlinear_arith)
            requires
                wi == w,
                here == y * wi + x,
                at(wi, x as int, y + 1) == (y + 1) * wi + x,
                at(wi, x - 1, y + 1) == (y + 1) * wi + (x - 1),
                at(wi, x + 1, y + 1) == (y + 1) * wi + (x + 1),
        ;
    }
    let i: usize = y * w + x;
    assert(i == here);
    let ghost was = d@;
    let own: Way = d[i];
    assert(own == was[at(wi, x as int, y as int)]);
    let straight: Way = if y + 1 < h {
        shorter(own, d, w, h, x, y, x, y + 1, seed, Ghost(lim))
    } else {
        own
    };
    let left: Way = if y + 1 < h && x > 0 {
        shorter(straight, d, w, h, x, y, x - 1, y + 1, seed, Ghost(lim))
    } else {
        straight
    };
    let right: Way = if y + 1 < h && x + 1 < w {
        shorter(left, d, w, h, x, y, x + 1, y + 1, seed, Ghost(lim))
    } else {
        left
    };
    let best: Way = if x + 1 < w {
        shorter(right, d, w, h, x, y, x + 1, y, seed, Ghost(lim))
    } else {
        right
    };
    proof {
        lemma_costs(was, wi, hi);
        lemma_goes_up(s, was, wi, hi, x as int, y as int, seq![own, straight, left, right, best]);
        lemma_backward(true, s, costs(was), wi, hi, x as int, y as int, best.0 as int);
    }
    best
}

fn second_walk(d: &mut Vec<Way>, w: usize, h: usize, seed: Ghost<Seq<bool>>)
    requires
        old(d)@.len() == seed@.len() == w * h,
        w * h <= 0x1000_0000_0000_0000,
        forall|x: int, y: int|
            on_plane(w as int, h as int, x, y) ==> reaches_forward(
                true,
                seed@,
                w as int,
                h as int,
                x,
                y,
                (#[trigger] old(d)@[at(w as int, x, y)]).0 as int,
            ),
        forall|x: int, y: int|
            on_plane(w as int, h as int, x, y) ==> leads(
                seed@,
                w as int,
                h as int,
                x,
                y,
                #[trigger] old(d)@[at(w as int, x, y)],
            ),
        forall|x: int, y: int|
            on_plane(w as int, h as int, x, y) ==> near_enough(
                #[trigger] old(d)@[at(w as int, x, y)],
                4 * at(w as int, x, y),
            ),
        forall|x: int, y: int|
            on_plane(w as int, h as int, x, y) ==> is_down(
                seed@,
                w as int,
                h as int,
                x,
                y,
                #[trigger] old(d)@[at(w as int, x, y)],
            ),
    ensures
        final(d)@.len() == old(d)@.len(),
        forall|x: int, y: int|
            on_plane(w as int, h as int, x, y) ==> reaches(
                true,
                seed@,
                w as int,
                h as int,
                x,
                y,
                (#[trigger] final(d)@[at(w as int, x, y)]).0 as int,
            ),
        forall|x: int, y: int|
            on_plane(w as int, h as int, x, y) ==> leads(
                seed@,
                w as int,
                h as int,
                x,
                y,
                #[trigger] final(d)@[at(w as int, x, y)],
            ),
        forall|x: int, y: int|
            on_plane(w as int, h as int, x, y) ==> is_found(
                seed@,
                w as int,
                h as int,
                x,
                y,
                #[trigger] final(d)@[at(w as int, x, y)],
            ),
{
    let ghost (wi, hi) = (w as int, h as int);
    let ghost s = seed@;
    let ghost n = (w * h) as int;
    proof {
        assert forall|x: int, y: int| on_plane(wi, hi, x, y) implies near_enough(
            #[trigger] d@[at(wi, x, y)],
            8 * n - 4 * at(wi, x, y),
        ) by {
            lemma_at_bound(wi, hi, x, y);
        }
    }
    let mut rows: usize = h;
    while rows > 0
        invariant
            wi == w,
            hi == h,
            s == seed@,
            n == d@.len() == s.len() == w * h,
            w * h <= 0x1000_0000_0000_0000,
            rows <= h,
            forall|a: int, b: int|
                on_plane(wi, hi, a, b) && b < rows ==> is_down(s, wi, hi, a, b, #[trigger] d@[at(wi, a, b)]),
            forall|a: int, b: int|
                on_plane(wi, hi, a, b) && b >= rows ==> is_found(s, wi, hi, a, b, #[trigger] d@[at(wi, a, b)]),
            forall|a: int, b: int|
                on_plane(wi, hi, a, b) && b < rows ==> reaches_forward(
                    true,
                    s,
                    wi,
                    hi,
                    a,
                    b,
                    (#[trigger] d@[at(wi, a, b)]).0 as int,
                ),
            forall|a: int, b: int|
                on_plane(wi, hi, a, b) && b >= rows ==> reaches(
                    true,
                    s,
                    wi,
                    hi,
                    a,
                    b,
                    (#[trigger] d@[at(wi, a, b)]).0 as int,
                ),
            forall|a: int, b: int|
                on_plane(wi, hi, a, b) ==> leads(s, wi, hi, a, b, #[trigger] d@[at(wi, a, b)]),
            forall|a: int, b: int|
                on_plane(wi, hi, a, b) ==> near_enough(#[trigger] d@[at(wi, a, b)], 8 * n - 4 * at(wi, a, b)),
        decreases rows,
    {
        let y: usize = rows - 1;
        let mut columns: usize = w;
        while columns > 0
            invariant
                wi == w,
                hi == h,
                s == seed@,
                n == d@.len() == s.len() == w * h,
                w * h <= 0x1000_0000_0000_0000,
                y < h,
                columns <= w,
                forall|a: int, b: int|
                    on_plane(wi, hi, a, b) && before((a, b), columns as int, y as int) ==> is_down(
                        s,
                        wi,
                        hi,
                        a,
                        b,
                        #[trigger] d@[at(wi, a, b)],
                    ),
                forall|a: int, b: int|
                    on_plane(wi, hi, a, b) && !before((a, b), columns as int, y as int) ==> is_found(
                        s,
                        wi,
                        hi,
                        a,
                        b,
                        #[trigger] d@[at(wi, a, b)],
                    ),
                forall|a: int, b: int|
                    on_plane(wi, hi, a, b) && before((a, b), columns as int, y as int) ==> reaches_forward(
                        true,
                        s,
                        wi,
                        hi,
                        a,
                        b,
                        (#[trigger] d@[at(wi, a, b)]).0 as int,
                    ),
                forall|a: int, b: int|
                    on_plane(wi, hi, a, b) && !before((a, b), columns as int, y as int) ==> reaches(
                        true,
                        s,
                        wi,
                        hi,
                        a,
                        b,
                        (#[trigger] d@[at(wi, a, b)]).0 as int,
                    ),
                forall|a: int, b: int|
                    on_plane(wi, hi, a, b) ==> leads(s, wi, hi, a, b, #[trigger] d@[at(wi, a, b)]),
                forall|a: int, b: int|
                    on_plane(wi, hi, a, b) ==> near_enough(
                        #[trigger] d@[at(wi, a, b)],
                        8 * n - 4 * at(wi, a, b),
                    ),
            decreases columns,
        {
            let x: usize = columns - 1;
            let ghost here = at(wi, x as int, y as int);
            let ghost was = d@;
            proof {
                lemma_at_bound(wi, hi, x as int, y as int);
                assert(d.len() <= usize::MAX);
            }
            let best: Way = best_up(d, w, h, x, y, seed);
            let i: usize = y * w + x;
            assert(i == here);
            d.set(i, best);
            proof {
                lemma_updated(was, d@, wi, hi, x as int, y as int, best);
            }
            columns -= 1;
        }
        rows -= 1;
    }
}

/// The cells that hold a pixel.
pub open spec fn occupied(cells: Seq<Sums>) -> Seq<bool> {
    cells.map_values(|c: Sums| c.n > 0)
}

/// An occupied cell lies within `limit` of place `i`.
pub open spec fn in_reach(seed: Seq<bool>, w: int, limit: int, i: int) -> bool {
    exists|q: int|
        0 <= q < seed.len() && #[trigger] seed[q] && span(true, i % w - q % w, i / w - q / w) <= limit
}

/// What cell `i` holds after borrowing: its own sums if it has any, else those of
/// the lender, an occupied cell that none is nearer than, if it is within reach.
pub open spec fn borrowed(cells: Seq<Sums>, w: int, h: int, limit: int, i: int, after: Sums) -> bool {
    if cells[i].n > 0 || !in_reach(occupied(cells), w, limit, i) {
        after == cells[i]
    } else {
        let j = lender(occupied(cells), w, h, i);
        is_nearest(occupied(cells), w, i, j) && after == cells[j]
    }
}

/// Gives each empty cell the sums of a nearest occupied one, where that is no
/// farther than `limit`. A step to the side counts 3, a diagonal one 4. Of several
/// that are equally near, it is the one that two walks over the rows meet first.
pub fn fill_from_nearest(cells: &mut Vec<Sums>, gw: usize, gh: usize, limit: u64)
    requires
        old(cells)@.len() == gw * gh <= 0x1000_0000_0000_0000,
        limit < u64::MAX,
    ensures
        final(cells)@.len() == old(cells)@.len(),
        forall|i: int|
            0 <= i < old(cells)@.len() ==> borrowed(
                old(cells)@,
                gw as int,
                gh as int,
                limit as int,
                i,
                #[trigger] final(cells)@[i],
            ),
{
    let ghost start = cells@;
    let ghost (w, h) = (gw as int, gh as int);
    let n: usize = cells.len();
    let mut seed: Vec<bool> = Vec::with_capacity(n);
    let mut i: usize = 0;
    while i < n
        invariant
            n == cells@.len(),
            i <= n,
            seed@.len() == i,
            forall|k: int| 0 <= k < i ==> #[trigger] seed@[k] == (cells@[k].n > 0),
        decreases n - i,
    {
        seed.push(cells[i].n > 0);
        i += 1;
    }
    assert(seed@ =~= occupied(start));
    let ways: Vec<Way> = nearest_seeds(&seed, gw, gh);
    let mut i: usize = 0;
    while i < n
        invariant
            w == gw,
            h == gh,
            limit < u64::MAX,
            n == cells@.len() == start.len() == ways@.len(),
            i <= n,
            seed@ == occupied(start),
            forall|k: int|
                0 <= k < n ==> if (#[trigger] ways@[k]).0 == u64::MAX {
                    forall|q: int| 0 <= q < n ==> !(#[trigger] seed@[q])
                } else {
                    is_nearest(seed@, w, k, ways@[k].1 as int) && ways@[k].0 == span(
                        true,
                        k % w - ways@[k].1 as int % w,
                        k / w - ways@[k].1 as int / w,
                    ) && ways@[k].1 == lender(seed@, w, h, k)
                },
            forall|k: int| 0 <= k < i ==> borrowed(start, w, h, limit as int, k, #[trigger] cells@[k]),
            forall|k: int| i <= k < n ==> #[trigger] cells@[k] == start[k],
            forall|k: int| 0 <= k < n && start[k].n > 0 ==> #[trigger] cells@[k] == start[k],
        decreases n - i,
    {
        let way: Way = ways[i];
        if cells[i].n == 0 && way.0 <= limit {
            let from: usize = way.1;
            proof {
                assert(is_nearest(seed@, w, i as int, from as int));
                assert(seed@[from as int]);
                assert(start[from as int].n > 0);
                assert(in_reach(occupied(start), w, limit as int, i as int));
            }
            let sums: Sums = cells[from];
            cells.set(i, sums);
        } else {
            proof {
                if cells@[i as int].n == 0 {
                    assert(!in_reach(occupied(start), w, limit as int, i as int)) by {
                        if in_reach(occupied(start), w, limit as int, i as int) {
                            let q = choose|q: int|
                                0 <= q < seed@.len() && #[trigger] seed@[q] && span(
                                    true,
                                    i as int % w - q % w,
                                    i as int / w - q / w,
                                ) <= limit;
                            assert(seed@[q]);
                            assert(ways@[i as int] == way);
                        }
                    }
                }
            }
        }
        i += 1;
    }
}

} // verus!
