//! The colours around a pixel, separately for what is certainly background and
//! certainly foreground.
//!
//! Local means change slowly, so they are taken on a grid whose cells grow with
//! the image and read from the cell that a pixel lies in.
use vstd::prelude::*;

use crate::cutout::blur::{window_end, window_from};
use crate::cutout::cells::{
    borrowed, box_sum, fill_from_nearest, grid_column, grid_row, in_reach, lemma_parts_count_up, lender,
    lemma_small_place, lemma_weight, line_sums, linear_ok, occupied, part, parts, row_sums, weight, window_sums, Sums,
    RIM_LINEAR_ONE, RIM_SQUARE_ONE,
};
use crate::cutout::classify::{colour_of, lean, lean_of, lit};
use crate::geometry::{at, in_rect, lemma_at_bound, lemma_at_split, on_plane, rect_on, Rect};
use crate::raster::RgbaImage;
use crate::sums::{lemma_sum_flat, lemma_sum_part, lemma_sum_step, lemma_sum_times, lemma_sum_update, sum};

verus! {

/// The radius of the window in which colours are gathered, in pixels at a long
/// edge of 1000.
pub const RIM_WINDOW: u32 = 8;

/// How many windows away a foreground colour may be borrowed from.
pub const RIM_BORROW_WINDOWS: u32 = 16;

/// What a pixel says of the colours around it. Pixels in between are mixtures and
/// belong to neither side.
#[derive(Debug, Clone, Copy, PartialEq, Eq, Structural)]
pub enum Role {
    /// Certainly background.
    Background,
    /// Certainly foreground.
    Foreground,
    /// Neither.
    Skip,
}

/// Which side the colour of a pixel leans to.
#[derive(Debug, Clone, Copy, PartialEq, Eq, Structural)]
pub enum Lean {
    Background,
    Foreground,
    /// It could be judged, and leans to neither.
    Neither,
}

/// The side of a cell in pixels: the scale rounded to the nearest integer. A
/// scale is the long edge in parts of 1000 pixels, and 1000 at least.
pub open spec fn cell_side(scale: int) -> int {
    (scale + 500) / 1000
}

/// The radius of the window in pixels, rounded up.
pub open spec fn window_pixels(scale: int) -> int {
    (RIM_WINDOW * scale + 999) / 1000
}

/// The radius of the window in cells, rounded up.
pub open spec fn window_cells(scale: int) -> int {
    (window_pixels(scale) + cell_side(scale) - 1) / cell_side(scale)
}

/// How many cells away a foreground colour may be borrowed from, rounded to the
/// nearest.
pub open spec fn borrow_cells(scale: int) -> int {
    (2 * RIM_BORROW_WINDOWS * RIM_WINDOW * scale + 1000 * cell_side(scale)) / (2000 * cell_side(scale))
}

/// Where the cells of a rectangle lie.
pub struct Cells {
    /// The side of a cell in pixels.
    pub step: usize,
    /// The column and row of the first cell.
    pub cx: usize,
    pub cy: usize,
    /// How many columns and rows of cells there are.
    pub gw: usize,
    pub gh: usize,
}

impl Cells {
    /// The cells that cover `roi` when each is `step` pixels wide.
    pub open spec fn covers(&self, roi: Rect, step: int) -> bool {
        &&& self.step == step
        &&& 0 < step
        &&& self.cx == roi.0 as int / step
        &&& self.cy == roi.1 as int / step
        &&& self.gw == roi.2 as int / step - roi.0 as int / step + 1
        &&& self.gh == roi.3 as int / step - roi.1 as int / step + 1
    }

    /// The cell of a pixel, row by row.
    pub open spec fn cell_of(&self, x: int, y: int) -> int {
        at(self.gw as int, x / self.step as int - self.cx, y / self.step as int - self.cy)
    }
}

/// What the pixels of one role add to one part of one cell.
pub open spec fn contribution(
    image: &RgbaImage,
    roi: Rect,
    roles: Seq<Role>,
    role: Role,
    linear: Seq<u32>,
    grid: &Cells,
    cell: int,
    k: int,
) -> Seq<int> {
    Seq::new(
        image@.len(),
        |i: int|
            {
                let (x, y) = (i % (image.w() as int), i / (image.w() as int));
                if in_rect(roi, x, y) && roles[i] == role && grid.cell_of(x, y) == cell {
                    weight(linear, image@[i], k)
                } else {
                    0
                }
            },
    )
}

/// One part of every cell: the sum over its pixels of one role.
pub open spec fn gathered(
    image: &RgbaImage,
    roi: Rect,
    roles: Seq<Role>,
    role: Role,
    linear: Seq<u32>,
    grid: &Cells,
    k: int,
) -> Seq<int> {
    Seq::new(
        (grid.gw * grid.gh) as nat,
        |cell: int| sum(contribution(image, roi, roles, role, linear, grid, cell, k)),
    )
}

/// Every part of every cell is the sum over the pixels of one role in a window
/// of cells.
pub open spec fn sums_around(
    cells: Seq<Sums>,
    image: &RgbaImage,
    roi: Rect,
    roles: Seq<Role>,
    role: Role,
    linear: Seq<u32>,
    grid: &Cells,
    scale: int,
) -> bool {
    &&& cells.len() == grid.gw * grid.gh
    &&& forall|k: int|
        0 <= k < 5 ==> #[trigger] parts(cells, k) == window_sums(
            gathered(image, roi, roles, role, linear, grid, k),
            grid.gw as int,
            grid.gh as int,
            window_cells(scale),
        )
}

/// Division keeps the order and lengthens no stretch.
proof fn lemma_shrink(step: int, a: int, x: int, b: int)
    requires
        0 < step,
        a <= x <= b,
    ensures
        a / step <= x / step <= b / step,
        b / step - a / step <= b - a,
{
    vstd::arithmetic::div_mod::lemma_div_is_ordered(a, x, step);
    vstd::arithmetic::div_mod::lemma_div_is_ordered(x, b, step);
    let (p, q) = (a / step, b / step);
    vstd::arithmetic::div_mod::lemma_fundamental_div_mod(a, step);
    vstd::arithmetic::div_mod::lemma_fundamental_div_mod(b, step);
    if q > p {
        let d = q - p;
        assert(step * q - step * p == step * d) by (nonlinear_arith)
            requires
                d == q - p,
        ;
        assert(step * d >= d + step - 1) by (nonlinear_arith)
            requires
                step >= 1,
                d >= 1,
        ;
        assert(0 <= a % step < step && 0 <= b % step < step) by (nonlinear_arith)
            requires
                0 < step,
        ;
    }
}

/// The cells of a rectangle are no more than its pixels, and its pixels lie in
/// them.
proof fn lemma_cells(grid: &Cells, roi: Rect, w: int, h: int, x: int, y: int)
    requires
        rect_on(roi, w, h),
        grid.covers(roi, grid.step as int),
        in_rect(roi, x, y),
    ensures
        0 < grid.gw <= w,
        0 < grid.gh <= h,
        grid.gw * grid.gh <= w * h,
        on_plane(
            grid.gw as int,
            grid.gh as int,
            x / grid.step as int - grid.cx,
            y / grid.step as int - grid.cy,
        ),
        0 <= grid.cell_of(x, y) < grid.gw * grid.gh,
{
    let step = grid.step as int;
    lemma_shrink(step, roi.0 as int, x, roi.2 as int);
    lemma_shrink(step, roi.1 as int, y, roi.3 as int);
    assert(grid.gw * grid.gh <= w * h) by (nonlinear_arith)
        requires
            0 < grid.gw <= w,
            0 < grid.gh <= h,
    ;
    lemma_at_bound(
        grid.gw as int,
        grid.gh as int,
        x / step - grid.cx,
        y / step - grid.cy,
    );
}

/// Sums the pixels of one role into the cells of a rectangle.
#[verifier::rlimit(60)]
fn gather(image: &RgbaImage, roi: Rect, roles: &[Role], role: Role, linear: &[u32], grid: &Cells) -> (cells: Vec<
    Sums,
>)
    requires
        image.wf(),
        rect_on(roi, image.w() as int, image.h() as int),
        roles@.len() == image@.len(),
        linear_ok(linear@),
        image@.len() * RIM_SQUARE_ONE <= u64::MAX,
        grid.covers(roi, grid.step as int),
    ensures
        cells@.len() == grid.gw * grid.gh,
        forall|k: int|
            0 <= k < 5 ==> #[trigger] parts(cells@, k) == gathered(image, roi, roles@, role, linear@, grid, k),
        forall|k: int| 0 <= k < 5 ==> sum(#[trigger] parts(cells@, k)) <= u64::MAX,
{
    let ghost (w, h) = (image.w() as int, image.h() as int);
    let ghost square = RIM_SQUARE_ONE as int;
    proof {
        lemma_cells(grid, roi, w, h, roi.0 as int, roi.1 as int);
    }
    let pixels: &[[u8; 4]] = image.pixels();
    let n: usize = pixels.len();
    let width: usize = image.width() as usize;
    let count: usize = grid.gw * grid.gh;
    let mut cells: Vec<Sums> = Vec::with_capacity(count);
    let mut c: usize = 0;
    while c < count
        invariant
            c <= count,
            cells@.len() == c,
            forall|j: int, k: int| 0 <= j < c ==> #[trigger] part(cells@[j], k) == 0,
        decreases count - c,
    {
        cells.push(Sums::none());
        c += 1;
    }
    proof {
        assert forall|k: int| 0 <= k < 5 implies sum(#[trigger] parts(cells@, k)) <= 0 * square by {
            assert forall|j: int| 0 <= j < count implies #[trigger] parts(cells@, k)[j] == 0 by {
                assert(part(cells@[j], k) == 0);
            }
            lemma_sum_flat(parts(cells@, k), 0);
            assert(0 * parts(cells@, k).len() == 0) by (nonlinear_arith);
        }
        assert forall|j: int, k: int| 0 <= j < count && 0 <= k < 5 implies #[trigger] part(cells@[j], k) == sum(
            contribution(image, roi, roles@, role, linear@, grid, j, k).take(0),
        ) by {
            assert(contribution(image, roi, roles@, role, linear@, grid, j, k).take(0) =~= Seq::empty());
        }
    }
    let mut i: usize = 0;
    while i < n
        invariant
            image.wf(),
            w == image.w() == width,
            h == image.h(),
            rect_on(roi, w, h),
            pixels@ == image@,
            n == pixels@.len() == roles@.len(),
            linear_ok(linear@),
            square == RIM_SQUARE_ONE,
            n * square <= u64::MAX,
            grid.covers(roi, grid.step as int),
            count == grid.gw * grid.gh == cells@.len(),
            i <= n,
            forall|j: int, k: int|
                0 <= j < count && 0 <= k < 5 ==> #[trigger] part(cells@[j], k) == sum(
                    contribution(image, roi, roles@, role, linear@, grid, j, k).take(i as int),
                ),
            forall|k: int| 0 <= k < 5 ==> sum(#[trigger] parts(cells@, k)) <= i * square,
        decreases n - i,
    {
        proof {
            lemma_small_place(w, h, i as int);
            assert(i * square + square <= n * square && i * square + square == (i + 1) * square) by (nonlinear_arith)
                requires
                    i < n,
                    0 <= square,
            ;
        }
        let x: usize = i % width;
        let y: usize = i / width;
        let ghost was = cells@;
        let inside: bool = x >= roi.0 as usize && x <= roi.2 as usize && y >= roi.1 as usize && y <= roi.3 as usize;
        if inside && roles[i] == role {
            proof {
                lemma_cells(grid, roi, w, h, x as int, y as int);
            }
            let c: usize = (y / grid.step - grid.cy) * grid.gw + (x / grid.step - grid.cx);
            let mut sums: Sums = cells[c];
            proof {
                assert forall|k: int| 0 <= k < 5 implies #[trigger] part(sums, k) + RIM_SQUARE_ONE <= u64::MAX by {
                    lemma_parts_count_up(was, k);
                    let s = parts(was, k);
                    lemma_sum_part(s, c as int, c + 1);
                    assert(s.subrange(c as int, c + 1) =~= seq![s[c as int]]);
                    assert(seq![s[c as int]].drop_last() =~= Seq::empty());
                    assert(sum(seq![s[c as int]]) == sum(Seq::empty()) + s[c as int]);
                }
            }
            sums.add(linear, pixels[i]);
            cells.set(c, sums);
            proof {
                assert forall|k: int| 0 <= k < 5 implies sum(#[trigger] parts(cells@, k)) <= (i + 1) * square by {
                    assert(parts(cells@, k) =~= parts(was, k).update(c as int, part(sums, k)));
                    lemma_sum_update(parts(was, k), c as int, part(sums, k));
                    lemma_weight(linear@, pixels@[i as int], k);
                    assert(sum(parts(was, k)) <= i * square);
                    assert(part(sums, k) == part(was[c as int], k) + weight(linear@, pixels@[i as int], k));
                }
                assert forall|j: int, k: int| 0 <= j < count && 0 <= k < 5 implies #[trigger] part(cells@[j], k) == sum(
                    contribution(image, roi, roles@, role, linear@, grid, j, k).take(i + 1),
                ) by {
                    let f = contribution(image, roi, roles@, role, linear@, grid, j, k);
                    lemma_sum_step(f, i as int);
                    assert(part(was[j], k) == sum(f.take(i as int)));
                    if j == c {
                        assert(f[i as int] == weight(linear@, image@[i as int], k));
                        assert(part(sums, k) == part(was[c as int], k) + weight(linear@, pixels@[i as int], k));
                    } else {
                        assert(cells@[j] == was[j]);
                        assert(f[i as int] == 0);
                    }
                }
            }
        } else {
            proof {
                assert forall|j: int, k: int| 0 <= j < count && 0 <= k < 5 implies #[trigger] part(cells@[j], k) == sum(
                    contribution(image, roi, roles@, role, linear@, grid, j, k).take(i + 1),
                ) by {
                    let f = contribution(image, roi, roles@, role, linear@, grid, j, k);
                    lemma_sum_step(f, i as int);
                    assert(part(was[j], k) == sum(f.take(i as int)));
                    assert(f[i as int] == 0);
                }
                assert forall|k: int| 0 <= k < 5 implies sum(#[trigger] parts(cells@, k)) <= (i + 1) * square by {
                    assert(sum(parts(was, k)) <= i * square);
                }
            }
        }
        i += 1;
    }
    proof {
        assert forall|k: int| 0 <= k < 5 implies #[trigger] parts(cells@, k) == gathered(
            image,
            roi,
            roles@,
            role,
            linear@,
            grid,
            k,
        ) by {
            let goal = gathered(image, roi, roles@, role, linear@, grid, k);
            assert forall|j: int| 0 <= j < count implies parts(cells@, k)[j] == goal[j] by {
                let f = contribution(image, roi, roles@, role, linear@, grid, j, k);
                assert(f.take(n as int) =~= f);
                assert(part(cells@[j], k) == sum(f.take(i as int)));
            }
            assert(parts(cells@, k) =~= goal);
        }
    }
    cells
}

/// The sums of all cells are of pixels within full light.
pub open spec fn all_lit(cells: Seq<Sums>) -> bool {
    forall|i: int| 0 <= i < cells.len() ==> lit(#[trigger] cells[i])
}

/// What holds of every place of a grid holds of its windows.
proof fn lemma_line_times(s: Seq<int>, t: Seq<int>, r: int, c: int)
    requires
        s.len() == t.len(),
        0 <= r,
        forall|i: int| 0 <= i < s.len() ==> #[trigger] s[i] <= c * t[i],
    ensures
        forall|i: int| 0 <= i < s.len() ==> #[trigger] line_sums(s, r)[i] <= c * line_sums(t, r)[i],
{
    let n = s.len() as int;
    assert forall|x: int| 0 <= x < n implies #[trigger] line_sums(s, r)[x] <= c * line_sums(t, r)[x] by {
        let (a, b) = (window_from(r, x), window_end(n, r, x));
        lemma_sum_times(s.subrange(a, b), t.subrange(a, b), c);
    }
}

proof fn lemma_window_times(s: Seq<int>, t: Seq<int>, w: int, h: int, r: int, c: int)
    requires
        s.len() == t.len() == w * h,
        0 <= w,
        0 <= r,
        forall|i: int| 0 <= i < s.len() ==> #[trigger] s[i] <= c * t[i],
    ensures
        forall|i: int| 0 <= i < s.len() ==> #[trigger] window_sums(s, w, h, r)[i] <= c * window_sums(t, w, h, r)[i],
{
    let (a, b) = (row_sums(s, w, r), row_sums(t, w, r));
    assert forall|i: int| 0 <= i < s.len() implies #[trigger] a[i] <= c * b[i] by {
        lemma_small_place(w, h, i);
        let y = i / w;
        lemma_at_bound(w, h, 0, y);
        lemma_at_bound(w, h, w - 1, y);
        let (p, q) = (grid_row(s, w, y), grid_row(t, w, y));
        assert forall|k: int| 0 <= k < p.len() implies #[trigger] p[k] <= c * q[k] by {
            assert(s[y * w + k] <= c * t[y * w + k]);
        }
        lemma_line_times(p, q, r, c);
        assert(line_sums(p, r)[i % w] <= c * line_sums(q, r)[i % w]);
    }
    assert forall|i: int| 0 <= i < s.len() implies #[trigger] window_sums(s, w, h, r)[i] <= c * window_sums(t, w, h, r)[i] by {
        lemma_small_place(w, h, i);
        let x = i % w;
        let (p, q) = (grid_column(a, w, h, x), grid_column(b, w, h, x));
        assert forall|k: int| 0 <= k < p.len() implies #[trigger] p[k] <= c * q[k] by {
            lemma_at_bound(w, h, x, k);
            assert(a[at(w, x, k)] <= c * b[at(w, x, k)]);
        }
        lemma_line_times(p, q, r, c);
        assert(line_sums(p, r)[i / w] <= c * line_sums(q, r)[i / w]);
    }
}

/// Sums of pixels are within full light.
proof fn lemma_lit(
    cells: Seq<Sums>,
    image: &RgbaImage,
    roi: Rect,
    roles: Seq<Role>,
    role: Role,
    linear: Seq<u32>,
    grid: &Cells,
    scale: int,
)
    requires
        linear_ok(linear),
        1000 <= scale,
        0 <= window_cells(scale),
        sums_around(cells, image, roi, roles, role, linear, grid, scale),
    ensures
        all_lit(cells),
{
    let (w, h, r) = (grid.gw as int, grid.gh as int, window_cells(scale));
    let ones = gathered(image, roi, roles, role, linear, grid, 4);
    assert forall|k: int, c: int, i: int|
        0 <= k < 4 && (c == RIM_LINEAR_ONE || c == RIM_SQUARE_ONE) && (k == 3 ==> c == RIM_SQUARE_ONE) && 0 <= i
            < cells.len() implies #[trigger] part(cells[i], k) <= #[trigger] (c * part(cells[i], 4)) by {
        let own = gathered(image, roi, roles, role, linear, grid, k);
        assert forall|j: int| 0 <= j < own.len() implies #[trigger] own[j] <= c * ones[j] by {
            let (p, q) = (
                contribution(image, roi, roles, role, linear, grid, j, k),
                contribution(image, roi, roles, role, linear, grid, j, 4),
            );
            assert forall|m: int| 0 <= m < p.len() implies #[trigger] p[m] <= c * q[m] by {
                lemma_weight(linear, image@[m], k);
                assert(c * 1 == c && c * 0 == 0) by (nonlinear_arith);
            }
            lemma_sum_times(p, q, c);
        }
        lemma_window_times(own, ones, w, h, r, c);
        assert(parts(cells, k)[i] == part(cells[i], k));
        assert(parts(cells, 4)[i] == part(cells[i], 4));
        assert(parts(cells, k) == window_sums(own, w, h, r));
        assert(parts(cells, 4) == window_sums(ones, w, h, r));
    }
    assert forall|i: int| 0 <= i < cells.len() implies lit(#[trigger] cells[i]) by {
        let (a, b) = (RIM_LINEAR_ONE as int, RIM_SQUARE_ONE as int);
        assert(part(cells[i], 0) <= a * part(cells[i], 4));
        assert(part(cells[i], 1) <= a * part(cells[i], 4));
        assert(part(cells[i], 2) <= a * part(cells[i], 4));
        assert(part(cells[i], 3) <= b * part(cells[i], 4));
    }
}

/// The colours around the pixels of a rectangle.
pub struct LocalColours {
    behind: Vec<Sums>,
    front: Vec<Sums>,
    grid: Cells,
    roi: Rect,
}

impl LocalColours {
    /// The background sums of every cell.
    pub closed spec fn behind_cells(&self) -> Seq<Sums> {
        self.behind@
    }

    /// The foreground sums of every cell.
    pub closed spec fn front_cells(&self) -> Seq<Sums> {
        self.front@
    }

    pub closed spec fn cells(&self) -> Cells {
        self.grid
    }

    /// The rectangle whose pixels can be looked up.
    pub closed spec fn area(&self) -> Rect {
        self.roi
    }

    /// The cells are those of the rectangle, and each has its sums.
    pub open spec fn wf(&self) -> bool {
        &&& self.area().0 <= self.area().2
        &&& self.area().1 <= self.area().3
        &&& self.cells().covers(self.area(), self.cells().step as int)
        &&& self.behind_cells().len() == self.cells().gw * self.cells().gh
        &&& self.front_cells().len() == self.behind_cells().len()
        &&& all_lit(self.behind_cells())
        &&& all_lit(self.front_cells())
    }

    /// The colours are those gathered in `roi`. Where a cell has no foreground of
    /// its own it has borrowed that of a nearest one within reach.
    pub open spec fn built(&self, image: &RgbaImage, roi: Rect, scale: int, roles: Seq<Role>, linear: Seq<u32>) -> bool {
        &&& self.wf()
        &&& self.area() == roi
        &&& self.cells().covers(roi, cell_side(scale))
        &&& sums_around(self.behind_cells(), image, roi, roles, Role::Background, linear, &self.cells(), scale)
        &&& exists|own: Seq<Sums>| #[trigger]
            sums_around(own, image, roi, roles, Role::Foreground, linear, &self.cells(), scale) && forall|i: int|
                0 <= i < own.len() ==> borrowed(
                    own,
                    self.cells().gw as int,
                    self.cells().gh as int,
                    3 * borrow_cells(scale),
                    i,
                    #[trigger] self.front_cells()[i],
                )
    }

    /// The cell of a pixel of the rectangle.
    pub fn cell(&self, x: u32, y: u32) -> (c: usize)
        requires
            self.wf(),
            in_rect(self.area(), x as int, y as int),
        ensures
            c == self.cells().cell_of(x as int, y as int),
            c < self.behind_cells().len(),
    {
        proof {
            lemma_cells(&self.grid, self.roi, self.roi.2 + 1, self.roi.3 + 1, x as int, y as int);
            assert(self.behind.len() <= usize::MAX);
        }
        let row: usize = (y as usize) / self.grid.step - self.grid.cy;
        let column: usize = (x as usize) / self.grid.step - self.grid.cx;
        proof {
            lemma_at_bound(self.grid.gw as int, self.grid.gh as int, column as int, row as int);
        }
        row * self.grid.gw + column
    }

    /// The background and the foreground sums of a pixel of the rectangle.
    pub fn around(&self, x: u32, y: u32) -> (r: (Sums, Sums))
        requires
            self.wf(),
            in_rect(self.area(), x as int, y as int),
        ensures
            r.0 == self.behind_cells()[self.cells().cell_of(x as int, y as int)],
            r.1 == self.front_cells()[self.cells().cell_of(x as int, y as int)],
    {
        let c: usize = self.cell(x, y);
        (self.behind[c], self.front[c])
    }

    /// Which side a pixel leans to by the colours of a cell. Without one of the
    /// colours, or where they overlap within their spreads, nothing can be said.
    pub fn classify(&self, cell: usize, pixel: [u8; 4], linear: &[u32]) -> (r: Option<Lean>)
        requires
            self.wf(),
            linear_ok(linear@),
            cell < self.behind_cells().len(),
        ensures
            r == lean_of(
                self.behind_cells()[cell as int],
                self.front_cells()[cell as int],
                colour_of(linear@, pixel),
            ),
    {
        let (behind, front): (Sums, Sums) = (self.behind[cell], self.front[cell]);
        assert(lit(self.behind_cells()[cell as int]) && lit(self.front_cells()[cell as int]));
        lean(&behind, &front, linear, pixel)
    }

    /// Which side a pixel of the image leans to; nothing is said outside the area.
    pub open spec fn lean_at(&self, image: &RgbaImage, linear: Seq<u32>, x: int, y: int) -> Option<Lean> {
        let c = self.cells().cell_of(x, y);
        if in_rect(self.area(), x, y) {
            lean_of(self.behind_cells()[c], self.front_cells()[c], colour_of(linear, image.px(x, y)))
        } else {
            None
        }
    }

    /// Which side every pixel of the image leans to.
    pub fn leans(&self, image: &RgbaImage, linear: &[u32]) -> (r: Vec<Option<Lean>>)
        requires
            self.wf(),
            linear_ok(linear@),
            image.wf(),
        ensures
            r@.len() == image@.len(),
            forall|x: int, y: int|
                image.inside(x, y) ==> #[trigger] r@[at(image.w() as int, x, y)] == self.lean_at(
                    image,
                    linear@,
                    x,
                    y,
                ),
    {
        let w: u32 = image.width();
        let ghost (wi, hi) = (image.w() as int, image.h() as int);
        let n: usize = image.pixels().len();
        let mut r: Vec<Option<Lean>> = Vec::with_capacity(n);
        let mut i: usize = 0;
        while i < n
            invariant
                self.wf(),
                linear_ok(linear@),
                image.wf(),
                wi == w == image.w(),
                hi == image.h(),
                n == image@.len() == wi * hi,
                i <= n,
                r@.len() == i,
                forall|j: int| 0 <= j < i ==> #[trigger] r@[j] == self.lean_at(image, linear@, j % wi, j / wi),
            decreases n - i,
        {
            proof {
                lemma_small_place(wi, hi, i as int);
            }
            let x: u32 = (i % (w as usize)) as u32;
            let y: u32 = (i / (w as usize)) as u32;
            if self.roi.0 <= x && x <= self.roi.2 && self.roi.1 <= y && y <= self.roi.3 {
                let c: usize = self.cell(x, y);
                r.push(self.classify(c, image.get_pixel(x, y), linear));
            } else {
                r.push(None);
            }
            i += 1;
        }
        proof {
            assert forall|x: int, y: int| image.inside(x, y) implies #[trigger] r@[at(wi, x, y)] == self.lean_at(
                image,
                linear@,
                x,
                y,
            ) by {
                lemma_at_bound(wi, hi, x, y);
                lemma_at_split(wi, x, y);
            }
        }
        r
    }
}

/// Gathers the colours around the pixels of `roi`, which covers the pixels to be
/// judged and a window around them. What lies outside it is not counted.
///
/// Where a window holds no certain foreground, the sums of the nearest cell that
/// does are borrowed: thin structures and tongues of swallowed background have
/// none of their own.
pub fn build(image: &RgbaImage, roi: Rect, scale: u32, roles: &[Role], linear: &[u32]) -> (r: LocalColours)
    requires
        image.wf(),
        rect_on(roi, image.w() as int, image.h() as int),
        roles@.len() == image@.len(),
        linear_ok(linear@),
        image@.len() * RIM_SQUARE_ONE <= u64::MAX,
        1000 <= scale,
    ensures
        r.built(image, roi, scale as int, roles@, linear@),
{
    let step: usize = ((scale as u64 + 500) / 1000) as usize;
    let window: u64 = ((RIM_WINDOW as u64) * (scale as u64) + 999) / 1000;
    let radius: usize = ((window + step as u64 - 1) / (step as u64)) as usize;
    let borrow: u64 = (2 * (RIM_BORROW_WINDOWS as u64) * (RIM_WINDOW as u64) * (scale as u64) + 1000 * (step as u64))
        / (2000 * (step as u64));
    let ghost (w, h) = (image.w() as int, image.h() as int);
    proof {
        lemma_scale(scale as int, step as int, window as int, radius as int, borrow as int);
        assert(roi.0 as int / step as int <= roi.2 as int / step as int && roi.2 as int / step as int <= roi.2
            && roi.1 as int / step as int <= roi.3 as int / step as int && roi.3 as int / step as int <= roi.3)
            by (nonlinear_arith)
            requires
                0 < step,
                roi.0 <= roi.2,
                roi.1 <= roi.3,
        ;
    }
    let cx: usize = (roi.0 as usize) / step;
    let cy: usize = (roi.1 as usize) / step;
    let grid: Cells = Cells {
        step,
        cx,
        cy,
        gw: (roi.2 as usize) / step - cx + 1,
        gh: (roi.3 as usize) / step - cy + 1,
    };
    proof {
        lemma_cells(&grid, roi, w, h, roi.0 as int, roi.1 as int);
        assert(image@.len() <= 0x1000_0000_0000_0000) by (nonlinear_arith)
            requires
                image@.len() * RIM_SQUARE_ONE <= u64::MAX,
                RIM_SQUARE_ONE == 805_208_067,
        ;
    }
    let mut behind: Vec<Sums> = gather(image, roi, roles, Role::Background, linear, &grid);
    let mut front: Vec<Sums> = gather(image, roi, roles, Role::Foreground, linear, &grid);
    let (gw, gh) = (grid.gw, grid.gh);
    let ghost back0 = behind@;
    let ghost front0 = front@;
    box_sum(&mut behind, gw, gh, radius);
    box_sum(&mut front, gw, gh, radius);
    let ghost own = front@;
    fill_from_nearest(&mut front, gw, gh, 3 * borrow);
    let r: LocalColours = LocalColours { behind, front, grid, roi };
    proof {
        assert forall|k: int| 0 <= k < 5 implies #[trigger] parts(r.behind_cells(), k) == window_sums(
            gathered(image, roi, roles@, Role::Background, linear@, &r.cells(), k),
            gw as int,
            gh as int,
            window_cells(scale as int),
        ) by {
            assert(parts(back0, k) == gathered(image, roi, roles@, Role::Background, linear@, &grid, k));
        }
        assert forall|k: int| 0 <= k < 5 implies #[trigger] parts(own, k) == window_sums(
            gathered(image, roi, roles@, Role::Foreground, linear@, &r.cells(), k),
            gw as int,
            gh as int,
            window_cells(scale as int),
        ) by {
            assert(parts(front0, k) == gathered(image, roi, roles@, Role::Foreground, linear@, &grid, k));
        }
        assert(sums_around(own, image, roi, roles@, Role::Foreground, linear@, &r.cells(), scale as int));
        assert forall|i: int| 0 <= i < own.len() implies borrowed(
            own,
            gw as int,
            gh as int,
            3 * borrow_cells(scale as int),
            i,
            #[trigger] r.front_cells()[i],
        ) by {
            assert(borrowed(own, gw as int, gh as int, (3 * borrow) as int, i, r.front@[i]));
        }
        lemma_lit(r.behind_cells(), image, roi, roles@, Role::Background, linear@, &r.cells(), scale as int);
        lemma_lit(own, image, roi, roles@, Role::Foreground, linear@, &r.cells(), scale as int);
        assert forall|i: int| 0 <= i < r.front_cells().len() implies lit(#[trigger] r.front_cells()[i]) by {
            assert(borrowed(own, gw as int, gh as int, (3 * borrow) as int, i, r.front@[i]));
            if own[i].n > 0 || !in_reach(occupied(own), gw as int, (3 * borrow) as int, i) {
                assert(lit(own[i]));
            } else {
                let j = lender(occupied(own), gw as int, gh as int, i);
                assert(lit(own[j]));
            }
        }
    }
    r
}

/// The lengths that follow from a scale are as stated and small.
proof fn lemma_scale(scale: int, step: int, window: int, radius: int, borrow: int)
    requires
        1000 <= scale <= u32::MAX,
        step == (scale + 500) / 1000,
        window == (8 * scale + 999) / 1000,
        radius == (window + step - 1) / step,
        borrow == (256 * scale + 1000 * step) / (2000 * step),
    ensures
        0 < step <= u32::MAX,
        step == cell_side(scale),
        radius == window_cells(scale),
        borrow == borrow_cells(scale),
        0 <= radius <= u32::MAX,
        0 <= borrow <= 1000 * u32::MAX,
{
    assert(0 <= (window + step - 1) / step <= window + step - 1) by (nonlinear_arith)
        requires
            0 < step,
            0 <= window,
    ;
    assert(0 <= (256 * scale + 1000 * step) / (2000 * step) <= 256 * scale + 1000 * step) by (nonlinear_arith)
        requires
            0 < step,
            0 <= scale,
    ;
}

} // verus!
