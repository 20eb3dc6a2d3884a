//! How strongly brightness changes at a pixel.
//!
//! A product ends within a pixel; a shadow fades over many. The change per pixel
//! tells them apart where the difference in colour does not, so strong edges serve
//! as a bank that the fill of the background does not cross.
//!
//! Brightness is counted in ten-thousandths, and the strength of an edge is the
//! square of its change. Squares keep the order, and they are exact.
use vstd::prelude::*;

use crate::cutout::cells::lemma_small_place;
use crate::geometry::{at, lemma_at_bound, lemma_at_split, place};
use crate::raster::RgbaImage;

verus! {

/// The strength of a step in brightness by one: the answer of the Sobel operator
/// is four times the step, a step is ten thousand units, and strengths are
/// squares.
pub const EDGE_UNIT: u64 = 1_600_000_000;

/// No edge is stronger than this.
pub const MAX_STRENGTH: u64 = 208_080_000_000_000;

/// How strong the edges of a band are: the median and the upper tail.
#[derive(Debug, Clone, Copy, PartialEq, Eq, Structural)]
pub struct GradientQuantiles {
    pub p50: u64,
    pub p90: u64,
}

/// The brightness of a pixel in ten-thousandths.
pub open spec fn brightness(p: [u8; 4]) -> int {
    2126 * p[0] + 7152 * p[1] + 722 * p[2]
}

/// The direction along which a change is followed.
#[derive(Debug, Clone, Copy, PartialEq, Eq, Structural)]
pub enum Direction {
    Across,
    Falling,
    Down,
    Rising,
}

pub open spec fn magnitude(v: int) -> int {
    if v < 0 {
        -v
    } else {
        v
    }
}

/// The nearest of the four directions. They part at 22.5 and 67.5 degrees.
pub open spec fn direction_of(gx: int, gy: int) -> Direction {
    let (ax, ay) = (magnitude(gx), magnitude(gy));
    if 100_000_000 * ay <= 41_421_356 * ax {
        Direction::Across
    } else if 10_000_000 * ay >= 24_142_136 * ax {
        Direction::Down
    } else if (gx > 0) == (gy > 0) {
        Direction::Falling
    } else {
        Direction::Rising
    }
}

/// One step in a direction.
pub open spec fn step(d: Direction) -> (int, int) {
    match d {
        Direction::Across => (1, 0),
        Direction::Falling => (1, 1),
        Direction::Down => (0, 1),
        Direction::Rising => (-1, 1),
    }
}

/// The pixel has neighbours on all sides.
pub open spec fn interior(image: &RgbaImage, x: int, y: int) -> bool {
    1 <= x < image.w() - 1 && 1 <= y < image.h() - 1
}

/// The brightness at a place of the image.
pub open spec fn lit(image: &RgbaImage, x: int, y: int) -> int {
    brightness(image.px(x, y))
}

/// The change along rows.
pub open spec fn change_x(image: &RgbaImage, x: int, y: int) -> int {
    lit(image, x + 1, y - 1) - lit(image, x - 1, y - 1) + 2 * (lit(image, x + 1, y) - lit(image, x - 1, y)) + lit(
        image,
        x + 1,
        y + 1,
    ) - lit(image, x - 1, y + 1)
}

/// The change along columns.
pub open spec fn change_y(image: &RgbaImage, x: int, y: int) -> int {
    lit(image, x - 1, y + 1) - lit(image, x - 1, y - 1) + 2 * (lit(image, x, y + 1) - lit(image, x, y - 1)) + lit(
        image,
        x + 1,
        y + 1,
    ) - lit(image, x + 1, y - 1)
}

/// The strength of the change at a pixel. There is none along the border of the
/// image.
pub open spec fn strength(image: &RgbaImage, x: int, y: int) -> int {
    if interior(image, x, y) {
        change_x(image, x, y) * change_x(image, x, y) + change_y(image, x, y) * change_y(image, x, y)
    } else {
        0
    }
}

/// The strength where it is greatest along its own direction, 0 elsewhere. The
/// pixel behind may be as strong, the one ahead must be weaker: a step answers in
/// two pixels, and one of them is to stay.
pub open spec fn ridge(image: &RgbaImage, x: int, y: int) -> int {
    let s = strength(image, x, y);
    let (dx, dy) = step(direction_of(change_x(image, x, y), change_y(image, x, y)));
    if s > 0 && s >= strength(image, x - dx, y - dy) && s > strength(image, x + dx, y + dy) {
        s
    } else {
        0
    }
}

fn brightness_of(p: [u8; 4]) -> (r: i64)
    ensures
        r == brightness(p),
        0 <= r <= 2_550_000,
{
    2126 * (p[0] as i64) + 7152 * (p[1] as i64) + 722 * (p[2] as i64)
}

fn lit_at(image: &RgbaImage, x: u32, y: u32) -> (r: i64)
    requires
        image.wf(),
        image.inside(x as int, y as int),
    ensures
        r == lit(image, x as int, y as int),
        0 <= r <= 2_550_000,
{
    brightness_of(image.get_pixel(x, y))
}

/// The two changes at a pixel.
fn changes(image: &RgbaImage, x: u32, y: u32) -> (r: (i64, i64))
    requires
        image.wf(),
        interior(image, x as int, y as int),
    ensures
        r.0 == change_x(image, x as int, y as int),
        r.1 == change_y(image, x as int, y as int),
        -10_200_000 <= r.0 <= 10_200_000,
        -10_200_000 <= r.1 <= 10_200_000,
{
    let a: i64 = lit_at(image, x - 1, y - 1);
    let b: i64 = lit_at(image, x, y - 1);
    let c: i64 = lit_at(image, x + 1, y - 1);
    let d: i64 = lit_at(image, x - 1, y);
    let e: i64 = lit_at(image, x + 1, y);
    let f: i64 = lit_at(image, x - 1, y + 1);
    let g: i64 = lit_at(image, x, y + 1);
    let h: i64 = lit_at(image, x + 1, y + 1);
    (c - a + 2 * (e - d) + h - f, f - a + 2 * (g - b) + h - c)
}

/// Finds the direction of a change.
pub fn octant(gx: i64, gy: i64) -> (r: Direction)
    requires
        -10_200_000 <= gx <= 10_200_000,
        -10_200_000 <= gy <= 10_200_000,
    ensures
        r == direction_of(gx as int, gy as int),
{
    let ax: i64 = if gx < 0 { -gx } else { gx };
    let ay: i64 = if gy < 0 { -gy } else { gy };
    if 100_000_000 * ay <= 41_421_356 * ax {
        Direction::Across
    } else if 10_000_000 * ay >= 24_142_136 * ax {
        Direction::Down
    } else if (gx > 0) == (gy > 0) {
        Direction::Falling
    } else {
        Direction::Rising
    }
}

fn strength_of(gx: i64, gy: i64) -> (r: u64)
    requires
        -10_200_000 <= gx <= 10_200_000,
        -10_200_000 <= gy <= 10_200_000,
    ensures
        r == gx * gx + gy * gy,
        r <= MAX_STRENGTH,
{
    assert(0 <= gx * gx <= 104_040_000_000_000 && 0 <= gy * gy <= 104_040_000_000_000) by (nonlinear_arith)
        requires
            -10_200_000 <= gx <= 10_200_000,
            -10_200_000 <= gy <= 10_200_000,
    ;
    (gx * gx + gy * gy) as u64
}

/// The strength of the change at every pixel.
pub fn gradient_magnitude(image: &RgbaImage) -> (r: Vec<u64>)
    requires
        image.wf(),
    ensures
        r@.len() == image@.len(),
        forall|x: int, y: int|
            image.inside(x, y) ==> #[trigger] r@[at(image.w() as int, x, y)] == strength(image, x, y),
        forall|i: int| 0 <= i < r@.len() ==> #[trigger] r@[i] <= MAX_STRENGTH,
{
    let w: u32 = image.width();
    let h: u32 = image.height();
    let ghost (wi, hi) = (w as int, h as int);
    let n: usize = image.pixels().len();
    let mut r: Vec<u64> = Vec::with_capacity(n);
    let mut i: usize = 0;
    while i < n
        invariant
            image.wf(),
            wi == w == image.w(),
            hi == h == image.h(),
            n == image@.len() == wi * hi,
            i <= n,
            r@.len() == i,
            forall|j: int| 0 <= j < i ==> #[trigger] r@[j] == strength(image, j % wi, j / wi),
            forall|j: int| 0 <= j < i ==> #[trigger] r@[j] <= MAX_STRENGTH,
        decreases n - i,
    {
        proof {
            lemma_small_place(wi, hi, i as int);
        }
        let x: u32 = (i % (w as usize)) as u32;
        let y: u32 = (i / (w as usize)) as u32;
        if 1 <= x && x < w - 1 && 1 <= y && y < h - 1 {
            let (gx, gy): (i64, i64) = changes(image, x, y);
            r.push(strength_of(gx, gy));
        } else {
            r.push(0);
        }
        i += 1;
    }
    proof {
        assert forall|x: int, y: int| image.inside(x, y) implies #[trigger] r@[at(wi, x, y)] == strength(image, x, y) by {
            lemma_at_bound(wi, hi, x, y);
            lemma_at_split(wi, x, y);
        }
    }
    r
}

/// The strength along the ridges of the change, and 0 elsewhere.
pub fn edge_ridges(image: &RgbaImage) -> (r: Vec<u64>)
    requires
        image.wf(),
    ensures
        r@.len() == image@.len(),
        forall|x: int, y: int|
            image.inside(x, y) ==> #[trigger] r@[at(image.w() as int, x, y)] == ridge(image, x, y),
{
    let w: u32 = image.width();
    let h: u32 = image.height();
    let ghost (wi, hi) = (w as int, h as int);
    let all: Vec<u64> = gradient_magnitude(image);
    let n: usize = all.len();
    let mut r: Vec<u64> = Vec::with_capacity(n);
    let mut i: usize = 0;
    while i < n
        invariant
            image.wf(),
            wi == w == image.w(),
            hi == h == image.h(),
            n == image@.len() == all@.len() == wi * hi,
            forall|x: int, y: int| image.inside(x, y) ==> #[trigger] all@[at(wi, x, y)] == strength(image, x, y),
            i <= n,
            r@.len() == i,
            forall|j: int| 0 <= j < i ==> #[trigger] r@[j] == ridge(image, j % wi, j / wi),
        decreases n - i,
    {
        proof {
            lemma_small_place(wi, hi, i as int);
        }
        let x: u32 = (i % (w as usize)) as u32;
        let y: u32 = (i / (w as usize)) as u32;
        let m: u64 = all[i];
        assert(all@[at(wi, x as int, y as int)] == strength(image, x as int, y as int));
        if m == 0 {
            r.push(0);
        } else {
            let (gx, gy): (i64, i64) = changes(image, x, y);
            let (ax, ay, bx, by): (u32, u32, u32, u32) = match octant(gx, gy) {
                Direction::Across => (x - 1, y, x + 1, y),
                Direction::Falling => (x - 1, y - 1, x + 1, y + 1),
                Direction::Down => (x, y - 1, x, y + 1),
                Direction::Rising => (x + 1, y - 1, x - 1, y + 1),
            };
            let back: u64 = all[place(w as usize, ax as usize, ay as usize, Ghost(hi))];
            let ahead: u64 = all[place(w as usize, bx as usize, by as usize, Ghost(hi))];
            assert(back == strength(image, ax as int, ay as int));
            assert(ahead == strength(image, bx as int, by as int));
            r.push(if m >= back && m > ahead { m } else { 0 });
        }
        i += 1;
    }
    proof {
        assert forall|x: int, y: int| image.inside(x, y) implies #[trigger] r@[at(wi, x, y)] == ridge(image, x, y) by {
            lemma_at_bound(wi, hi, x, y);
            lemma_at_split(wi, x, y);
        }
    }
    r
}

} // verus!
