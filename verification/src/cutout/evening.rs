//! Evening out the alpha of the band under the guidance of the picture.
//!
//! Around every pixel alpha is told from colour by a line. A pixel of the band
//! gets the mean of the lines of all windows that hold it, so that neighbours end
//! up with nearly the same line and alpha changes only where the picture does.
use vstd::prelude::*;

use crate::cutout::cells::{lemma_small_place, linear_ok, RIM_LINEAR_ONE};
use crate::cutout::contour::{grow, grown};
use crate::cutout::diagnostics::over;
use crate::cutout::guided::{apply, plan_tile, Solved, Tile};
use crate::cutout::integral::{all_up_to, plane_of, sums_fit, Integral};
use crate::cutout::mask::Mask;
use crate::cutout::matte::{high, wide, within};
use crate::cutout::refine::{band_in, corner, for_each_tile, lemma_corner, listed, tile_corner, tile_rect};
use crate::cutout::slopes::{
    as_ints, is_line, lemma_one_line, line_of, shades_ok, sums_ok, OFFSET_LIMIT, SLOPE_LIMIT, SLOPE_UNIT,
    WINDOW_LIMIT,
};
use crate::geometry::{at, in_rect, lemma_at_bound, lemma_at_distinct, lemma_at_split, on_plane, place, rect_on, Rect};
use crate::raster::RgbaImage;
use crate::sums::{lemma_rect_bound, lemma_rect_lift, lemma_rect_shift, lemma_rect_times};

verus! {

/// The widest window of the filter.
pub const GUIDE_CEILING: u32 = 255;

/// By how much coefficients are raised so that none is negative.
pub const LIFT: u64 = 4_398_046_511_104;

/// The longest side of an area that is summed for one tile.
pub const GUIDE_AREA: u32 = 1148;

/// What the filter goes by.
pub struct Guide<'a> {
    pub image: &'a RgbaImage,
    /// 8-bit values in linear light.
    pub linear: &'a [u32],
    /// The two-valued mask.
    pub binary: &'a Mask,
    /// The width of the band at each pixel; 0 outside.
    pub band: &'a [u8],
    /// The alpha that is evened out.
    pub alpha: &'a Mask,
    /// The radius of the windows.
    pub radius: u32,
}

/// One function out of several.
pub open spec fn slice(g: spec_fn(int, int, int) -> int, k: int) -> spec_fn(int, int) -> int {
    |x: int, y: int| g(k, x, y)
}

impl<'a> Guide<'a> {
    pub open spec fn w(&self) -> int {
        self.image.w() as int
    }

    pub open spec fn h(&self) -> int {
        self.image.h() as int
    }

    pub open spec fn wf(&self) -> bool {
        &&& self.image.wf()
        &&& self.binary.wf()
        &&& self.alpha.wf()
        &&& self.binary.w() == self.alpha.w() == self.image.w()
        &&& self.binary.h() == self.alpha.h() == self.image.h()
        &&& 0 < self.w()
        &&& 0 < self.h()
        &&& self.band@.len() == self.w() * self.h()
        &&& linear_ok(self.linear@)
        &&& self.radius <= GUIDE_CEILING
    }

    /// Channel `k` of a pixel in linear light.
    pub open spec fn light(&self, k: int, x: int, y: int) -> int {
        self.linear@[self.image.px(x, y)[k] as int] as int
    }

    /// The alpha of a pixel.
    pub open spec fn share(&self, x: int, y: int) -> int {
        self.alpha.px(x, y) as int
    }

    /// What is summed over a window: the channels of colour, alpha, the products
    /// of two channels, and those of each channel and alpha.
    pub open spec fn moments(&self) -> spec_fn(int, int, int) -> int {
        |k: int, x: int, y: int|
            if k < 3 {
                self.light(k, x, y)
            } else if k == 3 {
                self.share(x, y)
            } else if k < 7 {
                self.light(0, x, y) * self.light(k - 4, x, y)
            } else if k < 9 {
                self.light(1, x, y) * self.light(k - 6, x, y)
            } else if k == 9 {
                self.light(2, x, y) * self.light(2, x, y)
            } else {
                self.light(k - 10, x, y) * self.share(x, y)
            }
    }

    /// The pixel is surely background: outside the band and not foreground.
    pub open spec fn behind(&self, x: int, y: int) -> bool {
        self.band@[at(self.w(), x, y)] == 0 && !self.binary.fg(x, y)
    }

    /// What is summed over the background in a window: its colours, their squares,
    /// and its pixels.
    pub open spec fn shades(&self) -> spec_fn(int, int, int) -> int {
        |k: int, x: int, y: int|
            if !self.behind(x, y) {
                0
            } else if k < 3 {
                self.light(k, x, y)
            } else if k == 3 {
                self.light(0, x, y) * self.light(0, x, y) + self.light(1, x, y) * self.light(1, x, y) + self.light(
                    2,
                    x,
                    y,
                ) * self.light(2, x, y)
            } else {
                1
            }
    }

    /// The window around a pixel, within the image.
    pub open spec fn window(&self, x: int, y: int) -> Rect {
        grown((x as u32, y as u32, x as u32, y as u32), self.radius as int, self.w(), self.h())
    }

    /// How many pixels it has.
    pub open spec fn count(&self, x: int, y: int) -> int {
        wide(self.window(x, y)) * high(self.window(x, y))
    }

    /// The sums over the window.
    pub open spec fn sums(&self, g: spec_fn(int, int, int) -> int, n: nat, x: int, y: int) -> Seq<int> {
        Seq::new(n, |k: int| over(slice(g, k), self.window(x, y)))
    }

    /// `r` is the line of the window around a pixel.
    pub open spec fn has_line(&self, x: int, y: int, r: [i64; 4]) -> bool {
        is_line(self.sums(self.moments(), 13, x, y), self.sums(self.shades(), 5, x, y), self.count(x, y), r)
    }

    /// The line of the window around a pixel.
    pub open spec fn line(&self, x: int, y: int) -> [i64; 4] {
        choose|r: [i64; 4]| self.has_line(x, y, r)
    }

    /// The lines as functions of column and row.
    pub open spec fn lines(&self) -> spec_fn(int, int, int) -> int {
        |k: int, x: int, y: int| self.line(x, y)[k] as int
    }

    /// What the lines around a pixel say of it, summed up.
    pub open spec fn said(&self, x: int, y: int) -> int {
        let r = self.window(x, y);
        over(slice(self.lines(), 0), r) * self.light(0, x, y) + over(slice(self.lines(), 1), r) * self.light(1, x, y)
            + over(slice(self.lines(), 2), r) * self.light(2, x, y) + over(slice(self.lines(), 3), r)
    }

    /// The alpha that comes out for a pixel: the mean of what is said, rounded to
    /// the nearest and held between 0 and 255.
    pub open spec fn evened(&self, x: int, y: int) -> int {
        rounded(self.said(x, y), self.count(x, y) * SLOPE_UNIT)
    }
}

/// A quotient, rounded to the nearest and held between 0 and 255.
pub open spec fn rounded(q: int, d: int) -> int {
    if q <= 0 {
        0
    } else {
        let v = (2 * q + d) / (2 * d);
        if v < 255 {
            v
        } else {
            255
        }
    }
}

/// An integral image of an area.
pub open spec fn sums_up<const N: usize>(area: Rect, g: spec_fn(int, int, int) -> int, sums: &Integral<N>) -> bool {
    &&& sums.wf()
    &&& sums.w() == wide(area)
    &&& sums.h() == high(area)
    &&& forall|x: int, y: int, k: int|
        on_plane(wide(area), high(area), x, y) && 0 <= k < N ==> #[trigger] plane_of(sums.values(), wide(area), k)(
            x,
            y,
        ) == g(k, area.0 + x, area.1 + y)
}

/// An area that can be summed.
pub open spec fn small_area(area: Rect) -> bool {
    area.0 <= area.2 && area.1 <= area.3 && wide(area) <= GUIDE_AREA && high(area) <= GUIDE_AREA
}

proof fn lemma_small_area(area: Rect)
    requires
        small_area(area),
    ensures
        1 <= wide(area) * high(area) <= 1_317_904,
        (wide(area) + 1) * (high(area) + 1) <= 1_320_201,
{
    let (w, h) = (wide(area), high(area));
    assert(1 <= w * h <= 1_317_904 && (w + 1) * (h + 1) <= 1_320_201) by (nonlinear_arith)
        requires
            1 <= w <= 1148,
            1 <= h <= 1148,
    ;
}

/// Value `i` of an area, row by row.
pub open spec fn listed_value<const N: usize>(area: Rect, g: spec_fn(int, int, int) -> int, i: int, v: [u64; N]) -> bool {
    forall|k: int|
        0 <= k < N ==> #[trigger] v[k] == g(k, area.0 + i % wide(area), area.1 + i / wide(area))
}

/// Builds the integral image of an area out of its values.
fn integrate<const N: usize>(area: Rect, values: Vec<[u64; N]>, Ghost(g): Ghost<spec_fn(int, int, int) -> int>, Ghost(
    top,
): Ghost<int>) -> (r: Integral<N>)
    requires
        small_area(area),
        values@.len() == wide(area) * high(area),
        forall|i: int| 0 <= i < values@.len() ==> listed_value(area, g, i, #[trigger] values@[i]),
        all_up_to(values@, top),
        0 <= top <= 0x800_0000_0000,
    ensures
        sums_up(area, g, &r),
{
    let pw: usize = (area.2 - area.0) as usize + 1;
    let ph: usize = (area.3 - area.1) as usize + 1;
    proof {
        lemma_small_area(area);
        let n = values@.len() as int;
        assert(top * n <= u64::MAX) by (nonlinear_arith)
            requires
                0 <= top <= 0x800_0000_0000,
                0 <= n <= 1_317_904,
        ;
        assert(sums_fit(values@));
    }
    let r: Integral<N> = Integral::build(pw, ph, values.as_slice());
    proof {
        let (wi, hi) = (wide(area), high(area));
        assert forall|x: int, y: int, k: int| on_plane(wi, hi, x, y) && 0 <= k < N implies #[trigger] plane_of(
            r.values(),
            wi,
            k,
        )(x, y) == g(k, area.0 + x, area.1 + y) by {
            lemma_at_bound(wi, hi, x, y);
            lemma_at_split(wi, x, y);
            let i = at(wi, x, y);
            assert(listed_value(area, g, i, values@[i]));
            assert(values@[i][k] == g(k, area.0 + x, area.1 + y));
        }
    }
    r
}

/// The sums over a rectangle of the area.
fn sum_over<const N: usize>(area: Rect, sums: &Integral<N>, r: Rect, Ghost(g): Ghost<spec_fn(int, int, int) -> int>) -> (t:
    [u64; N])
    requires
        sums_up(area, g, sums),
        within(r, area),
    ensures
        forall|k: int| 0 <= k < N ==> #[trigger] t[k] == over(slice(g, k), r),
{
    let t: [u64; N] = sums.sum(
        (r.0 - area.0) as usize,
        (r.1 - area.1) as usize,
        (r.2 - area.0) as usize,
        (r.3 - area.1) as usize,
    );
    proof {
        assert forall|k: int| 0 <= k < N implies #[trigger] t[k] == over(slice(g, k), r) by {
            lemma_rect_shift(
                plane_of(sums.values(), wide(area), k),
                slice(g, k),
                r.0 - area.0,
                r.2 - area.0 + 1,
                r.1 - area.1,
                r.3 - area.1 + 1,
                area.0 as int,
                area.1 as int,
            );
        }
    }
    t
}

fn light_of(g: &Guide<'_>, x: u32, y: u32) -> (c: [u64; 3])
    requires
        g.wf(),
        on_plane(g.w(), g.h(), x as int, y as int),
    ensures
        forall|k: int| 0 <= k < 3 ==> #[trigger] c[k] == g.light(k, x as int, y as int),
        forall|k: int| 0 <= k < 3 ==> #[trigger] c[k] <= RIM_LINEAR_ONE,
{
    let p: [u8; 4] = g.image.get_pixel(x, y);
    [g.linear[p[0] as usize] as u64, g.linear[p[1] as usize] as u64, g.linear[p[2] as usize] as u64]
}

/// The product of two colours, or of a colour and alpha.
fn times(a: u64, b: u64, Ghost(top): Ghost<int>) -> (r: u64)
    requires
        a <= RIM_LINEAR_ONE,
        b <= top <= RIM_LINEAR_ONE,
    ensures
        r == a * b,
        r <= RIM_LINEAR_ONE * top,
        r <= 268_402_689,
{
    proof {
        assert(0 <= a * b <= 16_383 * top && 16_383 * top <= 268_402_689) by (nonlinear_arith)
            requires
                0 <= a <= 16_383,
                0 <= b <= top <= 16_383,
        ;
    }
    a * b
}

/// The most that a moment of one pixel can be.
pub open spec fn moment_top(k: int) -> int {
    if k < 3 {
        RIM_LINEAR_ONE as int
    } else if k == 3 {
        255
    } else if k < 10 {
        268_402_689
    } else {
        4_177_665
    }
}

pub open spec fn shade_top(k: int) -> int {
    if k < 3 {
        RIM_LINEAR_ONE as int
    } else if k == 3 {
        805_208_067
    } else {
        1
    }
}

proof fn lemma_light(g: &Guide<'_>, k: int, x: int, y: int)
    requires
        g.wf(),
        on_plane(g.w(), g.h(), x, y),
        0 <= k < 3,
    ensures
        0 <= g.light(k, x, y) <= RIM_LINEAR_ONE,
{
    let v = g.image.px(x, y)[k];
    assert(g.linear@[v as int] <= RIM_LINEAR_ONE);
}

proof fn lemma_up_to(a: int, b: int, x: int, y: int)
    requires
        0 <= a <= x,
        0 <= b <= y,
    ensures
        0 <= a * b <= x * y,
{
    assert(0 <= a * b <= x * y) by (nonlinear_arith)
        requires
            0 <= a <= x,
            0 <= b <= y,
    ;
}

proof fn lemma_moment(g: &Guide<'_>, k: int, x: int, y: int)
    requires
        g.wf(),
        on_plane(g.w(), g.h(), x, y),
        0 <= k < 13,
    ensures
        0 <= g.moments()(k, x, y) <= moment_top(k),
{
    lemma_light(g, 0, x, y);
    lemma_light(g, 1, x, y);
    lemma_light(g, 2, x, y);
    let (a, b, c, s) = (g.light(0, x, y), g.light(1, x, y), g.light(2, x, y), g.share(x, y));
    let m = 16_383int;
    lemma_up_to(a, a, m, m);
    lemma_up_to(a, b, m, m);
    lemma_up_to(a, c, m, m);
    lemma_up_to(b, b, m, m);
    lemma_up_to(b, c, m, m);
    lemma_up_to(c, c, m, m);
    lemma_up_to(a, s, m, 255);
    lemma_up_to(b, s, m, 255);
    lemma_up_to(c, s, m, 255);
}

proof fn lemma_shade(g: &Guide<'_>, k: int, x: int, y: int)
    requires
        g.wf(),
        on_plane(g.w(), g.h(), x, y),
        0 <= k < 5,
    ensures
        0 <= g.shades()(k, x, y) <= shade_top(k),
        g.shades()(k, x, y) <= shade_top(k) * g.shades()(4, x, y),
        0 <= g.shades()(4, x, y) <= 1,
{
    lemma_light(g, 0, x, y);
    lemma_light(g, 1, x, y);
    lemma_light(g, 2, x, y);
    let (a, b, c) = (g.light(0, x, y), g.light(1, x, y), g.light(2, x, y));
    let m = 16_383int;
    lemma_up_to(a, a, m, m);
    lemma_up_to(b, b, m, m);
    lemma_up_to(c, c, m, m);
    assert(shade_top(k) * 1 == shade_top(k) && shade_top(k) * 0 == 0) by (nonlinear_arith);
}

/// The window of a pixel.
proof fn lemma_window(g: &Guide<'_>, x: int, y: int)
    requires
        g.wf(),
        on_plane(g.w(), g.h(), x, y),
    ensures
        rect_on(g.window(x, y), g.w(), g.h()),
        in_rect(g.window(x, y), x, y),
        1 <= wide(g.window(x, y)) <= 511,
        1 <= high(g.window(x, y)) <= 511,
        1 <= g.count(x, y) <= WINDOW_LIMIT,
{
    let (a, b) = (wide(g.window(x, y)), high(g.window(x, y)));
    assert(1 <= a * b <= 261_121) by (nonlinear_arith)
        requires
            1 <= a <= 511,
            1 <= b <= 511,
    ;
}

/// The sums over a window are those of its pixels.
proof fn lemma_sums(g: &Guide<'_>, x: int, y: int)
    requires
        g.wf(),
        on_plane(g.w(), g.h(), x, y),
    ensures
        sums_ok(g.sums(g.moments(), 13, x, y), g.count(x, y)),
        shades_ok(g.sums(g.shades(), 5, x, y)),
{
    lemma_window(g, x, y);
    let r = g.window(x, y);
    let n = g.count(x, y);
    let s = g.sums(g.moments(), 13, x, y);
    let t = g.sums(g.shades(), 5, x, y);
    assert forall|k: int| 0 <= k < 13 implies 0 <= #[trigger] s[k] <= moment_top(k) * n by {
        let f = slice(g.moments(), k);
        assert forall|u: int, v: int| r.0 <= u < r.2 + 1 && r.1 <= v < r.3 + 1 implies 0 <= #[trigger] f(u, v)
            <= moment_top(k) by {
            lemma_moment(g, k, u, v);
        }
        lemma_rect_bound(f, r.0 as int, r.2 + 1, r.1 as int, r.3 + 1, moment_top(k));
    }
    let one = slice(g.shades(), 4);
    assert forall|u: int, v: int| r.0 <= u < r.2 + 1 && r.1 <= v < r.3 + 1 implies 0 <= #[trigger] one(u, v) <= 1 by {
        lemma_shade(g, 4, u, v);
    }
    lemma_rect_bound(one, r.0 as int, r.2 + 1, r.1 as int, r.3 + 1, 1);
    assert(t[4] <= n);
    assert forall|k: int| 0 <= k < 4 implies 0 <= #[trigger] t[k] <= shade_top(k) * t[4] by {
        let f = slice(g.shades(), k);
        assert forall|u: int, v: int| r.0 <= u < r.2 + 1 && r.1 <= v < r.3 + 1 implies 0 <= #[trigger] f(u, v)
            <= shade_top(k) by {
            lemma_shade(g, k, u, v);
        }
        lemma_rect_bound(f, r.0 as int, r.2 + 1, r.1 as int, r.3 + 1, shade_top(k));
        assert forall|u: int, v: int| r.0 <= u < r.2 + 1 && r.1 <= v < r.3 + 1 implies #[trigger] f(u, v)
            <= shade_top(k) * one(u, v) by {
            lemma_shade(g, k, u, v);
        }
        lemma_rect_times(f, one, r.0 as int, r.2 + 1, r.1 as int, r.3 + 1, shade_top(k));
    }
}

/// The moments of one pixel.
fn moments_at(g: &Guide<'_>, x: u32, y: u32) -> (r: [u64; 13])
    requires
        g.wf(),
        on_plane(g.w(), g.h(), x as int, y as int),
    ensures
        forall|k: int| 0 <= k < 13 ==> #[trigger] r[k] == g.moments()(k, x as int, y as int),
        forall|k: int| 0 <= k < 13 ==> #[trigger] r[k] <= 268_402_689,
{
    let c: [u64; 3] = light_of(g, x, y);
    let a: u64 = g.alpha.get(x, y) as u64;
    let m = Ghost(16_383int);
    let b = Ghost(255int);
    [
        c[0],
        c[1],
        c[2],
        a,
        times(c[0], c[0], m),
        times(c[0], c[1], m),
        times(c[0], c[2], m),
        times(c[1], c[1], m),
        times(c[1], c[2], m),
        times(c[2], c[2], m),
        times(c[0], a, b),
        times(c[1], a, b),
        times(c[2], a, b),
    ]
}

/// What one pixel adds to the background.
fn shades_at(g: &Guide<'_>, x: u32, y: u32) -> (r: [u64; 5])
    requires
        g.wf(),
        on_plane(g.w(), g.h(), x as int, y as int),
    ensures
        forall|k: int| 0 <= k < 5 ==> #[trigger] r[k] == g.shades()(k, x as int, y as int),
        forall|k: int| 0 <= k < 5 ==> #[trigger] r[k] <= 805_208_067,
{
    let i: usize = place(g.image.width() as usize, x as usize, y as usize, Ghost(g.h()));
    if g.band[i] != 0 || g.binary.is_foreground(x, y) {
        return [0, 0, 0, 0, 0];
    }
    let c: [u64; 3] = light_of(g, x, y);
    let m = Ghost(16_383int);
    [c[0], c[1], c[2], times(c[0], c[0], m) + times(c[1], c[1], m) + times(c[2], c[2], m), 1]
}

/// Sums up the moments and the background of an area.
fn prepare(g: &Guide<'_>, area: Rect) -> (r: (Integral<13>, Integral<5>))
    requires
        g.wf(),
        small_area(area),
        rect_on(area, g.w(), g.h()),
    ensures
        sums_up(area, g.moments(), &r.0),
        sums_up(area, g.shades(), &r.1),
{
    let ghost (wi, hi) = (wide(area), high(area));
    let pw: usize = (area.2 - area.0) as usize + 1;
    let ph: usize = (area.3 - area.1) as usize + 1;
    proof {
        lemma_small_area(area);
    }
    let n: usize = pw * ph;
    let mut moments: Vec<[u64; 13]> = Vec::with_capacity(n);
    let mut shades: Vec<[u64; 5]> = Vec::with_capacity(n);
    let mut i: usize = 0;
    while i < n
        invariant
            g.wf(),
            rect_on(area, g.w(), g.h()),
            wi == wide(area) == pw,
            hi == high(area) == ph,
            n == wi * hi,
            i <= n,
            moments@.len() == i,
            shades@.len() == i,
            forall|j: int| 0 <= j < i ==> listed_value(area, g.moments(), j, #[trigger] moments@[j]),
            forall|j: int| 0 <= j < i ==> listed_value(area, g.shades(), j, #[trigger] shades@[j]),
            forall|j: int, k: int| 0 <= j < i && 0 <= k < 13 ==> #[trigger] moments@[j][k] <= 268_402_689,
            forall|j: int, k: int| 0 <= j < i && 0 <= k < 5 ==> #[trigger] shades@[j][k] <= 805_208_067,
        decreases n - i,
    {
        proof {
            lemma_small_place(wi, hi, i as int);
        }
        let x: u32 = area.0 + (i % pw) as u32;
        let y: u32 = area.1 + (i / pw) as u32;
        moments.push(moments_at(g, x, y));
        shades.push(shades_at(g, x, y));
        i += 1;
    }
    (
        integrate(area, moments, Ghost(g.moments()), Ghost(268_402_689)),
        integrate(area, shades, Ghost(g.shades()), Ghost(805_208_067)),
    )
}

/// The window around a pixel.
fn window_at(g: &Guide<'_>, x: u32, y: u32) -> (r: Rect)
    requires
        g.wf(),
        on_plane(g.w(), g.h(), x as int, y as int),
    ensures
        r == g.window(x as int, y as int),
        rect_on(r, g.w(), g.h()),
        wide(r) * high(r) == g.count(x as int, y as int),
        1 <= g.count(x as int, y as int) <= WINDOW_LIMIT,
{
    proof {
        lemma_window(g, x as int, y as int);
    }
    grow((x, y, x, y), g.radius, g.image.width(), g.image.height())
}

/// How many pixels a window has.
fn size_of(r: Rect) -> (n: u64)
    requires
        r.0 <= r.2,
        r.1 <= r.3,
        wide(r) * high(r) <= WINDOW_LIMIT,
    ensures
        n == wide(r) * high(r),
{
    ((r.2 - r.0) as u64 + 1) * ((r.3 - r.1) as u64 + 1)
}

/// The line of the window around a pixel is the one that was found.
proof fn lemma_line(g: &Guide<'_>, x: int, y: int, r: [i64; 4])
    requires
        g.has_line(x, y, r),
    ensures
        forall|k: int| 0 <= k < 4 ==> #[trigger] r[k] == g.lines()(k, x, y),
{
    let chosen = g.line(x, y);
    assert(g.has_line(x, y, chosen));
    lemma_one_line(
        g.sums(g.moments(), 13, x, y),
        g.sums(g.shades(), 5, x, y),
        g.count(x, y),
        r,
        chosen,
    );
}

fn line_at(g: &Guide<'_>, area: Rect, moments: &Integral<13>, shades: &Integral<5>, x: u32, y: u32) -> (r: [i64; 4])
    requires
        g.wf(),
        on_plane(g.w(), g.h(), x as int, y as int),
        within(g.window(x as int, y as int), area),
        sums_up(area, g.moments(), moments),
        sums_up(area, g.shades(), shades),
    ensures
        forall|k: int| 0 <= k < 4 ==> #[trigger] r[k] == g.lines()(k, x as int, y as int),
        forall|k: int| 0 <= k < 4 ==> -OFFSET_LIMIT <= #[trigger] r[k] <= OFFSET_LIMIT,
{
    let w: Rect = window_at(g, x, y);
    let s: [u64; 13] = sum_over(area, moments, w, Ghost(g.moments()));
    let t: [u64; 5] = sum_over(area, shades, w, Ghost(g.shades()));
    let n: u64 = size_of(w);
    proof {
        lemma_sums(g, x as int, y as int);
        assert(as_ints(s) =~= g.sums(g.moments(), 13, x as int, y as int));
        assert(as_ints(t) =~= g.sums(g.shades(), 5, x as int, y as int));
    }
    let r: [i64; 4] = line_of(&s, &t, n);
    proof {
        assert(g.has_line(x as int, y as int, r));
        lemma_line(g, x as int, y as int, r);
        assert forall|k: int| 0 <= k < 4 implies -OFFSET_LIMIT <= #[trigger] r[k] <= OFFSET_LIMIT by {
            if k < 3 {
                assert(-SLOPE_LIMIT <= r[k] <= SLOPE_LIMIT);
            }
        }
    }
    r
}

impl<'a> Guide<'a> {
    /// The lines, raised so that none is negative.
    pub open spec fn raised(&self) -> spec_fn(int, int, int) -> int {
        |k: int, x: int, y: int| self.lines()(k, x, y) + LIFT
    }
}

fn raise(v: i64) -> (r: u64)
    requires
        -OFFSET_LIMIT <= v <= OFFSET_LIMIT,
    ensures
        r == v + LIFT,
        r <= 0x800_0000_0000,
{
    (v + LIFT as i64) as u64
}

/// Finds the lines around all pixels of an area, and sums them up.
fn solve(g: &Guide<'_>, tile: &Tile, moments: &Integral<13>, shades: &Integral<5>) -> (r: Integral<4>)
    requires
        g.wf(),
        rect_on(tile.coefficients, g.w(), g.h()),
        small_area(tile.coefficients),
        sums_up(tile.sums, g.moments(), moments),
        sums_up(tile.sums, g.shades(), shades),
        forall|x: int, y: int| in_rect(tile.coefficients, x, y) ==> within(#[trigger] g.window(x, y), tile.sums),
    ensures
        sums_up(tile.coefficients, g.raised(), &r),
{
    let area: Rect = tile.coefficients;
    let ghost (wi, hi) = (wide(area), high(area));
    let pw: usize = (area.2 - area.0) as usize + 1;
    let ph: usize = (area.3 - area.1) as usize + 1;
    proof {
        lemma_small_area(area);
    }
    let n: usize = pw * ph;
    let mut lines: Vec<[u64; 4]> = Vec::with_capacity(n);
    let mut i: usize = 0;
    while i < n
        invariant
            g.wf(),
            area == tile.coefficients,
            rect_on(area, g.w(), g.h()),
            sums_up(tile.sums, g.moments(), moments),
            sums_up(tile.sums, g.shades(), shades),
            forall|x: int, y: int| in_rect(area, x, y) ==> within(#[trigger] g.window(x, y), tile.sums),
            wi == wide(area) == pw,
            hi == high(area) == ph,
            n == wi * hi,
            i <= n,
            lines@.len() == i,
            forall|j: int| 0 <= j < i ==> listed_value(area, g.raised(), j, #[trigger] lines@[j]),
            forall|j: int, k: int| 0 <= j < i && 0 <= k < 4 ==> #[trigger] lines@[j][k] <= 0x800_0000_0000,
        decreases n - i,
    {
        proof {
            lemma_small_place(wi, hi, i as int);
        }
        let x: u32 = area.0 + (i % pw) as u32;
        let y: u32 = area.1 + (i / pw) as u32;
        assert(in_rect(area, x as int, y as int));
        assert(within(g.window(x as int, y as int), tile.sums));
        let c: [i64; 4] = line_at(g, tile.sums, moments, shades, x, y);
        assert(c[0] == g.lines()(0, x as int, y as int) && c[1] == g.lines()(1, x as int, y as int));
        assert(c[2] == g.lines()(2, x as int, y as int) && c[3] == g.lines()(3, x as int, y as int));
        let v: [u64; 4] = [raise(c[0]), raise(c[1]), raise(c[2]), raise(c[3])];
        assert(listed_value(area, g.raised(), i as int, v));
        lines.push(v);
        i += 1;
    }
    integrate(area, lines, Ghost(g.raised()), Ghost(0x800_0000_0000))
}

/// The sum of the lines over a window out of that of the raised ones.
proof fn lemma_raised(g: &Guide<'_>, k: int, x: int, y: int)
    requires
        g.wf(),
        on_plane(g.w(), g.h(), x, y),
    ensures
        over(slice(g.raised(), k), g.window(x, y)) == over(slice(g.lines(), k), g.window(x, y)) + LIFT * g.count(x, y),
{
    lemma_window(g, x, y);
    let r = g.window(x, y);
    lemma_rect_lift(
        slice(g.raised(), k),
        slice(g.lines(), k),
        r.0 as int,
        r.2 + 1,
        r.1 as int,
        r.3 + 1,
        LIFT as int,
    );
}

/// Rounds a quotient.
fn round(q: i128, d: i128) -> (r: u8)
    requires
        0 < d <= 0x1_0000_0000_0000,
        q <= 0x100_0000_0000_0000_0000_0000,
    ensures
        r == rounded(q as int, d as int),
{
    if q <= 0 {
        return 0;
    }
    let v: i128 = (2 * q + d) / (2 * d);
    proof {
        assert(0 <= v) by (nonlinear_arith)
            requires
                0 < q,
                0 < d,
                v == (2 * q + d) / (2 * d),
        ;
    }
    if v < 255 {
        v as u8
    } else {
        255
    }
}

/// A sum of raised coefficients, lowered again and times a colour.
fn lower(total: u64, n: u64, light: u64) -> (r: i128)
    requires
        n <= WINDOW_LIMIT,
        light <= RIM_LINEAR_ONE,
    ensures
        r == (total - LIFT * n) * light,
        -0x10_0000_0000_0000_0000_0000 <= r <= 0x10_0000_0000_0000_0000_0000,
{
    proof {
        assert(0 <= LIFT * n <= 4_398_046_511_104 * 261_121) by (nonlinear_arith)
            requires
                0 <= n <= 261_121,
                LIFT == 4_398_046_511_104,
        ;
        let d = total - LIFT * n;
        assert(-0x1_0000_0000_0000_0000 * 16_383 <= d * light <= 0x1_0000_0000_0000_0000 * 16_383) by (nonlinear_arith)
            requires
                -0x1_0000_0000_0000_0000 <= d <= 0x1_0000_0000_0000_0000,
                0 <= light <= 16_383,
        ;
    }
    (total as i128 - (LIFT as i128) * (n as i128)) * (light as i128)
}

fn evened_at(g: &Guide<'_>, area: Rect, lines: &Integral<4>, x: u32, y: u32) -> (r: u8)
    requires
        g.wf(),
        on_plane(g.w(), g.h(), x as int, y as int),
        within(g.window(x as int, y as int), area),
        sums_up(area, g.raised(), lines),
    ensures
        r == g.evened(x as int, y as int),
{
    let w: Rect = window_at(g, x, y);
    let t: [u64; 4] = sum_over(area, lines, w, Ghost(g.raised()));
    let n: u64 = size_of(w);
    let c: [u64; 3] = light_of(g, x, y);
    proof {
        let (xi, yi) = (x as int, y as int);
        lemma_raised(g, 0, xi, yi);
        lemma_raised(g, 1, xi, yi);
        lemma_raised(g, 2, xi, yi);
        lemma_raised(g, 3, xi, yi);
        assert(t[0] == over(slice(g.raised(), 0), w));
        assert(t[1] == over(slice(g.raised(), 1), w));
        assert(t[2] == over(slice(g.raised(), 2), w));
        assert(t[3] == over(slice(g.raised(), 3), w));
        assert(c[0] == g.light(0, xi, yi) && c[1] == g.light(1, xi, yi) && c[2] == g.light(2, xi, yi));
        assert((t[3] - LIFT * n) * 1 == t[3] - LIFT * n);
    }
    let q: i128 = lower(t[0], n, c[0]) + lower(t[1], n, c[1]) + lower(t[2], n, c[2]) + lower(t[3], n, 1);
    round(q, (n as i128) * SLOPE_UNIT)
}

/// The areas of a tile hold the windows of what is worked out in them.
proof fn lemma_tile(g: &Guide<'_>, c: (u32, u32), t: Tile)
    requires
        g.wf(),
        c.0 < g.w(),
        c.1 < g.h(),
        t.band.0 >= c.0,
        t.band.1 >= c.1,
        t.band.2 < c.0 + 128,
        t.band.3 < c.1 + 128,
        rect_on(t.band, g.w(), g.h()),
        t.coefficients == grown(t.band, g.radius as int, g.w(), g.h()),
        t.sums == grown(t.band, 2 * g.radius, g.w(), g.h()),
    ensures
        rect_on(t.coefficients, g.w(), g.h()),
        small_area(t.coefficients),
        small_area(t.sums),
        forall|x: int, y: int| in_rect(t.coefficients, x, y) ==> within(#[trigger] g.window(x, y), t.sums),
        forall|x: int, y: int| in_rect(t.band, x, y) ==> within(#[trigger] g.window(x, y), t.coefficients),
{
}

/// Works out the alpha of the band in a tile.
fn even_tile(g: &Guide<'_>, tile: &Tile, values: &mut Vec<u8>)
    requires
        g.wf(),
        old(values)@.len() == g.w() * g.h(),
        rect_on(tile.band, g.w(), g.h()),
        rect_on(tile.coefficients, g.w(), g.h()),
        rect_on(tile.sums, g.w(), g.h()),
        small_area(tile.coefficients),
        small_area(tile.sums),
        forall|x: int, y: int| in_rect(tile.coefficients, x, y) ==> within(#[trigger] g.window(x, y), tile.sums),
        forall|x: int, y: int| in_rect(tile.band, x, y) ==> within(#[trigger] g.window(x, y), tile.coefficients),
    ensures
        final(values)@.len() == old(values)@.len(),
        forall|x: int, y: int|
            on_plane(g.w(), g.h(), x, y) ==> #[trigger] final(values)@[at(g.w(), x, y)] == if in_rect(tile.band, x, y)
                && g.band@[at(g.w(), x, y)] != 0 {
                g.evened(x, y)
            } else {
                old(values)@[at(g.w(), x, y)] as int
            },
{
    let (moments, shades): (Integral<13>, Integral<5>) = prepare(g, tile.sums);
    let lines: Integral<4> = solve(g, tile, &moments, &shades);
    let ghost was = values@;
    let ghost (wi, hi) = (g.w(), g.h());
    let w: usize = g.image.width() as usize;
    let b: Rect = tile.band;
    let mut y: u32 = b.1;
    let mut more: bool = true;
    while more
        invariant
            g.wf(),
            wi == g.w() == w,
            hi == g.h(),
            b == tile.band,
            rect_on(b, wi, hi),
            forall|x: int, y: int| in_rect(b, x, y) ==> within(#[trigger] g.window(x, y), tile.coefficients),
            sums_up(tile.coefficients, g.raised(), &lines),
            values@.len() == was.len() == wi * hi,
            b.1 <= y <= b.3,
            !more ==> y == b.3,
            forall|u: int, v: int|
                on_plane(wi, hi, u, v) ==> #[trigger] values@[at(wi, u, v)] == if in_rect(b, u, v) && (v < y || (!more
                    && v <= y)) && g.band@[at(wi, u, v)] != 0 {
                    g.evened(u, v)
                } else {
                    was[at(wi, u, v)] as int
                },
        decreases b.3 - y + (if more { 1int } else { 0 }),
    {
        let mut x: u32 = b.0;
        let mut on: bool = true;
        while on
            invariant
                g.wf(),
                wi == g.w() == w,
                hi == g.h(),
                b == tile.band,
                rect_on(b, wi, hi),
                forall|x: int, y: int| in_rect(b, x, y) ==> within(#[trigger] g.window(x, y), tile.coefficients),
                sums_up(tile.coefficients, g.raised(), &lines),
                values@.len() == was.len() == wi * hi,
                b.1 <= y <= b.3,
                b.0 <= x <= b.2,
                !on ==> x == b.2,
                forall|u: int, v: int|
                    on_plane(wi, hi, u, v) ==> #[trigger] values@[at(wi, u, v)] == if in_rect(b, u, v) && (v < y || (v
                        == y && (u < x || (!on && u <= x)))) && g.band@[at(wi, u, v)] != 0 {
                        g.evened(u, v)
                    } else {
                        was[at(wi, u, v)] as int
                    },
            decreases b.2 - x + (if on { 1int } else { 0 }),
        {
            let i: usize = place(w, x as usize, y as usize, Ghost(hi));
            let ghost had = values@;
            proof {
                assert(in_rect(b, x as int, y as int));
                assert(within(g.window(x as int, y as int), tile.coefficients));
                lemma_at_bound(wi, hi, x as int, y as int);
            }
            if g.band[i] != 0 {
                values.set(i, evened_at(g, tile.coefficients, &lines, x, y));
            }
            let ghost (xi, yi) = (x as int, y as int);
            if x < b.2 {
                x += 1;
            } else {
                on = false;
            }
            proof {
                assert forall|u: int, v: int| on_plane(wi, hi, u, v) implies #[trigger] values@[at(wi, u, v)]
                    == if in_rect(b, u, v) && (v < y || (v == y && (u < x || (!on && u <= x)))) && g.band@[at(wi, u, v)]
                    != 0 {
                    g.evened(u, v)
                } else {
                    was[at(wi, u, v)] as int
                } by {
                    lemma_at_bound(wi, hi, u, v);
                    if u == xi && v == yi {
                    } else {
                        if at(wi, u, v) == i {
                            lemma_at_distinct(wi, u, v, xi, yi);
                        }
                        assert(values@[at(wi, u, v)] == had[at(wi, u, v)]);
                    }
                }
            }
        }
        if y < b.3 {
            y += 1;
        } else {
            more = false;
        }
    }
}

/// The values of the filter are there for the band in the first `k` tiles.
spec fn evened_so_far(g: &Guide<'_>, tiles: Seq<(u32, u32)>, k: int, values: Seq<u8>) -> bool {
    forall|x: int, y: int|
        on_plane(g.w(), g.h(), x, y) && g.band@[at(g.w(), x, y)] != 0 && listed(tiles, k, x, y)
            ==> #[trigger] values[at(g.w(), x, y)] == g.evened(x, y)
}

/// Works out the filter over the whole band, tile by tile. What comes out for a
/// pixel does not depend on where the tiles fall. Outside the band the values
/// mean nothing.
fn values_of(g: &Guide<'_>) -> (values: Vec<u8>)
    requires
        g.wf(),
    ensures
        values@.len() == g.w() * g.h(),
        forall|x: int, y: int|
            on_plane(g.w(), g.h(), x, y) && g.band@[at(g.w(), x, y)] != 0 ==> #[trigger] values@[at(g.w(), x, y)]
                == g.evened(x, y),
{
    let w: u32 = g.image.width();
    let h: u32 = g.image.height();
    let ghost (wi, hi) = (g.w(), g.h());
    let mut values: Vec<u8> = vec![0u8; g.band.len()];
    let tiles: Vec<(u32, u32)> = for_each_tile(w, h);
    let mut k: usize = 0;
    while k < tiles.len()
        invariant
            g.wf(),
            w == wi == g.w(),
            h == hi == g.h(),
            values@.len() == wi * hi,
            k <= tiles@.len(),
            forall|j: int|
                0 <= j < tiles@.len() ==> tile_corner(wi, hi, (#[trigger] tiles@[j]).0 as int, tiles@[j].1 as int),
            evened_so_far(g, tiles@, k as int, values@),
        decreases tiles@.len() - k,
    {
        let c: (u32, u32) = tiles[k];
        assert(tile_corner(wi, hi, c.0 as int, c.1 as int));
        let ghost set = band_in(g.band@, wi, hi, tile_rect(wi, hi, c.0, c.1));
        let ghost had = values@;
        match plan_tile(g.band, w, h, c.0, c.1, g.radius) {
            None => {
                proof {
                    assert forall|x: int, y: int|
                        on_plane(wi, hi, x, y) && g.band@[at(wi, x, y)] != 0 && listed(tiles@, k + 1, x, y) implies
                        #[trigger] values@[at(wi, x, y)] == g.evened(x, y) by {
                        lemma_corner(wi, hi, x, y, c);
                        if in_rect(tile_rect(wi, hi, c.0, c.1), x, y) {
                            assert(set.contains((x, y)));
                        }
                        lemma_listed(tiles@, k as int, x, y);
                    }
                }
            },
            Some(t) => {
                proof {
                    let p = choose|p: (int, int)| #[trigger] set.contains(p) && p.0 == t.band.0;
                    let q = choose|p: (int, int)| #[trigger] set.contains(p) && p.1 == t.band.1;
                    let r = choose|p: (int, int)| #[trigger] set.contains(p) && p.0 == t.band.2;
                    let s = choose|p: (int, int)| #[trigger] set.contains(p) && p.1 == t.band.3;
                    assert(set.contains(p) && set.contains(q) && set.contains(r) && set.contains(s));
                    lemma_tile(g, c, t);
                }
                even_tile(g, &t, &mut values);
                proof {
                    assert forall|x: int, y: int|
                        on_plane(wi, hi, x, y) && g.band@[at(wi, x, y)] != 0 && listed(tiles@, k + 1, x, y) implies
                        #[trigger] values@[at(wi, x, y)] == g.evened(x, y) by {
                        lemma_corner(wi, hi, x, y, c);
                        if in_rect(tile_rect(wi, hi, c.0, c.1), x, y) {
                            assert(set.contains((x, y)));
                            assert(in_rect(t.band, x, y));
                        } else {
                            lemma_listed(tiles@, k as int, x, y);
                            assert(had[at(wi, x, y)] == g.evened(x, y));
                        }
                    }
                }
            },
        }
        k += 1;
    }
    proof {
        assert forall|x: int, y: int| on_plane(wi, hi, x, y) && g.band@[at(wi, x, y)] != 0 implies #[trigger] values@[at(
            wi,
            x,
            y,
        )] == g.evened(x, y) by {
            assert(tile_corner(wi, hi, corner(x), corner(y)));
            let j = choose|j: int| 0 <= j < tiles@.len() && (#[trigger] tiles@[j]).0 == corner(x) && tiles@[j].1
                == corner(y);
            assert(listed(tiles@, k as int, x, y));
        }
    }
    values
}

/// A pixel in the first `k + 1` tiles is in the first `k` or in the next.
proof fn lemma_listed(tiles: Seq<(u32, u32)>, k: int, x: int, y: int)
    requires
        0 <= k < tiles.len(),
        listed(tiles, k + 1, x, y),
    ensures
        listed(tiles, k, x, y) || (tiles[k].0 == corner(x) && tiles[k].1 == corner(y)),
{
    let j = choose|j: int| 0 <= j < k + 1 && (#[trigger] tiles[j]).0 == corner(x) && tiles[j].1 == corner(y);
    if j < k {
        assert(0 <= j < k && tiles[j].0 == corner(x));
    }
}

/// The alpha of the band is evened out where colour has decided.
pub open spec fn is_evened(g: &Guide<'_>, solved: &Solved, out: &Mask) -> bool {
    &&& out.wf()
    &&& out.w() == g.w()
    &&& out.h() == g.h()
    &&& g.radius == 0 ==> out@ == g.alpha@
    &&& g.radius > 0 ==> forall|x: int, y: int|
        on_plane(g.w(), g.h(), x, y) ==> #[trigger] out.px(x, y) == if g.band@[at(g.w(), x, y)] != 0 && solved.marked(
            at(g.w(), x, y),
        ) {
            g.evened(x, y)
        } else {
            g.alpha.px(x, y) as int
        }
}

/// Evens out the alpha of the band. Where colour has not decided, the picture has
/// nothing to say, and alpha stays; a radius of 0 changes nothing.
pub fn feather(g: &Guide<'_>, solved: &Solved) -> (out: Mask)
    requires
        g.wf(),
        solved.covers((g.w() * g.h()) as nat),
    ensures
        is_evened(g, solved, &out),
{
    if g.radius == 0 {
        return g.alpha.clone();
    }
    let values: Vec<u8> = values_of(g);
    let out: Mask = apply(g.alpha, g.band, solved, values.as_slice());
    proof {
        assert forall|x: int, y: int| on_plane(g.w(), g.h(), x, y) implies #[trigger] out.px(x, y) == if g.band@[at(
            g.w(),
            x,
            y,
        )] != 0 && solved.marked(at(g.w(), x, y)) {
            g.evened(x, y)
        } else {
            g.alpha.px(x, y) as int
        } by {
            lemma_at_bound(g.w(), g.h(), x, y);
            assert(values@[at(g.w(), x, y)] == values@[at(g.w(), x, y)]);
        }
    }
    out
}

} // verus!
