//! The alpha of the band, solved from colour.
//!
//! A pixel of the band mixes the colour of the product with that of what lies
//! behind it. With the two colours known from nearby, the share of the product is
//! the projection of the observed colour on the line between them. Colours are in
//! linear light, in whole units, so all sums and comparisons are exact.
use vstd::prelude::*;

use crate::cutout::cells::lemma_small_place;
use crate::cutout::contour::{grow, grown};
use crate::cutout::diagnostics::over;
use crate::cutout::feather::{feather, feathered};
use crate::cutout::guided::Solved;
use crate::cutout::integral::{all_up_to, plane_of, sums_fit, Integral};
use crate::cutout::mask::Mask;
use crate::cutout::morphology::{in_window, BitPlane};
use crate::cutout::refine::{
    band_box, band_in, corner, for_each_tile, lemma_corner, listed, tile_at, tile_corner, window_for, window_of,
};
use crate::cutout::sliding::{farthest, is_local_max, local_max};
use crate::geometry::{
    at, before, in_rect, lemma_at_bound, lemma_at_distinct, lemma_at_split, on_plane, place, rect_on, Rect,
};
use crate::raster::RgbaImage;
use crate::sums::{lemma_rect_bound, lemma_rect_shift, lemma_rect_times};

verus! {

/// Full light.
pub const LINEAR_UNIT: u64 = 68_719_476_736;

/// The parts of a whole share.
pub const WHOLE: u64 = 1_073_741_824;

/// The widest window around a pixel of the band.
pub const WINDOW_CEILING: u32 = 513;

/// The longest side of an area that is summed for one tile.
pub const AREA_CEILING: u32 = 2180;

/// The table from 8-bit values to linear light is usable.
pub open spec fn light_ok(linear: Seq<u64>) -> bool {
    linear.len() == 256 && forall|i: int| 0 <= i < 256 ==> #[trigger] linear[i] <= LINEAR_UNIT
}

/// What does not change from tile to tile.
pub struct Scene<'a> {
    pub image: &'a RgbaImage,
    /// 8-bit values in linear light.
    pub linear: &'a [u64],
    pub binary: &'a Mask,
    /// The width of the band at each pixel; 0 outside.
    pub band: &'a [u8],
    /// Gaps that a seal has closed: foreground in the colour of the background.
    pub sealed: &'a BitPlane,
    /// The colour of the background as a whole.
    pub background: [u8; 3],
    /// The square of the distance under which two colours decide nothing.
    pub separation: u128,
    /// The radius in which the heart of a thin structure is looked for.
    pub core_window: u32,
}

/// The mean of `n` values, rounded to the nearest.
pub open spec fn mean_of(total: int, n: int) -> int {
    (2 * total + n) / (2 * n)
}

pub open spec fn square(v: int) -> int {
    v * v
}

/// The squared distance between two colours.
pub open spec fn apart(f: [u64; 3], b: [u64; 3]) -> int {
    square(f[0] - b[0]) + square(f[1] - b[1]) + square(f[2] - b[2])
}

/// The scalar product of `c - b` and `f - b`.
pub open spec fn along(c: [u64; 3], b: [u64; 3], f: [u64; 3]) -> int {
    (c[0] - b[0]) * (f[0] - b[0]) + (c[1] - b[1]) * (f[1] - b[1]) + (c[2] - b[2]) * (f[2] - b[2])
}

/// The share `part / whole`, held between 0 and 1, as an 8-bit value rounded to
/// the nearest.
pub open spec fn share(part: int, whole: int) -> int {
    if part <= 0 {
        0
    } else if part >= whole {
        255
    } else {
        (510 * part + whole) / (2 * whole)
    }
}

/// The same share in parts of a whole, rounded down.
pub open spec fn fine_share(part: int, whole: int) -> int {
    if part <= 0 {
        0
    } else if part >= whole {
        WHOLE as int
    } else {
        (part * WHOLE) / whole
    }
}

/// An 8-bit alpha in parts of a whole.
pub open spec fn alpha_share(alpha: int) -> int {
    (alpha * WHOLE) / 255
}

impl<'a> Scene<'a> {
    pub open spec fn w(&self) -> int {
        self.image.w() as int
    }

    pub open spec fn h(&self) -> int {
        self.image.h() as int
    }

    pub open spec fn wf(&self) -> bool {
        &&& self.image.wf()
        &&& self.binary.wf()
        &&& self.binary.w() == self.image.w()
        &&& self.binary.h() == self.image.h()
        &&& 0 < self.w()
        &&& 0 < self.h()
        &&& self.band@.len() == self.w() * self.h()
        &&& light_ok(self.linear@)
        &&& self.sealed.wf()
        &&& self.sealed@.len() == 0 || self.sealed@.len() == self.w() * self.h()
        &&& self.core_window <= WINDOW_CEILING
    }

    /// Channel `k` of a pixel in linear light.
    pub open spec fn light(&self, x: int, y: int, k: int) -> int {
        self.linear@[self.image.px(x, y)[k] as int] as int
    }

    /// `c` is the colour of the pixel.
    pub open spec fn shows(&self, c: [u64; 3], x: int, y: int) -> bool {
        forall|k: int| 0 <= k < 3 ==> #[trigger] c[k] == self.light(x, y, k)
    }

    /// Channel `k` of the background in linear light.
    pub open spec fn base(&self, k: int) -> int {
        self.linear@[self.background[k] as int] as int
    }

    /// Which side the pixel is on is not told by the mask: it lies in the band or
    /// in a closed gap.
    pub open spec fn unsure(&self, x: int, y: int) -> bool {
        let i = at(self.w(), x, y);
        self.band@[i] != 0 || (self.sealed@.len() > 0 && self.sealed@[i])
    }

    /// The pixels that are surely foreground, or surely background.
    pub open spec fn confirmed(&self, foreground: bool) -> spec_fn(int, int) -> bool {
        |x: int, y: int| !self.unsure(x, y) && self.binary.fg(x, y) == foreground
    }

    /// How far the colour of a foreground pixel is from the background.
    pub open spec fn distance(&self, x: int, y: int) -> int {
        if self.binary.fg(x, y) {
            square(self.light(x, y, 0) - self.base(0)) + square(self.light(x, y, 1) - self.base(1)) + square(
                self.light(x, y, 2) - self.base(2),
            )
        } else {
            0
        }
    }

    /// In an area, no pixel around is more than a quarter farther from the
    /// background. Distances are squared, so the ratio is 16 to 25.
    pub open spec fn heart_in(&self, area: Rect, x: int, y: int) -> bool {
        let r = self.core_window as int;
        &&& self.distance(x, y) > 0
        &&& forall|a: int, b: int|
            in_rect(area, a, b) && in_window(r, r, x, y, a, b) ==> 25 * self.distance(x, y) >= 16
                * #[trigger] self.distance(a, b)
    }

    pub open spec fn all(&self) -> Rect {
        (0, 0, (self.w() - 1) as u32, (self.h() - 1) as u32)
    }

    /// The hearts of an area: what stands in for the foreground where a structure
    /// is thinner than the band.
    pub open spec fn hearts(&self, area: Rect) -> spec_fn(int, int) -> bool {
        |x: int, y: int| self.heart_in(area, x, y)
    }

    /// Channel `k` of the picked pixels, or 1 for each of them.
    pub open spec fn picked(&self, p: spec_fn(int, int) -> bool, k: int) -> spec_fn(int, int) -> int {
        |x: int, y: int|
            if p(x, y) {
                if k < 3 {
                    self.light(x, y, k)
                } else {
                    1
                }
            } else {
                0
            }
    }

    /// The sum over the picked pixels of a rectangle.
    pub open spec fn total(&self, p: spec_fn(int, int) -> bool, k: int, r: Rect) -> int {
        over(self.picked(p, k), r)
    }

    /// `m` is the mean colour of the picked pixels, and absent if there are none.
    pub open spec fn is_mean(&self, p: spec_fn(int, int) -> bool, r: Rect, m: Option<[u64; 3]>) -> bool {
        let n = self.total(p, 3, r);
        match m {
            None => n == 0,
            Some(c) => n > 0 && forall|k: int|
                #![trigger c[k]]
                #![trigger self.total(p, k, r)]
                0 <= k < 3 ==> c[k] == mean_of(self.total(p, k, r), n),
        }
    }

    /// Where colours are looked for around a pixel of the band.
    pub open spec fn reach(&self, x: int, y: int) -> Rect {
        grown(
            (x as u32, y as u32, x as u32, y as u32),
            window_of(self.band@[at(self.w(), x, y)]),
            self.w(),
            self.h(),
        )
    }

    /// `b` is the colour behind the pixel: the mean of what is surely background
    /// nearby, or the background as a whole.
    pub open spec fn is_behind(&self, x: int, y: int, b: [u64; 3]) -> bool {
        let (p, r) = (self.confirmed(false), self.reach(x, y));
        if self.total(p, 3, r) > 0 {
            self.is_mean(p, r, Some(b))
        } else {
            forall|k: int| 0 <= k < 3 ==> #[trigger] b[k] == self.base(k)
        }
    }

    /// `(u, v)` is the first pixel of a rectangle, row by row, that is as far from
    /// the background as any.
    pub open spec fn first_farthest(&self, r: Rect, u: int, v: int) -> bool {
        &&& in_rect(r, u, v)
        &&& self.distance(u, v) > 0
        &&& forall|a: int, b: int|
            in_rect(r, a, b) ==> #[trigger] self.distance(a, b) <= self.distance(u, v) && (before((a, b), u, v)
                ==> self.distance(a, b) < self.distance(u, v))
    }

    pub open spec fn is_farthest(&self, r: Rect, f: Option<[u64; 3]>) -> bool {
        match f {
            None => forall|a: int, b: int| in_rect(r, a, b) ==> #[trigger] self.distance(a, b) == 0,
            Some(c) => exists|u: int, v: int| #[trigger] self.first_farthest(r, u, v) && self.shows(c, u, v),
        }
    }

    /// `f` is the colour of the product near the pixel: the mean of what is surely
    /// foreground; without that the mean of the hearts; without those the pixel
    /// farthest from the background. It is absent if every foreground pixel nearby
    /// has the colour of the background.
    pub open spec fn is_front(&self, x: int, y: int, f: Option<[u64; 3]>) -> bool {
        let (p, q, r) = (self.confirmed(true), self.hearts(self.all()), self.reach(x, y));
        if self.total(p, 3, r) > 0 {
            self.is_mean(p, r, f)
        } else if self.total(q, 3, r) > 0 {
            self.is_mean(q, r, f)
        } else {
            self.is_farthest(r, f)
        }
    }

    /// Colour decides nothing here: there is no colour of the product, or it is
    /// too close to that behind.
    pub open spec fn undecided(&self, x: int, y: int) -> bool {
        ||| self.is_front(x, y, None)
        ||| exists|f: [u64; 3], b: [u64; 3]| #[trigger]
            self.is_front(x, y, Some(f)) && #[trigger] self.is_behind(x, y, b) && apart(f, b) < self.separation
    }

    /// The answer is right for its pixel.
    pub open spec fn answers(&self, a: Answer) -> bool {
        let (x, y) = (a.x as int, a.y as int);
        &&& on_plane(self.w(), self.h(), x, y)
        &&& all_light(a)
        &&& self.band@[at(self.w(), x, y)] != 0
        &&& self.shows(a.observed, x, y)
        &&& self.is_behind(x, y, a.behind)
        &&& self.is_front(x, y, Some(a.front))
        &&& apart(a.front, a.behind) >= self.separation
        &&& a.alpha == share(along(a.observed, a.behind, a.front), apart(a.front, a.behind))
        &&& a.share == fine_share(along(a.observed, a.behind, a.front), apart(a.front, a.behind))
    }
}

/// A pixel whose alpha colour decides, with the colours that decide it.
#[derive(Debug, Clone, Copy, PartialEq, Eq)]
pub struct Answer {
    pub x: u32,
    pub y: u32,
    pub alpha: u8,
    /// The share of the product before it is rounded to alpha, in parts of a whole.
    pub share: u64,
    pub observed: [u64; 3],
    pub behind: [u64; 3],
    pub front: [u64; 3],
}

/// The colours of an answer are light, and its share is one.
pub open spec fn all_light(a: Answer) -> bool {
    a.share <= WHOLE && forall|k: int|
        0 <= k < 3 ==> #[trigger] a.observed[k] <= LINEAR_UNIT && a.behind[k] <= LINEAR_UNIT && a.front[k]
            <= LINEAR_UNIT
}

/// The summed area around the band of one tile.
pub struct Region {
    pub area: Rect,
    /// Colours in linear light.
    linear: Vec<[u64; 3]>,
    front: Integral<4>,
    behind: Integral<4>,
}

/// The width of an area.
pub open spec fn wide(area: Rect) -> int {
    area.2 - area.0 + 1
}

pub open spec fn high(area: Rect) -> int {
    area.3 - area.1 + 1
}

/// The integral image holds the picked pixels of an area.
spec fn holds(s: &Scene<'_>, area: Rect, p: spec_fn(int, int) -> bool, sums: &Integral<4>) -> bool {
    &&& sums.wf()
    &&& sums.w() == wide(area)
    &&& sums.h() == high(area)
    &&& forall|x: int, y: int, k: int|
        on_plane(wide(area), high(area), x, y) && 0 <= k < 4 ==> #[trigger] plane_of(sums.values(), wide(area), k)(
            x,
            y,
        ) == s.picked(p, k)(area.0 + x, area.1 + y)
}

/// The area is on the image and not too large.
pub open spec fn area_ok(s: &Scene<'_>, area: Rect) -> bool {
    rect_on(area, s.w(), s.h()) && wide(area) <= AREA_CEILING && high(area) <= AREA_CEILING
}

impl Region {
    pub closed spec fn of(&self, s: &Scene<'_>) -> bool {
        &&& area_ok(s, self.area)
        &&& self.linear@.len() == wide(self.area) * high(self.area)
        &&& forall|x: int, y: int|
            on_plane(wide(self.area), high(self.area), x, y) ==> s.shows(
                #[trigger] self.linear@[at(wide(self.area), x, y)],
                self.area.0 + x,
                self.area.1 + y,
            )
        &&& holds(s, self.area, s.confirmed(true), &self.front)
        &&& holds(s, self.area, s.confirmed(false), &self.behind)
    }
}

/// An area is small enough to be summed.
proof fn lemma_area(area: Rect)
    requires
        area.0 <= area.2,
        area.1 <= area.3,
        wide(area) <= AREA_CEILING,
        high(area) <= AREA_CEILING,
    ensures
        1 <= wide(area) * high(area) <= 4_752_400,
        (wide(area) + 1) * (high(area) + 1) <= 4_756_761,
        LINEAR_UNIT * (wide(area) * high(area)) <= u64::MAX,
{
    let (w, h) = (wide(area), high(area));
    assert(1 <= w * h <= 4_752_400 && (w + 1) * (h + 1) <= 4_756_761) by (nonlinear_arith)
        requires
            1 <= w <= 2180,
            1 <= h <= 2180,
    ;
    assert(68_719_476_736 * (w * h) <= 0xffff_ffff_ffff_ffff) by (nonlinear_arith)
        requires
            1 <= w * h <= 4_752_400,
    ;
}

/// Builds the integral image of the picked pixels of an area.
fn gather(s: &Scene<'_>, area: Rect, linear: &Vec<[u64; 3]>, take: &Vec<bool>, Ghost(p): Ghost<spec_fn(int, int) -> bool>) -> (r:
    Integral<4>)
    requires
        s.wf(),
        area_ok(s, area),
        linear@.len() == wide(area) * high(area),
        take@.len() == wide(area) * high(area),
        forall|x: int, y: int|
            on_plane(wide(area), high(area), x, y) ==> s.shows(
                #[trigger] linear@[at(wide(area), x, y)],
                area.0 + x,
                area.1 + y,
            ),
        forall|x: int, y: int|
            on_plane(wide(area), high(area), x, y) ==> #[trigger] take@[at(wide(area), x, y)] == p(
                area.0 + x,
                area.1 + y,
            ),
    ensures
        holds(s, area, p, &r),
{
    let ghost (wi, hi) = (wide(area), high(area));
    let pw: usize = (area.2 - area.0) as usize + 1;
    let ph: usize = (area.3 - area.1) as usize + 1;
    let n: usize = linear.len();
    let mut values: Vec<[u64; 4]> = Vec::with_capacity(n);
    let mut i: usize = 0;
    proof {
        assert forall|j: int| 0 <= j < n implies #[trigger] lit(linear@, j) by {
            lemma_small_place(wi, hi, j);
            let (x, y) = (j % wi, j / wi);
            assert(linear@[at(wi, x, y)] == linear@[j]);
            assert(s.shows(linear@[j], area.0 + x, area.1 + y));
        }
    }
    while i < n
        invariant
            s.wf(),
            area_ok(s, area),
            wi == wide(area),
            hi == high(area),
            n == linear@.len() == take@.len() == wi * hi,
            i <= n,
            values@.len() == i,
            forall|j: int| 0 <= j < n ==> #[trigger] lit(linear@, j),
            forall|j: int, k: int|
                0 <= j < i && 0 <= k < 4 ==> #[trigger] values@[j][k] == if take@[j] {
                    if k < 3 {
                        linear@[j][k]
                    } else {
                        1
                    }
                } else {
                    0
                },
            forall|j: int, k: int| 0 <= j < i && 0 <= k < 4 ==> #[trigger] values@[j][k] <= LINEAR_UNIT,
        decreases n - i,
    {
        let c: [u64; 3] = linear[i];
        assert(lit(linear@, i as int));
        values.push(if take[i] { [c[0], c[1], c[2], 1] } else { [0, 0, 0, 0] });
        i += 1;
    }
    proof {
        lemma_area(area);
        assert(all_up_to(values@, LINEAR_UNIT as int));
        assert(sums_fit(values@));
    }
    let r: Integral<4> = Integral::build(pw, ph, values.as_slice());
    proof {
        assert forall|x: int, y: int, k: int| on_plane(wi, hi, x, y) && 0 <= k < 4 implies #[trigger] plane_of(
            r.values(),
            wi,
            k,
        )(x, y) == s.picked(p, k)(area.0 + x, area.1 + y) by {
            lemma_at_bound(wi, hi, x, y);
            let j = at(wi, x, y);
            assert(values@[j][k] == if take@[j] {
                if k < 3 {
                    linear@[j][k]
                } else {
                    1
                }
            } else {
                0
            });
            assert(s.shows(linear@[j], area.0 + x, area.1 + y));
        }
    }
    r
}

/// A listed colour is within full light.
spec fn lit(linear: Seq<[u64; 3]>, j: int) -> bool {
    forall|k: int| 0 <= k < 3 ==> #[trigger] linear[j][k] <= LINEAR_UNIT
}

/// One rectangle lies within another.
pub open spec fn within(r: Rect, area: Rect) -> bool {
    area.0 <= r.0 <= r.2 <= area.2 && area.1 <= r.1 <= r.3 <= area.3
}

/// The mean of the picked pixels of a rectangle.
fn mean_over(
    s: &Scene<'_>,
    area: Rect,
    sums: &Integral<4>,
    r: Rect,
    Ghost(p): Ghost<spec_fn(int, int) -> bool>,
) -> (m: Option<[u64; 3]>)
    requires
        s.wf(),
        area_ok(s, area),
        holds(s, area, p, sums),
        within(r, area),
    ensures
        s.is_mean(p, r, m),
        m matches Some(c) ==> forall|k: int| 0 <= k < 3 ==> #[trigger] c[k] <= LINEAR_UNIT,
{
    let t: [u64; 4] = sums.sum(
        (r.0 - area.0) as usize,
        (r.1 - area.1) as usize,
        (r.2 - area.0) as usize,
        (r.3 - area.1) as usize,
    );
    proof {
        assert forall|k: int| 0 <= k < 4 implies #[trigger] t[k] == s.total(p, k, r) by {
            lemma_rect_shift(
                plane_of(sums.values(), wide(area), k),
                s.picked(p, k),
                r.0 - area.0,
                r.2 - area.0 + 1,
                r.1 - area.1,
                r.3 - area.1 + 1,
                area.0 as int,
                area.1 as int,
            );
        }
        assert forall|k: int| 0 <= k < 3 implies #[trigger] t[k] <= LINEAR_UNIT * t[3] by {
            let (f, g) = (s.picked(p, k), s.picked(p, 3));
            assert forall|x: int, y: int| r.0 <= x < r.2 + 1 && r.1 <= y < r.3 + 1 implies #[trigger] f(x, y)
                <= LINEAR_UNIT * g(x, y) by {}
            lemma_rect_times(f, g, r.0 as int, r.2 + 1, r.1 as int, r.3 + 1, LINEAR_UNIT as int);
            assert(t[3] == s.total(p, 3, r));
        }
        assert(t[3] == s.total(p, 3, r));
        assert(t[0] == s.total(p, 0, r));
        assert(t[1] == s.total(p, 1, r));
        assert(t[2] == s.total(p, 2, r));
    }
    if t[3] == 0 {
        None
    } else {
        let c: [u64; 3] = [mean(t[0], t[3]), mean(t[1], t[3]), mean(t[2], t[3])];
        Some(c)
    }
}

/// The mean of `n` values within full light.
fn mean(total: u64, n: u64) -> (r: u64)
    requires
        0 < n,
        total <= LINEAR_UNIT * n,
    ensures
        r == mean_of(total as int, n as int),
        r <= LINEAR_UNIT,
{
    let top: u128 = 2 * (total as u128) + (n as u128);
    let by: u128 = 2 * (n as u128);
    proof {
        assert(top / by <= 68_719_476_736) by (nonlinear_arith)
            requires
                top == 2 * total + n,
                by == 2 * n,
                0 < n,
                total <= 68_719_476_736 * n,
        ;
    }
    (top / by) as u64
}

/// The colour of a pixel in linear light.
fn light_at(s: &Scene<'_>, x: u32, y: u32) -> (c: [u64; 3])
    requires
        s.wf(),
        on_plane(s.w(), s.h(), x as int, y as int),
    ensures
        s.shows(c, x as int, y as int),
        forall|k: int| 0 <= k < 3 ==> #[trigger] c[k] <= LINEAR_UNIT,
{
    let p: [u8; 4] = s.image.get_pixel(x, y);
    [s.linear[p[0] as usize], s.linear[p[1] as usize], s.linear[p[2] as usize]]
}

/// The background as a whole in linear light.
fn base_of(s: &Scene<'_>) -> (c: [u64; 3])
    requires
        s.wf(),
    ensures
        forall|k: int| 0 <= k < 3 ==> #[trigger] c[k] == s.base(k),
        forall|k: int| 0 <= k < 3 ==> #[trigger] c[k] <= LINEAR_UNIT,
{
    [
        s.linear[s.background[0] as usize],
        s.linear[s.background[1] as usize],
        s.linear[s.background[2] as usize],
    ]
}

/// Copies an area into a region and sums up what is surely on either side.
fn prepare_tile(s: &Scene<'_>, area: Rect) -> (r: Region)
    requires
        s.wf(),
        area_ok(s, area),
    ensures
        r.of(s),
        r.area == area,
{
    let ghost (wi, hi) = (wide(area), high(area));
    let pw: usize = (area.2 - area.0) as usize + 1;
    let ph: usize = (area.3 - area.1) as usize + 1;
    let w: usize = s.image.width() as usize;
    proof {
        lemma_area(area);
    }
    let n: usize = pw * ph;
    let mut linear: Vec<[u64; 3]> = Vec::with_capacity(n);
    let mut front: Vec<bool> = Vec::with_capacity(n);
    let mut behind: Vec<bool> = Vec::with_capacity(n);
    let mut i: usize = 0;
    while i < n
        invariant
            s.wf(),
            area_ok(s, area),
            wi == wide(area) == pw,
            hi == high(area) == ph,
            w == s.w(),
            n == wi * hi,
            i <= n,
            linear@.len() == i,
            front@.len() == i,
            behind@.len() == i,
            forall|j: int| 0 <= j < i ==> s.shows(#[trigger] linear@[j], area.0 + j % wi, area.1 + j / wi),
            forall|j: int|
                0 <= j < i ==> #[trigger] front@[j] == s.confirmed(true)(area.0 + j % wi, area.1 + j / wi),
            forall|j: int|
                0 <= j < i ==> #[trigger] behind@[j] == s.confirmed(false)(area.0 + j % wi, area.1 + j / wi),
        decreases n - i,
    {
        proof {
            lemma_small_place(wi, hi, i as int);
        }
        let x: u32 = area.0 + (i % pw) as u32;
        let y: u32 = area.1 + (i / pw) as u32;
        let unsure: bool = is_unsure(s, x, y);
        let fg: bool = s.binary.is_foreground(x, y);
        linear.push(light_at(s, x, y));
        front.push(!unsure && fg);
        behind.push(!unsure && !fg);
        i += 1;
    }
    proof {
        assert forall|x: int, y: int| on_plane(wi, hi, x, y) implies s.shows(
            #[trigger] linear@[at(wi, x, y)],
            area.0 + x,
            area.1 + y,
        ) by {
            lemma_at_bound(wi, hi, x, y);
            lemma_at_split(wi, x, y);
            assert(s.shows(linear@[at(wi, x, y)], area.0 + x, area.1 + y));
        }
        assert forall|x: int, y: int| on_plane(wi, hi, x, y) implies #[trigger] front@[at(wi, x, y)]
            == s.confirmed(true)(area.0 + x, area.1 + y) by {
            lemma_at_bound(wi, hi, x, y);
            lemma_at_split(wi, x, y);
            assert(front@[at(wi, x, y)] == s.confirmed(true)(area.0 + x, area.1 + y));
        }
        assert forall|x: int, y: int| on_plane(wi, hi, x, y) implies #[trigger] behind@[at(wi, x, y)]
            == s.confirmed(false)(area.0 + x, area.1 + y) by {
            lemma_at_bound(wi, hi, x, y);
            lemma_at_split(wi, x, y);
            assert(behind@[at(wi, x, y)] == s.confirmed(false)(area.0 + x, area.1 + y));
        }
    }
    let f: Integral<4> = gather(s, area, &linear, &front, Ghost(s.confirmed(true)));
    let b: Integral<4> = gather(s, area, &linear, &behind, Ghost(s.confirmed(false)));
    Region { area, linear, front: f, behind: b }
}

fn is_unsure(s: &Scene<'_>, x: u32, y: u32) -> (r: bool)
    requires
        s.wf(),
        on_plane(s.w(), s.h(), x as int, y as int),
    ensures
        r == s.unsure(x as int, y as int),
{
    let i: usize = place(s.image.width() as usize, x as usize, y as usize, Ghost(s.h()));
    s.band[i] != 0 || s.sealed.contains(i)
}

/// The product of two differences of colours.
fn times(a: i64, b: i64) -> (r: i128)
    requires
        -LINEAR_UNIT <= a <= LINEAR_UNIT,
        -LINEAR_UNIT <= b <= LINEAR_UNIT,
    ensures
        r == a * b,
        -0x100_0000_0000_0000_0000 <= r <= 0x100_0000_0000_0000_0000,
        a == b ==> 0 <= r,
{
    proof {
        assert(-0x100_0000_0000_0000_0000 <= a * b <= 0x100_0000_0000_0000_0000) by (nonlinear_arith)
            requires
                -0x10_0000_0000 <= a <= 0x10_0000_0000,
                -0x10_0000_0000 <= b <= 0x10_0000_0000,
        ;
        if a == b {
            assert(0 <= a * b) by (nonlinear_arith)
                requires
                    a == b,
            ;
        }
    }
    (a as i128) * (b as i128)
}

/// The squared distance between two colours.
fn apart_of(f: &[u64; 3], b: &[u64; 3]) -> (r: u128)
    requires
        forall|k: int| 0 <= k < 3 ==> #[trigger] f[k] <= LINEAR_UNIT,
        forall|k: int| 0 <= k < 3 ==> #[trigger] b[k] <= LINEAR_UNIT,
    ensures
        r == apart(*f, *b),
        r <= 0x300_0000_0000_0000_0000,
{
    assert(f[0] <= LINEAR_UNIT && f[1] <= LINEAR_UNIT && f[2] <= LINEAR_UNIT);
    assert(b[0] <= LINEAR_UNIT && b[1] <= LINEAR_UNIT && b[2] <= LINEAR_UNIT);
    let d0: i64 = f[0] as i64 - b[0] as i64;
    let d1: i64 = f[1] as i64 - b[1] as i64;
    let d2: i64 = f[2] as i64 - b[2] as i64;
    let r: i128 = times(d0, d0) + times(d1, d1) + times(d2, d2);
    r as u128
}

/// The scalar product of `c - b` and `f - b`.
fn along_of(c: &[u64; 3], b: &[u64; 3], f: &[u64; 3]) -> (r: i128)
    requires
        forall|k: int| 0 <= k < 3 ==> #[trigger] c[k] <= LINEAR_UNIT,
        forall|k: int| 0 <= k < 3 ==> #[trigger] f[k] <= LINEAR_UNIT,
        forall|k: int| 0 <= k < 3 ==> #[trigger] b[k] <= LINEAR_UNIT,
    ensures
        r == along(*c, *b, *f),
        r <= 0x300_0000_0000_0000_0000,
{
    assert(c[0] <= LINEAR_UNIT && c[1] <= LINEAR_UNIT && c[2] <= LINEAR_UNIT);
    assert(f[0] <= LINEAR_UNIT && f[1] <= LINEAR_UNIT && f[2] <= LINEAR_UNIT);
    assert(b[0] <= LINEAR_UNIT && b[1] <= LINEAR_UNIT && b[2] <= LINEAR_UNIT);
    times(c[0] as i64 - b[0] as i64, f[0] as i64 - b[0] as i64) + times(
        c[1] as i64 - b[1] as i64,
        f[1] as i64 - b[1] as i64,
    ) + times(c[2] as i64 - b[2] as i64, f[2] as i64 - b[2] as i64)
}

/// The share of the product in a pixel, as alpha.
pub fn alpha_of(part: i128, whole: u128) -> (r: u8)
    requires
        whole <= 0x300_0000_0000_0000_0000,
    ensures
        r == share(part as int, whole as int),
{
    if part <= 0 {
        0
    } else {
        let p: u128 = part as u128;
        if p >= whole {
            255
        } else {
            let n: u128 = 510 * p + whole;
            let d: u128 = 2 * whole;
            proof {
                assert(n / d <= 255) by (nonlinear_arith)
                    requires
                        n == 510 * p + whole,
                        d == 2 * whole,
                        0 < p < whole,
                ;
            }
            (n / d) as u8
        }
    }
}

/// The share of the product in a pixel, in parts of a whole.
fn fine_share_of(part: i128, whole: u128) -> (r: u64)
    requires
        whole <= 0x300_0000_0000_0000_0000,
    ensures
        r == fine_share(part as int, whole as int),
        r <= WHOLE,
{
    if part <= 0 {
        0
    } else {
        let p: u128 = part as u128;
        if p >= whole {
            WHOLE
        } else {
            let n: u128 = p * (WHOLE as u128);
            proof {
                assert(n / whole <= 1_073_741_824) by (nonlinear_arith)
                    requires
                        n == p * 1_073_741_824,
                        0 < p < whole,
                ;
            }
            (n / whole) as u64
        }
    }
}

/// What stands in for the foreground in a region.
struct Core {
    distance: Vec<u128>,
    hearts: Integral<4>,
}

impl Core {
    spec fn of(&self, s: &Scene<'_>, area: Rect) -> bool {
        &&& self.distance@.len() == wide(area) * high(area)
        &&& forall|x: int, y: int|
            on_plane(wide(area), high(area), x, y) ==> #[trigger] self.distance@[at(wide(area), x, y)] == s.distance(
                area.0 + x,
                area.1 + y,
            )
        &&& holds(s, area, s.hearts(area), &self.hearts)
    }
}

/// How far each pixel of a region is from the background.
fn distances(s: &Scene<'_>, region: &Region) -> (r: Vec<u128>)
    requires
        s.wf(),
        region.of(s),
    ensures
        r@.len() == wide(region.area) * high(region.area),
        forall|x: int, y: int|
            on_plane(wide(region.area), high(region.area), x, y) ==> #[trigger] r@[at(wide(region.area), x, y)]
                == s.distance(region.area.0 + x, region.area.1 + y),
        forall|j: int| 0 <= j < r@.len() ==> #[trigger] r@[j] <= 0x300_0000_0000_0000_0000,
{
    let area: Rect = region.area;
    let ghost (wi, hi) = (wide(area), high(area));
    let pw: usize = (area.2 - area.0) as usize + 1;
    let base: [u64; 3] = base_of(s);
    let n: usize = region.linear.len();
    let mut r: Vec<u128> = Vec::with_capacity(n);
    let mut i: usize = 0;
    while i < n
        invariant
            s.wf(),
            region.of(s),
            area == region.area,
            wi == wide(area) == pw,
            hi == high(area),
            n == region.linear@.len() == wi * hi,
            forall|k: int| 0 <= k < 3 ==> #[trigger] base[k] == s.base(k),
            forall|k: int| 0 <= k < 3 ==> #[trigger] base[k] <= LINEAR_UNIT,
            i <= n,
            r@.len() == i,
            forall|j: int| 0 <= j < i ==> #[trigger] r@[j] == s.distance(area.0 + j % wi, area.1 + j / wi),
            forall|j: int| 0 <= j < i ==> #[trigger] r@[j] <= 0x300_0000_0000_0000_0000,
        decreases n - i,
    {
        proof {
            lemma_small_place(wi, hi, i as int);
        }
        let x: u32 = area.0 + (i % pw) as u32;
        let y: u32 = area.1 + (i / pw) as u32;
        if s.binary.is_foreground(x, y) {
            let c: [u64; 3] = region.linear[i];
            proof {
                let l = region.linear@[at(wi, i as int % wi, i as int / wi)];
                assert(s.shows(l, x as int, y as int));
                assert(c[0] == s.light(x as int, y as int, 0));
                assert(c[1] == s.light(x as int, y as int, 1));
                assert(c[2] == s.light(x as int, y as int, 2));
                assert(base[0] == s.base(0) && base[1] == s.base(1) && base[2] == s.base(2));
            }
            r.push(apart_of(&c, &base));
        } else {
            r.push(0);
        }
        i += 1;
    }
    proof {
        assert forall|x: int, y: int| on_plane(wi, hi, x, y) implies #[trigger] r@[at(wi, x, y)] == s.distance(
            area.0 + x,
            area.1 + y,
        ) by {
            lemma_at_bound(wi, hi, x, y);
            lemma_at_split(wi, x, y);
            assert(r@[at(wi, x, y)] == s.distance(area.0 + x, area.1 + y));
        }
    }
    r
}

/// Finds the hearts of a region and sums them up.
fn build_core(s: &Scene<'_>, region: &Region) -> (c: Core)
    requires
        s.wf(),
        region.of(s),
    ensures
        c.of(s, region.area),
{
    let area: Rect = region.area;
    let ghost (wi, hi) = (wide(area), high(area));
    let ghost cw = s.core_window as int;
    let pw: usize = (area.2 - area.0) as usize + 1;
    let ph: usize = (area.3 - area.1) as usize + 1;
    let distance: Vec<u128> = distances(s, region);
    let most: Vec<u128> = local_max(distance.as_slice(), pw, ph, s.core_window as usize);
    let n: usize = distance.len();
    let mut take: Vec<bool> = Vec::with_capacity(n);
    let mut i: usize = 0;
    while i < n
        invariant
            s.wf(),
            area_ok(s, area),
            wi == wide(area),
            hi == high(area),
            cw == s.core_window,
            n == distance@.len() == most@.len() == wi * hi,
            i <= n,
            take@.len() == i,
            forall|j: int| 0 <= j < n ==> #[trigger] distance@[j] <= 0x300_0000_0000_0000_0000,
            forall|x: int, y: int|
                on_plane(wi, hi, x, y) ==> #[trigger] distance@[at(wi, x, y)] == s.distance(area.0 + x, area.1 + y),
            forall|x: int, y: int|
                on_plane(wi, hi, x, y) ==> is_local_max(
                    distance@,
                    wi,
                    hi,
                    cw,
                    cw,
                    x,
                    y,
                    #[trigger] most@[at(wi, x, y)],
                ),
            forall|j: int|
                0 <= j < i ==> #[trigger] take@[j] == s.heart_in(area, area.0 + j % wi, area.1 + j / wi),
        decreases n - i,
    {
        let ghost (x, y) = (i as int % wi, i as int / wi);
        proof {
            lemma_small_place(wi, hi, i as int);
            assert(is_local_max(distance@, wi, hi, cw, cw, x, y, most@[at(wi, x, y)]));
            let (a, b) = choose|a: int, b: int|
                on_plane(wi, hi, a, b) && in_window(cw, cw, x, y, a, b) && #[trigger] distance@[at(wi, a, b)]
                    == most@[i as int];
            lemma_at_bound(wi, hi, a, b);
            assert(distance@[at(wi, a, b)] == s.distance(area.0 + a, area.1 + b));
            assert(distance@[at(wi, x, y)] == s.distance(area.0 + x, area.1 + y));
            assert(in_window(cw, cw, area.0 + x, area.1 + y, area.0 + a, area.1 + b));
            assert forall|u: int, v: int|
                in_rect(area, u, v) && in_window(cw, cw, area.0 + x, area.1 + y, u, v) implies #[trigger] s.distance(
                u,
                v,
            ) <= most@[i as int] by {
                let (c, d) = (u - area.0, v - area.1);
                assert(on_plane(wi, hi, c, d) && in_window(cw, cw, x, y, c, d));
                assert(distance@[at(wi, c, d)] <= most@[i as int]);
                assert(distance@[at(wi, c, d)] == s.distance(area.0 + c, area.1 + d));
            }
        }
        let d: u128 = distance[i];
        take.push(d > 0 && 25 * d >= 16 * most[i]);
        i += 1;
    }
    proof {
        assert forall|x: int, y: int| on_plane(wi, hi, x, y) implies #[trigger] take@[at(wi, x, y)] == s.hearts(area)(
            area.0 + x,
            area.1 + y,
        ) by {
            lemma_at_bound(wi, hi, x, y);
            lemma_at_split(wi, x, y);
            assert(take@[at(wi, x, y)] == s.heart_in(area, area.0 + x, area.1 + y));
        }
    }
    let hearts: Integral<4> = gather(s, area, &region.linear, &take, Ghost(s.hearts(area)));
    Core { distance, hearts }
}

/// All that is looked at for a pixel of the band lies in the area.
pub open spec fn covers(s: &Scene<'_>, area: Rect, x: int, y: int) -> bool {
    let m = window_of(s.band@[at(s.w(), x, y)]) + s.core_window;
    forall|a: int, b: int| on_plane(s.w(), s.h(), a, b) && in_window(m, m, x, y, a, b) ==> #[trigger] in_rect(area, a, b)
}

/// The area to sum up for a tile, or nothing if no band runs through it: the
/// bounding box of the band in the tile, grown by the widest window and by the
/// radius in which hearts are looked for.
fn plan_tile(s: &Scene<'_>, tile: Rect) -> (r: Option<Rect>)
    requires
        s.wf(),
        rect_on(tile, s.w(), s.h()),
        tile.2 - tile.0 < 128,
        tile.3 - tile.1 < 128,
    ensures
        r is None <==> band_in(s.band@, s.w(), s.h(), tile) == Set::<(int, int)>::empty(),
        r matches Some(area) ==> area_ok(s, area) && forall|x: int, y: int|
            in_rect(tile, x, y) && s.band@[at(s.w(), x, y)] != 0 ==> #[trigger] covers(s, area, x, y),
{
    let w: u32 = s.image.width();
    let h: u32 = s.image.height();
    let (found, widest): (Option<Rect>, u8) = band_box(s.band, w, h, tile);
    match found {
        None => None,
        Some(b) => {
            let pad: u32 = window_for(widest) + s.core_window;
            let area: Rect = grow(b, pad, w, h);
            proof {
                let set = band_in(s.band@, s.w(), s.h(), tile);
                let p = choose|p: (int, int)| #[trigger] set.contains(p) && p.0 == b.0;
                assert(set.contains(p));
                assert forall|x: int, y: int|
                    in_rect(tile, x, y) && s.band@[at(s.w(), x, y)] != 0 implies #[trigger] covers(s, area, x, y) by {
                    assert(set.contains((x, y)));
                    assert(in_rect(b, x, y));
                }
            }
            Some(area)
        },
    }
}

/// Hearts are the same in an area that holds all that is looked at for them.
proof fn lemma_hearts(s: &Scene<'_>, area: Rect, x: int, y: int, k: int)
    requires
        s.wf(),
        area_ok(s, area),
        on_plane(s.w(), s.h(), x, y),
        covers(s, area, x, y),
    ensures
        s.total(s.hearts(area), k, s.reach(x, y)) == s.total(s.hearts(s.all()), k, s.reach(x, y)),
{
    let r = s.reach(x, y);
    let (f, g) = (s.picked(s.hearts(area), k), s.picked(s.hearts(s.all()), k));
    let c = s.core_window as int;
    assert forall|u: int, v: int| r.0 <= u < r.2 + 1 && r.1 <= v < r.3 + 1 implies #[trigger] f(u, v) == g(
        u + 0,
        v + 0,
    ) by {
        assert(s.heart_in(area, u, v) == s.heart_in(s.all(), u, v)) by {
            assert forall|a: int, b: int| in_window(c, c, u, v, a, b) implies (in_rect(area, a, b) <==> in_rect(
                s.all(),
                a,
                b,
            )) by {
                if in_rect(s.all(), a, b) {
                    assert(on_plane(s.w(), s.h(), a, b));
                    assert(in_rect(area, a, b));
                }
            }
            if s.heart_in(area, u, v) {
                assert forall|a: int, b: int| in_rect(s.all(), a, b) && in_window(c, c, u, v, a, b) implies 25
                    * s.distance(u, v) >= 16 * #[trigger] s.distance(a, b) by {
                    assert(in_rect(area, a, b));
                }
            }
            if s.heart_in(s.all(), u, v) {
                assert forall|a: int, b: int| in_rect(area, a, b) && in_window(c, c, u, v, a, b) implies 25
                    * s.distance(u, v) >= 16 * #[trigger] s.distance(a, b) by {
                    assert(in_rect(s.all(), a, b));
                }
            }
        }
    }
    lemma_rect_shift(f, g, r.0 as int, r.2 + 1, r.1 as int, r.3 + 1, 0, 0);
}

/// What is looked at around a pixel lies in the area.
proof fn lemma_reach(s: &Scene<'_>, area: Rect, x: int, y: int)
    requires
        s.wf(),
        area_ok(s, area),
        on_plane(s.w(), s.h(), x, y),
        covers(s, area, x, y),
    ensures
        within(s.reach(x, y), area),
{
    let r = s.reach(x, y);
    assert(in_rect(area, r.0 as int, r.1 as int)) by {
        assert(on_plane(s.w(), s.h(), r.0 as int, r.1 as int));
    }
    assert(in_rect(area, r.2 as int, r.3 as int)) by {
        assert(on_plane(s.w(), s.h(), r.2 as int, r.3 as int));
    }
}

/// The first pixel of a rectangle that is as far from the background as any.
fn farthest_from_background(s: &Scene<'_>, region: &Region, core: &Core, r: Rect) -> (f: Option<[u64; 3]>)
    requires
        s.wf(),
        region.of(s),
        core.of(s, region.area),
        within(r, region.area),
    ensures
        s.is_farthest(r, f),
        f matches Some(c) ==> forall|k: int| 0 <= k < 3 ==> #[trigger] c[k] <= LINEAR_UNIT,
{
    let area: Rect = region.area;
    let ghost (wi, hi) = (wide(area), high(area));
    let pw: usize = (area.2 - area.0) as usize + 1;
    let ph: usize = (area.3 - area.1) as usize + 1;
    let (x0, y0): (usize, usize) = ((r.0 - area.0) as usize, (r.1 - area.1) as usize);
    let (x1, y1): (usize, usize) = ((r.2 - area.0) as usize, (r.3 - area.1) as usize);
    let found: Option<usize> = farthest(core.distance.as_slice(), pw, ph, x0, y0, x1, y1);
    let ghost d = core.distance@;
    match found {
        None => {
            proof {
                assert forall|a: int, b: int| in_rect(r, a, b) implies #[trigger] s.distance(a, b) == 0 by {
                    assert(d[at(wi, a - area.0, b - area.1)] == s.distance(a, b));
                }
            }
            None
        },
        Some(i) => {
            let c: [u64; 3] = region.linear[i];
            proof {
                let (x, y) = choose|x: int, y: int|
                    x0 <= x <= x1 && y0 <= y <= y1 && i == #[trigger] at(wi, x, y);
                let (u, v) = (area.0 + x, area.1 + y);
                assert(region.linear@[at(wi, x, y)] == c);
                assert(s.shows(c, u, v));
                assert(d[at(wi, x, y)] == s.distance(u, v));
                assert forall|a: int, b: int| in_rect(r, a, b) implies #[trigger] s.distance(a, b) <= s.distance(u, v)
                    && (before((a, b), u, v) ==> s.distance(a, b) < s.distance(u, v)) by {
                    let (p, q) = (a - area.0, b - area.1);
                    assert(d[at(wi, p, q)] == s.distance(a, b));
                    if before((a, b), u, v) {
                        assert(at(wi, p, q) < at(wi, x, y)) by (nonlinear_arith)
                            requires
                                at(wi, p, q) == q * wi + p,
                                at(wi, x, y) == y * wi + x,
                                q < y || (q == y && p < x),
                                0 <= p < wi,
                                0 <= x,
                        ;
                    }
                }
                assert(s.first_farthest(r, u, v));
                assert forall|k: int| 0 <= k < 3 implies #[trigger] c[k] <= LINEAR_UNIT by {
                    assert(c[k] == s.light(u, v, k));
                }
            }
            Some(c)
        },
    }
}

/// The colour of the product near a pixel of the band. The hearts are only looked
/// for where they are needed.
fn front_of(s: &Scene<'_>, region: &Region, core: &mut Option<Core>, x: u32, y: u32, r: Rect) -> (f: Option<[u64; 3]>)
    requires
        s.wf(),
        region.of(s),
        on_plane(s.w(), s.h(), x as int, y as int),
        covers(s, region.area, x as int, y as int),
        r == s.reach(x as int, y as int),
        *old(core) matches Some(c) ==> c.of(s, region.area),
    ensures
        *final(core) matches Some(c) ==> c.of(s, region.area),
        s.is_front(x as int, y as int, f),
        f matches Some(c) ==> forall|k: int| 0 <= k < 3 ==> #[trigger] c[k] <= LINEAR_UNIT,
{
    proof {
        lemma_reach(s, region.area, x as int, y as int);
    }
    let sure: Option<[u64; 3]> = mean_over(s, region.area, &region.front, r, Ghost(s.confirmed(true)));
    if sure.is_some() {
        return sure;
    }
    let found: Core = match core.take() {
        Some(c) => c,
        None => build_core(s, region),
    };
    let hearts: Option<[u64; 3]> = mean_over(s, region.area, &found.hearts, r, Ghost(s.hearts(region.area)));
    proof {
        lemma_hearts(s, region.area, x as int, y as int, 0);
        lemma_hearts(s, region.area, x as int, y as int, 1);
        lemma_hearts(s, region.area, x as int, y as int, 2);
        lemma_hearts(s, region.area, x as int, y as int, 3);
        lemma_count(s, s.confirmed(true), r);
        lemma_count(s, s.hearts(s.all()), r);
    }
    let f: Option<[u64; 3]> = match hearts {
        Some(c) => Some(c),
        None => farthest_from_background(s, region, &found, r),
    };
    *core = Some(found);
    f
}

/// A count is not negative.
proof fn lemma_count(s: &Scene<'_>, p: spec_fn(int, int) -> bool, r: Rect)
    requires
        r.0 <= r.2,
        r.1 <= r.3,
    ensures
        0 <= s.total(p, 3, r),
{
    lemma_rect_bound(s.picked(p, 3), r.0 as int, r.2 + 1, r.1 as int, r.3 + 1, 1);
}

/// The colour behind a pixel of the band.
fn behind_of(s: &Scene<'_>, region: &Region, x: u32, y: u32, r: Rect) -> (b: [u64; 3])
    requires
        s.wf(),
        region.of(s),
        on_plane(s.w(), s.h(), x as int, y as int),
        covers(s, region.area, x as int, y as int),
        r == s.reach(x as int, y as int),
    ensures
        s.is_behind(x as int, y as int, b),
        forall|k: int| 0 <= k < 3 ==> #[trigger] b[k] <= LINEAR_UNIT,
{
    proof {
        lemma_reach(s, region.area, x as int, y as int);
    }
    let sure: Option<[u64; 3]> = mean_over(s, region.area, &region.behind, r, Ghost(s.confirmed(false)));
    match sure {
        Some(b) => b,
        None => base_of(s),
    }
}

/// Solves one pixel of the band. Without an answer colour decides nothing.
fn solve_pixel(s: &Scene<'_>, region: &Region, core: &mut Option<Core>, x: u32, y: u32) -> (r: Option<Answer>)
    requires
        s.wf(),
        region.of(s),
        on_plane(s.w(), s.h(), x as int, y as int),
        s.band@[at(s.w(), x as int, y as int)] != 0,
        covers(s, region.area, x as int, y as int),
        *old(core) matches Some(c) ==> c.of(s, region.area),
    ensures
        *final(core) matches Some(c) ==> c.of(s, region.area),
        r is None ==> s.undecided(x as int, y as int),
        r matches Some(a) ==> a.x == x && a.y == y && s.answers(a),
{
    let w: u32 = s.image.width();
    let i: usize = place(w as usize, x as usize, y as usize, Ghost(s.h()));
    let reach: Rect = grow((x, y, x, y), window_for(s.band[i]), w, s.image.height());
    let observed: [u64; 3] = light_at(s, x, y);
    let behind: [u64; 3] = behind_of(s, region, x, y, reach);
    match front_of(s, region, core, x, y, reach) {
        None => None,
        Some(front) => {
            let whole: u128 = apart_of(&front, &behind);
            if whole < s.separation {
                assert(s.is_front(x as int, y as int, Some(front)) && s.is_behind(x as int, y as int, behind));
                None
            } else {
                let part: i128 = along_of(&observed, &behind, &front);
                let alpha: u8 = alpha_of(part, whole);
                let share: u64 = fine_share_of(part, whole);
                Some(Answer { x, y, alpha, share, observed, behind, front })
            }
        },
    }
}

/// What a pixel of the band comes to: the alpha of a listed answer, with a mark
/// where marks are kept, or the feathered value where colour decides nothing.
pub open spec fn settled(
    s: &Scene<'_>,
    list: Seq<Answer>,
    x: int,
    y: int,
    feathered: u8,
    after: u8,
    marked: bool,
    kept: bool,
) -> bool {
    ||| exists|j: int|
        0 <= j < list.len() && (#[trigger] list[j]).x == x && list[j].y == y && after == list[j].alpha && marked == kept
    ||| s.undecided(x, y) && after == feathered && !marked
}

/// The band in a tile is settled.
spec fn tile_settled(
    s: &Scene<'_>,
    tile: Rect,
    list: Seq<Answer>,
    fallback: Seq<u8>,
    mask: Seq<u8>,
    solved: &Solved,
) -> bool {
    let w = s.w();
    forall|x: int, y: int|
        in_rect(tile, x, y) && s.band@[at(w, x, y)] != 0 ==> settled(
            s,
            list,
            x,
            y,
            fallback[at(w, x, y)],
            #[trigger] mask[at(w, x, y)],
            solved.marked(at(w, x, y)),
            solved.kept(),
        )
}

/// A place keeps its value and its mark.
spec fn same_at(mask: Seq<u8>, was: Seq<u8>, solved: &Solved, had: &Solved, i: int) -> bool {
    mask[i] == was[i] && solved.marked(i) == had.marked(i)
}

/// More answers settle no less.
proof fn lemma_more(s: &Scene<'_>, list: Seq<Answer>, more: Seq<Answer>, x: int, y: int, f: u8, after: u8, marked: bool, kept: bool)
    requires
        list.is_prefix_of(more),
        settled(s, list, x, y, f, after, marked, kept),
    ensures
        settled(s, more, x, y, f, after, marked, kept),
{
    if exists|j: int|
        0 <= j < list.len() && (#[trigger] list[j]).x == x && list[j].y == y && after == list[j].alpha && marked
            == kept {
        let j = choose|j: int|
            0 <= j < list.len() && (#[trigger] list[j]).x == x && list[j].y == y && after == list[j].alpha && marked
                == kept;
        assert(more[j] == list[j]);
    }
}

/// Solves the band of one tile and writes it into the mask.
#[verifier::rlimit(60)]
fn estimate_alpha(
    s: &Scene<'_>,
    tile: Rect,
    area: Rect,
    fallback: &Mask,
    mask: &mut Mask,
    solved: &mut Solved,
    answers: &mut Vec<Answer>,
)
    requires
        s.wf(),
        rect_on(tile, s.w(), s.h()),
        area_ok(s, area),
        forall|x: int, y: int|
            in_rect(tile, x, y) && s.band@[at(s.w(), x, y)] != 0 ==> #[trigger] covers(s, area, x, y),
        fallback.wf(),
        fallback.w() == s.w(),
        fallback.h() == s.h(),
        old(mask).wf(),
        old(mask).w() == s.w(),
        old(mask).h() == s.h(),
        old(solved).covers((s.w() * s.h()) as nat),
        forall|j: int| 0 <= j < old(answers)@.len() ==> s.answers(#[trigger] old(answers)@[j]),
        forall|x: int, y: int| in_rect(tile, x, y) ==> !(#[trigger] old(solved).marked(at(s.w(), x, y))),
    ensures
        final(mask).wf(),
        final(mask).w() == s.w(),
        final(mask).h() == s.h(),
        final(solved).covers((s.w() * s.h()) as nat),
        final(solved).kept() == old(solved).kept(),
        old(answers)@.is_prefix_of(final(answers)@),
        forall|j: int| 0 <= j < final(answers)@.len() ==> s.answers(#[trigger] final(answers)@[j]),
        tile_settled(s, tile, final(answers)@, fallback@, final(mask)@, final(solved)),
        forall|x: int, y: int|
            on_plane(s.w(), s.h(), x, y) && !(in_rect(tile, x, y) && s.band@[at(s.w(), x, y)] != 0)
                ==> #[trigger] same_at(final(mask)@, old(mask)@, final(solved), old(solved), at(s.w(), x, y)),
{
    let ghost (w, h) = (s.w(), s.h());
    let ghost was = mask@;
    let ghost had = *solved;
    let ghost first = answers@;
    let width: usize = s.image.width() as usize;
    let region: Region = prepare_tile(s, area);
    let mut core: Option<Core> = None;
    let mut y: u32 = tile.1;
    while y <= tile.3
        invariant
            s.wf(),
            w == s.w(),
            h == s.h(),
            width == w,
            rect_on(tile, w, h),
            region.of(s),
            region.area == area,
            core matches Some(c) ==> c.of(s, area),
            forall|a: int, b: int|
                in_rect(tile, a, b) && s.band@[at(w, a, b)] != 0 ==> #[trigger] covers(s, area, a, b),
            fallback.wf(),
            fallback.w() == w,
            fallback.h() == h,
            mask.wf(),
            mask.w() == w,
            mask.h() == h,
            was.len() == w * h,
            solved.covers((w * h) as nat),
            solved.kept() == had.kept(),
            first.is_prefix_of(answers@),
            forall|j: int| 0 <= j < answers@.len() ==> s.answers(#[trigger] answers@[j]),
            forall|a: int, b: int| in_rect(tile, a, b) ==> !(#[trigger] had.marked(at(w, a, b))),
            tile.1 <= y <= tile.3 + 1,
            forall|a: int, b: int|
                in_rect(tile, a, b) && b < y && s.band@[at(w, a, b)] != 0 ==> settled(
                    s,
                    answers@,
                    a,
                    b,
                    fallback@[at(w, a, b)],
                    #[trigger] mask@[at(w, a, b)],
                    solved.marked(at(w, a, b)),
                    solved.kept(),
                ),
            forall|a: int, b: int|
                on_plane(w, h, a, b) && !(in_rect(tile, a, b) && b < y && s.band@[at(w, a, b)] != 0)
                    ==> #[trigger] same_at(mask@, was, solved, &had, at(w, a, b)),
        decreases tile.3 + 1 - y,
    {
        let mut x: u32 = tile.0;
        while x <= tile.2
            invariant
                s.wf(),
                w == s.w(),
                h == s.h(),
                width == w,
                rect_on(tile, w, h),
                region.of(s),
                region.area == area,
                core matches Some(c) ==> c.of(s, area),
                forall|a: int, b: int|
                    in_rect(tile, a, b) && s.band@[at(w, a, b)] != 0 ==> #[trigger] covers(s, area, a, b),
                fallback.wf(),
                fallback.w() == w,
                fallback.h() == h,
                mask.wf(),
                mask.w() == w,
                mask.h() == h,
                was.len() == w * h,
                solved.covers((w * h) as nat),
                solved.kept() == had.kept(),
                first.is_prefix_of(answers@),
                forall|j: int| 0 <= j < answers@.len() ==> s.answers(#[trigger] answers@[j]),
                forall|a: int, b: int| in_rect(tile, a, b) ==> !(#[trigger] had.marked(at(w, a, b))),
                tile.1 <= y <= tile.3,
                tile.0 <= x <= tile.2 + 1,
                forall|a: int, b: int|
                    in_rect(tile, a, b) && before((a, b), x as int, y as int) && s.band@[at(w, a, b)] != 0 ==> settled(
                        s,
                        answers@,
                        a,
                        b,
                        fallback@[at(w, a, b)],
                        #[trigger] mask@[at(w, a, b)],
                        solved.marked(at(w, a, b)),
                        solved.kept(),
                    ),
                forall|a: int, b: int|
                    on_plane(w, h, a, b) && !(in_rect(tile, a, b) && before((a, b), x as int, y as int) && s.band@[at(
                        w,
                        a,
                        b,
                    )] != 0) ==> #[trigger] same_at(mask@, was, solved, &had, at(w, a, b)),
            decreases tile.2 + 1 - x,
        {
            let i: usize = place(width, x as usize, y as usize, Ghost(h));
            if s.band[i] != 0 {
                let ghost mask0 = mask@;
                let ghost solved0 = *solved;
                let ghost list0 = answers@;
                proof {
                    assert(covers(s, area, x as int, y as int));
                    assert(same_at(mask@, was, solved, &had, at(w, x as int, y as int)));
                    assert(!had.marked(at(w, x as int, y as int)));
                }
                match solve_pixel(s, &region, &mut core, x, y) {
                    Some(a) => {
                        mask.set(x, y, a.alpha);
                        assert(solved.covers((w * h) as nat) && i < w * h);
                        solved.set(i);
                        answers.push(a);
                        assert(answers@[list0.len() as int] == a);
                    },
                    None => {
                        mask.set(x, y, fallback.get(x, y));
                    },
                }
                proof {
                    assert(list0.is_prefix_of(answers@));
                    assert forall|a: int, b: int|
                        in_rect(tile, a, b) && before((a, b), x + 1, y as int) && s.band@[at(w, a, b)] != 0 implies settled(
                        s,
                        answers@,
                        a,
                        b,
                        fallback@[at(w, a, b)],
                        #[trigger] mask@[at(w, a, b)],
                        solved.marked(at(w, a, b)),
                        solved.kept(),
                    ) by {
                        lemma_at_bound(w, h, a, b);
                        if !(a == x && b == y) {
                            lemma_apart(w, a, b, x as int, y as int);
                            assert(mask@[at(w, a, b)] == mask0[at(w, a, b)]);
                            lemma_more(
                                s,
                                list0,
                                answers@,
                                a,
                                b,
                                fallback@[at(w, a, b)],
                                mask0[at(w, a, b)],
                                solved0.marked(at(w, a, b)),
                                solved0.kept(),
                            );
                        }
                    }
                    assert forall|a: int, b: int|
                        on_plane(w, h, a, b) && !(in_rect(tile, a, b) && before((a, b), x + 1, y as int) && s.band@[at(
                            w,
                            a,
                            b,
                        )] != 0) implies #[trigger] same_at(mask@, was, solved, &had, at(w, a, b)) by {
                        lemma_at_bound(w, h, a, b);
                        lemma_apart(w, a, b, x as int, y as int);
                        assert(same_at(mask0, was, &solved0, &had, at(w, a, b)));
                    }
                }
            }
            x += 1;
        }
        y += 1;
    }
}

/// Different pixels have different places.
proof fn lemma_apart(w: int, a: int, b: int, x: int, y: int)
    requires
        0 <= a < w,
        0 <= x < w,
        0 <= b,
        0 <= y,
        !(a == x && b == y),
    ensures
        at(w, a, b) != at(w, x, y),
{
    if at(w, a, b) == at(w, x, y) {
        lemma_at_distinct(w, a, b, x, y);
    }
}

/// The alpha of the whole image after the projection.
pub struct Projection {
    pub mask: Mask,
    /// Where colour has decided.
    pub solved: Solved,
    /// The answers, from which colours are recovered.
    pub answers: Vec<Answer>,
}

/// What a pixel keeps if it lies outside the band, and what it comes to within.
pub open spec fn projected(
    s: &Scene<'_>,
    list: Seq<Answer>,
    x: int,
    y: int,
    was: u8,
    feathered: u8,
    after: u8,
    marked: bool,
    kept: bool,
) -> bool {
    if s.band@[at(s.w(), x, y)] == 0 {
        after == was && !marked
    } else {
        settled(s, list, x, y, feathered, after, marked, kept)
    }
}

/// The alpha of the whole image: colour where it decides, the feather where it
/// does not, and the mask outside the band.
pub open spec fn is_projection(s: &Scene<'_>, feather_radius: u32, keep_marks: bool, r: &Projection) -> bool {
    &&& r.mask.wf()
    &&& r.mask.w() == s.w()
    &&& r.mask.h() == s.h()
    &&& r.solved.covers((s.w() * s.h()) as nat)
    &&& r.solved.kept() == keep_marks
    &&& forall|j: int| 0 <= j < r.answers@.len() ==> s.answers(#[trigger] r.answers@[j])
    &&& exists|fallback: Mask|
        #![trigger fallback.wf()]
        {
            &&& fallback.wf()
            &&& feather_radius == 0 ==> fallback@ == s.binary@
            &&& feather_radius > 0 ==> fallback@ == feathered(s.binary@, s.w(), s.h(), feather_radius as int)
            &&& forall|x: int, y: int|
                on_plane(s.w(), s.h(), x, y) ==> projected(
                    s,
                    r.answers@,
                    x,
                    y,
                    s.binary.px(x, y),
                    fallback@[at(s.w(), x, y)],
                    #[trigger] r.mask@[at(s.w(), x, y)],
                    r.solved.marked(at(s.w(), x, y)),
                    keep_marks,
                )
        }
}

/// Solves the band of the whole image, tile by tile. What comes out for a pixel
/// depends on the image around it, not on where the tiles fall.
#[verifier::rlimit(60)]
pub fn project(s: &Scene<'_>, feather_radius: u32, keep_marks: bool) -> (r: Projection)
    requires
        s.wf(),
    ensures
        is_projection(s, feather_radius, keep_marks, &r),
{
    let w: u32 = s.image.width();
    let h: u32 = s.image.height();
    let ghost (wi, hi) = (w as int, h as int);
    let fallback: Mask = feather(s.binary, feather_radius);
    let mut mask: Mask = s.binary.clone();
    let n: usize = (w as usize) * (h as usize);
    let mut solved: Solved = if keep_marks { Solved::new(n) } else { Solved::default() };
    let mut answers: Vec<Answer> = Vec::new();
    let tiles: Vec<(u32, u32)> = for_each_tile(w, h);
    let ghost from = s.binary@;
    let mut k: usize = 0;
    proof {
        assert forall|i: int| 0 <= i < wi * hi implies !(#[trigger] solved.marked(i)) by {}
        assert forall|x: int, y: int| on_plane(wi, hi, x, y) implies untouched(
            mask@,
            from,
            &solved,
            #[trigger] at(wi, x, y),
        ) by {
            lemma_at_bound(wi, hi, x, y);
        }
    }
    while k < tiles.len()
        invariant
            s.wf(),
            wi == w == s.w(),
            hi == h == s.h(),
            fallback.wf(),
            fallback.w() == w,
            fallback.h() == h,
            mask.wf(),
            mask.w() == w,
            mask.h() == h,
            from == s.binary@,
            solved.covers((wi * hi) as nat),
            solved.kept() == keep_marks,
            forall|j: int| 0 <= j < answers@.len() ==> s.answers(#[trigger] answers@[j]),
            forall|j: int|
                0 <= j < tiles@.len() ==> tile_corner(wi, hi, (#[trigger] tiles@[j]).0 as int, tiles@[j].1 as int),
            forall|i: int, j: int|
                0 <= i < j < tiles@.len() ==> (#[trigger] tiles@[i]).1 < (#[trigger] tiles@[j]).1 || (tiles@[i].1
                    == tiles@[j].1 && tiles@[i].0 < tiles@[j].0),
            k <= tiles@.len(),
            forall|x: int, y: int|
                on_plane(wi, hi, x, y) ==> if listed(tiles@, k as int, x, y) && s.band@[at(wi, x, y)] != 0 {
                    settled(
                        s,
                        answers@,
                        x,
                        y,
                        fallback@[at(wi, x, y)],
                        mask@[#[trigger] at(wi, x, y)],
                        solved.marked(at(wi, x, y)),
                        keep_marks,
                    )
                } else {
                    untouched(mask@, from, &solved, at(wi, x, y))
                },
        decreases tiles@.len() - k,
    {
        let (tx, ty) = tiles[k];
        let tile: Rect = tile_at(w, h, tx, ty);
        let ghost (mask0, solved0, list0) = (mask@, solved, answers@);
        proof {
            assert(tile_corner(wi, hi, tiles@[k as int].0 as int, tiles@[k as int].1 as int));
            assert forall|x: int, y: int| in_rect(tile, x, y) implies !(#[trigger] solved.marked(at(wi, x, y))) by {
                lemma_corner(wi, hi, x, y, tiles@[k as int]);
                assert(!listed(tiles@, k as int, x, y));
                assert(untouched(mask@, from, &solved, at(wi, x, y)));
            }
        }
        if let Some(area) = plan_tile(s, tile) {
            estimate_alpha(s, tile, area, &fallback, &mut mask, &mut solved, &mut answers);
        } else {
            proof {
                assert forall|x: int, y: int| in_rect(tile, x, y) implies s.band@[#[trigger] at(wi, x, y)] == 0 by {
                    let none = band_in(s.band@, wi, hi, tile);
                    assert(!none.contains((x, y)));
                }
            }
        }
        proof {
            assert forall|x: int, y: int| on_plane(wi, hi, x, y) implies if listed(tiles@, k + 1, x, y) && s.band@[at(
                wi,
                x,
                y,
            )] != 0 {
                settled(
                    s,
                    answers@,
                    x,
                    y,
                    fallback@[at(wi, x, y)],
                    mask@[#[trigger] at(wi, x, y)],
                    solved.marked(at(wi, x, y)),
                    keep_marks,
                )
            } else {
                untouched(mask@, from, &solved, at(wi, x, y))
            } by {
                let i = at(wi, x, y);
                lemma_corner(wi, hi, x, y, tiles@[k as int]);
                if in_rect(tile, x, y) && s.band@[i] != 0 {
                    assert(tiles@[k as int].0 == corner(x) && tiles@[k as int].1 == corner(y));
                    assert(listed(tiles@, k + 1, x, y));
                    assert(settled(
                        s,
                        answers@,
                        x,
                        y,
                        fallback@[i],
                        mask@[at(wi, x, y)],
                        solved.marked(i),
                        keep_marks,
                    ));
                } else {
                    assert(mask@ == mask0 && solved == solved0 || same_at(mask@, mask0, &solved, &solved0, i));
                    if listed(tiles@, k + 1, x, y) && s.band@[i] != 0 {
                        let j = choose|j: int|
                            0 <= j < k + 1 && (#[trigger] tiles@[j]).0 == corner(x) && tiles@[j].1 == corner(y);
                        assert(j != k);
                        assert(listed(tiles@, k as int, x, y));
                        lemma_more(
                            s,
                            list0,
                            answers@,
                            x,
                            y,
                            fallback@[i],
                            mask0[i],
                            solved0.marked(i),
                            keep_marks,
                        );
                    } else if s.band@[i] != 0 {
                        assert(!listed(tiles@, k as int, x, y));
                    }
                }
            }
        }
        k += 1;
    }
    proof {
        assert forall|x: int, y: int| on_plane(wi, hi, x, y) implies projected(
            s,
            answers@,
            x,
            y,
            s.binary.px(x, y),
            fallback@[at(wi, x, y)],
            #[trigger] mask@[at(wi, x, y)],
            solved.marked(at(wi, x, y)),
            keep_marks,
        ) by {
            assert(tile_corner(wi, hi, corner(x), corner(y)));
            let j = choose|j: int| 0 <= j < tiles@.len() && (#[trigger] tiles@[j]).0 == corner(x) && tiles@[j].1
                == corner(y);
            assert(listed(tiles@, k as int, x, y));
        }
        assert(fallback.wf());
    }
    Projection { mask, solved, answers }
}

/// A place holds what it held at first and has no mark.
spec fn untouched(mask: Seq<u8>, from: Seq<u8>, solved: &Solved, i: int) -> bool {
    mask[i] == from[i] && !solved.marked(i)
}

/// The answers whose pixel is not fully transparent in the final mask, each with
/// the alpha it has there: the pixels whose colour is recovered.
pub fn recoveries(answers: &[Answer], mask: &Mask) -> (r: Vec<Answer>)
    requires
        mask.wf(),
        forall|j: int|
            0 <= j < answers@.len() ==> mask.inside((#[trigger] answers@[j]).x as int, answers@[j].y as int),
    ensures
        forall|k: int|
            0 <= k < r@.len() ==> recovered(#[trigger] r@[k], answers@, mask),
        forall|j: int|
            0 <= j < answers@.len() && mask.px((#[trigger] answers@[j]).x as int, answers@[j].y as int) != 0
                ==> r@.contains(with_alpha(answers@[j], mask)),
{
    let mut r: Vec<Answer> = Vec::new();
    let mut j: usize = 0;
    while j < answers.len()
        invariant
            mask.wf(),
            j <= answers@.len(),
            forall|i: int|
                0 <= i < answers@.len() ==> mask.inside((#[trigger] answers@[i]).x as int, answers@[i].y as int),
            forall|k: int|
                0 <= k < r@.len() ==> recovered(#[trigger] r@[k], answers@, mask),
            forall|i: int|
                0 <= i < j && mask.px((#[trigger] answers@[i]).x as int, answers@[i].y as int) != 0 ==> r@.contains(
                    with_alpha(answers@[i], mask),
                ),
        decreases answers@.len() - j,
    {
        let a: Answer = answers[j];
        assert(mask.inside(answers@[j as int].x as int, answers@[j as int].y as int));
        let alpha: u8 = mask.get(a.x, a.y);
        let ghost had = r@;
        if alpha != 0 {
            let b: Answer = Answer { alpha, share: ((alpha as u64) * WHOLE) / 255, ..a };
            r.push(b);
            assert(b == with_alpha(answers@[j as int], mask));
        }
        proof {
            assert forall|k: int| 0 <= k < r@.len() implies recovered(#[trigger] r@[k], answers@, mask) by {
                if k < had.len() {
                    assert(had[k] == r@[k]);
                } else {
                    assert(r@[k] == with_alpha(answers@[j as int], mask));
                }
            }
            assert forall|i: int|
                0 <= i < j + 1 && mask.px((#[trigger] answers@[i]).x as int, answers@[i].y as int) != 0 implies r@.contains(
                with_alpha(answers@[i], mask),
            ) by {
                if i < j {
                    let k = choose|k: int| 0 <= k < had.len() && had[k] == with_alpha(answers@[i], mask);
                    assert(r@[k] == had[k]);
                } else {
                    assert(r@[had.len() as int] == with_alpha(answers@[i], mask));
                }
            }
        }
        j += 1;
    }
    r
}

/// `a` is one of the answers, seen in the final mask, and visible there.
pub open spec fn recovered(a: Answer, answers: Seq<Answer>, mask: &Mask) -> bool {
    a.alpha != 0 && exists|j: int| 0 <= j < answers.len() && a == with_alpha(#[trigger] answers[j], mask)
}

/// An answer with the alpha of the final mask.
pub open spec fn with_alpha(a: Answer, mask: &Mask) -> Answer {
    let alpha = mask.px(a.x as int, a.y as int);
    Answer { alpha, share: alpha_share(alpha as int) as u64, ..a }
}

/// The answers whose alpha is not 0, as they are: the pixels whose colour is
/// recovered where nothing has moved their alpha since.
pub fn visible_answers(answers: &[Answer]) -> (r: Vec<Answer>)
    ensures
        r@ == answers@.filter(|a: Answer| a.alpha != 0),
        forall|k: int| 0 <= k < r@.len() ==> answers@.contains(#[trigger] r@[k]),
{
    let mut r: Vec<Answer> = Vec::new();
    let mut j: usize = 0;
    proof {
        reveal(Seq::filter);
    }
    while j < answers.len()
        invariant
            j <= answers@.len(),
            r@ == answers@.take(j as int).filter(|a: Answer| a.alpha != 0),
            forall|k: int| 0 <= k < r@.len() ==> answers@.contains(#[trigger] r@[k]),
        decreases answers@.len() - j,
    {
        proof {
            reveal(Seq::filter);
            assert(answers@.take(j + 1).drop_last() =~= answers@.take(j as int));
        }
        let a: Answer = answers[j];
        assert(answers@.contains(a));
        if a.alpha != 0 {
            r.push(a);
        }
        j += 1;
    }
    assert(answers@.take(j as int) =~= answers@);
    r
}

/// `v` is the greatest width of a band.
pub open spec fn is_widest(band: Seq<u8>, v: u8) -> bool {
    &&& forall|i: int| 0 <= i < band.len() ==> #[trigger] band[i] <= v
    &&& v > 0 ==> exists|i: int| 0 <= i < band.len() && #[trigger] band[i] == v
}

/// The greatest width of a band, 0 if there is none.
pub fn widest(band: &[u8]) -> (r: u8)
    ensures
        is_widest(band@, r),
{
    let mut r: u8 = 0;
    let mut i: usize = 0;
    while i < band.len()
        invariant
            i <= band@.len(),
            is_widest(band@.take(i as int), r),
        decreases band@.len() - i,
    {
        let ghost had = band@.take(i as int);
        let ghost now = band@.take(i + 1);
        assert(now =~= had.push(band@[i as int]));
        let ghost v = r;
        if band[i] > r {
            r = band[i];
            assert(now[i as int] == r);
        } else {
            proof {
                if r > 0 {
                    let j = choose|j: int| 0 <= j < had.len() && #[trigger] had[j] == v;
                    assert(now[j] == r);
                }
            }
        }
        assert(forall|j: int| 0 <= j < had.len() ==> now[j] == #[trigger] had[j]);
        i += 1;
    }
    assert(band@.take(i as int) =~= band@);
    r
}

/// A scene in which hearts are looked for within the widest window of the band,
/// so that what a pixel comes to is the same in every tile. Without a band there
/// is nothing to solve.
pub fn scene_of<'a>(
    image: &'a RgbaImage,
    linear: &'a [u64],
    binary: &'a Mask,
    band: &'a [u8],
    sealed: &'a BitPlane,
    background: [u8; 3],
    separation: u128,
) -> (r: Option<Scene<'a>>)
    requires
        image.wf(),
        binary.wf(),
        image.w() == binary.w(),
        image.h() == binary.h(),
        0 < image.w(),
        0 < image.h(),
        band@.len() == image@.len(),
        light_ok(linear@),
        sealed.wf(),
        sealed@.len() == 0 || sealed@.len() == image@.len(),
    ensures
        r is None <==> is_widest(band@, 0),
        r matches Some(s) ==> {
            &&& s.wf()
            &&& s.image == image
            &&& s.linear == linear
            &&& s.binary == binary
            &&& s.band == band
            &&& s.sealed == sealed
            &&& s.background == background
            &&& s.separation == separation
            &&& exists|v: u8| #[trigger] is_widest(band@, v) && s.core_window == window_of(v)
        },
{
    let most: u8 = widest(band);
    if most == 0 {
        return None;
    }
    proof {
        if is_widest(band@, 0) {
            let i = choose|i: int| 0 <= i < band@.len() && #[trigger] band@[i] == most;
            assert(false);
        }
    }
    Some(
        Scene { image, linear, binary, band, sealed, background, separation, core_window: window_for(most) },
    )
}

} // verus!
