//! The band along the boundary in which alpha is estimated anew.
//!
//! How wide the band is follows the contour: a hard edge gets a narrow one, a
//! soft edge a wide one. The widths are measured on the picture by the caller;
//! what they amount to is decided here.
use vstd::prelude::*;

use crate::cutout::constraints::{disc, disc_pixels};
use crate::cutout::contour::{contour_plane, lists_pixels, whole};
use crate::cutout::diagnostics::{contour_roughness, has_roughness, scale_at_1000, Roughness};
use crate::cutout::mask::Mask;
use crate::cutout::morphology::long_edge;
use crate::geometry::{at, before, box_of_any, in_rect, on_plane, place, rect_on, Bounds, Rect};
use crate::tally::{lemma_ones, lists, ones};

verus! {

/// The narrowest band in pixels.
pub const DEFAULT_MIN_RADIUS: u32 = 2;

/// The widest band in pixels.
pub const DEFAULT_MAX_RADIUS: u32 = 10;

/// No band is wider than this, whatever was asked for.
pub const RADIUS_CEILING: u32 = 48;

/// The side of a tile in pixels.
pub const TILE: u32 = 128;

/// The radius of the median on the contour, in thousandths of a pixel at a long
/// edge of 1000 pixels.
pub const DEFAULT_SMOOTH_CONTOUR: u32 = 2000;

/// The key of the distance within which a colour has come to rest: 2.
pub const CONVERGED: u64 = 0x4000_0000_0000_0000;

/// The square of the distance under which two colours decide nothing: 0.06 of full
/// light, in the units of `LINEAR_UNIT`.
pub const DEFAULT_MIN_SEPARATION: u128 = 17_000_519_338_330_722_769;

/// How much wider than the narrowest band the window of the guided filter is.
pub const GUIDED_MARGIN: u32 = 1;

/// How the alpha of the boundary is solved.
#[derive(Debug, Clone, Copy, PartialEq, Eq, Structural)]
pub enum Matting {
    /// By projection on the line between the colours on both sides.
    Projection,
    /// By projection, then evened out under the guidance of the picture.
    Guided,
}

/// How the boundary is refined.
#[derive(Debug, Clone, Copy, PartialEq, Eq, Structural)]
pub struct RefineOptions {
    pub min_radius: u32,
    pub max_radius: u32,
    /// The square of the distance under which two colours decide nothing.
    pub min_separation: u128,
    /// The radius of the feather for pixels that colour does not decide.
    pub feather: u32,
    /// Whether the share of the background is taken out of boundary colours.
    pub despill: bool,
    pub matting: Matting,
    /// The radius of the median on the contour in thousandths of a pixel at a
    /// long edge of 1000 pixels; 0 for none.
    pub smooth_contour: u32,
    /// Whether pixels of the band are repainted by their colour.
    pub reclassify: bool,
    /// The radius of the seal that the fill was made with.
    pub seal: u32,
}

impl Default for RefineOptions {
    fn default() -> (r: Self)
        ensures
            r == (RefineOptions {
                min_radius: DEFAULT_MIN_RADIUS,
                max_radius: DEFAULT_MAX_RADIUS,
                min_separation: DEFAULT_MIN_SEPARATION,
                feather: 1,
                despill: true,
                matting: Matting::Guided,
                smooth_contour: DEFAULT_SMOOTH_CONTOUR,
                reclassify: true,
                seal: 1,
            }),
    {
        RefineOptions {
            min_radius: DEFAULT_MIN_RADIUS,
            max_radius: DEFAULT_MAX_RADIUS,
            min_separation: DEFAULT_MIN_SEPARATION,
            feather: 1,
            despill: true,
            matting: Matting::Guided,
            smooth_contour: DEFAULT_SMOOTH_CONTOUR,
            reclassify: true,
            seal: 1,
        }
    }
}

/// The radius of the median on the contour in pixels of the image, rounded up.
pub open spec fn smoothing(smooth_contour: int, scale: int) -> int {
    let r = (smooth_contour * scale + 999_999) / 1_000_000;
    if r < RADIUS_CEILING {
        r
    } else {
        RADIUS_CEILING as int
    }
}

/// The narrowest band before it is held between 1 and the widest: what was asked
/// for at the size of the image, or twice the roughness where that is more. Both
/// are rounded up.
pub open spec fn wanted_radius(min_radius: int, scale: int, roughness: Option<Roughness>) -> int {
    let up = (min_radius * scale + 999) / 1000;
    let rough = match roughness {
        Some(r) => (2 * r.thirds + 3 * r.pixels - 1) / (3 * r.pixels),
        None => 0,
    };
    if up < rough {
        rough
    } else {
        up
    }
}

/// `v` held between `lo` and `hi`.
pub open spec fn clamped(v: int, lo: int, hi: int) -> int {
    if v < lo {
        lo
    } else if v > hi {
        hi
    } else {
        v
    }
}

fn clamp(v: u32, lo: u32, hi: u32) -> (r: u32)
    ensures
        r == clamped(v as int, lo as int, hi as int),
{
    if v < lo {
        lo
    } else if v > hi {
        hi
    } else {
        v
    }
}

impl RefineOptions {
    /// The same without the steps that repaint and even out.
    pub fn projection_only(self) -> (r: Self)
        ensures
            r == (RefineOptions {
                matting: Matting::Projection,
                smooth_contour: 0,
                reclassify: false,
                ..self
            }),
            !r.is_staged(),
    {
        RefineOptions { matting: Matting::Projection, smooth_contour: 0, reclassify: false, ..self }
    }

    /// Some step beyond the projection is asked for.
    pub open spec fn is_staged(&self) -> bool {
        self.reclassify || self.smooth_contour > 0 || self.matting == Matting::Guided
    }

    pub fn staged(&self) -> (r: bool)
        ensures
            r == self.is_staged(),
    {
        self.reclassify || self.smooth_contour > 0 || matches!(self.matting, Matting::Guided)
    }

    /// The radius of the median on the contour of an image.
    pub fn smooth_radius(&self, width: u32, height: u32) -> (r: u32)
        ensures
            r == smoothing(self.smooth_contour as int, long_edge(width, height)),
    {
        let scale: u32 = scale_at_1000(width, height);
        proof {
            assert((self.smooth_contour as int) * (scale as int) <= 0xffff_ffff * 0xffff_ffff) by (nonlinear_arith)
                requires
                    0 <= self.smooth_contour <= 0xffff_ffff,
                    0 <= scale <= 0xffff_ffff,
            ;
        }
        let product: u64 = (self.smooth_contour as u64) * (scale as u64);
        let r: u64 = product / 1_000_000 + (if product % 1_000_000 == 0 { 0 } else { 1 });
        assert(r == (product + 999_999) / 1_000_000);
        if r < RADIUS_CEILING as u64 {
            r as u32
        } else {
            RADIUS_CEILING
        }
    }

    /// The width of the window in which the guided filter works.
    pub fn guided_radius(&self, min_radius: u32, band_max: u8) -> (r: Option<u32>)
        ensures
            r is Some <==> self.matting == Matting::Guided,
            r matches Some(v) ==> v == if min_radius + GUIDED_MARGIN < band_max {
                min_radius + GUIDED_MARGIN
            } else {
                band_max as int
            },
    {
        if matches!(self.matting, Matting::Guided) {
            let top: u32 = band_max as u32;
            Some(
                if min_radius < top && min_radius + GUIDED_MARGIN < top {
                    min_radius + GUIDED_MARGIN
                } else {
                    top
                },
            )
        } else {
            None
        }
    }
}

/// The narrowest and the widest band of a mask. Without the later steps they are
/// what was asked for. Otherwise the widest is held under the ceiling, and the
/// narrowest follows the size of the image and the roughness of the contour.
pub fn band_radii(binary: &Mask, opts: &RefineOptions) -> (r: (u32, u32))
    requires
        binary.wf(),
        0 < binary.w(),
        0 < binary.h(),
    ensures
        !opts.is_staged() ==> r == (opts.min_radius, opts.max_radius),
        opts.is_staged() ==> r.1 == clamped(opts.max_radius as int, 1, RADIUS_CEILING as int),
        opts.is_staged() ==> exists|contour: Seq<(u32, u32)>, rough: Option<Roughness>|
            {
                &&& lists_pixels(contour, binary.w() as int, contour_plane(binary, None, whole(binary)))
                &&& #[trigger] has_roughness(binary, contour, None, rough)
                &&& r.0 == clamped(
                    wanted_radius(opts.min_radius as int, long_edge(binary.w(), binary.h()), rough),
                    1,
                    r.1 as int,
                )
            },
{
    if !opts.staged() {
        return (opts.min_radius, opts.max_radius);
    }
    let scale: u32 = scale_at_1000(binary.width(), binary.height());
    let max_r: u32 = clamp(opts.max_radius, 1, RADIUS_CEILING);
    let rough: Option<Roughness> = contour_roughness(binary, None);
    let ghost contour = choose|contour: Seq<(u32, u32)>| #[trigger]
        lists_pixels(contour, binary.w() as int, contour_plane(binary, None, whole(binary))) && has_roughness(
            binary,
            contour,
            None,
            rough,
        );
    proof {
        assert((opts.min_radius as int) * (scale as int) <= 0xffff_ffff * 0xffff_ffff) by (nonlinear_arith)
            requires
                0 <= opts.min_radius <= 0xffff_ffff,
                0 <= scale <= 0xffff_ffff,
        ;
    }
    let product: u64 = (opts.min_radius as u64) * (scale as u64);
    let up: u64 = product / 1000 + (if product % 1000 == 0 { 0 } else { 1 });
    assert(up == (product + 999) / 1000);
    let wide: u32 = if up < RADIUS_CEILING as u64 { up as u32 } else { RADIUS_CEILING };
    let wanted: u32 = match rough {
        Some(v) => {
            let d: u128 = 3 * (v.pixels as u128);
            let n: u128 = 2 * v.thirds;
            let q: u128 = (n + (d - 1)) / d;
            if q < RADIUS_CEILING as u128 {
                q as u32
            } else {
                RADIUS_CEILING
            }
        },
        None => 0,
    };
    let most: u32 = if wide < wanted { wanted } else { wide };
    let r: (u32, u32) = (clamp(most, 1, max_r), max_r);
    assert(r.0 == clamped(
        wanted_radius(opts.min_radius as int, long_edge(binary.w(), binary.h()), rough),
        1,
        r.1 as int,
    ));
    assert(has_roughness(binary, contour, None, rough));
    r
}

/// How far from a pixel the colours of a band are looked for. From the outer edge
/// of a band of width `r` it is `2r + 1` to what lies inside it.
pub open spec fn window_of(radius: u8) -> int {
    2 * radius + 3
}

pub fn window_for(radius: u8) -> (r: u32)
    ensures
        r == window_of(radius),
{
    2 * (radius as u32) + 3
}

/// `(x, y)` is a corner of a tile on a plane of `w` by `h`.
pub open spec fn tile_corner(w: int, h: int, x: int, y: int) -> bool {
    on_plane(w, h, x, y) && x % (TILE as int) == 0 && y % (TILE as int) == 0
}

/// The corners of the tiles, row by row.
pub fn for_each_tile(w: u32, h: u32) -> (r: Vec<(u32, u32)>)
    ensures
        forall|k: int|
            0 <= k < r@.len() ==> tile_corner(w as int, h as int, (#[trigger] r@[k]).0 as int, r@[k].1 as int),
        forall|x: int, y: int|
            #[trigger] tile_corner(w as int, h as int, x, y) ==> exists|k: int|
                0 <= k < r@.len() && (#[trigger] r@[k]).0 == x && r@[k].1 == y,
        forall|j: int, k: int|
            0 <= j < k < r@.len() ==> (#[trigger] r@[j]).1 < (#[trigger] r@[k]).1 || (r@[j].1 == r@[k].1 && r@[j].0
                < r@[k].0),
{
    let ghost (wi, hi) = (w as int, h as int);
    let mut r: Vec<(u32, u32)> = Vec::new();
    let mut ty: u32 = 0;
    let mut more: bool = h > 0;
    while more
        invariant
            wi == w,
            hi == h,
            more ==> ty < h && ty % TILE == 0,
            forall|k: int|
                0 <= k < r@.len() ==> tile_corner(wi, hi, (#[trigger] r@[k]).0 as int, r@[k].1 as int),
            forall|k: int| 0 <= k < r@.len() && more ==> (#[trigger] r@[k]).1 < ty,
            forall|x: int, y: int|
                #[trigger] tile_corner(wi, hi, x, y) && (more ==> y < ty) ==> exists|k: int|
                    0 <= k < r@.len() && (#[trigger] r@[k]).0 == x && r@[k].1 == y,
            forall|j: int, k: int|
                0 <= j < k < r@.len() ==> (#[trigger] r@[j]).1 < (#[trigger] r@[k]).1 || (r@[j].1 == r@[k].1
                    && r@[j].0 < r@[k].0),
        decreases (if more { h - ty + 1 } else { 0 }),
    {
        let mut tx: u32 = 0;
        let mut wide: bool = w > 0;
        let ghost above = r@;
        while wide
            invariant
                wi == w,
                hi == h,
                ty < h,
                ty % TILE == 0,
                wide ==> tx < w && tx % TILE == 0,
                forall|k: int|
                    0 <= k < r@.len() ==> tile_corner(wi, hi, (#[trigger] r@[k]).0 as int, r@[k].1 as int),
                forall|k: int|
                    0 <= k < r@.len() ==> (#[trigger] r@[k]).1 < ty || (r@[k].1 == ty && (wide ==> r@[k].0 < tx)),
                forall|x: int, y: int|
                    #[trigger] tile_corner(wi, hi, x, y) && (y < ty || (y == ty && (wide ==> x < tx))) ==> exists|k: int|
                        0 <= k < r@.len() && (#[trigger] r@[k]).0 == x && r@[k].1 == y,
                forall|j: int, k: int|
                    0 <= j < k < r@.len() ==> (#[trigger] r@[j]).1 < (#[trigger] r@[k]).1 || (r@[j].1 == r@[k].1
                        && r@[j].0 < r@[k].0),
            decreases (if wide { w - tx + 1 } else { 0 }),
        {
            let ghost had = r@;
            r.push((tx, ty));
            let ghost was: int = tx as int;
            if w - tx > TILE {
                tx = tx + TILE;
            } else {
                wide = false;
            }
            proof {
                assert forall|x: int, y: int| #[trigger]
                    tile_corner(wi, hi, x, y) && (y < ty || (y == ty && (wide ==> x < tx))) implies exists|k: int|
                    0 <= k < r@.len() && (#[trigger] r@[k]).0 == x && r@[k].1 == y by {
                    if y == ty && x >= was {
                        assert(x == was);
                        assert(r@[had.len() as int] == (was as u32, ty));
                    } else {
                        let k = choose|k: int| 0 <= k < had.len() && (#[trigger] had[k]).0 == x && had[k].1 == y;
                        assert(r@[k] == had[k]);
                    }
                }
            }
        }
        let ghost was: int = ty as int;
        if h - ty > TILE {
            ty = ty + TILE;
        } else {
            more = false;
        }
        proof {
            assert forall|x: int, y: int| #[trigger] tile_corner(wi, hi, x, y) && (more ==> y < ty) implies exists|k: int|
                0 <= k < r@.len() && (#[trigger] r@[k]).0 == x && r@[k].1 == y by {
                if y > was {
                    assert(y - was < TILE);
                    assert(false);
                }
            }
        }
    }
    r
}

/// Paints a disc where the plane holds less.
pub fn paint_disc(band: &mut Vec<u8>, w: u32, h: u32, cx: u32, cy: u32, width: u32)
    requires
        old(band)@.len() == w * h,
        width <= u8::MAX,
    ensures
        final(band)@ == Seq::new(
            old(band)@.len(),
            |i: int|
                if disc(w, h, cx, cy, width)[i] && old(band)@[i] < width {
                    width as u8
                } else {
                    old(band)@[i]
                },
        ),
{
    let n: usize = band.len();
    let ghost was = band@;
    let ghost area = disc(w, h, cx, cy, width);
    let places: Vec<usize> = disc_pixels(w, h, cx, cy, width);
    proof {
        lemma_ones(area);
        assert(places@.map_values(|v: usize| v as int).len() == places@.len());
    }
    let value: u8 = width as u8;
    let mut k: usize = 0;
    while k < places.len()
        invariant
            n == was.len() == band@.len() == area.len(),
            value == width,
            lists(places@, area),
            ones(area).len() == places@.len(),
            forall|j: int| 0 <= j < ones(area).len() ==> 0 <= #[trigger] ones(area)[j] < area.len(),
            forall|a: int, b: int| 0 <= a < b < ones(area).len() ==> ones(area)[a] < ones(area)[b],
            k <= places@.len(),
            forall|i: int|
                0 <= i < n ==> #[trigger] band@[i] == if (exists|j: int| 0 <= j < k && ones(area)[j] == i) && was[i]
                    < width {
                    value
                } else {
                    was[i]
                },
        decreases places@.len() - k,
    {
        let i: usize = places[k];
        let ghost had = band@;
        assert(places@.map_values(|v: usize| v as int)[k as int] == ones(area)[k as int]);
        assert(had[i as int] == was[i as int]);
        if band[i] < value {
            band.set(i, value);
        }
        proof {
            assert forall|a: int| 0 <= a < n implies #[trigger] band@[a] == if (exists|j: int|
                0 <= j < k + 1 && ones(area)[j] == a) && was[a] < width {
                value
            } else {
                was[a]
            } by {
                assert(had[a] == if (exists|j: int| 0 <= j < k && ones(area)[j] == a) && was[a] < width {
                    value
                } else {
                    was[a]
                });
                if a == i {
                    assert(ones(area)[k as int] == a);
                }
            }
        }
        k += 1;
    }
    proof {
        assert forall|i: int| 0 <= i < n implies #[trigger] band@[i] == if area[i] && was[i] < width {
            value
        } else {
            was[i]
        } by {
            if area[i] {
                lemma_ones(area);
                assert(ones(area).contains(i));
                let j = choose|j: int| 0 <= j < ones(area).len() && ones(area)[j] == i;
                assert(0 <= j < places@.len() && ones(area)[j] == i);
            }
        }
        assert(band@ =~= Seq::new(
            was.len(),
            |i: int|
                if disc(w, h, cx, cy, width)[i] && was[i] < width {
                    width as u8
                } else {
                    was[i]
                },
        ));
    }
}

/// The width of the band at one pixel of the contour. Where no direction leads
/// outward (a line one pixel wide) the narrowest stands.
pub open spec fn width_of(measured: Option<u32>, lo: int, hi: int) -> int {
    match measured {
        Some(v) => clamped(v as int, lo, hi),
        None => lo,
    }
}

/// `v` is the widest of the bands around the first `n` pixels of a contour that
/// reach place `i`, or 0.
pub open spec fn is_band_width(
    contour: Seq<(u32, u32)>,
    measured: Seq<Option<u32>>,
    w: u32,
    h: u32,
    lo: int,
    hi: int,
    n: int,
    i: int,
    v: u8,
) -> bool {
    &&& forall|k: int|
        0 <= k < n ==> (disc(w, h, (#[trigger] contour[k]).0, contour[k].1, width_of(measured[k], lo, hi) as u32)[i]
            ==> width_of(measured[k], lo, hi) <= v)
    &&& v > 0 ==> exists|k: int|
        0 <= k < n && disc(w, h, (#[trigger] contour[k]).0, contour[k].1, width_of(measured[k], lo, hi) as u32)[i]
            && width_of(measured[k], lo, hi) == v
}

/// The band around a contour: the widest of the discs around its pixels, each as
/// wide as was measured there. 0 lies outside the band.
pub fn band_map(
    w: u32,
    h: u32,
    contour: &[(u32, u32)],
    measured: &[Option<u32>],
    min_radius: u32,
    max_radius: u32,
) -> (band: Vec<u8>)
    requires
        w * h <= usize::MAX,
        contour@.len() == measured@.len(),
    ensures
        band@.len() == w * h,
        forall|i: int|
            0 <= i < band@.len() ==> is_band_width(
                contour@,
                measured@,
                w,
                h,
                clamped(min_radius as int, 1, RADIUS_CEILING as int),
                clamped(
                    max_radius as int,
                    clamped(min_radius as int, 1, RADIUS_CEILING as int),
                    RADIUS_CEILING as int,
                ),
                contour@.len() as int,
                i,
                #[trigger] band@[i],
            ),
{
    let min_r: u32 = clamp(min_radius, 1, RADIUS_CEILING);
    let max_r: u32 = clamp(max_radius, min_r, RADIUS_CEILING);
    let ghost (lo, hi) = (min_r as int, max_r as int);
    proof {
        assert(0 <= w * h) by (nonlinear_arith)
            requires
                0 <= w,
                0 <= h,
        ;
    }
    let cells: usize = (w as usize) * (h as usize);
    let mut band: Vec<u8> = vec![0u8; cells];
    let mut k: usize = 0;
    while k < contour.len()
        invariant
            contour@.len() == measured@.len(),
            cells == w * h == band@.len(),
            lo == min_r,
            hi == max_r,
            1 <= lo <= hi <= RADIUS_CEILING,
            k <= contour@.len(),
            forall|i: int|
                0 <= i < band@.len() ==> is_band_width(
                    contour@,
                    measured@,
                    w,
                    h,
                    lo,
                    hi,
                    k as int,
                    i,
                    #[trigger] band@[i],
                ),
        decreases contour@.len() - k,
    {
        let (cx, cy) = contour[k];
        let width: u32 = match measured[k] {
            Some(v) => clamp(v, min_r, max_r),
            None => min_r,
        };
        let ghost had = band@;
        paint_disc(&mut band, w, h, cx, cy, width);
        proof {
            assert forall|i: int| 0 <= i < band@.len() implies is_band_width(
                contour@,
                measured@,
                w,
                h,
                lo,
                hi,
                k + 1,
                i,
                #[trigger] band@[i],
            ) by {
                assert(is_band_width(contour@, measured@, w, h, lo, hi, k as int, i, had[i]));
                let v = band@[i];
                assert(contour@[k as int] == (cx, cy));
                if v > 0 && v == had[i] {
                    let j = choose|j: int|
                        0 <= j < k && disc(
                            w,
                            h,
                            (#[trigger] contour@[j]).0,
                            contour@[j].1,
                            width_of(measured@[j], lo, hi) as u32,
                        )[i] && width_of(measured@[j], lo, hi) == v;
                    assert(0 <= j < k + 1);
                }
            }
        }
        k += 1;
    }
    band
}

/// The farthest step on the given side of the mask. A step off the image is on
/// neither side.
pub fn farthest_on_side(steps: &[Option<bool>], foreground: bool) -> (r: Option<usize>)
    ensures
        r is None <==> forall|t: int| 0 <= t < steps@.len() ==> #[trigger] steps@[t] != Some(foreground),
        r matches Some(t) ==> t < steps@.len() && steps@[t as int] == Some(foreground) && forall|u: int|
            t < u < steps@.len() ==> #[trigger] steps@[u] != Some(foreground),
{
    let mut t: usize = steps.len();
    while t > 0
        invariant
            t <= steps@.len(),
            forall|u: int| t <= u < steps@.len() ==> #[trigger] steps@[u] != Some(foreground),
        decreases t,
    {
        t -= 1;
        if let Some(side) = steps[t] {
            if side == foreground {
                return Some(t);
            }
        }
    }
    None
}

/// Step `t` of a walk is on the image and its colour has come to rest.
pub open spec fn rests(steps: Seq<Option<u64>>, t: int) -> bool {
    steps[t] matches Some(d) && d <= CONVERGED
}

/// How many steps it takes to the first at rest, or `all` if none is.
pub open spec fn steps_to(steps: Seq<Option<u64>>, all: int, r: int) -> bool {
    ||| 1 <= r <= steps.len() && rests(steps, r - 1) && forall|t: int| 0 <= t < r - 1 ==> !(#[trigger] rests(steps, t))
    ||| r == all && forall|t: int| 0 <= t < steps.len() ==> !(#[trigger] rests(steps, t))
}

fn first_at_rest(steps: &[Option<u64>], max_r: u32) -> (r: u32)
    requires
        steps@.len() <= max_r,
    ensures
        steps_to(steps@, max_r as int, r as int),
{
    let mut t: usize = 0;
    while t < steps.len()
        invariant
            t <= steps@.len() <= max_r,
            forall|u: int| 0 <= u < t ==> !(#[trigger] rests(steps@, u)),
        decreases steps@.len() - t,
    {
        if let Some(d) = steps[t] {
            if d <= CONVERGED {
                assert(rests(steps@, t as int));
                return (t + 1) as u32;
            }
        }
        t += 1;
    }
    max_r
}

/// The width on one side of the contour: how far the walk has to go, or the
/// narrowest width where there was nothing to compare with.
pub open spec fn side_width(steps: Option<&[Option<u64>]>, min_r: int, max_r: int, r: int) -> bool {
    match steps {
        Some(s) => steps_to(s@, max_r, r),
        None => r == min_r,
    }
}

/// The width of the transition at a pixel of the contour. A walk goes out, another
/// one in. Of each step it is told how far its colour is from where the walk comes
/// to rest; off the image there is none. Inward there may be no foreground to
/// compare with, and then the narrowest width stands for that side. The wider side
/// counts.
pub fn transition_width(outward: &[Option<u64>], inward: Option<&[Option<u64>]>, min_r: u32, max_r: u32) -> (r: u32)
    requires
        min_r <= max_r,
        outward@.len() <= max_r,
        inward matches Some(s) ==> s@.len() <= max_r,
    ensures
        exists|out: int, inner: int|
            {
                &&& #[trigger] side_width(Some(outward), min_r as int, max_r as int, out)
                &&& #[trigger] side_width(inward, min_r as int, max_r as int, inner)
                &&& r == clamped(if out < inner { inner } else { out }, min_r as int, max_r as int)
            },
{
    let out: u32 = first_at_rest(outward, max_r);
    let inner: u32 = match inward {
        Some(s) => first_at_rest(s, max_r),
        None => min_r,
    };
    assert(side_width(Some(outward), min_r as int, max_r as int, out as int));
    assert(side_width(inward, min_r as int, max_r as int, inner as int));
    clamp(if out < inner { inner } else { out }, min_r, max_r)
}

/// The tile with the given corner, cut off at the image.
pub open spec fn tile_rect(w: int, h: int, x: u32, y: u32) -> Rect {
    (
        x,
        y,
        if x + TILE - 1 < w - 1 { (x + TILE - 1) as u32 } else { (w - 1) as u32 },
        if y + TILE - 1 < h - 1 { (y + TILE - 1) as u32 } else { (h - 1) as u32 },
    )
}

/// The corner of the tile that holds a place.
pub open spec fn corner(v: int) -> int {
    v - v % (TILE as int)
}

/// A place lies in the tile of its corner and in no other.
pub proof fn lemma_corner(w: int, h: int, x: int, y: int, c: (u32, u32))
    requires
        on_plane(w, h, x, y),
        w <= u32::MAX,
        h <= u32::MAX,
        tile_corner(w, h, c.0 as int, c.1 as int),
    ensures
        tile_corner(w, h, corner(x), corner(y)),
        in_rect(tile_rect(w, h, c.0, c.1), x, y) <==> c.0 == corner(x) && c.1 == corner(y),
{
}

/// The tile of a pixel is among the first `k`.
pub open spec fn listed(tiles: Seq<(u32, u32)>, k: int, x: int, y: int) -> bool {
    exists|j: int| 0 <= j < k && (#[trigger] tiles[j]).0 == corner(x) && tiles[j].1 == corner(y)
}

/// The pixels of the band in a rectangle.
pub open spec fn band_in(band: Seq<u8>, w: int, h: int, r: Rect) -> Set<(int, int)> {
    Set::new(|p: (int, int)| on_plane(w, h, p.0, p.1) && in_rect(r, p.0, p.1) && band[at(w, p.0, p.1)] != 0)
}

/// The bounding box of the band in a rectangle, and its greatest width there.
pub fn band_box(band: &[u8], w: u32, h: u32, tile: Rect) -> (r: (Option<Rect>, u8))
    requires
        band@.len() == w * h,
        rect_on(tile, w as int, h as int),
    ensures
        box_of_any(band_in(band@, w as int, h as int, tile), r.0),
        r.0 matches Some(b) ==> rect_on(b, w as int, h as int) && tile.0 <= b.0 && tile.1 <= b.1 && b.2 <= tile.2 && b.3
            <= tile.3,
        forall|x: int, y: int|
            in_rect(tile, x, y) ==> #[trigger] band@[at(w as int, x, y)] <= r.1,
        r.1 > 0 ==> exists|x: int, y: int| in_rect(tile, x, y) && #[trigger] band@[at(w as int, x, y)] == r.1,
        r.0 is None <==> r.1 == 0,
{
    let n: usize = band.len();
    let ghost (wi, hi) = (w as int, h as int);
    let ghost all = band_in(band@, wi, hi, tile);
    let ghost mut seen = Set::<(int, int)>::empty();
    let mut bounds: Bounds = Bounds::new();
    let mut widest: u8 = 0;
    let mut y: u32 = tile.1;
    while y <= tile.3
        invariant
            wi == w,
            hi == h,
            n == band@.len() == w * h,
            rect_on(tile, wi, hi),
            all == band_in(band@, wi, hi, tile),
            tile.1 <= y <= tile.3 + 1,
            bounds.holds(seen),
            forall|p: (int, int)| #[trigger] seen.contains(p) <==> all.contains(p) && p.1 < y,
            forall|a: int, b: int| in_rect(tile, a, b) && b < y ==> #[trigger] band@[at(wi, a, b)] <= widest,
            widest > 0 ==> exists|a: int, b: int| in_rect(tile, a, b) && #[trigger] band@[at(wi, a, b)] == widest,
        decreases tile.3 + 1 - y,
    {
        let mut x: u32 = tile.0;
        while x <= tile.2
            invariant
                wi == w,
                hi == h,
                n == band@.len() == w * h,
                rect_on(tile, wi, hi),
                all == band_in(band@, wi, hi, tile),
                tile.1 <= y <= tile.3,
                tile.0 <= x <= tile.2 + 1,
                bounds.holds(seen),
                forall|p: (int, int)| #[trigger] seen.contains(p) <==> all.contains(p) && before(p, x as int, y as int),
                forall|a: int, b: int|
                    in_rect(tile, a, b) && before((a, b), x as int, y as int) ==> #[trigger] band@[at(wi, a, b)]
                        <= widest,
                widest > 0 ==> exists|a: int, b: int|
                    in_rect(tile, a, b) && #[trigger] band@[at(wi, a, b)] == widest,
            decreases tile.2 + 1 - x,
        {
            let i: usize = place(w as usize, x as usize, y as usize, Ghost(hi));
            let v: u8 = band[i];
            assert(v == band@[at(wi, x as int, y as int)]);
            if v != 0 {
                bounds.insert(x, y, Ghost(seen));
                proof {
                    seen = seen.insert((x as int, y as int));
                }
            }
            if v > widest {
                widest = v;
                assert(in_rect(tile, x as int, y as int) && band@[at(wi, x as int, y as int)] == widest);
            }
            x += 1;
        }
        y += 1;
    }
    assert(seen =~= all);
    let r: Option<Rect> = bounds.finish(Ghost(all));
    proof {
        if let Some(b) = r {
            let p0 = choose|p: (int, int)| #[trigger] all.contains(p) && p.0 == b.0;
            let p1 = choose|p: (int, int)| #[trigger] all.contains(p) && p.1 == b.1;
            let p2 = choose|p: (int, int)| #[trigger] all.contains(p) && p.0 == b.2;
            let p3 = choose|p: (int, int)| #[trigger] all.contains(p) && p.1 == b.3;
            assert(in_rect(b, p0.0, p0.1));
            assert(in_rect(b, p1.0, p1.1));
            assert(band@[at(wi, p0.0, p0.1)] <= widest);
        } else if widest > 0 {
            let (a, b) = choose|a: int, b: int| in_rect(tile, a, b) && #[trigger] band@[at(wi, a, b)] == widest;
            assert(all.contains((a, b)));
        }
    }
    (r, widest)
}

/// The tile with the given corner.
pub fn tile_at(w: u32, h: u32, x: u32, y: u32) -> (r: Rect)
    requires
        x < w,
        y < h,
    ensures
        r == tile_rect(w as int, h as int, x, y),
        rect_on(r, w as int, h as int),
{
    (
        x,
        y,
        if w - x > TILE { x + (TILE - 1) } else { w - 1 },
        if h - y > TILE { y + (TILE - 1) } else { h - 1 },
    )
}

} // verus!
