//! How good the boundary is, told from the mask and the picture.
//!
//! Each value is a count over a count, so nothing is lost in rounding; a value
//! that could not be measured is absent, which is not the same as 0.
use vstd::prelude::*;

use crate::cutout::blur::{blur_columns, blur_rows, columns_smoothed, rows_smoothed};
use crate::cutout::chamfer::is_distance;
use crate::cutout::contour::{
    around, background_distance, chamfer_distance, contour_pixels, contour_pixels_in, contour_plane, grown,
    lists_pixels, pixel_set, seed_distance, whole, Field, CHAMFER_MAX_PX,
};
use crate::cutout::cells::{linear_ok, RIM_SQUARE_ONE};
use crate::cutout::local_colour::{build, Lean, LocalColours, Role, RIM_WINDOW};
use crate::cutout::mask::{Mask, FOREGROUND_THRESHOLD};
use crate::cutout::morphology::long_edge;
use crate::geometry::{
    at, box_of_any, in_rect, lemma_at_bound, lemma_at_join, lemma_at_split, on_plane, place, rect_on, Rect,
};
use crate::raster::RgbaImage;
use crate::sorting::{is_median, median};
use crate::sums::{lemma_rect_step, lemma_row_step, rect_sum, row_sum, sum};
use crate::tally::{lemma_ones, lemma_tally_bound, lemma_tally_step, ones, tally};

verus! {

/// A pixel within this many of the background is near the boundary.
pub const NEAR_BOUNDARY: u8 = 3;

/// The key of the distance within which a pixel has the colour of the background
/// around it: 3.
pub const SAME_AS_BACKGROUND: u64 = 0x4008_0000_0000_0000;

/// The radius of the window in which the local background colour is taken.
pub const LOCAL_BG_WINDOW: u32 = 8;

/// The width of the band along the boundary, in pixels at a long edge of 1000.
pub const RIM_BAND: u32 = 3;

/// A part of a whole that is not empty.
#[derive(Debug, Clone, Copy, PartialEq, Eq)]
pub struct Share {
    pub part: u64,
    pub whole: u64,
}

/// The mean distance between a contour and its smoothed self: a sum of distances
/// in thirds of a pixel over a number of pixels, for an image of the given scale.
#[derive(Debug, Clone, Copy, PartialEq, Eq)]
pub struct Roughness {
    pub thirds: u128,
    pub pixels: u64,
    /// The long edge, 1000 at least: distances are reported for 1000.
    pub scale: u32,
}

/// What is known of a boundary.
#[derive(Debug, Clone, Copy, PartialEq, Eq)]
pub struct Diagnostics {
    /// Opaque pixels near the boundary whose colour is that of the background
    /// around them, of all opaque pixels near the boundary.
    pub halo_ratio: Option<Share>,
    /// The median width over which alpha falls off, in half pixels.
    pub edge_width: Option<u64>,
    /// How far the contour strays from its smoothed self.
    pub contour_roughness: Option<Roughness>,
    /// Pixels of the band that are clearly closer to the background than to the
    /// foreground, of those that could be judged.
    pub rim_contamination: Option<Share>,
}

/// The scale of an image in thousandths: its long edge in pixels, 1000 at least.
pub fn scale_at_1000(width: u32, height: u32) -> (r: u32)
    ensures
        r == long_edge(width, height),
        r >= 1000,
{
    let long: u32 = if width > height { width } else { height };
    if long < 1000 {
        1000
    } else {
        long
    }
}

/// The width in pixels of the band that is looked at along the boundary, rounded
/// up.
pub fn rim_band(scale: u32) -> (r: u32)
    ensures
        r == (RIM_BAND * scale + 999) / 1000,
{
    assert(RIM_BAND * scale <= 3 * u32::MAX) by (nonlinear_arith)
        requires
            RIM_BAND == 3,
            scale <= u32::MAX,
    ;
    (((RIM_BAND as u64) * (scale as u64) + 999) / 1000) as u32
}

/// `r` is the radius of a box blur that, taken three times, spreads like a
/// Gaussian of 2 pixels at a long edge of 1000: the integer nearest to
/// `(sqrt(1 + 16 s s) - 1) / 2` for the scale `s`.
pub open spec fn spreads(scale: int, r: int) -> bool {
    &&& 0 <= r
    &&& 4_000_000 * (r * r) <= 1_000_000 + 16 * (scale * scale)
    &&& 4_000_000 * ((r + 1) * (r + 1)) > 1_000_000 + 16 * (scale * scale)
}

/// The radius of that blur.
pub fn smoothing_radius(scale: u32) -> (r: u32)
    requires
        1000 <= scale,
    ensures
        spreads(scale as int, r as int),
        2 <= r <= scale / 500 + 1,
{
    let s: u128 = scale as u128;
    let q: u128 = s / 500;
    proof {
        assert(s * s <= 0x1_0000_0000 * 0x1_0000_0000 && (q + 1) * (q + 1) <= 0x1_0000_0000 * 0x1_0000_0000)
            by (nonlinear_arith)
            requires
                0 <= s <= 0xffff_ffff,
                0 <= q + 1 <= 0x1_0000_0000,
        ;
        assert(4_000_000 * (q * q) <= 16 * (s * s)) by (nonlinear_arith)
            requires
                500 * q <= s,
                0 <= q,
        ;
        assert(4_000_000 * ((q + 2) * (q + 2)) > 1_000_000 + 16 * (s * s)) by (nonlinear_arith)
            requires
                500 * q + 500 > s,
                0 <= q,
                0 <= s,
        ;
    }
    if 4_000_000 * ((q + 1) * (q + 1)) <= 1_000_000 + 16 * (s * s) {
        (q + 1) as u32
    } else {
        q as u32
    }
}

/// The mask with nothing but 0 and 255 in it.
pub open spec fn binary(m: Seq<u8>) -> Seq<u8> {
    m.map_values(|v: u8| if v >= FOREGROUND_THRESHOLD { 255u8 } else { 0u8 })
}

/// One box blur of a rectangle: rows, then columns.
pub open spec fn blurred(m: Seq<u8>, w: int, roi: Rect, r: int) -> Seq<u8> {
    columns_smoothed(
        rows_smoothed(m, w, roi.0 as int, roi.1 as int, roi.2 + 1, roi.3 + 1, r),
        w,
        roi.0 as int,
        roi.1 as int,
        roi.2 + 1,
        roi.3 + 1,
        r,
    )
}

/// The two-valued mask after three box blurs within a rectangle.
pub open spec fn smoothed_values(m: Seq<u8>, w: int, roi: Rect, r: int) -> Seq<u8> {
    blurred(blurred(blurred(binary(m), w, roi, r), w, roi, r), w, roi, r)
}

/// Smooths the two-valued mask within a rectangle. Read with the threshold of
/// the foreground, the result is a two-valued mask again.
pub fn smoothed(mask: &Mask, radius: u32, roi: Rect) -> (r: Mask)
    requires
        mask.wf(),
        rect_on(roi, mask.w() as int, mask.h() as int),
    ensures
        r.wf(),
        r.w() == mask.w(),
        r.h() == mask.h(),
        r@ == smoothed_values(mask@, mask.w() as int, roi, radius as int),
{
    let w: usize = mask.width() as usize;
    let h: usize = mask.height() as usize;
    let values: &[u8] = mask.as_slice();
    let mut data: Vec<u8> = Vec::with_capacity(values.len());
    let mut i: usize = 0;
    while i < values.len()
        invariant
            values@ == mask@,
            i <= values@.len(),
            data@.len() == i,
            forall|k: int| 0 <= k < i ==> #[trigger] data@[k] == binary(mask@)[k],
        decreases values@.len() - i,
    {
        data.push(if values[i] >= FOREGROUND_THRESHOLD { 255 } else { 0 });
        i += 1;
    }
    assert(data@ =~= binary(mask@));
    let (x0, y0): (usize, usize) = (roi.0 as usize, roi.1 as usize);
    let (x1, y1): (usize, usize) = (roi.2 as usize + 1, roi.3 as usize + 1);
    let r: usize = radius as usize;
    blur_rows(&mut data, w, h, x0, y0, x1, y1, r);
    blur_columns(&mut data, w, h, x0, y0, x1, y1, r);
    blur_rows(&mut data, w, h, x0, y0, x1, y1, r);
    blur_columns(&mut data, w, h, x0, y0, x1, y1, r);
    blur_rows(&mut data, w, h, x0, y0, x1, y1, r);
    blur_columns(&mut data, w, h, x0, y0, x1, y1, r);
    Mask::from_values(mask.width(), mask.height(), data)
}

/// What is added up for the roughness: each distance, but no more than `cap`.
pub open spec fn capped(d: Seq<int>, cap: int) -> Seq<int> {
    d.map_values(|v: int| if v > cap { cap } else { v })
}

/// `total` is the sum over `contour` of the distances to `smooth`, each no more
/// than `cap`.
pub open spec fn adds_up(contour: Seq<(u32, u32)>, smooth: Seq<(u32, u32)>, roi: Rect, cap: int, total: int) -> bool {
    exists|d: Seq<int>| #[trigger]
        distances(contour, smooth, roi, d) && total == sum(capped(d, cap))
}

/// `d` holds the distance of each pixel of `contour` to `smooth`.
pub open spec fn distances(contour: Seq<(u32, u32)>, smooth: Seq<(u32, u32)>, roi: Rect, d: Seq<int>) -> bool {
    &&& d.len() == contour.len()
    &&& forall|k: int|
        0 <= k < d.len() ==> seed_distance(
            smooth,
            roi,
            contour[k].0 as int,
            contour[k].1 as int,
            #[trigger] d[k],
        )
}

/// A smoothed mask, the rectangle it was smoothed in, and its contour.
pub open spec fn is_reference(
    mask: &Mask,
    contour: Seq<(u32, u32)>,
    bbox: Option<Rect>,
    r: int,
    roi: Rect,
    reference: Mask,
    smooth: Seq<(u32, u32)>,
) -> bool {
    let (w, h) = (mask.w() as int, mask.h() as int);
    &&& exists|b: Rect| #[trigger] box_of_any(pixel_set(contour), Some(b)) && roi == grown(b, 3 * r + 2, w, h)
    &&& reference.wf()
    &&& reference.w() == mask.w()
    &&& reference.h() == mask.h()
    &&& reference@ == smoothed_values(mask@, w, roi, r)
    &&& lists_pixels(smooth, w, contour_plane(&reference, bbox, roi))
}

/// The roughness of a contour: the mean distance to the contour of the smoothed
/// mask. A distance beyond the reach of the smoothing says nothing and is cut
/// off there. Without a contour, or where smoothing leaves none, there is no
/// value.
pub open spec fn has_roughness(
    mask: &Mask,
    contour: Seq<(u32, u32)>,
    bbox: Option<Rect>,
    value: Option<Roughness>,
) -> bool {
    let scale = long_edge(mask.w(), mask.h());
    if contour.len() == 0 {
        value is None
    } else {
        exists|r: int, roi: Rect, reference: Mask, smooth: Seq<(u32, u32)>|
            #![trigger is_reference(mask, contour, bbox, r, roi, reference, smooth)]
            {
                &&& spreads(scale, r)
                &&& is_reference(mask, contour, bbox, r, roi, reference, smooth)
                &&& value is Some <==> smooth.len() > 0
                &&& value matches Some(v) ==> v.pixels == contour.len() && v.scale == scale && adds_up(
                    contour,
                    smooth,
                    roi,
                    if 9 * r < 255 { 9 * r } else { 255 },
                    v.thirds as int,
                )
            }
    }
}

/// The pixels of a listed contour lie on the mask.
proof fn lemma_contour_inside(mask: &Mask, bbox: Option<Rect>, roi: Rect, r: Seq<(u32, u32)>)
    requires
        mask.wf(),
        lists_pixels(r, mask.w() as int, contour_plane(mask, bbox, roi)),
    ensures
        forall|k: int| 0 <= k < r.len() ==> mask.inside((#[trigger] r[k]).0 as int, r[k].1 as int),
        forall|k: int| 0 <= k < r.len() ==> in_rect(roi, (#[trigger] r[k]).0 as int, r[k].1 as int),
        r.len() <= mask@.len(),
{
    let w = mask.w() as int;
    let s = contour_plane(mask, bbox, roi);
    lemma_ones(s);
    lemma_tally_bound(s);
    assert forall|k: int| 0 <= k < r.len() implies mask.inside((#[trigger] r[k]).0 as int, r[k].1 as int) && in_rect(
        roi,
        r[k].0 as int,
        r[k].1 as int,
    ) by {
        let i = ones(s)[k];
        assert(at(w, r[k].0 as int, r[k].1 as int) == i);
        lemma_at_split(w, r[k].0 as int, r[k].1 as int);
        lemma_at_join(w, mask.h() as int, i);
    }
}

/// How far the contour strays from its smoothed self.
pub fn contour_roughness(mask: &Mask, bbox: Option<Rect>) -> (r: Option<Roughness>)
    requires
        mask.wf(),
        0 < mask.w(),
        0 < mask.h(),
    ensures
        exists|contour: Seq<(u32, u32)>| #[trigger]
            lists_pixels(contour, mask.w() as int, contour_plane(mask, bbox, whole(mask))) && has_roughness(
                mask,
                contour,
                bbox,
                r,
            ),
        r matches Some(v) ==> 0 < v.pixels && v.thirds <= 255 * v.pixels,
{
    let contour: Vec<(u32, u32)> = contour_pixels(mask, bbox);
    proof {
        lemma_contour_inside(mask, bbox, whole(mask), contour@);
    }
    roughness_of(mask, contour.as_slice(), bbox)
}

fn roughness_of(mask: &Mask, contour: &[(u32, u32)], bbox: Option<Rect>) -> (r: Option<Roughness>)
    requires
        mask.wf(),
        forall|k: int|
            0 <= k < contour@.len() ==> mask.inside((#[trigger] contour@[k]).0 as int, contour@[k].1 as int),
    ensures
        has_roughness(mask, contour@, bbox, r),
        r matches Some(v) ==> 0 < v.pixels && v.thirds <= 255 * v.pixels,
{
    if contour.len() == 0 {
        return None;
    }
    let w: u32 = mask.width();
    let h: u32 = mask.height();
    proof {
        assert(mask.inside(contour@[0].0 as int, contour@[0].1 as int));
    }
    let scale: u32 = scale_at_1000(w, h);
    let radius: u32 = smoothing_radius(scale);
    let roi: Rect = around(contour, w, h, 3 * radius + 2);
    let reference: Mask = smoothed(mask, radius, roi);
    let smooth: Vec<(u32, u32)> = contour_pixels_in(&reference, bbox, roi);
    assert(is_reference(mask, contour@, bbox, radius as int, roi, reference, smooth@));
    if smooth.len() == 0 {
        return None;
    }
    proof {
        lemma_contour_inside(&reference, bbox, roi, smooth@);
        assert((roi.2 - roi.0 + 1) * (roi.3 - roi.1 + 1) <= w * h) by (nonlinear_arith)
            requires
                roi.0 <= roi.2 < w,
                roi.1 <= roi.3 < h,
        ;
    }
    let field: Field = chamfer_distance(smooth.as_slice(), roi);
    let cap: u8 = if radius < 29 { (9 * radius) as u8 } else { 255 };
    let ghost mut d: Seq<int> = Seq::empty();
    let mut thirds: u128 = 0;
    let mut k: usize = 0;
    assert(capped(d, cap as int) =~= Seq::empty());
    while k < contour.len()
        invariant
            mask.wf(),
            rect_on(roi, mask.w() as int, mask.h() as int),
            field.wf(),
            field.area() == roi,
            forall|x: int, y: int|
                in_rect(roi, x, y) ==> seed_distance(smooth@, roi, x, y, (#[trigger] field.value(x, y)) as int),
            forall|j: int|
                0 <= j < contour@.len() ==> in_rect(roi, (#[trigger] contour@[j]).0 as int, contour@[j].1 as int),
            k <= contour@.len() <= u64::MAX,
            d.len() == k,
            forall|j: int|
                0 <= j < d.len() ==> seed_distance(
                    smooth@,
                    roi,
                    contour@[j].0 as int,
                    contour@[j].1 as int,
                    #[trigger] d[j],
                ),
            thirds == sum(capped(d, cap as int)),
            thirds <= 255 * k,
        decreases contour@.len() - k,
    {
        let (x, y) = contour[k];
        assert(in_rect(roi, contour@[k as int].0 as int, contour@[k as int].1 as int));
        let v: u8 = field.at(x, y);
        let ghost had = d;
        proof {
            assert(seed_distance(smooth@, roi, x as int, y as int, field.value(x as int, y as int) as int));
            d = d.push(v as int);
            assert(capped(d, cap as int).drop_last() =~= capped(had, cap as int));
        }
        thirds += (if v > cap { cap } else { v }) as u128;
        k += 1;
    }
    assert(distances(contour@, smooth@, roi, d));
    Some(Roughness { thirds, pixels: contour.len() as u64, scale })
}

/// One channel of the fully transparent pixels, 0 elsewhere.
pub open spec fn clear_channel(image: &RgbaImage, mask: &Mask, k: int) -> spec_fn(int, int) -> int {
    |u: int, v: int| if mask.px(u, v) == 0 { image.px(u, v)[k] as int } else { 0 }
}

/// 1 at the fully transparent pixels, 0 elsewhere.
pub open spec fn clear_one(mask: &Mask) -> spec_fn(int, int) -> int {
    |u: int, v: int| if mask.px(u, v) == 0 { 1int } else { 0 }
}

/// The window around a pixel, cut off at the image.
pub open spec fn local_window(mask: &Mask, x: u32, y: u32) -> Rect {
    grown((x, y, x, y), LOCAL_BG_WINDOW as int, mask.w() as int, mask.h() as int)
}

/// The sum of `g` over a rectangle.
pub open spec fn over(g: spec_fn(int, int) -> int, r: Rect) -> int {
    rect_sum(g, r.0 as int, r.2 + 1, r.1 as int, r.3 + 1)
}

/// `colour` is the mean colour, rounded down, of the fully transparent pixels in
/// the window around `(x, y)`, and absent if there are none.
pub open spec fn is_local_background(image: &RgbaImage, mask: &Mask, x: u32, y: u32, colour: Option<[u8; 3]>) -> bool {
    let r = local_window(mask, x, y);
    let n = over(clear_one(mask), r);
    match colour {
        None => n == 0,
        Some(c) => n > 0 && forall|k: int|
            0 <= k < 3 ==> #[trigger] c[k] == over(clear_channel(image, mask, k), r) / n,
    }
}

/// The mean of values up to 255 is no more than that.
proof fn lemma_mean_fits(total: int, n: int)
    requires
        0 < n,
        0 <= total <= 255 * n,
    ensures
        0 <= total / n <= 255,
{
    assert(0 <= total / n <= 255) by (nonlinear_arith)
        requires
            0 < n,
            0 <= total <= 255 * n,
    ;
}

/// The colour of the background around a pixel. The local colour is taken, not
/// that of the whole background, so that shading and shadows do not mislead.
fn local_background(image: &RgbaImage, mask: &Mask, x: u32, y: u32) -> (r: Option<[u8; 3]>)
    requires
        image.wf(),
        mask.wf(),
        image.w() == mask.w(),
        image.h() == mask.h(),
        mask.inside(x as int, y as int),
    ensures
        is_local_background(image, mask, x, y, r),
{
    let w: u32 = mask.width();
    let h: u32 = mask.height();
    let area: Rect = crate::cutout::contour::grow((x, y, x, y), LOCAL_BG_WINDOW, w, h);
    let ghost (x0, x1, y0, y1) = (area.0 as int, area.2 + 1, area.1 as int, area.3 + 1);
    let ghost one = clear_one(mask);
    let ghost (red, green, blue) = (
        clear_channel(image, mask, 0),
        clear_channel(image, mask, 1),
        clear_channel(image, mask, 2),
    );
    let mut sums: [u64; 3] = [0, 0, 0];
    let mut n: u64 = 0;
    let mut v: u32 = area.1;
    while v <= area.3
        invariant
            image.wf(),
            mask.wf(),
            image.w() == mask.w() == w,
            image.h() == mask.h() == h,
            rect_on(area, w as int, h as int),
            x0 == area.0,
            x1 == area.2 + 1,
            y0 == area.1,
            y1 == area.3 + 1,
            x1 - x0 <= 17,
            y1 - y0 <= 17,
            one == clear_one(mask),
            red == clear_channel(image, mask, 0),
            green == clear_channel(image, mask, 1),
            blue == clear_channel(image, mask, 2),
            y0 <= v <= y1,
            n == rect_sum(one, x0, x1, y0, v as int),
            sums[0] == rect_sum(red, x0, x1, y0, v as int),
            sums[1] == rect_sum(green, x0, x1, y0, v as int),
            sums[2] == rect_sum(blue, x0, x1, y0, v as int),
            n <= 17 * (v - y0),
            sums[0] <= 255 * n,
            sums[1] <= 255 * n,
            sums[2] <= 255 * n,
        decreases y1 - v,
    {
        let mut u: u32 = area.0;
        let ghost (m, s) = (n, sums);
        while u <= area.2
            invariant
                image.wf(),
                mask.wf(),
                image.w() == mask.w() == w,
                image.h() == mask.h() == h,
                rect_on(area, w as int, h as int),
                x0 == area.0,
                x1 == area.2 + 1,
                y0 == area.1,
                y1 == area.3 + 1,
                x1 - x0 <= 17,
                y1 - y0 <= 17,
                one == clear_one(mask),
                red == clear_channel(image, mask, 0),
                green == clear_channel(image, mask, 1),
                blue == clear_channel(image, mask, 2),
                y0 <= v < y1,
                x0 <= u <= x1,
                m <= 17 * (v - y0),
                n == m + row_sum(one, x0, u as int, v as int),
                sums[0] == s[0] + row_sum(red, x0, u as int, v as int),
                sums[1] == s[1] + row_sum(green, x0, u as int, v as int),
                sums[2] == s[2] + row_sum(blue, x0, u as int, v as int),
                m <= n <= m + (u - x0),
                sums[0] <= 255 * n,
                sums[1] <= 255 * n,
                sums[2] <= 255 * n,
            decreases x1 - u,
        {
            proof {
                lemma_row_step(one, x0, u as int, v as int);
                lemma_row_step(red, x0, u as int, v as int);
                lemma_row_step(green, x0, u as int, v as int);
                lemma_row_step(blue, x0, u as int, v as int);
            }
            if mask.get(u, v) == 0 {
                let p: [u8; 4] = image.get_pixel(u, v);
                sums = [sums[0] + p[0] as u64, sums[1] + p[1] as u64, sums[2] + p[2] as u64];
                n += 1;
            }
            u += 1;
        }
        proof {
            lemma_rect_step(one, x0, x1, y0, v as int);
            lemma_rect_step(red, x0, x1, y0, v as int);
            lemma_rect_step(green, x0, x1, y0, v as int);
            lemma_rect_step(blue, x0, x1, y0, v as int);
        }
        v += 1;
    }
    if n == 0 {
        return None;
    }
    proof {
        lemma_mean_fits(sums[0] as int, n as int);
        lemma_mean_fits(sums[1] as int, n as int);
        lemma_mean_fits(sums[2] as int, n as int);
    }
    let c: [u8; 3] = [(sums[0] / n) as u8, (sums[1] / n) as u8, (sums[2] / n) as u8];
    Some(c)
}

/// An opaque pixel near the boundary, and the background colour around it.
#[derive(Debug, Clone, Copy, PartialEq, Eq)]
pub struct Probe {
    pub x: u32,
    pub y: u32,
    /// Absent where nothing transparent is near; the colour of the background as
    /// a whole stands in then.
    pub local: Option<[u8; 3]>,
}

/// `(x, y)` is foreground near the boundary: some pixel within
/// `NEAR_BOUNDARY`, diagonals counting as one, is not.
pub open spec fn near_boundary(mask: &Mask, x: int, y: int) -> bool {
    mask.fg(x, y) && exists|u: int, v: int|
        mask.inside(u, v) && -NEAR_BOUNDARY <= u - x <= NEAR_BOUNDARY && -NEAR_BOUNDARY <= v - y <= NEAR_BOUNDARY
            && !#[trigger] mask.fg(u, v)
}

/// The pixels near the boundary, as a plane.
pub open spec fn boundary_plane(mask: &Mask) -> Seq<bool> {
    let w = mask.w() as int;
    Seq::new(mask@.len(), |i: int| near_boundary(mask, i % w, i / w))
}

/// A small distance to the background is a pixel of it close by.
proof fn lemma_near(mask: &Mask, x: int, y: int, v: int)
    requires
        mask.wf(),
        mask.inside(x, y),
        is_distance(
            false,
            mask@.map_values(|a: u8| a < FOREGROUND_THRESHOLD),
            mask.w() as int,
            mask.h() as int,
            255,
            x,
            y,
            v,
        ),
    ensures
        near_boundary(mask, x, y) <==> mask.fg(x, y) && v <= NEAR_BOUNDARY,
{
    let (w, h) = (mask.w() as int, mask.h() as int);
    let seed = mask@.map_values(|a: u8| a < FOREGROUND_THRESHOLD);
    if near_boundary(mask, x, y) {
        let (p, q) = choose|p: int, q: int|
            mask.inside(p, q) && -NEAR_BOUNDARY <= p - x <= NEAR_BOUNDARY && -NEAR_BOUNDARY <= q - y <= NEAR_BOUNDARY
                && !#[trigger] mask.fg(p, q);
        lemma_at_bound(w, h, p, q);
        assert(seed[at(w, p, q)]);
    }
    if mask.fg(x, y) && v <= NEAR_BOUNDARY {
        let (p, q) = choose|p: int, q: int|
            on_plane(w, h, p, q) && #[trigger] seed[at(w, p, q)] && crate::cutout::chamfer::span(
                false,
                x - p,
                y - q,
            ) == v;
        lemma_at_bound(w, h, p, q);
        assert(!mask.fg(p, q));
    }
}

/// Collects the opaque pixels near the boundary with the background colour around
/// each, row by row. A picture of another size than the mask gives none.
pub fn halo_probes(image: &RgbaImage, mask: &Mask) -> (r: Vec<Probe>)
    requires
        image.wf(),
        mask.wf(),
    ensures
        image.w() != mask.w() || image.h() != mask.h() ==> r@.len() == 0,
        image.w() == mask.w() && image.h() == mask.h() ==> {
            &&& lists_pixels(
                r@.map_values(|p: Probe| (p.x, p.y)),
                mask.w() as int,
                boundary_plane(mask),
            )
            &&& forall|k: int|
                0 <= k < r@.len() ==> is_local_background(
                    image,
                    mask,
                    (#[trigger] r@[k]).x,
                    r@[k].y,
                    r@[k].local,
                )
        },
{
    let w: u32 = mask.width();
    let h: u32 = mask.height();
    let mut r: Vec<Probe> = Vec::new();
    if image.width() != w || image.height() != h {
        return r;
    }
    let near: Vec<u8> = background_distance(mask);
    let ghost (wi, hi) = (w as int, h as int);
    let ghost s = boundary_plane(mask);
    let n: usize = near.len();
    let mut i: usize = 0;
    assert(s.take(0) =~= Seq::empty());
    while i < n
        invariant
            image.wf(),
            mask.wf(),
            image.w() == mask.w() == w,
            image.h() == mask.h() == h,
            wi == w,
            hi == h,
            s == boundary_plane(mask),
            n == near@.len() == mask@.len(),
            forall|x: int, y: int|
                mask.inside(x, y) ==> is_distance(
                    false,
                    mask@.map_values(|v: u8| v < FOREGROUND_THRESHOLD),
                    wi,
                    hi,
                    255,
                    x,
                    y,
                    (#[trigger] near@[at(wi, x, y)]) as int,
                ),
            i <= n,
            lists_pixels(r@.map_values(|p: Probe| (p.x, p.y)), wi, s.take(i as int)),
            forall|k: int|
                0 <= k < r@.len() ==> is_local_background(
                    image,
                    mask,
                    (#[trigger] r@[k]).x,
                    r@[k].y,
                    r@[k].local,
                ),
        decreases n - i,
    {
        proof {
            crate::cutout::cells::lemma_small_place(wi, hi, i as int);
            lemma_tally_step(s, i as int);
        }
        let x: u32 = (i % (w as usize)) as u32;
        let y: u32 = (i / (w as usize)) as u32;
        proof {
            assert(is_distance(
                false,
                mask@.map_values(|v: u8| v < FOREGROUND_THRESHOLD),
                wi,
                hi,
                255,
                x as int,
                y as int,
                near@[at(wi, x as int, y as int)] as int,
            ));
            lemma_near(mask, x as int, y as int, near@[i as int] as int);
        }
        if mask.is_foreground(x, y) && near[i] <= NEAR_BOUNDARY {
            let local: Option<[u8; 3]> = local_background(image, mask, x, y);
            let ghost had = r@;
            r.push(Probe { x, y, local });
            proof {
                let a = had.map_values(|p: Probe| (p.x, p.y));
                let b = r@.map_values(|p: Probe| (p.x, p.y));
                assert(b =~= a.push((x, y)));
                assert forall|k: int| 0 <= k < b.len() implies at(wi, (#[trigger] b[k]).0 as int, b[k].1 as int)
                    == ones(s.take(i + 1))[k] by {
                    if k < a.len() {
                        assert(b[k] == a[k]);
                    }
                }
            }
        }
        i += 1;
    }
    assert(s.take(n as int) =~= s);
    r
}

/// The probes whose colour is that of the background around them.
pub open spec fn halo_plane(deltas: Seq<u64>) -> Seq<bool> {
    Seq::new(deltas.len(), |i: int| deltas[i] <= SAME_AS_BACKGROUND)
}

/// The share of the probes whose colour is that of the background around them,
/// or nothing if there are no probes. `deltas` tells how far each probe is from
/// that background.
pub fn halo_ratio(deltas: &[u64]) -> (r: Option<Share>)
    ensures
        r is None <==> deltas@.len() == 0,
        r matches Some(v) ==> v.part == tally(halo_plane(deltas@)) && v.whole == deltas@.len(),
{
    if deltas.len() == 0 {
        return None;
    }
    let ghost s = halo_plane(deltas@);
    let mut part: u64 = 0;
    let mut i: usize = 0;
    while i < deltas.len()
        invariant
            s == halo_plane(deltas@),
            i <= deltas@.len(),
            part == tally(s.take(i as int)),
            part <= i,
        decreases deltas@.len() - i,
    {
        proof {
            lemma_tally_step(s, i as int);
        }
        if deltas[i] <= SAME_AS_BACKGROUND {
            part += 1;
        }
        i += 1;
    }
    assert(s.take(i as int) =~= s);
    Some(Share { part, whole: deltas.len() as u64 })
}

/// What the contamination of the rim is judged by.
pub struct RimPlan {
    /// The distance to the contour.
    pub distance: Field,
    /// The width of the band in thirds of a pixel.
    pub band: u32,
    /// What each pixel says of the colours around it.
    pub roles: Vec<Role>,
    /// Where reference colours are gathered.
    pub gathered: Rect,
    /// Where the band lies.
    pub judged: Rect,
}

/// The role of a pixel: what is fully transparent is background, and what is
/// fully opaque beyond the band is foreground. The rest is mixed.
pub open spec fn rim_role(alpha: u8, distance: u8, band: int) -> Role {
    if alpha == 0 {
        Role::Background
    } else if alpha == 255 && distance > band {
        Role::Foreground
    } else {
        Role::Skip
    }
}

/// The width of the band in thirds of a pixel.
pub open spec fn band_thirds(scale: int) -> int {
    let px = (RIM_BAND * scale + 999) / 1000;
    3 * if px < CHAMFER_MAX_PX { px } else { CHAMFER_MAX_PX as int }
}

impl RimPlan {
    /// The plan follows from the mask and its contour.
    pub open spec fn follows(&self, mask: &Mask, contour: Seq<(u32, u32)>) -> bool {
        let (w, h) = (mask.w() as int, mask.h() as int);
        let scale = long_edge(mask.w(), mask.h());
        let px = (RIM_BAND * scale + 999) / 1000;
        let window = (RIM_WINDOW * scale + 999) / 1000;
        &&& self.band == band_thirds(scale)
        &&& self.distance.wf()
        &&& exists|b: Rect| #[trigger]
            box_of_any(pixel_set(contour), Some(b)) && self.distance.area() == grown(b, px + 1, w, h)
                && self.gathered == grown(b, px + window, w, h) && self.judged == grown(b, px, w, h)
        &&& rect_on(self.judged, w, h)
        &&& rect_on(self.gathered, w, h)
        &&& forall|x: int, y: int|
            in_rect(self.distance.area(), x, y) ==> seed_distance(
                contour,
                self.distance.area(),
                x,
                y,
                (#[trigger] self.distance.value(x, y)) as int,
            )
        &&& self.roles@.len() == mask@.len()
        &&& forall|i: int|
            0 <= i < mask@.len() ==> #[trigger] self.roles@[i] == rim_role(
                mask@[i],
                self.distance.value(i % w, i / w),
                self.band as int,
            )
    }

    /// `(x, y)` is foreground within the band.
    pub open spec fn in_band(&self, mask: &Mask, x: int, y: int) -> bool {
        mask.fg(x, y) && self.distance.value(x, y) <= self.band
    }
}

/// Plans how to judge the rim, if there is a contour.
pub fn rim_plan(mask: &Mask, bbox: Option<Rect>) -> (r: Option<RimPlan>)
    requires
        mask.wf(),
        0 < mask.w(),
        0 < mask.h(),
    ensures
        exists|contour: Seq<(u32, u32)>| #[trigger]
            lists_pixels(contour, mask.w() as int, contour_plane(mask, bbox, whole(mask))) && (r is None
                <==> contour.len() == 0) && (r matches Some(plan) ==> plan.follows(mask, contour)),
{
    let w: u32 = mask.width();
    let h: u32 = mask.height();
    let ghost (wi, hi) = (w as int, h as int);
    let contour: Vec<(u32, u32)> = contour_pixels(mask, bbox);
    proof {
        lemma_contour_inside(mask, bbox, whole(mask), contour@);
    }
    if contour.len() == 0 {
        return None;
    }
    let scale: u32 = scale_at_1000(w, h);
    let px: u32 = rim_band(scale);
    let band: u32 = 3 * if px < CHAMFER_MAX_PX { px } else { CHAMFER_MAX_PX };
    assert(RIM_WINDOW * scale <= 8 * u32::MAX) by (nonlinear_arith)
        requires
            RIM_WINDOW == 8,
            scale <= u32::MAX,
    ;
    let window: u32 = (((RIM_WINDOW as u64) * (scale as u64) + 999) / 1000) as u32;
    let area: Rect = around(contour.as_slice(), w, h, px + 1);
    let gathered: Rect = around(contour.as_slice(), w, h, px + window);
    let judged: Rect = around(contour.as_slice(), w, h, px);
    proof {
        assert((area.2 - area.0 + 1) * (area.3 - area.1 + 1) <= w * h) by (nonlinear_arith)
            requires
                area.0 <= area.2 < w,
                area.1 <= area.3 < h,
        ;
    }
    let distance: Field = chamfer_distance(contour.as_slice(), area);
    let alpha: &[u8] = mask.as_slice();
    let mut roles: Vec<Role> = Vec::with_capacity(alpha.len());
    let mut i: usize = 0;
    while i < alpha.len()
        invariant
            mask.wf(),
            wi == w == mask.w(),
            hi == h == mask.h(),
            alpha@ == mask@,
            distance.wf(),
            i <= alpha@.len(),
            roles@.len() == i,
            forall|k: int|
                0 <= k < i ==> #[trigger] roles@[k] == rim_role(
                    mask@[k],
                    distance.value(k % wi, k / wi),
                    band as int,
                ),
        decreases alpha@.len() - i,
    {
        proof {
            crate::cutout::cells::lemma_small_place(wi, hi, i as int);
        }
        let x: u32 = (i % (w as usize)) as u32;
        let y: u32 = (i / (w as usize)) as u32;
        let role: Role = if alpha[i] == 0 {
            Role::Background
        } else if alpha[i] == 255 && distance.at(x, y) as u32 > band {
            Role::Foreground
        } else {
            Role::Skip
        };
        roles.push(role);
        i += 1;
    }
    let plan: RimPlan = RimPlan { distance, band, roles, gathered, judged };
    proof {
        let b = choose|b: Rect| #[trigger]
            box_of_any(pixel_set(contour@), Some(b)) && area == grown(b, px + 1, wi, hi) && rect_on(b, wi, hi);
        let c = choose|b: Rect| #[trigger]
            box_of_any(pixel_set(contour@), Some(b)) && gathered == grown(b, px + window, wi, hi) && rect_on(b, wi, hi);
        let d = choose|b: Rect| #[trigger]
            box_of_any(pixel_set(contour@), Some(b)) && judged == grown(b, px as int, wi, hi) && rect_on(b, wi, hi);
        lemma_box_unique(pixel_set(contour@), b, c);
        lemma_box_unique(pixel_set(contour@), b, d);
        assert(plan.follows(mask, contour@));
    }
    Some(plan)
}

/// A set of pixels has one bounding box.
pub proof fn lemma_box_unique(s: Set<(int, int)>, a: Rect, b: Rect)
    requires
        box_of_any(s, Some(a)),
        box_of_any(s, Some(b)),
    ensures
        a == b,
{
    assert(crate::geometry::box_of(s, a) && crate::geometry::box_of(s, b));
}

/// 1 at the band pixels for which `lean` holds, 0 elsewhere.
pub open spec fn band_where(
    plan: &RimPlan,
    mask: &Mask,
    leans: Seq<Option<Lean>>,
    test: spec_fn(Option<Lean>) -> bool,
) -> spec_fn(int, int) -> int {
    |x: int, y: int|
        if plan.in_band(mask, x, y) && test(leans[at(mask.w() as int, x, y)]) {
            1int
        } else {
            0
        }
}

pub open spec fn any_lean() -> spec_fn(Option<Lean>) -> bool {
    |l: Option<Lean>| true
}

pub open spec fn judged_lean() -> spec_fn(Option<Lean>) -> bool {
    |l: Option<Lean>| l is Some
}

pub open spec fn background_lean() -> spec_fn(Option<Lean>) -> bool {
    |l: Option<Lean>| l == Some(Lean::Background)
}

/// `r` is the share of the band that leans to the background.
pub open spec fn contaminates(mask: &Mask, plan: &RimPlan, leans: Seq<Option<Lean>>, r: Option<Share>) -> bool {
    let band = over(band_where(plan, mask, leans, any_lean()), plan.judged);
    let judged = over(band_where(plan, mask, leans, judged_lean()), plan.judged);
    let dirty = over(band_where(plan, mask, leans, background_lean()), plan.judged);
    &&& r is Some <==> 2 * judged >= band && judged > 0
    &&& r matches Some(v) ==> v.part == dirty && v.whole == judged
}

/// The share of the band that leans to the background, of what could be judged.
/// Where that is less than half of the band nothing is said: silence about the
/// rest would read as praise.
pub fn contamination_of(mask: &Mask, plan: &RimPlan, leans: &[Option<Lean>]) -> (r: Option<Share>)
    requires
        mask.wf(),
        plan.distance.wf(),
        rect_on(plan.judged, mask.w() as int, mask.h() as int),
        leans@.len() == mask@.len(),
        mask@.len() < u64::MAX / 2,
    ensures
        contaminates(mask, plan, leans@, r),
{
    let area: Rect = plan.judged;
    let ghost (x0, x1, y0, y1) = (area.0 as int, area.2 + 1, area.1 as int, area.3 + 1);
    let ghost (w, h) = (mask.w() as int, mask.h() as int);
    let ghost f = band_where(plan, mask, leans@, any_lean());
    let ghost g = band_where(plan, mask, leans@, judged_lean());
    let ghost e = band_where(plan, mask, leans@, background_lean());
    let mut in_band: u64 = 0;
    let mut decided: u64 = 0;
    let mut dirty: u64 = 0;
    let mut y: u32 = area.1;
    assert(at(w, 0, y0) >= 0) by (nonlinear_arith)
        requires
            at(w, 0, y0) == y0 * w + 0,
            0 <= y0,
            0 <= w,
    ;
    while y <= area.3
        invariant
            mask.wf(),
            w == mask.w(),
            h == mask.h(),
            plan.distance.wf(),
            area == plan.judged,
            rect_on(area, w, h),
            x0 == area.0,
            x1 == area.2 + 1,
            y0 == area.1,
            y1 == area.3 + 1,
            leans@.len() == mask@.len() < u64::MAX / 2,
            f == band_where(plan, mask, leans@, any_lean()),
            g == band_where(plan, mask, leans@, judged_lean()),
            e == band_where(plan, mask, leans@, background_lean()),
            y0 <= y <= y1,
            in_band == rect_sum(f, x0, x1, y0, y as int),
            decided == rect_sum(g, x0, x1, y0, y as int),
            dirty == rect_sum(e, x0, x1, y0, y as int),
            dirty <= decided <= in_band <= at(w, 0, y as int),
        decreases y1 - y,
    {
        let mut x: u32 = area.0;
        let ghost (a, b, c) = (in_band, decided, dirty);
        while x <= area.2
            invariant
                mask.wf(),
                w == mask.w(),
                h == mask.h(),
                plan.distance.wf(),
                area == plan.judged,
                rect_on(area, w, h),
                x0 == area.0,
                x1 == area.2 + 1,
                y0 == area.1,
                y1 == area.3 + 1,
                leans@.len() == mask@.len() < u64::MAX / 2,
                f == band_where(plan, mask, leans@, any_lean()),
                g == band_where(plan, mask, leans@, judged_lean()),
                e == band_where(plan, mask, leans@, background_lean()),
                y0 <= y < y1,
                x0 <= x <= x1,
                in_band == a + row_sum(f, x0, x as int, y as int),
                decided == b + row_sum(g, x0, x as int, y as int),
                dirty == c + row_sum(e, x0, x as int, y as int),
                dirty <= decided <= in_band <= at(w, x as int, y as int),
            decreases x1 - x,
        {
            proof {
                lemma_row_step(f, x0, x as int, y as int);
                lemma_row_step(g, x0, x as int, y as int);
                lemma_row_step(e, x0, x as int, y as int);
                lemma_at_bound(w, h, x as int, y as int);
            }
            if mask.is_foreground(x, y) && plan.distance.at(x, y) as u32 <= plan.band {
                in_band += 1;
                let i: usize = place(mask.width() as usize, x as usize, y as usize, Ghost(h));
                match leans[i] {
                    None => {},
                    Some(lean) => {
                        decided += 1;
                        if lean == Lean::Background {
                            dirty += 1;
                        }
                    },
                }
            }
            x += 1;
        }
        proof {
            lemma_rect_step(f, x0, x1, y0, y as int);
            lemma_rect_step(g, x0, x1, y0, y as int);
            lemma_rect_step(e, x0, x1, y0, y as int);
            assert(at(w, x1, y as int) <= at(w, 0, y + 1)) by (nonlinear_arith)
                requires
                    at(w, x1, y as int) == y * w + x1,
                    at(w, 0, y + 1) == (y + 1) * w + 0,
                    x1 <= w,
            ;
            lemma_at_bound(w, h, area.2 as int, y as int);
        }
        y += 1;
    }
    assert(at(w, 0, y1) <= w * h) by (nonlinear_arith)
        requires
            at(w, 0, y1) == y1 * w + 0,
            y1 <= h,
            0 <= w,
    ;
    if decided > 0 && 2 * decided >= in_band {
        Some(Share { part: dirty, whole: decided })
    } else {
        None
    }
}

/// `r` is the contamination of the rim of a mask over a picture, by the colours
/// gathered around its contour.
pub open spec fn rim_judged(
    image: &RgbaImage,
    mask: &Mask,
    linear: Seq<u32>,
    plan: &RimPlan,
    colours: &LocalColours,
    leans: Seq<Option<Lean>>,
    r: Option<Share>,
) -> bool {
    &&& colours.built(image, plan.gathered, long_edge(mask.w(), mask.h()), plan.roles@, linear)
    &&& leans.len() == mask@.len()
    &&& forall|x: int, y: int|
        mask.inside(x, y) ==> #[trigger] leans[at(mask.w() as int, x, y)] == colours.lean_at(image, linear, x, y)
    &&& contaminates(mask, plan, leans, r)
}

/// `r` is how much of the rim is background. A picture of another size than the
/// mask has no answer, and neither has a mask without a contour.
pub open spec fn is_contamination(
    image: &RgbaImage,
    mask: &Mask,
    bbox: Option<Rect>,
    linear: Seq<u32>,
    r: Option<Share>,
) -> bool {
    &&& image.w() != mask.w() || image.h() != mask.h() || mask@.len() == 0 ==> r is None
    &&& image.w() == mask.w() && image.h() == mask.h() && mask@.len() > 0 ==> exists|contour: Seq<(u32, u32)>| #[trigger]
        lists_pixels(contour, mask.w() as int, contour_plane(mask, bbox, whole(mask))) && if contour.len() == 0 {
            r is None
        } else {
            exists|plan: RimPlan, colours: LocalColours, leans: Seq<Option<Lean>>|
                plan.follows(mask, contour) && #[trigger] rim_judged(
                    image,
                    mask,
                    linear,
                    &plan,
                    &colours,
                    leans,
                    r,
                )
        }
}

/// How much of the rim is background.
pub fn rim_contamination(image: &RgbaImage, mask: &Mask, bbox: Option<Rect>, linear: &[u32]) -> (r: Option<Share>)
    requires
        image.wf(),
        mask.wf(),
        linear_ok(linear@),
        image@.len() * RIM_SQUARE_ONE <= u64::MAX,
    ensures
        is_contamination(image, mask, bbox, linear@, r),
{
    if image.width() != mask.width() || image.height() != mask.height() || mask.as_slice().len() == 0 {
        return None;
    }
    proof {
        assert(0 < mask.w() && 0 < mask.h()) by (nonlinear_arith)
            requires
                0 < mask.w() * mask.h(),
                0 <= mask.w(),
                0 <= mask.h(),
        ;
        assert(mask@.len() < u64::MAX / 2) by (nonlinear_arith)
            requires
                mask@.len() * RIM_SQUARE_ONE <= u64::MAX,
                RIM_SQUARE_ONE == 805_208_067,
        ;
    }
    let planned: Option<RimPlan> = rim_plan(mask, bbox);
    let ghost contour = choose|contour: Seq<(u32, u32)>| #[trigger]
        lists_pixels(contour, mask.w() as int, contour_plane(mask, bbox, whole(mask))) && (planned is None
            <==> contour.len() == 0) && (planned matches Some(plan) ==> plan.follows(mask, contour));
    match planned {
        None => None,
        Some(plan) => {
            let scale: u32 = scale_at_1000(mask.width(), mask.height());
            let colours: LocalColours = build(image, plan.gathered, scale, plan.roles.as_slice(), linear);
            let leans: Vec<Option<Lean>> = colours.leans(image, linear);
            let r: Option<Share> = contamination_of(mask, &plan, leans.as_slice());
            assert(plan.follows(mask, contour) && rim_judged(image, mask, linear@, &plan, &colours, leans@, r));
            r
        },
    }
}

/// How opaque a sample is.
#[derive(Debug, Clone, Copy, PartialEq, Eq, Structural)]
pub enum Level {
    /// 0.9 or more.
    High,
    /// 0.1 or less.
    Low,
    /// In between.
    Between,
}

/// The first sample that is low.
pub open spec fn first_low(samples: Seq<Level>, j: int) -> bool {
    0 <= j < samples.len() && samples[j] == Level::Low && forall|k: int|
        0 <= k < j ==> #[trigger] samples[k] != Level::Low
}

/// The last sample before `j` that is high.
pub open spec fn last_high(samples: Seq<Level>, j: int, i: int) -> bool {
    0 <= i < j && samples[i] == Level::High && forall|k: int|
        i < k < j ==> #[trigger] samples[k] != Level::High
}

/// Follows alpha along the outward normal, from inside to outside: how many
/// samples lie between the last high one and the first low one. A walk that is
/// low before it was high crosses no contour, and one that never gets low has no
/// width.
pub fn transition_span(samples: &[Level]) -> (r: Option<usize>)
    ensures
        r is Some <==> exists|i: int, j: int| first_low(samples@, j) && #[trigger] last_high(samples@, j, i),
        r matches Some(n) ==> exists|i: int, j: int|
            first_low(samples@, j) && #[trigger] last_high(samples@, j, i) && n == j - i,
{
    let mut high: Option<usize> = None;
    let mut t: usize = 0;
    while t < samples.len()
        invariant
            t <= samples@.len(),
            forall|k: int| 0 <= k < t ==> #[trigger] samples@[k] != Level::Low,
            match high {
                Some(i) => last_high(samples@, t as int, i as int),
                None => forall|k: int| 0 <= k < t ==> #[trigger] samples@[k] != Level::High,
            },
        decreases samples@.len() - t,
    {
        match samples[t] {
            Level::High => {
                high = Some(t);
            },
            Level::Low => {
                assert(first_low(samples@, t as int));
                assert forall|i: int, j: int| first_low(samples@, j) && #[trigger] last_high(samples@, j, i) implies j
                    == t by {
                    if j < t {
                        assert(samples@[j] != Level::Low);
                    } else if j > t {
                        assert(samples@[t as int] != Level::Low);
                    }
                }
                return match high {
                    Some(start) => {
                        assert(last_high(samples@, t as int, start as int));
                        Some(t - start)
                    },
                    None => None,
                };
            },
            Level::Between => {},
        }
        t += 1;
    }
    None
}

/// The median width of the transitions that could be followed.
pub fn edge_width(spans: Vec<u64>) -> (r: Option<u64>)
    ensures
        r is None <==> spans@.len() == 0,
        r matches Some(m) ==> is_median(spans@, m),
{
    median(spans)
}

/// The measures are of something.
pub open spec fn measures_ok(d: &Diagnostics) -> bool {
    &&& d.rim_contamination matches Some(s) ==> 0 < s.whole
    &&& d.halo_ratio matches Some(s) ==> 0 < s.whole
    &&& d.contour_roughness matches Some(r) ==> 0 < r.pixels && 0 < r.scale && r.thirds <= 255 * r.pixels
}

/// A share of the rim is one of something.
proof fn lemma_contamination(image: &RgbaImage, mask: &Mask, bbox: Option<Rect>, linear: Seq<u32>, r: Option<Share>)
    requires
        is_contamination(image, mask, bbox, linear, r),
    ensures
        r matches Some(s) ==> 0 < s.whole,
{
    if r is Some {
        let contour = choose|contour: Seq<(u32, u32)>| #[trigger]
            lists_pixels(contour, mask.w() as int, contour_plane(mask, bbox, whole(mask))) && if contour.len() == 0 {
                r is None
            } else {
                exists|plan: RimPlan, colours: LocalColours, leans: Seq<Option<Lean>>|
                    plan.follows(mask, contour) && #[trigger] rim_judged(image, mask, linear, &plan, &colours, leans, r)
            };
        let (plan, colours, leans) = choose|plan: RimPlan, colours: LocalColours, leans: Seq<Option<Lean>>|
            plan.follows(mask, contour) && #[trigger] rim_judged(image, mask, linear, &plan, &colours, leans, r);
        assert(contaminates(mask, &plan, leans, r));
    }
}

/// What is known of the boundary of a mask over the picture it was cut from. Told
/// by the caller: how far each halo probe is from the background around it, and the
/// widths of the transitions that could be followed.
pub fn diagnose(
    image: &RgbaImage,
    mask: &Mask,
    bbox: Option<Rect>,
    halo: &[u64],
    spans: Vec<u64>,
    linear: &[u32],
) -> (r: Diagnostics)
    requires
        image.wf(),
        mask.wf(),
        linear_ok(linear@),
        image@.len() * RIM_SQUARE_ONE <= u64::MAX,
    ensures
        r.halo_ratio is None <==> halo@.len() == 0,
        r.halo_ratio matches Some(v) ==> v.part == tally(halo_plane(halo@)) && v.whole == halo@.len(),
        r.edge_width is None <==> spans@.len() == 0,
        r.edge_width matches Some(m) ==> is_median(spans@, m),
        mask@.len() == 0 ==> r.contour_roughness is None,
        mask@.len() > 0 ==> exists|contour: Seq<(u32, u32)>| #[trigger]
            lists_pixels(contour, mask.w() as int, contour_plane(mask, bbox, whole(mask))) && has_roughness(
                mask,
                contour,
                bbox,
                r.contour_roughness,
            ),
        r.contour_roughness matches Some(v) ==> 0 < v.pixels && v.thirds <= 255 * v.pixels,
        is_contamination(image, mask, bbox, linear@, r.rim_contamination),
        measures_ok(&r),
{
    let contour_roughness: Option<Roughness> = if mask.as_slice().len() == 0 {
        None
    } else {
        proof {
            assert(0 < mask.w() && 0 < mask.h()) by (nonlinear_arith)
                requires
                    0 < mask.w() * mask.h(),
                    0 <= mask.w(),
                    0 <= mask.h(),
            ;
        }
        contour_roughness(mask, bbox)
    };
    let rim: Option<Share> = rim_contamination(image, mask, bbox, linear);
    proof {
        lemma_contamination(image, mask, bbox, linear@, rim);
    }
    Diagnostics {
        halo_ratio: halo_ratio(halo),
        edge_width: edge_width(spans),
        contour_roughness,
        rim_contamination: rim,
    }
}

} // verus!
