//! Laws of what is read of the background, told in pixels.
use vstd::prelude::*;

use crate::cutout::background::{
    band_plane, channel_keys, close_ones, colours_at, cut, enough_band, gate_key, grid_size, is_cell, is_median_rgb,
    is_widened, material, opaque_border, shown, BackgroundEstimate, KnownBackground, UNIFORM_DELTA_E,
};
use crate::geometry::{lemma_at_bound, lemma_at_join, lemma_at_split, Rect};
use crate::laws::ranks::law_the_median_is_in_the_middle;
use crate::raster::RgbaImage;
use crate::tally::{lemma_ones, lemma_tally_bound, lemma_tally_zero, ones, set_in, tally};

verus! {

/// The pixel lies less than `b` away from a side of the image; from the sides
/// themselves in any case.
pub open spec fn near_a_side(image: &RgbaImage, b: int, x: int, y: int) -> bool {
    ||| x == 0 || y == 0 || x == image.w() - 1 || y == image.h() - 1
    ||| x < b
    ||| y < b
    ||| image.w() - x <= b
    ||| image.h() - y <= b
}

/// The background shows in the pixels near a side that are nearly opaque; where
/// none is, in all of those near a side. The four sides count alike.
pub proof fn law_the_border_is_near_a_side(image: &RgbaImage, border: u32, x: int, y: int)
    requires
        image.wf(),
        0 <= x < image.w(),
        0 <= y < image.h(),
    ensures
        shown(image, border as int)[y * image.w() + x] <==> near_a_side(image, border as int, x, y) && (image@[y
            * image.w() + x][3] >= 250 || forall|u: int, v: int|
            0 <= u < image.w() && 0 <= v < image.h() && #[trigger] near_a_side(image, border as int, u, v) ==> image@[v
                * image.w() + u][3] < 250),
{
    let (w, h) = (image.w() as int, image.h() as int);
    let bright = opaque_border(image, border as int);
    assert forall|u: int, v: int| 0 <= u < w && 0 <= v < h implies 0 <= v * w + u < w * h && (bright[v * w + u] <==> (
    #[trigger] near_a_side(image, border as int, u, v) && image@[v * w + u][3] >= 250)) by {
        lemma_at_bound(w, h, u, v);
        lemma_at_split(w, u, v);
    }
    lemma_at_bound(w, h, x, y);
    lemma_at_split(w, x, y);
    lemma_tally_zero(bright);
    if tally(bright) == 0 {
        assert forall|u: int, v: int|
            0 <= u < image.w() && 0 <= v < image.h() && #[trigger] near_a_side(image, border as int, u, v) implies image@[v
            * image.w() + u][3] < 250 by {
            assert(!bright[v * w + u]);
        }
    } else {
        let k = choose|k: int| 0 <= k < bright.len() && #[trigger] bright[k];
        lemma_at_join(w, h, k);
        assert(near_a_side(image, border as int, k % w, k / w) && image@[(k / w) * w + k % w][3] >= 250);
    }
}

/// In each channel the median colour is that of some sample, no more than half of
/// the samples are darker, and less than half brighter.
pub proof fn law_the_colour_is_in_the_middle(samples: Seq<[u8; 3]>, c: [u8; 3], k: int)
    requires
        is_median_rgb(samples, c),
        0 <= k < 3,
    ensures
        exists|j: int| 0 <= j < samples.len() && (#[trigger] samples[j])[k] == c[k],
        2 * tally(Seq::new(samples.len(), |j: int| samples[j][k] < c[k])) <= samples.len(),
        2 * tally(Seq::new(samples.len(), |j: int| samples[j][k] > c[k])) < samples.len(),
{
    let keys = channel_keys(samples, k);
    let m = c[k] as u64;
    law_the_median_is_in_the_middle(keys, m);
    let a = choose|a: int| 0 <= a < keys.len() && keys[a] == m;
    assert(samples[a][k] == c[k]);
    assert(Seq::new(keys.len(), |i: int| (|u: u64| u < m)(keys[i])) =~= Seq::new(
        samples.len(),
        |j: int| samples[j][k] < c[k],
    ));
    assert(Seq::new(keys.len(), |i: int| (|u: u64| u > m)(keys[i])) =~= Seq::new(
        samples.len(),
        |j: int| samples[j][k] > c[k],
    ));
}

/// A background is uniform if there are samples, and no more than a tenth of them
/// strays.
pub proof fn law_a_tenth_may_stray(b: &BackgroundEstimate)
    requires
        b.within <= b.samples,
    ensures
        b.uniform() <==> b.samples > 0 && 10 * (b.samples - b.within) <= b.samples,
{
}

/// What counts as close is no farther than five.
pub proof fn law_close_is_no_farther_than_five(deltas: Seq<u64>, i: int)
    requires
        0 <= i < deltas.len(),
    ensures
        close_ones(deltas, UNIFORM_DELTA_E)[i] <==> deltas[i] <= 0x4014_0000_0000_0000,
{
}

/// A pixel is known to be background for one of five reasons, and for no other: it
/// lies on the band along the sides, outside the box, or outside the product, it is
/// marked as background, or the first fill has reached it.
pub proof fn law_background_is_known_for_a_reason(known: &KnownBackground<'_>, x: int, y: int, w: int, h: int)
    requires
        0 <= x < w,
        0 <= y < h,
    ensures
        x < known.band || y < known.band || w - x <= known.band || h - y <= known.band ==> known.knows(x, y, w, h),
        known.outside_bbox matches Some(r) && (x < r.0 || x > r.2 || y < r.1 || y > r.3) ==> known.knows(x, y, w, h),
        known.outside_subject matches Some(r) && (x < r.0 || x > r.2 || y < r.1 || y > r.3) ==> known.knows(x, y, w, h),
        known.constraints matches Some(c) && c.w() == w && c.h() == h && c.bg()[y * w + x] ==> known.knows(x, y, w, h),
        known.filled matches Some(f) && y * w + x < f@.len() && f@[y * w + x] ==> known.knows(x, y, w, h),
        known.knows(x, y, w, h) ==> {
            ||| x < known.band || y < known.band || w - x <= known.band || h - y <= known.band
            ||| known.outside_bbox matches Some(r) && (x < r.0 || x > r.2 || y < r.1 || y > r.3)
            ||| known.outside_subject matches Some(r) && (x < r.0 || x > r.2 || y < r.1 || y > r.3)
            ||| known.constraints matches Some(c) && c.w() == w && c.h() == h && c.bg()[y * w + x]
            ||| known.filled matches Some(f) && y * w + x < f@.len() && f@[y * w + x]
        },
{
}

/// The colour of a cell is read from pixels that are nearly opaque, known to be
/// background and not too far in colour, and from these alone.
pub proof fn law_cells_are_read_from_known_background(
    image: &RgbaImage,
    known: &KnownBackground<'_>,
    passes: Seq<bool>,
    x: int,
    y: int,
)
    requires
        image.wf(),
        0 <= x < image.w(),
        0 <= y < image.h(),
    ensures
        material(image, known, passes)[y * image.w() + x] <==> image@[y * image.w() + x][3] >= 250 && known.knows(
            x,
            y,
            image.w() as int,
            image.h() as int,
        ) && passes[y * image.w() + x],
{
    lemma_at_bound(image.w() as int, image.h() as int, x, y);
    lemma_at_split(image.w() as int, x, y);
}

/// Counting a property of listed places, in the list or on the plane, is the same.
proof fn lemma_listed_count(s: Seq<bool>, which: spec_fn(int) -> bool)
    ensures
        tally(Seq::new(ones(s).len(), |j: int| which(ones(s)[j]))) == tally(
            Seq::new(s.len(), |i: int| s[i] && which(i)),
        ),
    decreases s.len(),
{
    let (a, b) = (Seq::new(ones(s).len(), |j: int| which(ones(s)[j])), Seq::new(s.len(), |i: int| s[i] && which(i)));
    if s.len() > 0 {
        let t = s.drop_last();
        lemma_listed_count(t, which);
        let (c, d) = (
            Seq::new(ones(t).len(), |j: int| which(ones(t)[j])),
            Seq::new(t.len(), |i: int| t[i] && which(i)),
        );
        assert(b.drop_last() =~= d);
        if s.last() {
            assert(a.drop_last() =~= c);
        } else {
            assert(a =~= c);
        }
    } else {
        assert(a =~= Seq::empty());
        assert(b =~= Seq::empty());
    }
}

/// A cell has a colour if a quarter of it is background, rounded down, and at least
/// one pixel. In each channel at most half of that background is darker and less
/// than half brighter.
pub proof fn law_a_cell_has_the_colour_of_its_background(
    image: &RgbaImage,
    flags: Seq<bool>,
    r: Rect,
    v: Option<[u8; 3]>,
    k: int,
)
    requires
        image.wf(),
        flags.len() == image@.len(),
        r.0 <= r.2,
        r.1 <= r.3,
        is_cell(image, flags, r, v),
        0 <= k < 3,
    ensures
        ({
            let w = image.w() as int;
            let n = tally(
                Seq::new(
                    flags.len(),
                    |i: int| flags[i] && r.0 <= i % w && i % w <= r.2 && r.1 <= i / w && i / w <= r.3,
                ),
            );
            &&& v is Some <==> n > 0 && 4 * n + 3 >= (r.2 - r.0 + 1) * (r.3 - r.1 + 1)
            &&& v matches Some(c) ==> {
                &&& 2 * tally(
                    Seq::new(
                        flags.len(),
                        |i: int|
                            flags[i] && r.0 <= i % w && i % w <= r.2 && r.1 <= i / w && i / w <= r.3 && image@[i][k]
                                < c[k],
                    ),
                ) <= n
                &&& 2 * tally(
                    Seq::new(
                        flags.len(),
                        |i: int|
                            flags[i] && r.0 <= i % w && i % w <= r.2 && r.1 <= i / w && i / w <= r.3 && image@[i][k]
                                > c[k],
                    ),
                ) < n
            }
        }),
{
    let w = image.w() as int;
    let s = set_in(flags, w, r);
    let plain = Seq::new(
        flags.len(),
        |i: int| flags[i] && r.0 <= i % w && i % w <= r.2 && r.1 <= i / w && i / w <= r.3,
    );
    assert(plain =~= s);
    assert((r.2 - r.0 + 1) * (r.3 - r.1 + 1) >= 1) by (nonlinear_arith)
        requires
            r.0 <= r.2,
            r.1 <= r.3,
    ;
    if let Some(c) = v {
        let samples = choose|samples: Seq<[u8; 3]>| #[trigger]
            colours_at(image, ones(s), samples) && is_median_rgb(samples, c);
        law_the_colour_is_in_the_middle(samples, c, k);
        lemma_ones(s);
        lemma_tally_bound(s);
        let less = |i: int| image@[i][k] < c[k];
        let more = |i: int| image@[i][k] > c[k];
        lemma_listed_count(s, less);
        lemma_listed_count(s, more);
        assert(Seq::new(samples.len(), |j: int| samples[j][k] < c[k]) =~= Seq::new(
            ones(s).len(),
            |j: int| less(ones(s)[j]),
        ));
        assert(Seq::new(samples.len(), |j: int| samples[j][k] > c[k]) =~= Seq::new(
            ones(s).len(),
            |j: int| more(ones(s)[j]),
        ));
        assert(Seq::new(s.len(), |i: int| s[i] && less(i)) =~= Seq::new(
            flags.len(),
            |i: int|
                flags[i] && r.0 <= i % w && i % w <= r.2 && r.1 <= i / w && i / w <= r.3 && image@[i][k] < c[k],
        ));
        assert(Seq::new(s.len(), |i: int| s[i] && more(i)) =~= Seq::new(
            flags.len(),
            |i: int|
                flags[i] && r.0 <= i % w && i % w <= r.2 && r.1 <= i / w && i / w <= r.3 && image@[i][k] > c[k],
        ));
    }
}

/// The box of the product grows by a twentieth of the image on each side, to the
/// nearest pixel, as far as the image reaches.
pub proof fn law_the_widened_box_has_a_margin(bbox: Rect, w: u32, h: u32, r: Rect, mx: int, my: int)
    requires
        is_widened(bbox, w, h, r),
        bbox.0 <= bbox.2,
        bbox.2 < w,
        bbox.1 <= bbox.3,
        bbox.3 < h,
        w - 10 <= 20 * mx <= w + 10,
        20 * mx > w - 10,
        h - 10 <= 20 * my <= h + 10,
        20 * my > h - 10,
    ensures
        r.0 <= bbox.0 && bbox.2 <= r.2 < w,
        r.1 <= bbox.1 && bbox.3 <= r.3 < h,
        r.0 == 0 || bbox.0 - r.0 == mx,
        bbox.0 - r.0 <= mx,
        r.2 == w - 1 || r.2 - bbox.2 == mx,
        r.2 - bbox.2 <= mx,
        r.1 == 0 || bbox.1 - r.1 == my,
        bbox.1 - r.1 <= my,
        r.3 == h - 1 || r.3 - bbox.3 == my,
        r.3 - bbox.3 <= my,
{
}

/// The grid of a field keeps the shape of the image: no side has more than 256
/// cells, a small image has a cell for each pixel, and otherwise the longer side
/// has 256 and the shorter as many as the shape asks for, rounded down, but one.
pub proof fn law_the_grid_keeps_the_shape(w: int, h: int)
    requires
        0 < w,
        0 < h,
    ensures
        ({
            let (cols, rows) = grid_size(w, h);
            &&& 0 < cols <= 256 && cols <= w
            &&& 0 < rows <= 256 && rows <= h
            &&& w <= 256 && h <= 256 ==> cols == w && rows == h
            &&& w >= h && w > 256 ==> cols == 256 && (rows == 1 || rows * w <= h * 256) && h * 256 < (rows + 1) * w
            &&& h > w && h > 256 ==> rows == 256 && (cols == 1 || cols * h <= w * 256) && w * 256 < (cols + 1) * h
        }),
{
    if w >= h && w > 256 {
        lemma_scaled(h, w);
    } else if h > w && h > 256 {
        lemma_scaled(w, h);
    }
}

proof fn lemma_scaled(short: int, long: int)
    requires
        0 < short <= long,
        256 < long,
    ensures
        ({
            let q = (short * 256) / long;
            q * long <= short * 256 < (q + 1) * long && 0 <= q <= 256 && q <= short
        }),
{
    let q = (short * 256) / long;
    assert(q * long <= short * 256 < (q + 1) * long && 0 <= q <= 256 && q <= short) by (nonlinear_arith)
        requires
            q == (short * 256) / long,
            0 < short <= long,
            256 < long,
    ;
}

/// The parts of a side follow on each other, from one end to the other, and differ
/// by a pixel at most.
pub proof fn law_parts_are_even(c: int, n: int, parts: int)
    requires
        0 <= c < parts <= n,
    ensures
        cut(0, n, parts) == 0,
        cut(parts, n, parts) == n,
        n < (cut(c + 1, n, parts) - cut(c, n, parts) + 1) * parts,
        (cut(c + 1, n, parts) - cut(c, n, parts) - 1) * parts < n,
{
    let (a, b) = (cut(c, n, parts), cut(c + 1, n, parts));
    assert(0int / parts == 0 && (parts * n) / parts == n) by (nonlinear_arith)
        requires
            0 < parts,
    ;
    assert(a * parts <= c * n < (a + 1) * parts && b * parts <= (c + 1) * n < (b + 1) * parts) by (nonlinear_arith)
        requires
            a == (c * n) / parts,
            b == ((c + 1) * n) / parts,
            0 < parts,
    ;
    assert((c + 1) * n == c * n + n) by (nonlinear_arith);
    assert((b - a + 1) * parts == (b + 1) * parts - a * parts) by (nonlinear_arith);
    assert((b - a - 1) * parts == b * parts - (a + 1) * parts) by (nonlinear_arith);
}

/// A band with enough background in it is one of which three tenths pass, or none at
/// all.
pub proof fn law_three_tenths_of_a_band_are_enough(seen: int, kept: int)
    requires
        0 <= kept <= seen,
    ensures
        enough_band(seen, kept) <==> 10 * (seen - kept) <= 7 * seen,
{
}

/// What passes for background is no farther than fifteen, or than twice what half of
/// the border keeps to, whichever is more. Keys of numbers that double differ by a
/// fixed step.
pub proof fn law_the_gate_is_twice_the_median(p50: u64)
    ensures
        gate_key(p50) >= 0x402e_0000_0000_0000,
        gate_key(p50) - p50 >= 0x0010_0000_0000_0000,
        gate_key(p50) == 0x402e_0000_0000_0000 || gate_key(p50) - p50 == 0x0010_0000_0000_0000,
{
}

/// The opaque pixels of the band are those that are nearly opaque and near a side.
pub proof fn law_the_band_is_near_a_side(image: &RgbaImage, known: &KnownBackground<'_>, x: int, y: int)
    requires
        image.wf(),
        0 <= x < image.w(),
        0 <= y < image.h(),
    ensures
        band_plane(image, known)[y * image.w() + x] <==> image@[y * image.w() + x][3] >= 250 && (x < known.band || y
            < known.band || image.w() - x <= known.band || image.h() - y <= known.band),
{
    lemma_at_bound(image.w() as int, image.h() as int, x, y);
    lemma_at_split(image.w() as int, x, y);
}

} // verus!
