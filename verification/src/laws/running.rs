//! Laws of a run as a whole, told in its settings and its pixels.
use vstd::prelude::*;

use crate::cutout::background::{band_of, BackgroundEstimate, BackgroundModel, KnownBackground};
use crate::cutout::edges::ridge;
use crate::cutout::evening::{is_evened, Guide};
use crate::cutout::field::BackgroundField;
use crate::cutout::despill::despilled;
use crate::cutout::finish::{is_complete, is_plain, with_lower_alpha, CutoutOptions, Finished};
use crate::cutout::floodfill::FloodOptions;
use crate::cutout::mask::Mask;
use crate::cutout::matte::{Projection, Scene};
use crate::cutout::pipeline::{are_sources, begins, is_background, is_threshold};
use crate::cutout::refine::{smoothing, wanted_radius, Matting};
use crate::cutout::refining::{after_projection, after_reshaping, evening_radius, is_guide, is_scene, Ground, Refined};
use crate::cutout::repaint::Reshape;
use crate::cutout::report::{is_raised, strength_of_tenths};
use crate::cutout::subject::{Confidence, SubjectHint};
use crate::geometry::{at, lemma_at_bound, on_plane};
use crate::laws::colour::law_despill_finds_what_was_mixed_in;
use crate::laws::feather::law_a_feather_is_the_mean_of_its_window;
use crate::laws::measures::law_cleaning_spares_what_is_pointed_at;
use crate::laws::reaching::{
    boxed_in, law_every_side_lets_the_fill_in, law_the_user_decides_first, law_what_no_walk_reaches_stays, passes,
    pointed_at, waved_off,
};
use crate::laws::reporting::law_the_raised_threshold_is_half_as_much_again;
use crate::laws::walks::walled_in;
use crate::raster::RgbaImage;
use crate::sums::span_sum;
use crate::warning::Warning;

verus! {

/// The settings point at the pixel: a seed on the image lies within five pixels of it,
/// or it is marked as foreground on a table of this size.
pub open spec fn settings_point_at(image: &RgbaImage, opts: &CutoutOptions, x: int, y: int) -> bool {
    ||| exists|k: int|
        0 <= k < opts.fg_seeds@.len() && (#[trigger] opts.fg_seeds@[k]).0 < image.w() && opts.fg_seeds@[k].1 < image.h()
            && (x - opts.fg_seeds@[k].0) * (x - opts.fg_seeds@[k].0) + (y - opts.fg_seeds@[k].1) * (y
            - opts.fg_seeds@[k].1) <= 25
    ||| opts.constraints matches Some(c) && c.w() == image.w() && c.h() == image.h() && c.fg()[y * image.w() + x]
}

/// The settings wave the pixel off.
pub open spec fn settings_wave_off(image: &RgbaImage, opts: &CutoutOptions, x: int, y: int) -> bool {
    opts.constraints matches Some(c) && c.w() == image.w() && c.h() == image.h() && c.bg()[y * image.w() + x]
}

/// The first mask of a run says what the settings ask for. What they point at is fully
/// opaque. Of the rest, what lies outside the box and what they wave off is clear. So
/// is, without a seal, what lies on a side of the box or of the image, within the
/// tolerance of the background and on no ridge above the threshold. What differs from
/// the background by more than the tolerance, or lies on such a ridge, stays as long as
/// specks are not cleared, unless it was transparent.
pub proof fn law_a_run_keeps_to_its_settings(
    image: &RgbaImage,
    delta: Seq<u64>,
    opts: &CutoutOptions,
    edge_threshold: u64,
    flood: &FloodOptions<'_>,
    gradient: Seq<u64>,
    filled: Seq<u8>,
    mask: &Mask,
    x: int,
    y: int,
)
    requires
        image.wf(),
        delta.len() == image@.len(),
        begins(image, delta, opts, edge_threshold, flood, gradient, filled, mask),
        opts.bbox matches Some(r) ==> r.0 <= r.2 && r.2 < image.w() && r.1 <= r.3 && r.3 < image.h(),
        0 <= x < image.w(),
        0 <= y < image.h(),
    ensures
        ({
            let i = y * image.w() + x;
            let boxed = opts.bbox matches Some(r) ==> r.0 <= x && x <= r.2 && r.1 <= y && y <= r.3;
            let side = match opts.bbox {
                Some(r) => boxed && (x == r.0 || x == r.2 || y == r.1 || y == r.3),
                None => x == 0 || x == image.w() - 1 || y == 0 || y == image.h() - 1,
            };
            let close = delta[i] <= opts.tolerance && (edge_threshold == 0 || ridge(image, x, y) <= edge_threshold);
            let pointed = settings_point_at(image, opts, x, y);
            let waved = settings_wave_off(image, opts, x, y);
            &&& pointed ==> mask@[i] == 255
            &&& !pointed && (!boxed || waved) ==> mask@[i] == 0
            &&& !pointed && side && close && opts.seal == 0 ==> mask@[i] == 0
            &&& boxed && !waved && !close && image@[i][3] != 0 && opts.cleanup == 0 ==> mask@[i] == 255
            &&& mask@[i] == 0 || mask@[i] == 255
        }),
{
    let w = image.w() as int;
    let i = at(w, x, y);
    lemma_at_bound(w, image.h() as int, x, y);
    assert(i == y * image.w() + x);
    assert(pointed_at(image, flood, x, y) == settings_point_at(image, opts, x, y)) by {
        assert(flood.fg_seeds@ == opts.fg_seeds@);
    }
    assert(waved_off(image, flood, x, y) == settings_wave_off(image, opts, x, y));
    law_the_user_decides_first(image, delta, gradient, flood, x, y);
    law_cleaning_spares_what_is_pointed_at(filled, image.w(), image.h(), opts, x, y);
    if edge_threshold > 0 {
        assert(gradient[at(w, x, y)] == ridge(image, x, y));
    }
    let close = delta[i] <= opts.tolerance && (edge_threshold == 0 || ridge(image, x, y) <= edge_threshold);
    if passes(image, delta, gradient, flood, x, y) && opts.seal == 0 && (match opts.bbox {
        Some(r) => r.0 <= x && x <= r.2 && r.1 <= y && y <= r.3 && (x == r.0 || x == r.2 || y == r.1 || y == r.3),
        None => x == 0 || x == image.w() - 1 || y == 0 || y == image.h() - 1,
    }) {
        law_every_side_lets_the_fill_in(image, delta, gradient, flood, x, y);
    }
    if !close && image@[i][3] != 0 && !waved_off(image, flood, x, y) && boxed_in(flood, x, y) {
        let region = |a: int, b: int| a == x && b == y;
        assert(!passes(image, delta, gradient, flood, x, y));
        assert(walled_in(|a: int, b: int| passes(image, delta, gradient, flood, a, b), region));
        law_what_no_walk_reaches_stays(image, delta, gradient, flood, region, x, y);
    }
}

/// Left to itself a run takes the threshold of eight; where half of the border has
/// more texture than that, one and a half times what nine tenths of it keep to, if that
/// is more.
pub proof fn law_the_threshold_follows_the_texture(
    p50: u64,
    p90: u64,
    halves_up: bool,
    v: u64,
    raised: Option<Warning>,
    u: int,
)
    requires
        is_threshold(None, p50, p90, halves_up, v, raised),
        0 <= u,
        p90 == 16_000_000 * (u * u),
        u % 2 == 0,
    ensures
        p50 < 64 * 1_600_000_000 ==> v == 64 * 1_600_000_000,
        p50 >= 64 * 1_600_000_000 && 3 * u <= 160 ==> v == 64 * 1_600_000_000,
        p50 >= 64 * 1_600_000_000 && 3 * u > 160 ==> 4 * v == 16_000_000 * ((3 * u) * (3 * u)),
{
    if p50 >= 64 * 1_600_000_000 {
        let tenths = choose|tenths: u32| #[trigger]
            is_raised(p90, halves_up, tenths as int) && if tenths <= 80 {
                v == 102_400_000_000 && raised is None
            } else {
                v == strength_of_tenths(tenths as int) && raised == Some(
                    Warning::EdgeThresholdRaised { tenths, p50, p90 },
                )
            };
        law_the_raised_threshold_is_half_as_much_again(u, p90, halves_up, tenths as int);
        let t = tenths as int;
        assert(2 * t == 3 * u);
        assert(4 * (t * t) == (3 * u) * (3 * u)) by (nonlinear_arith)
            requires
                2 * t == 3 * u,
        ;
    }
}

/// What a run takes for background before it fills: what lies along the sides, as wide
/// as the border or as a thirty-third of the short side; outside a box that was given;
/// outside the product, if that was found for certain, with a twentieth of the image to
/// spare; and what is marked.
pub proof fn law_a_run_knows_its_background(
    opts: &CutoutOptions,
    subject: Option<SubjectHint>,
    w: u32,
    h: u32,
    known: &KnownBackground<'_>,
    x: int,
    y: int,
    band: int,
)
    requires
        are_sources(opts, subject, w, h, known),
        0 <= x < w,
        0 <= y < h,
        band >= opts.border,
        33 * band > w - 33 || 33 * band > h - 33,
        band == opts.border || (33 * band <= w && 33 * band <= h),
    ensures
        ({
            let mx = (w + 10) / 20;
            let my = (h + 10) / 20;
            let reason = {
                ||| x < band || y < band || w - x <= band || h - y <= band
                ||| opts.bbox matches Some(r) && (x < r.0 || x > r.2 || y < r.1 || y > r.3)
                ||| subject matches Some(s) && s.confidence == Confidence::High && (x < s.bbox.0 - mx || x > s.bbox.2 + mx
                    || y < s.bbox.1 - my || y > s.bbox.3 + my)
                ||| opts.constraints matches Some(c) && c.w() == w && c.h() == h && c.bg()[y * w + x]
            };
            known.knows(x, y, w as int, h as int) <==> reason
        }),
{
    let short = if w < h {
        w
    } else {
        h
    };
    assert(band_of(w, h, opts.border) == band) by {
        let part = short / 33;
        if band == opts.border {
            assert(part <= band);
        } else {
            assert(part == band);
        }
    }
}

/// A run with one colour has no field: where that was asked for, and where it was left
/// open and no more than a tenth of the border strays.
pub proof fn law_an_even_border_needs_no_field(
    image: &RgbaImage,
    background: &BackgroundEstimate,
    model: BackgroundModel,
    known: &KnownBackground<'_>,
    delta: Seq<u64>,
    linear: Seq<u64>,
    r: &BackgroundField,
)
    requires
        is_background(image, background, model, known, delta, linear, r),
    ensures
        r.base() == background.rgb,
        model == BackgroundModel::Flat ==> r.cells() is None,
        model == BackgroundModel::Auto && background.samples > 0 && 10 * background.within >= 9 * background.samples
            ==> r.cells() is None,
{
}

/// Refinement moves nothing outside the band, and nothing in a gap that was closed: the
/// mask stays there as repainting has left it.
pub proof fn law_refinement_moves_only_the_band(
    g: &Ground<'_>,
    reshape: &Reshape,
    radii: (u32, u32),
    r: Refined,
    x: int,
    y: int,
)
    requires
        reshape.wf(),
        after_reshaping(g, reshape, radii, r),
        0 <= x < reshape.now().w(),
        0 <= y < reshape.now().h(),
        ({
            let i = y * reshape.now().w() + x;
            reshape.strip()[i] == 0 || (reshape.closed_gaps().len() > 0 && reshape.closed_gaps()[i])
        }),
    ensures
        r.mask@[y * reshape.now().w() + x] == reshape.now()@[y * reshape.now().w() + x],
{
    let now = reshape.now();
    let i = at(now.w() as int, x, y);
    lemma_at_bound(now.w() as int, now.h() as int, x, y);
    assert(reshape.open_band()[i] == 0);
    if !crate::cutout::matte::is_widest(reshape.open_band(), 0) {
        let (s, p) = choose|s: Scene<'_>, p: Projection|
            is_scene(g, reshape.now(), reshape.open_band(), reshape.closed_gaps(), &s) && #[trigger] after_projection(
                g,
                &s,
                p,
                radii,
                r,
            );
        assert(s.w() == now.w() && s.h() == now.h());
        assert(on_plane(s.w(), s.h(), x, y));
        assert(p.mask@[at(s.w(), x, y)] == s.binary.px(x, y));
        if g.opts.matting == Matting::Guided {
            let v = choose|v: Guide<'_>| #[trigger]
                is_guide(g, &s, p.mask, radii.0, &v) && is_evened(&v, &p.solved, &r.mask);
            assert(on_plane(v.w(), v.h(), x, y));
            if v.radius > 0 {
                assert(r.mask.px(x, y) == v.alpha.px(x, y));
            }
        }
    }
}

/// Colours are recovered only where the background is to be taken out, and only for
/// pixels that can be seen.
pub proof fn law_colours_are_recovered_where_they_are_seen(
    g: &Ground<'_>,
    reshape: &Reshape,
    radii: (u32, u32),
    r: Refined,
    k: int,
)
    requires
        after_reshaping(g, reshape, radii, r),
        0 <= k < r.recover@.len(),
    ensures
        g.opts.despill,
        r.recover@[k].alpha != 0,
        g.opts.matting == Matting::Guided ==> r.recover@[k].alpha == r.mask.px(
            r.recover@[k].x as int,
            r.recover@[k].y as int,
        ),
{
    if !crate::cutout::matte::is_widest(reshape.open_band(), 0) {
        let (s, p) = choose|s: Scene<'_>, p: Projection|
            is_scene(g, reshape.now(), reshape.open_band(), reshape.closed_gaps(), &s) && #[trigger] after_projection(
                g,
                &s,
                p,
                radii,
                r,
            );
        let guided = g.opts.matting == Matting::Guided;
        assert(crate::cutout::refining::recovers(g.opts.despill, guided, p.answers@, &r.mask, r.recover@));
        if g.opts.despill && guided {
            assert(crate::cutout::matte::recovered(r.recover@[k], p.answers@, &r.mask));
            crate::laws::matting::law_only_visible_colours_are_recovered(r.recover@[k], p.answers@, &r.mask);
        } else if g.opts.despill {
            broadcast use vstd::seq_lib::group_filter_ensures;

            assert(r.recover@.contains(r.recover@[k]));
        }
    }
}

/// The radius of the majority grows with the image, to the next pixel, and stops at 48.
pub proof fn law_smoothing_grows_with_the_image(smooth: int, scale: int)
    requires
        0 <= smooth,
        1000 <= scale,
    ensures
        smoothing(smooth, scale) <= 48,
        smoothing(smooth, scale) == 48 || smooth * scale <= 1_000_000 * smoothing(smooth, scale) < smooth * scale
            + 1_000_000,
{
    assert(0 <= smooth * scale) by (nonlinear_arith)
        requires
            0 <= smooth,
            1000 <= scale,
    ;
}

/// The narrowest band is as wide as was asked for at the size of the image, and twice
/// as wide as the contour is rough.
pub proof fn law_a_rough_contour_widens_the_band(min_radius: int, scale: int, rough: Option<crate::cutout::diagnostics::Roughness>)
    requires
        0 <= min_radius,
        1000 <= scale,
        rough matches Some(r) ==> r.pixels > 0,
    ensures
        1000 * wanted_radius(min_radius, scale, rough) >= min_radius * scale,
        rough matches Some(r) ==> 3 * r.pixels * wanted_radius(min_radius, scale, rough) >= 2 * r.thirds,
        rough is None ==> 1000 * wanted_radius(min_radius, scale, rough) < min_radius * scale + 1000,
{
    let up = (min_radius * scale + 999) / 1000;
    assert(0 <= min_radius * scale) by (nonlinear_arith)
        requires
            0 <= min_radius,
            1000 <= scale,
    ;
    if let Some(r) = rough {
        let (n, t) = (3 * r.pixels, 2 * r.thirds);
        let q = (t + n - 1) / n;
        let v = wanted_radius(min_radius, scale, rough);
        assert(n * q >= t) by (nonlinear_arith)
            requires
                q == (t + n - 1) / n,
                0 < n,
        ;
        assert(n * v >= n * q) by (nonlinear_arith)
            requires
                v >= q,
                0 < n,
        ;
    }
}

/// The guided filter reaches one pixel past the narrowest band, but no farther than the
/// widest.
pub proof fn law_the_filter_reaches_past_the_narrowest_band(min_radius: int, widest: int)
    ensures
        evening_radius(min_radius, widest) <= widest,
        evening_radius(min_radius, widest) <= min_radius + 1,
        evening_radius(min_radius, widest) == widest || evening_radius(min_radius, widest) == min_radius + 1,
{
}

/// Without refinement the boundary is a ramp, and the background goes out of it by the
/// ramp: opacity is that of the mask, averaged over the feather to all sides, and a
/// pixel that this covers in part has in each channel what mixes best with the
/// background into what was seen.
pub proof fn law_a_plain_boundary_is_feathered_and_cleared(
    image: RgbaImage,
    mask: &Mask,
    background: [u8; 3],
    opts: &CutoutOptions,
    r: (RgbaImage, Mask),
    x: int,
    y: int,
    k: int,
)
    requires
        image.wf(),
        mask.wf(),
        image.w() == mask.w(),
        image.h() == mask.h(),
        is_plain(image, mask, background, opts, r),
        0 <= x < mask.w(),
        0 <= y < mask.h(),
        0 <= k < 3,
    ensures
        ({
            let i = y * mask.w() + x;
            let (before, after, a) = (image@[i], r.0@[i], r.1@[i]);
            let f = opts.feather as int;
            let left = if x - f > 0 {
                x - f
            } else {
                0
            };
            let right = if x + f + 1 < mask.w() {
                x + f + 1
            } else {
                mask.w() as int
            };
            let top = if y - f > 0 {
                y - f
            } else {
                0
            };
            let bottom = if y + f + 1 < mask.h() {
                y + f + 1
            } else {
                mask.h() as int
            };
            let all = span_sum(
                |v: int| span_sum(|u: int| mask@[v * (mask.w() as int) + u] as int, left, right),
                top,
                bottom,
            );
            let n = (right - left) * (bottom - top);
            let mixed = a * after[k] + (255 - a) * background[k];
            &&& f == 0 ==> a == mask@[i]
            &&& f > 0 ==> all - n <= a * n <= all + n
            &&& after[3] == before[3]
            &&& !opts.despill || a < 16 || a == 255 ==> after == before
            &&& opts.despill && 16 <= a < 255 ==> {
                &&& 255 * before[k] <= (255 - a) * background[k] ==> after[k] == 0
                &&& 255 * before[k] >= a * 255 + (255 - a) * background[k] ==> after[k] == 255
                &&& (255 - a) * background[k] <= 255 * before[k] <= a * 255 + (255 - a) * background[k] ==> 2 * mixed - a
                    <= 2 * (255 * before[k]) < 2 * mixed + a
            }
        }),
{
    let (w, h) = (mask.w() as int, mask.h() as int);
    let i = at(w, x, y);
    lemma_at_bound(w, h, x, y);
    if opts.feather > 0 {
        law_a_feather_is_the_mean_of_its_window(mask@, w, h, opts.feather as int, x, y);
    }
    if opts.despill {
        assert(image.inside(x, y));
        assert(despilled(image.px(x, y), background, r.1.px(x, y), r.0.px(x, y)));
        law_despill_finds_what_was_mixed_in(image@[i], background, r.1@[i], r.0@[i], k);
    }
}

/// A finished pixel has its colour, and is as opaque as it was or as the mask lets it
/// be, whichever is less. What the settings point at keeps its opacity.
pub proof fn law_a_finished_pixel_is_under_its_mask(
    image: RgbaImage,
    mask: &Mask,
    delta: &[u64],
    opts: &CutoutOptions,
    r: &Finished,
    x: int,
    y: int,
)
    requires
        image.wf(),
        mask.wf(),
        image.w() == mask.w(),
        image.h() == mask.h(),
        is_complete(image, mask, delta, opts, r),
        0 <= x < mask.w(),
        0 <= y < mask.h(),
    ensures
        ({
            let i = y * mask.w() + x;
            let (before, after) = (image@[i], r.image@[i]);
            let pointed = settings_point_at(&image, opts, x, y);
            &&& forall|k: int| 0 <= k < 3 ==> #[trigger] after[k] == before[k]
            &&& after[3] <= before[3]
            &&& pointed ==> after[3] == before[3] && r.mask@[i] == 255
            &&& !pointed ==> after[3] <= mask@[i] && (r.mask@[i] == mask@[i] || r.mask@[i] == 0)
            &&& !pointed && opts.cleanup == 0 ==> r.mask@[i] == mask@[i] && (after[3] == before[3] || after[3]
                == mask@[i])
            &&& r.mask@[i] >= 128 ==> r.stats.foreground > 0 && (r.stats.bbox matches Some(b) && b.0 <= x && x <= b.2
                && b.1 <= y && y <= b.3)
            &&& r.mask@[i] >= 128 && (x == 0 || y == 0 || x == mask.w() - 1 || y == mask.h() - 1) ==> r.stats.touches_edge
        }),
{
    let (w, h) = (mask.w() as int, mask.h() as int);
    let i = at(w, x, y);
    lemma_at_bound(w, h, x, y);
    law_cleaning_spares_what_is_pointed_at(mask@, mask.w(), mask.h(), opts, x, y);
    assert(with_lower_alpha(image@[i], r.mask@[i], r.image@[i]));
    if r.mask@[i] >= 128 {
        let all = r.mask.foreground();
        assert(all.contains((x, y)));
        if r.stats.foreground == 0 {
            assert(all =~= Set::empty());
        }
    }
}

} // verus!
