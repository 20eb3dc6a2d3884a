//! Refining the boundary, one step after the other.
//!
//! The band comes from the caller, who reads off the picture how soft each stretch
//! of the contour is; it is drawn anew whenever the mask has moved. Everything
//! else, and the order of the steps, is decided here.
use vstd::prelude::*;

use crate::cutout::cells::{linear_ok, RIM_SQUARE_ONE};
use crate::cutout::diagnostics::{has_roughness, Roughness};
use crate::cutout::contour::{contour_plane, lists_pixels, whole};
use crate::cutout::evening::{feather as even_out, is_evened, Guide};
use crate::cutout::mask::Mask;
use crate::cutout::matte::{
    all_light, is_projection, is_widest, light_ok, project, recoveries, recovered, scene_of, visible_answers, widest,
    with_alpha, Answer, Projection, Scene,
};
use crate::cutout::morphology::{long_edge, BitPlane};
use crate::cutout::refine::{
    band_radii, clamped, smoothing, wanted_radius, window_of, Matting, RefineOptions, GUIDED_MARGIN, RADIUS_CEILING,
};
use crate::cutout::repaint::Reshape;
use crate::geometry::Rect;
use crate::raster::RgbaImage;

verus! {

/// What the refinement of one picture goes by.
pub struct Ground<'a> {
    pub image: &'a RgbaImage,
    pub background: [u8; 3],
    /// 8-bit values in linear light, for alpha.
    pub linear: &'a [u64],
    /// 8-bit values in linear light, for the colours around the band.
    pub rim: &'a [u32],
    pub opts: RefineOptions,
}

impl<'a> Ground<'a> {
    pub open spec fn wf(&self) -> bool {
        &&& self.image.wf()
        &&& self.image@.len() * RIM_SQUARE_ONE <= u64::MAX
        &&& light_ok(self.linear@)
        &&& linear_ok(self.rim@)
        &&& self.opts.seal < u32::MAX
    }

    /// The picture has pixels, and the mask is as large.
    pub open spec fn suits(&self, binary: &Mask) -> bool {
        0 < self.image.w() && 0 < self.image.h() && self.image.w() == binary.w() && self.image.h() == binary.h()
    }
}

/// A refined boundary.
pub struct Refined {
    pub mask: Mask,
    /// The pixels whose colour is to be recovered, with their alpha and the
    /// colours that it was told by.
    pub recover: Vec<Answer>,
    /// The narrowest band that was used.
    pub band_min_radius: u32,
}

/// What the refinement waits for.
pub enum Refining {
    /// The first band around the mask, no narrower and no wider than the radii.
    First { binary: Mask, radii: (u32, u32) },
    /// A new band around the repainted mask.
    Again { reshape: Reshape, radii: (u32, u32) },
    /// Nothing.
    Done(Refined),
}

/// The narrowest and the widest band of a mask, as `band_radii` gives them.
pub open spec fn are_radii(binary: &Mask, opts: &RefineOptions, r: (u32, u32)) -> bool {
    &&& !opts.is_staged() ==> r == (opts.min_radius, opts.max_radius)
    &&& opts.is_staged() ==> r.1 == clamped(opts.max_radius as int, 1, RADIUS_CEILING as int)
    &&& opts.is_staged() ==> exists|contour: Seq<(u32, u32)>, rough: Option<Roughness>|
        {
            &&& lists_pixels(contour, binary.w() as int, contour_plane(binary, None, whole(binary)))
            &&& #[trigger] has_roughness(binary, contour, None, rough)
            &&& r.0 == clamped(
                wanted_radius(opts.min_radius as int, long_edge(binary.w(), binary.h()), rough),
                1,
                r.1 as int,
            )
        }
}

/// The widest band, by which the reach of repainting is told. Where nothing is
/// repainted there is none.
pub open spec fn farthest_reach(opts: &RefineOptions, radii: (u32, u32)) -> u32 {
    if opts.is_staged() {
        radii.1
    } else {
        0
    }
}

/// The pixels to recover: with a share of the background to take out, those of
/// the answers that are visible in the final mask; otherwise none. Where the mask
/// was evened out its alpha counts; otherwise the share that was solved for.
pub open spec fn recovers(despill: bool, evened: bool, answers: Seq<Answer>, mask: &Mask, r: Seq<Answer>) -> bool {
    if despill && !evened {
        r == answers.filter(|a: Answer| a.alpha != 0)
    } else if despill {
        &&& forall|k: int| 0 <= k < r.len() ==> recovered(#[trigger] r[k], answers, mask)
        &&& forall|j: int|
            0 <= j < answers.len() && mask.px((#[trigger] answers[j]).x as int, answers[j].y as int) != 0
                ==> r.contains(with_alpha(answers[j], mask))
    } else {
        r.len() == 0
    }
}

/// Each answer is about a pixel of the mask, and its colours are light.
pub open spec fn are_answers(answers: Seq<Answer>, mask: &Mask) -> bool {
    forall|j: int|
        0 <= j < answers.len() ==> all_light(#[trigger] answers[j]) && mask.inside(
            answers[j].x as int,
            answers[j].y as int,
        )
}

/// The scene of a reshaped mask.
pub open spec fn is_scene(g: &Ground<'_>, shape: Mask, band: Seq<u8>, sealed: Seq<bool>, s: &Scene<'_>) -> bool {
    &&& s.wf()
    &&& s.image == g.image
    &&& s.linear == g.linear
    &&& *s.binary == shape
    &&& s.band@ == band
    &&& s.sealed@ == sealed
    &&& s.background == g.background
    &&& s.separation == g.opts.min_separation
    &&& exists|v: u8| #[trigger] is_widest(band, v) && s.core_window == window_of(v)
}

/// The radius of the guided filter.
pub open spec fn evening_radius(min_radius: int, widest: int) -> int {
    if min_radius + GUIDED_MARGIN < widest {
        min_radius + GUIDED_MARGIN
    } else {
        widest
    }
}

/// The guided filter of a scene.
pub open spec fn is_guide(g: &Ground<'_>, s: &Scene<'_>, alpha: Mask, min_radius: u32, v: &Guide<'_>) -> bool {
    &&& v.wf()
    &&& v.image == g.image
    &&& v.linear == g.rim
    &&& v.binary == s.binary
    &&& v.band == s.band
    &&& *v.alpha == alpha
    &&& exists|most: u8| #[trigger]
        is_widest(s.band@, most) && v.radius == evening_radius(min_radius as int, most as int)
}

/// What the solved alpha of a scene comes to: evened out by the guided filter if
/// that is asked for. Colours are recovered with the alpha that comes out.
pub open spec fn after_projection(g: &Ground<'_>, s: &Scene<'_>, p: Projection, radii: (u32, u32), r: Refined) -> bool {
    let guided = g.opts.matting == Matting::Guided;
    &&& is_projection(s, g.opts.feather, guided, &p)
    &&& if guided {
        exists|v: Guide<'_>| #[trigger] is_guide(g, s, p.mask, radii.0, &v) && is_evened(&v, &p.solved, &r.mask)
    } else {
        r.mask == p.mask
    }
    &&& r.band_min_radius == radii.0
    &&& recovers(g.opts.despill, guided, p.answers@, &r.mask, r.recover@)
}

/// What follows once the mask is reshaped. Without a band the mask is the result.
pub open spec fn after_reshaping(g: &Ground<'_>, reshape: &Reshape, radii: (u32, u32), r: Refined) -> bool {
    if is_widest(reshape.open_band(), 0) {
        &&& r.mask == reshape.now()
        &&& r.recover@.len() == 0
        &&& r.band_min_radius == radii.0
    } else {
        exists|s: Scene<'_>, p: Projection|
            is_scene(g, reshape.now(), reshape.open_band(), reshape.closed_gaps(), &s) && #[trigger] after_projection(
                g,
                &s,
                p,
                radii,
                r,
            )
    }
}

/// One pass over the rectangle that the band takes up. If it moved something, a
/// new band is needed; otherwise the mask is reshaped.
pub open spec fn after_pass(
    g: &Ground<'_>,
    reshape: &Reshape,
    bounds: Rect,
    then: &Reshape,
    again: bool,
    radii: (u32, u32),
    out: Refining,
) -> bool {
    &&& reshape.recolours(then, g.image, g.rim@, bounds, again)
    &&& if again {
        out == (Refining::Again { reshape: *then, radii })
    } else {
        out matches Refining::Done(r) && after_reshaping(g, then, radii, r)
    }
}

/// What follows once a band is there: a pass, if there is one to make.
pub open spec fn after_band(g: &Ground<'_>, reshape: &Reshape, radii: (u32, u32), out: Refining) -> bool {
    ||| reshape.awaits(None) && (out matches Refining::Done(r) && after_reshaping(g, reshape, radii, r))
    ||| exists|bounds: Rect, then: Reshape, again: bool|
        reshape.awaits(Some(bounds)) && #[trigger] after_pass(g, reshape, bounds, &then, again, radii, out)
}

impl Refining {
    pub open spec fn wf(&self, g: &Ground<'_>) -> bool {
        match self {
            Refining::First { binary, radii } => {
                &&& binary.wf()
                &&& g.suits(binary)
                &&& g.opts.is_staged() ==> radii.1 <= RADIUS_CEILING
            },
            Refining::Again { reshape, radii: _ } => {
                &&& reshape.wf()
                &&& !reshape.over()
                &&& g.suits(&reshape.now())
            },
            Refining::Done(r) => r.mask.wf() && are_answers(r.recover@, &r.mask),
        }
    }

    /// Starts with a mask. One that is not as large as the picture is left alone.
    pub fn start(g: &Ground<'_>, binary: Mask) -> (r: Self)
        requires
            g.wf(),
            binary.wf(),
        ensures
            r.wf(g),
            g.suits(&binary) ==> (r matches Refining::First { binary: same, radii } && same == binary && are_radii(
                &binary,
                &g.opts,
                radii,
            )),
            !g.suits(&binary) ==> (r matches Refining::Done(d) && d.mask == binary && d.recover@.len() == 0
                && d.band_min_radius == 0),
    {
        let (w, h): (u32, u32) = (g.image.width(), g.image.height());
        if w == 0 || h == 0 || w != binary.width() || h != binary.height() {
            return Refining::Done(Refined { mask: binary, recover: Vec::new(), band_min_radius: 0 });
        }
        let radii: (u32, u32) = band_radii(&binary, &g.opts);
        Refining::First { binary, radii }
    }

    /// The mask around which a band is to be drawn, and how wide it may be.
    pub fn band_around(&self) -> (r: Option<(&Mask, (u32, u32))>)
        ensures
            match self {
                Refining::First { binary, radii } => r == Some((binary, *radii)),
                Refining::Again { reshape, radii } => r matches Some((m, same)) && *m == reshape.now() && same == *radii,
                _ => r is None,
            },
    {
        match self {
            Refining::First { binary, radii } => Some((binary, *radii)),
            Refining::Again { reshape, radii } => Some((reshape.shape(), *radii)),
            _ => None,
        }
    }

    /// Goes on with a band that was drawn. Where none was asked for nothing
    /// changes.
    pub fn with_band(self, g: &Ground<'_>, band: Vec<u8>) -> (r: Self)
        requires
            g.wf(),
            self.wf(g),
            self matches Refining::First { .. } ==> band@.len() == g.image@.len(),
            self matches Refining::Again { .. } ==> band@.len() == g.image@.len(),
        ensures
            r.wf(g),
            !(self is Done) ==> (r matches Refining::Done(d) ==> g.suits(&d.mask)),
            match self {
                Refining::First { binary, radii } => exists|reshape: Reshape| #[trigger]
                    reshape.started(
                        &binary,
                        band@,
                        g.opts.reclassify,
                        smoothing(g.opts.smooth_contour as int, long_edge(binary.w(), binary.h())) as u32,
                        g.opts.seal,
                        farthest_reach(&g.opts, radii),
                    ) && after_band(g, &reshape, radii, r),
                Refining::Again { reshape, radii } => exists|then: Reshape| #[trigger]
                    reshape.redrawn(&then, band@) && after_band(g, &then, radii, r),
                _ => r == self,
            },
    {
        match self {
            Refining::First { binary, radii } => {
                let smooth: u32 = g.opts.smooth_radius(binary.width(), binary.height());
                let reach: u32 = if g.opts.staged() { radii.1 } else { 0 };
                let reshape: Reshape = Reshape::start(
                    &binary,
                    band,
                    g.opts.reclassify,
                    smooth,
                    g.opts.seal,
                    reach,
                );
                assert(reshape.started(
                    &binary,
                    band@,
                    g.opts.reclassify,
                    smoothing(g.opts.smooth_contour as int, long_edge(binary.w(), binary.h())) as u32,
                    g.opts.seal,
                    farthest_reach(&g.opts, radii),
                ));
                advance(g, reshape, radii)
            },
            Refining::Again { reshape, radii } => {
                let mut then: Reshape = reshape;
                then.redraw(band);
                assert(reshape.redrawn(&then, band@));
                advance(g, then, radii)
            },
            other => other,
        }
    }
}

fn advance(g: &Ground<'_>, reshape: Reshape, radii: (u32, u32)) -> (r: Refining)
    requires
        g.wf(),
        reshape.wf(),
        g.suits(&reshape.now()),
    ensures
        r.wf(g),
        r matches Refining::Done(d) ==> g.suits(&d.mask),
        after_band(g, &reshape, radii, r),
{
    match reshape.pending() {
        None => Refining::Done(settle(g, reshape, radii)),
        Some(bounds) => {
            let mut then: Reshape = reshape;
            let again: bool = then.recolour(g.image, g.rim, bounds);
            let ghost passed = then;
            let r: Refining = if again {
                Refining::Again { reshape: then, radii }
            } else {
                Refining::Done(settle(g, then, radii))
            };
            assert(after_pass(g, &reshape, bounds, &passed, again, radii, r));
            r
        },
    }
}

fn settle(g: &Ground<'_>, reshape: Reshape, radii: (u32, u32)) -> (r: Refined)
    requires
        g.wf(),
        reshape.wf(),
        g.suits(&reshape.now()),
    ensures
        r.mask.wf(),
        g.suits(&r.mask),
        are_answers(r.recover@, &r.mask),
        after_reshaping(g, &reshape, radii, r),
{
    let (shape, band, sealed): (Mask, Vec<u8>, BitPlane) = reshape.finish();
    match scene_of(g.image, g.linear, &shape, band.as_slice(), &sealed, g.background, g.opts.min_separation) {
        None => Refined { mask: shape, recover: Vec::new(), band_min_radius: radii.0 },
        Some(s) => {
            let guided: bool = matches!(g.opts.matting, Matting::Guided);
            let projection: Projection = project(&s, g.opts.feather, guided);
            let most: u8 = widest(s.band);
            let ghost p = projection;
            let mask: Mask = match g.opts.guided_radius(radii.0, most) {
                Some(radius) => {
                    let guide: Guide<'_> = Guide {
                        image: g.image,
                        linear: g.rim,
                        binary: s.binary,
                        band: s.band,
                        alpha: &projection.mask,
                        radius,
                    };
                    let evened: Mask = even_out(&guide, &projection.solved);
                    assert(is_guide(g, &s, p.mask, radii.0, &guide) && is_evened(&guide, &p.solved, &evened));
                    evened
                },
                None => projection.mask,
            };
            let recover: Vec<Answer> = if !g.opts.despill {
                Vec::new()
            } else if guided {
                recoveries(projection.answers.as_slice(), &mask)
            } else {
                visible_answers(projection.answers.as_slice())
            };
            let r: Refined = Refined { mask, recover, band_min_radius: radii.0 };
            proof {
                assert(is_scene(g, reshape.now(), reshape.open_band(), reshape.closed_gaps(), &s));
                assert(after_projection(g, &s, p, radii, r));
            }
            r
        },
    }
}

} // verus!
