//! A cutout from end to end.
//!
//! Colour distances and what is read between pixels come from the caller. A run
//! begins with the fill, goes on with the boundary (refined, or plain), and is
//! reported when the boundary has been measured.
use vstd::prelude::*;

use crate::cutout::background::{
    band_of, close_ones, estimate_field, estimates, field_band, field_gate, gate_key, is_widened, widen_subject,
    BackgroundEstimate, BackgroundModel, FieldEstimate, KnownBackground, ResolvedModel,
};
use crate::cutout::diagnostics::Diagnostics;
use crate::cutout::edges::{edge_ridges, ridge, GradientQuantiles, MAX_STRENGTH};
use crate::cutout::field::{build_field, spreads_over, BackgroundField};
use crate::cutout::finish::{cleaned_value, first_mask, is_filled, CutoutOptions, Finished};
use crate::cutout::floodfill::FloodOptions;
use crate::cutout::mask::{Mask, MaskStats};
use crate::cutout::matte::light_ok;
use crate::cutout::refine::{
    Matting, RefineOptions, DEFAULT_MAX_RADIUS, DEFAULT_MIN_RADIUS, DEFAULT_MIN_SEPARATION, DEFAULT_SMOOTH_CONTOUR,
};
use crate::cutout::report::{
    all_warnings, collect_warnings, is_raised, resolve_edge_threshold, strength_of_tenths, warnings_of,
    DEFAULT_EDGE_THRESHOLD,
};
use crate::cutout::subject::{Confidence, SubjectHint};
use crate::geometry::{at, rect_on, Rect};
use crate::raster::RgbaImage;
use crate::warning::Warning;

verus! {

/// The sources of what is known to be background: the band, what lies outside a box
/// that was given, what lies outside the widened box of a product that was found
/// for certain, and what is marked.
pub open spec fn are_sources(
    opts: &CutoutOptions,
    subject: Option<SubjectHint>,
    w: u32,
    h: u32,
    k: &KnownBackground<'_>,
) -> bool {
    &&& k.band == band_of(w, h, opts.border)
    &&& k.outside_bbox == opts.bbox
    &&& match subject {
        Some(s) if s.confidence == Confidence::High => k.outside_subject matches Some(r) && is_widened(s.bbox, w, h, r),
        _ => k.outside_subject is None,
    }
    &&& k.constraints == opts.marks()
    &&& k.filled is None
}

/// The sources of what is known to be background.
pub fn known_sources<'a>(opts: &'a CutoutOptions, subject: Option<SubjectHint>, w: u32, h: u32) -> (r: KnownBackground<'a>)
    requires
        opts.wf(),
    ensures
        r.wf(),
        are_sources(opts, subject, w, h, &r),
{
    let outside_subject: Option<Rect> = match subject {
        Some(s) => if s.confidence.is_high() {
            Some(widen_subject(s.bbox, w, h))
        } else {
            None
        },
        None => None,
    };
    KnownBackground {
        band: field_band(w, h, opts.border),
        outside_bbox: opts.bbox,
        outside_subject,
        constraints: match &opts.constraints {
            Some(c) => Some(c),
            None => None,
        },
        filled: None,
    }
}

/// The background that a run works with: one colour if the model says so or if no
/// field could be read, and a field elsewhere.
pub open spec fn is_background(
    image: &RgbaImage,
    background: &BackgroundEstimate,
    model: BackgroundModel,
    known: &KnownBackground<'_>,
    delta: Seq<u64>,
    linear: Seq<u64>,
    r: &BackgroundField,
) -> bool {
    &&& r.wf()
    &&& r.base() == background.rgb
    &&& if model.resolved(background) == ResolvedModel::Flat {
        r.cells() is None
    } else {
        exists|e: FieldEstimate| #[trigger]
            estimates(image, known, close_ones(delta, gate_key(background.delta_e.p50) as u64), &e) && match e.grid {
                None => r.cells() is None,
                Some(g) => spreads_over(&g, (image.w(), image.h()), background.rgb, linear, r),
            }
    }
}

/// Works out the background of a run. `delta` tells how far each pixel is from the
/// colour of the background as a whole.
pub fn background_field(
    image: &RgbaImage,
    background: &BackgroundEstimate,
    model: BackgroundModel,
    known: &KnownBackground<'_>,
    delta: &[u64],
    linear: &[u64],
) -> (r: BackgroundField)
    requires
        image.wf(),
        known.wf(),
        delta@.len() == image@.len() <= u64::MAX,
        background.delta_e.p50 <= 0x7fd0_0000_0000_0000,
        light_ok(linear@),
    ensures
        is_background(image, background, model, known, delta@, linear@, &r),
{
    if matches!(model.resolve(background), ResolvedModel::Flat) {
        return BackgroundField::flat(background.rgb);
    }
    let gate: u64 = field_gate(background);
    let read: FieldEstimate = estimate_field(image, known, delta, gate);
    let r: BackgroundField = match &read.grid {
        None => BackgroundField::flat(background.rgb),
        Some(g) => build_field(g, (image.width(), image.height()), background.rgb, linear),
    };
    assert(estimates(image, known, close_ones(delta@, gate_key(background.delta_e.p50) as u64), &read));
    r
}

/// A run after the fill.
pub struct Begun {
    /// The threshold that the fill kept to.
    pub edge_threshold: u64,
    /// That it was raised.
    pub raised: Option<Warning>,
    /// The two-valued mask without specks.
    pub mask: Mask,
}

/// A cutout and what is known of it.
pub struct CutoutResult {
    /// The image with its alpha.
    pub image: RgbaImage,
    pub mask: Mask,
    pub background: BackgroundEstimate,
    /// The threshold that the fill kept to.
    pub edge_threshold: u64,
    pub stats: MaskStats,
    pub separability: Option<u64>,
    pub diagnostics: Diagnostics,
    /// Where the product seems to be. Only reported, never applied.
    pub subject: Option<SubjectHint>,
    pub warnings: Vec<Warning>,
}

/// The threshold of a run over a background of the given texture, and whether it
/// was raised.
pub open spec fn is_threshold(
    requested: Option<u64>,
    p50: u64,
    p90: u64,
    halves_up: bool,
    v: u64,
    raised: Option<Warning>,
) -> bool {
    match requested {
        Some(asked) => v == asked && raised is None,
        None => if p50 < DEFAULT_EDGE_THRESHOLD {
            v == DEFAULT_EDGE_THRESHOLD && raised is None
        } else {
            exists|tenths: u32| #[trigger]
                is_raised(p90, halves_up, tenths as int) && if tenths <= 80 {
                    v == DEFAULT_EDGE_THRESHOLD && raised is None
                } else {
                    v == strength_of_tenths(tenths as int) && raised == Some(
                        Warning::EdgeThresholdRaised { tenths, p50, p90 },
                    )
                }
        },
    }
}

/// The fill that the settings ask for.
pub open spec fn asks(opts: &CutoutOptions, edge_threshold: u64, flood: &FloodOptions<'_>) -> bool {
    &&& flood.tolerance == opts.tolerance
    &&& flood.bbox == opts.bbox
    &&& flood.fg_seeds@ == opts.fg_seeds@
    &&& flood.edge_threshold == edge_threshold
    &&& flood.constraints == opts.marks()
    &&& flood.seal == opts.seal
}

/// The ridges of a picture, unless the fill does not look at them.
pub open spec fn are_ridges(image: &RgbaImage, edge_threshold: u64, gradient: Seq<u64>) -> bool {
    edge_threshold > 0 ==> gradient.len() == image@.len() && forall|x: int, y: int|
        image.inside(x, y) ==> #[trigger] gradient[at(image.w() as int, x, y)] == ridge(image, x, y)
}

/// `mask` is the fill without specks.
pub open spec fn begins(
    image: &RgbaImage,
    delta: Seq<u64>,
    opts: &CutoutOptions,
    edge_threshold: u64,
    flood: &FloodOptions<'_>,
    gradient: Seq<u64>,
    filled: Seq<u8>,
    mask: &Mask,
) -> bool {
    &&& asks(opts, edge_threshold, flood)
    &&& are_ridges(image, edge_threshold, gradient)
    &&& is_filled(image, delta, gradient, flood, filled)
    &&& mask.wf()
    &&& mask.w() == image.w()
    &&& mask.h() == image.h()
    &&& forall|i: int|
        0 <= i < image@.len() ==> #[trigger] mask@[i] == cleaned_value(filled, image.w(), image.h(), opts, i)
}

/// Begins a run: settles the threshold by the texture of the border, fills the
/// background and clears specks. `delta` tells how far each pixel is from the
/// background; `texture` is that of the border, and `halves_up` tells which way a
/// threshold in the middle of two tenths is rounded.
pub fn begin(image: &RgbaImage, delta: &[u64], texture: &GradientQuantiles, halves_up: bool, opts: &CutoutOptions) -> (
    r: Begun)
    requires
        image.wf(),
        opts.wf(),
        delta@.len() == image@.len(),
        texture.p90 <= MAX_STRENGTH,
        opts.bbox matches Some(b) ==> rect_on(b, image.w() as int, image.h() as int) || image@.len() == 0,
    ensures
        is_threshold(opts.edge_threshold, texture.p50, texture.p90, halves_up, r.edge_threshold, r.raised),
        exists|flood: FloodOptions<'_>, gradient: Seq<u64>, filled: Seq<u8>| #[trigger]
            begins(image, delta@, opts, r.edge_threshold, &flood, gradient, filled, &r.mask),
{
    let (edge_threshold, raised): (u64, Option<Warning>) = resolve_edge_threshold(
        opts.edge_threshold,
        texture.p50,
        texture.p90,
        halves_up,
    );
    let gradient: Vec<u64> = if edge_threshold > 0 { edge_ridges(image) } else { Vec::new() };
    let mut fg_seeds: Vec<(u32, u32)> = Vec::with_capacity(opts.fg_seeds.len());
    let mut k: usize = 0;
    while k < opts.fg_seeds.len()
        invariant
            k <= opts.fg_seeds@.len(),
            fg_seeds@ == opts.fg_seeds@.take(k as int),
        decreases opts.fg_seeds@.len() - k,
    {
        fg_seeds.push(opts.fg_seeds[k]);
        assert(opts.fg_seeds@.take(k + 1) =~= opts.fg_seeds@.take(k as int).push(opts.fg_seeds@[k as int]));
        k += 1;
    }
    assert(opts.fg_seeds@.take(k as int) =~= opts.fg_seeds@);
    let flood: FloodOptions<'_> = FloodOptions {
        tolerance: opts.tolerance,
        bbox: opts.bbox,
        fg_seeds,
        edge_threshold,
        constraints: match &opts.constraints {
            Some(c) => Some(c),
            None => None,
        },
        seal: opts.seal,
    };
    let mask: Mask = first_mask(image, delta, gradient.as_slice(), &flood, opts);
    let ghost filled = choose|filled: Seq<u8>| #[trigger]
        is_filled(image, delta@, gradient@, &flood, filled) && forall|i: int|
            0 <= i < image@.len() ==> #[trigger] mask@[i] == cleaned_value(filled, image.w(), image.h(), opts, i);
    let r: Begun = Begun { edge_threshold, raised, mask };
    assert(begins(image, delta@, opts, r.edge_threshold, &flood, gradient@, filled, &r.mask));
    r
}

/// How the boundary is to be refined, if it is. What a seal has closed is to stay
/// closed, so the seal is handed on.
pub fn refinement(opts: &CutoutOptions) -> (r: Option<RefineOptions>)
    ensures
        r is Some <==> opts.refine,
        r matches Some(v) ==> v == (RefineOptions {
            min_radius: DEFAULT_MIN_RADIUS,
            max_radius: DEFAULT_MAX_RADIUS,
            min_separation: DEFAULT_MIN_SEPARATION,
            feather: opts.feather,
            despill: opts.despill,
            matting: Matting::Guided,
            smooth_contour: DEFAULT_SMOOTH_CONTOUR,
            reclassify: true,
            seal: opts.seal,
        }),
{
    if opts.refine {
        Some(
            RefineOptions {
                feather: opts.feather,
                despill: opts.despill,
                seal: opts.seal,
                ..RefineOptions::default()
            },
        )
    } else {
        None
    }
}

/// Reports a finished cutout. That the threshold was raised comes first, since the
/// other warnings are about what it led to.
pub fn report(
    edge_threshold: u64,
    raised: Option<Warning>,
    finished: Finished,
    background: BackgroundEstimate,
    diagnostics: Diagnostics,
    subject: Option<SubjectHint>,
    bbox_given: bool,
) -> (r: CutoutResult)
    requires
        diagnostics.contour_roughness matches Some(v) ==> v.thirds <= 255 * v.pixels,
    ensures
        r.image == finished.image,
        r.mask == finished.mask,
        r.stats == finished.stats,
        r.separability == finished.separability,
        r.background == background,
        r.edge_threshold == edge_threshold,
        r.diagnostics == diagnostics,
        r.subject == subject,
        r.warnings@ == (match raised {
            Some(w) => seq![w],
            None => Seq::<Warning>::empty(),
        }) + warnings_of(&background, &finished.stats, finished.separability, &diagnostics, subject, bbox_given),
{
    let found: Vec<Warning> = collect_warnings(
        &background,
        &finished.stats,
        finished.separability,
        &diagnostics,
        subject,
        bbox_given,
    );
    let ghost told = found@;
    let warnings: Vec<Warning> = all_warnings(raised, found);
    assert(Seq::<Warning>::empty() + told =~= told);
    CutoutResult {
        image: finished.image,
        mask: finished.mask,
        background,
        edge_threshold,
        stats: finished.stats,
        separability: finished.separability,
        diagnostics,
        subject,
        warnings,
    }
}

} // verus!
