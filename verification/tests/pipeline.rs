use kiri::cutout::background::{
    border_gradient_quantiles, collect_border_pixels, estimate_background, field_band, median_rgb, widen_subject,
    BackgroundEstimate, BackgroundModel, ResolvedModel, DEFAULT_BORDER,
};
use kiri::cutout::cells::RIM_LINEAR_ONE;
use kiri::cutout::diagnostics::{diagnose, halo_probes, Share};
use kiri::cutout::edges::{GradientQuantiles, EDGE_UNIT};
use kiri::cutout::finish::{complete, plain_boundary, CutoutOptions};
use kiri::cutout::contour::rim_pixels;
use kiri::cutout::mask::Mask;
use kiri::cutout::matte::LINEAR_UNIT;
use kiri::cutout::optimize::{apply, search_options, OptimizeFixed, Stage, Trial};
use kiri::cutout::pipeline::{background_field, begin, known_sources, refinement, report, CutoutResult};
use kiri::cutout::recover::recover;
use kiri::cutout::refine::{band_map, farthest_on_side, transition_width, Matting, RefineOptions, RADIUS_CEILING};
use kiri::cutout::refining::{Ground, Refining};
use kiri::cutout::report::DEFAULT_EDGE_THRESHOLD;
use kiri::cutout::search::{Next, Optimizing};
use kiri::cutout::subject::{detect_subject, Confidence, SubjectHint};
use kiri::raster::RgbaImage;

fn to_linear(v: u8) -> f64 {
    let c = f64::from(v) / 255.0;
    if c <= 0.040_45 {
        c / 12.92
    } else {
        ((c + 0.055) / 1.055).powf(2.4)
    }
}

fn to_lab(rgb: [u8; 3]) -> [f64; 3] {
    let [r, g, b] = rgb.map(to_linear);
    let x = (0.412_456_4 * r + 0.357_576_1 * g + 0.180_437_5 * b) / 0.950_47;
    let y = 0.212_672_9 * r + 0.715_152_2 * g + 0.072_175 * b;
    let z = (0.019_333_9 * r + 0.119_192 * g + 0.950_304_1 * b) / 1.088_83;
    let f = |t: f64| {
        if t > 216.0 / 24389.0 {
            t.cbrt()
        } else {
            (24389.0 / 27.0 * t + 16.0) / 116.0
        }
    };
    [116.0 * f(y) - 16.0, 500.0 * (f(x) - f(y)), 200.0 * (f(y) - f(z))]
}

fn delta_e(a: [u8; 3], b: [u8; 3]) -> f64 {
    let (p, q) = (to_lab(a), to_lab(b));
    ((p[0] - q[0]).powi(2) + (p[1] - q[1]).powi(2) + (p[2] - q[2]).powi(2)).sqrt()
}

fn rim_table() -> Vec<u32> {
    (0..=255u8).map(|v| (to_linear(v) * f64::from(RIM_LINEAR_ONE)).round() as u32).collect()
}

fn estimate(image: &RgbaImage) -> BackgroundEstimate {
    let samples = collect_border_pixels(image, DEFAULT_BORDER);
    let rgb = median_rgb(&samples);
    let deltas = samples.iter().map(|&s| delta_e(s, rgb).to_bits()).collect();
    estimate_background(&samples, deltas)
}

fn texture(image: &RgbaImage) -> GradientQuantiles {
    border_gradient_quantiles(image, field_band(image.width(), image.height(), DEFAULT_BORDER))
}

fn light_table() -> Vec<u64> {
    (0..=255u8).map(|v| (to_linear(v) * LINEAR_UNIT as f64).round() as u64).collect()
}

fn light_steps() -> Vec<u64> {
    (1..=255u32)
        .map(|k| {
            let c = (f64::from(k) - 0.5) / 255.0;
            let v = if c <= 0.040_45 { c / 12.92 } else { ((c + 0.055) / 1.055).powf(2.4) };
            (v * LINEAR_UNIT as f64).ceil() as u64
        })
        .collect()
}

fn outward_normal(mask: &Mask, x: u32, y: u32) -> Option<[f64; 2]> {
    let (mut nx, mut ny) = (0.0f64, 0.0f64);
    for dy in -1i64..=1 {
        for dx in -1i64..=1 {
            let (u, v) = (i64::from(x) + dx, i64::from(y) + dy);
            if u < 0 || v < 0 || u >= i64::from(mask.width()) || v >= i64::from(mask.height()) {
                continue;
            }
            if !mask.is_foreground(u as u32, v as u32) {
                nx += dx as f64;
                ny += dy as f64;
            }
        }
    }
    let length = nx.hypot(ny);
    if length < 1e-9 {
        None
    } else {
        Some([nx / length, ny / length])
    }
}

/// The places that a walk from a pixel passes, as far as they are on the image.
fn walk(mask: &Mask, x: u32, y: u32, normal: [f64; 2], sign: f64, steps: u32) -> Vec<Option<(u32, u32)>> {
    (1..=steps)
        .map(|t| {
            let sx = (f64::from(x) + sign * normal[0] * f64::from(t)).round();
            let sy = (f64::from(y) + sign * normal[1] * f64::from(t)).round();
            if sx < 0.0 || sy < 0.0 || sx >= f64::from(mask.width()) || sy >= f64::from(mask.height()) {
                None
            } else {
                Some((sx as u32, sy as u32))
            }
        })
        .collect()
}

fn rgb(image: &RgbaImage, p: (u32, u32)) -> [u8; 3] {
    let c = image.get_pixel(p.0, p.1);
    [c[0], c[1], c[2]]
}

fn rests(image: &RgbaImage, steps: &[Option<(u32, u32)>], reference: [u8; 3]) -> Vec<Option<u64>> {
    steps.iter().map(|s| s.map(|p| delta_e(rgb(image, p), reference).to_bits())).collect()
}

fn draw_band(image: &RgbaImage, mask: &Mask, bg: [u8; 3], min: u32, max: u32) -> Vec<u8> {
    let lo = min.clamp(1, RADIUS_CEILING);
    let hi = max.clamp(lo, RADIUS_CEILING);
    let contour = rim_pixels(mask);
    let measured: Vec<Option<u32>> = contour
        .iter()
        .map(|&(x, y)| {
            let normal = outward_normal(mask, x, y)?;
            let out = walk(mask, x, y, normal, 1.0, hi);
            let inner = walk(mask, x, y, normal, -1.0, hi);
            let sides = |steps: &[Option<(u32, u32)>]| -> Vec<Option<bool>> {
                steps.iter().map(|s| s.map(|p| mask.is_foreground(p.0, p.1))).collect()
            };
            let outer_ref = farthest_on_side(&sides(&out), false)
                .and_then(|t| out[t])
                .map_or(bg, |p| rgb(image, p));
            let inner_ref = farthest_on_side(&sides(&inner), true)
                .and_then(|t| inner[t])
                .map(|p| rgb(image, p));
            let outward = rests(image, &out, outer_ref);
            let inward = inner_ref.map(|r| rests(image, &inner, r));
            Some(transition_width(&outward, inward.as_deref(), lo, hi))
        })
        .collect();
    band_map(mask.width(), mask.height(), &contour, &measured, min, max)
}

/// The work on the boundary.
fn boundary(image: &RgbaImage, mask: &Mask, bg: [u8; 3], opts: &CutoutOptions) -> (RgbaImage, Mask) {
    let Some(how) = refinement(opts) else {
        return plain_boundary(image.clone(), mask, bg, opts);
    };
    let (linear, rim) = (light_table(), rim_table());
    let ground = Ground { image, background: bg, linear: &linear, rim: &rim, opts: how };
    let mut state = Refining::start(&ground, mask.clone());
    while let Some((shape, (min, max))) = state.band_around() {
        let band = draw_band(image, shape, bg, min, max);
        state = state.with_band(&ground, band);
    }
    match state {
        Refining::Done(r) => {
            let mut out = image.clone();
            recover(&mut out, &r.recover, &light_steps());
            (out, r.mask)
        }
        _ => unreachable!(),
    }
}

fn subject_of(image: &RgbaImage, bg: &BackgroundEstimate) -> Option<SubjectHint> {
    let delta = deltas(image, bg.rgb);
    detect_subject(image, (image.width(), image.height()), &delta, bg.delta_e.p50, bg.delta_e.p90)
}

fn deltas(image: &RgbaImage, rgb: [u8; 3]) -> Vec<u64> {
    image.pixels().iter().map(|p| delta_e([p[0], p[1], p[2]], rgb).to_bits()).collect()
}

/// A whole run.
fn cutout(image: &RgbaImage, opts: &CutoutOptions) -> CutoutResult {
    let background = estimate(image);
    let rgb = background.rgb;
    let delta = deltas(image, rgb);
    let begun = begin(image, &delta, &texture(image), true, opts);
    let (shown, soft) = boundary(image, &begun.mask, rgb, opts);
    let finished = complete(shown, &soft, &delta, opts);
    let halo: Vec<u64> = halo_probes(image, &finished.mask)
        .iter()
        .map(|p| {
            let c = image.get_pixel(p.x, p.y);
            delta_e([c[0], c[1], c[2]], p.local.unwrap_or(rgb)).to_bits()
        })
        .collect();
    let diagnostics = diagnose(image, &finished.mask, opts.bbox, &halo, Vec::new(), &rim_table());
    let subject = subject_of(image, &background);
    report(begun.edge_threshold, begun.raised, finished, background, diagnostics, subject, opts.bbox.is_some())
}

struct Optimized {
    options: CutoutOptions,
    trials: Vec<Trial>,
    chosen: usize,
}

/// A search on an image that is small enough to be searched as it is.
fn optimize(image: &RgbaImage, mut base: CutoutOptions, fixed: &OptimizeFixed) -> Optimized {
    let size = (image.width(), image.height());
    let background = estimate(image);
    let mut small = search_options(&base, size, size);
    let subject = subject_of(image, &background);
    let known = known_sources(&small, subject, size.0, size.1);
    let delta = deltas(image, background.rgb);
    let resolved =
        background_field(image, &background, BackgroundModel::Auto, &known, &delta, &light_table()).model();
    let mut state = Optimizing::start(&base, fixed, subject, resolved);
    loop {
        let (candidate, stage) = match state.next() {
            Next::Search(c) => (c, Stage::Search),
            Next::Final(c) => (c, Stage::Final),
            Next::Over => break,
        };
        let opts = if stage == Stage::Search { &mut small } else { &mut base };
        apply(opts, &candidate, size, size);
        let r = cutout(image, opts);
        state.record(Trial::new(
            candidate,
            stage,
            Share { part: r.stats.foreground as u64, whole: r.stats.total as u64 },
            r.stats.touches_edge,
            r.separability,
            r.diagnostics,
            r.warnings.iter().map(|w| w.code()).collect(),
            false,
        ));
    }
    let done = state.finish();
    apply(&mut base, &done.trials[done.chosen].candidate, size, size);
    Optimized { options: base, trials: done.trials, chosen: done.chosen }
}

fn boxed(bg: [u8; 3], product: [u8; 3]) -> RgbaImage {
    let mut image = RgbaImage::from_pixel(80, 80, [bg[0], bg[1], bg[2], 255]);
    for y in 20..60 {
        for x in 20..60 {
            image.put_pixel(x, y, [product[0], product[1], product[2], 255]);
        }
    }
    image
}

fn plain() -> CutoutOptions {
    CutoutOptions { refine: false, ..CutoutOptions::default() }
}

#[test]
fn a_dark_product_on_white_is_cut_out() {
    let image = boxed([250, 250, 249], [40, 40, 45]);
    let r = cutout(&image, &plain());
    assert_eq!(r.background.rgb, [250, 250, 249]);
    assert_eq!(r.edge_threshold, DEFAULT_EDGE_THRESHOLD);
    assert_eq!(r.stats.total, 6400);
    assert!((1600..=1764).contains(&r.stats.foreground), "{}", r.stats.foreground);
    assert!(!r.stats.touches_edge);
    assert_eq!(r.image.get_pixel(40, 40), [40, 40, 45, 255]);
    assert_eq!(r.image.get_pixel(5, 5)[3], 0);
    assert!(f64::from_bits(r.separability.unwrap()) > 50.0);
    let codes: Vec<&str> = r.warnings.iter().map(|w| w.code().as_str()).collect();
    assert!(!codes.contains(&"LOW_UNIFORMITY") && !codes.contains(&"NOT_SEPARABLE"), "{codes:?}");
}

#[test]
fn a_raised_threshold_leads_the_report() {
    let image = boxed([250, 250, 249], [40, 40, 45]);
    let delta = vec![0u64; 6400];
    let rough = GradientQuantiles { p50: 100 * EDGE_UNIT, p90: 400 * EDGE_UNIT };
    let begun = begin(&image, &delta, &rough, true, &plain());
    assert_eq!(begun.edge_threshold, 900 * EDGE_UNIT);
    assert!(begun.raised.is_some());
    let asked = CutoutOptions { edge_threshold: Some(7), ..plain() };
    assert!(begin(&image, &delta, &rough, true, &asked).raised.is_none());
    let finished = complete(image.clone(), &begun.mask, &delta, &plain());
    let none = diagnose(&image, &Mask::new(80, 80, 0), None, &[], Vec::new(), &rim_table());
    assert_eq!((none.halo_ratio, none.edge_width, none.contour_roughness), (None, None, None));
    let r = report(begun.edge_threshold, begun.raised, finished, estimate(&image), none, None, false);
    assert_eq!(r.warnings[0].code().as_str(), "EDGE_THRESHOLD_RAISED");
}

#[test]
fn an_edge_bank_can_be_switched_off() {
    let image = boxed([250, 250, 249], [40, 40, 45]);
    let delta = vec![0u64; 6400];
    let off = CutoutOptions { edge_threshold: Some(0), ..plain() };
    let begun = begin(&image, &delta, &texture(&image), true, &off);
    assert_eq!(begun.mask, Mask::new(80, 80, 0));
    let kept = begin(&image, &delta, &texture(&image), true, &plain());
    assert!(kept.mask.is_foreground(40, 40));
    assert!(!kept.mask.is_foreground(5, 5));
}

#[test]
fn the_measures_of_a_boundary_are_put_together() {
    let image = boxed([250, 250, 249], [40, 40, 45]);
    let mut mask = Mask::new(80, 80, 0);
    for y in 20..60 {
        for x in 20..60 {
            mask.set(x, y, 255);
        }
    }
    let d = diagnose(&image, &mask, None, &[0, u64::MAX, 4.0f64.to_bits(), 3.1f64.to_bits()], vec![6, 2, 4], &rim_table());
    assert_eq!(d.halo_ratio, Some(Share { part: 1, whole: 4 }));
    assert_eq!(d.edge_width, Some(4));
    assert!(d.contour_roughness.is_some());
    assert_eq!(d.rim_contamination.map(|s| s.part), Some(0));
}

#[test]
fn the_boundary_is_refined_unless_that_is_off() {
    let opts = CutoutOptions { feather: 3, despill: false, seal: 2, ..CutoutOptions::default() };
    let r = refinement(&opts).unwrap();
    assert_eq!(r, RefineOptions { feather: 3, despill: false, seal: 2, ..RefineOptions::default() });
    assert_eq!(r.matting, Matting::Guided);
    assert!(refinement(&plain()).is_none());
}

#[test]
fn the_returned_settings_belong_to_the_chosen_candidate() {
    let mut image = RgbaImage::from_pixel(120, 90, [210, 208, 205, 255]);
    for y in 25..65 {
        for x in 30..90 {
            image.put_pixel(x, y, [40, 60, 120, 255]);
        }
    }
    let found = optimize(&image, CutoutOptions::default(), &OptimizeFixed::default());
    let chosen = found.trials[found.chosen].candidate;

    assert_eq!(found.options.tolerance, chosen.tolerance);
    assert_eq!(found.options.background_model, chosen.background_model);
    let (w, h) = (image.width(), image.height());
    assert_eq!(
        found.options.bbox,
        chosen.bbox.map(|b| b.resolve((w, h), (w, h))),
    );
}

#[test]
fn a_refined_cutout_keeps_the_product_and_drops_the_rest() {
    let image = boxed([250, 250, 249], [40, 40, 45]);
    let r = cutout(&image, &CutoutOptions::default());
    assert_eq!(r.stats.foreground, 1600);
    assert_eq!(r.stats.bbox, Some((20, 20, 59, 59)));
    assert_eq!(r.image.get_pixel(40, 40), [40, 40, 45, 255]);
    assert_eq!(r.image.get_pixel(18, 40)[3], 0);
    assert_eq!(r.diagnostics.halo_ratio.map(|s| s.part), Some(0));
    assert!(r.warnings.is_empty(), "{:?}", r.warnings);
}

#[test]
fn the_box_of_a_product_counts_only_when_it_is_certain() {
    let image = boxed([250, 250, 249], [40, 40, 45]);
    let opts = CutoutOptions { border: 3, bbox: Some((1, 2, 70, 71)), ..CutoutOptions::default() };
    let found = subject_of(&image, &estimate(&image)).unwrap();
    assert_eq!(found.confidence, Confidence::High);
    let known = known_sources(&opts, Some(found), 80, 80);
    assert_eq!((known.band, known.outside_bbox), (3, Some((1, 2, 70, 71))));
    assert_eq!(known.outside_subject, Some(widen_subject(found.bbox, 80, 80)));
    assert!(known.constraints.is_none() && known.filled.is_none());
    let doubtful = SubjectHint { confidence: Confidence::Low, ..found };
    assert_eq!(known_sources(&opts, Some(doubtful), 80, 80).outside_subject, None);
    assert_eq!(known_sources(&opts, None, 80, 80).outside_subject, None);
}

#[test]
fn one_colour_has_to_do_where_no_field_is_read() {
    let mut image = RgbaImage::from_pixel(80, 80, [200, 200, 200, 255]);
    for y in 0..80 {
        for x in 0..80 {
            let v = 170 + x as u8;
            image.put_pixel(x, y, [v, v, v, 255]);
        }
    }
    let bg = estimate(&image);
    let opts = CutoutOptions::default();
    let known = known_sources(&opts, None, 80, 80);
    let delta = deltas(&image, bg.rgb);
    let of = |model, delta: &[u64]| background_field(&image, &bg, model, &known, delta, &light_table());
    assert!(!bg.is_uniform());
    assert_eq!(of(BackgroundModel::Auto, &delta).model(), ResolvedModel::Field);
    assert_eq!(of(BackgroundModel::Flat, &delta).model(), ResolvedModel::Flat);
    let far = vec![u64::MAX; 6400];
    let none = of(BackgroundModel::Field, &far);
    assert_eq!((none.model(), none.rgb()), (ResolvedModel::Flat, bg.rgb));
}

#[test]
fn settings_that_the_fill_does_not_read_are_carried_along() {
    let opts = CutoutOptions::default();
    assert_eq!((f64::from_bits(opts.step_tolerance), f64::from_bits(opts.shadow_tolerance)), (2.2, 35.0));
    let other = CutoutOptions { step_tolerance: 1, shadow_tolerance: 2, ..opts };
    let small = search_options(&other, (80, 80), (40, 40));
    assert_eq!((small.step_tolerance, small.shadow_tolerance), (1, 2));
}

#[test]
fn the_seal_of_the_options_closes_a_slit_in_the_first_mask() {
    let mut image = boxed([250, 250, 249], [40, 40, 45]);
    for y in 0..40 {
        image.put_pixel(40, y, [250, 250, 249, 255]);
    }
    let delta: Vec<u64> =
        image.pixels().iter().map(|p| delta_e([p[0], p[1], p[2]], [250, 250, 249]).to_bits()).collect();
    let slit = |seal: u32| {
        let opts = CutoutOptions { seal, edge_threshold: Some(0), cleanup: 0, ..plain() };
        begin(&image, &delta, &texture(&image), true, &opts).mask.is_foreground(40, 30)
    };
    assert!(!slit(0));
    assert!(slit(1));
}
