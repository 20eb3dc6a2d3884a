use kiri::cutout::background::{BackgroundEstimate, DeltaEQuantiles};
use kiri::cutout::diagnostics::{Diagnostics, Roughness, Share};
use kiri::cutout::edges::EDGE_UNIT;
use kiri::cutout::mask::{Mask, MaskStats};
use kiri::cutout::report::{all_warnings, collect_warnings, resolve_edge_threshold, DEFAULT_EDGE_THRESHOLD};
use kiri::cutout::separability::boundary_separability;
use kiri::cutout::subject::{Confidence, Span, SubjectHint};
use kiri::raster::RgbaImage;
use kiri::warning::{bbox_argument, Warning, WarningCode};

fn to_linear(v: u8) -> f64 {
    let c = f64::from(v) / 255.0;
    if c <= 0.040_45 {
        c / 12.92
    } else {
        ((c + 0.055) / 1.055).powf(2.4)
    }
}

fn to_lab(rgb: [u8; 3]) -> [f64; 3] {
    let [r, g, b] = rgb.map(to_linear);
    let x = (0.412_456_4 * r + 0.357_576_1 * g + 0.180_437_5 * b) / 0.950_47;
    let y = 0.212_672_9 * r + 0.715_152_2 * g + 0.072_175 * b;
    let z = (0.019_333_9 * r + 0.119_192 * g + 0.950_304_1 * b) / 1.088_83;
    let f = |t: f64| {
        if t > 216.0 / 24389.0 {
            t.cbrt()
        } else {
            (24389.0 / 27.0 * t + 16.0) / 116.0
        }
    };
    [116.0 * f(y) - 16.0, 500.0 * (f(x) - f(y)), 200.0 * (f(y) - f(z))]
}

fn delta_e(a: [u8; 3], b: [u8; 3]) -> f64 {
    let (p, q) = (to_lab(a), to_lab(b));
    ((p[0] - q[0]).powi(2) + (p[1] - q[1]).powi(2) + (p[2] - q[2]).powi(2)).sqrt()
}

fn deltas(image: &RgbaImage, bg: [u8; 3]) -> Vec<u64> {
    image.pixels().iter().map(|p| delta_e([p[0], p[1], p[2]], bg).to_bits()).collect()
}

fn separability(
    image: &RgbaImage,
    mask: &Mask,
    bg: [u8; 3],
    inset: u32,
    bbox: Option<(u32, u32, u32, u32)>,
) -> Option<f64> {
    let size = (image.width(), image.height());
    boundary_separability(size, mask, &deltas(image, bg), inset, bbox, None).map(f64::from_bits)
}

fn scene(bg: [u8; 3], product: [u8; 3]) -> (RgbaImage, Mask) {
    let mut image = RgbaImage::from_pixel(40, 40, [bg[0], bg[1], bg[2], 255]);
    let mut mask = Mask::new(40, 40, 0);
    for y in 10..30 {
        for x in 10..30 {
            image.put_pixel(x, y, [product[0], product[1], product[2], 255]);
            mask.set(x, y, 255);
        }
    }
    (image, mask)
}

fn estimate(uniformity: f64, spread: f64) -> BackgroundEstimate {
    BackgroundEstimate {
        rgb: [250, 250, 250],
        within: (uniformity * 100.0).round() as u64,
        samples: 100,
        delta_e: DeltaEQuantiles {
            p50: spread.to_bits(),
            p90: (spread * 2.0).to_bits(),
            max: (spread * 3.0).to_bits(),
        },
    }
}

fn share(v: f64) -> Share {
    Share { part: (v * 10_000.0).round() as u64, whole: 10_000 }
}

fn rough(v: f64) -> Roughness {
    Roughness { thirds: (v * 3000.0).round() as u128, pixels: 1000, scale: 1000 }
}

fn stats_of(ratio: f64, touches_edge: bool) -> MaskStats {
    MaskStats {
        foreground: (ratio * 1000.0).round() as usize,
        total: 1000,
        bbox: Some((0, 0, 10, 10)),
        touches_edge,
    }
}

fn stats() -> MaskStats {
    stats_of(0.3, false)
}

fn clean() -> Diagnostics {
    Diagnostics {
        halo_ratio: Some(share(0.0)),
        edge_width: Some(3),
        contour_roughness: Some(rough(0.2)),
        rim_contamination: Some(share(0.0)),
    }
}

fn key(v: f64) -> Option<u64> {
    Some(v.to_bits())
}

fn hopeless(warnings: &[Warning]) -> bool {
    warnings.iter().any(|w| w.code().as_str() == "NOT_SEPARABLE")
}

#[test]
fn a_dark_product_on_a_light_background_separates_clearly() {
    let (image, mask) = scene([250, 250, 250], [40, 40, 40]);
    let sep = separability(&image, &mask, [250, 250, 250], 7, None).unwrap();
    assert!(sep > 60.0, "{sep}");
}

#[test]
fn a_product_the_same_colour_as_the_background_does_not_separate() {
    let (image, mask) = scene([84, 78, 70], [86, 80, 72]);
    let sep = separability(&image, &mask, [84, 78, 70], 7, None).unwrap();
    assert!(sep < 5.0, "{sep}");
}

#[test]
fn a_thick_background_coloured_rim_does_not_hide_the_product() {
    for rim in 0..=5u32 {
        let bg = [250, 250, 250];
        let product = [30, 30, 35];
        let mut image = RgbaImage::from_pixel(60, 60, [bg[0], bg[1], bg[2], 255]);
        let mut mask = Mask::new(60, 60, 0);
        for y in 15..45 {
            for x in 15..45 {
                let inner = x >= 15 + rim && x < 45 - rim && y >= 15 + rim && y < 45 - rim;
                if inner {
                    image.put_pixel(x, y, [product[0], product[1], product[2], 255]);
                }
                mask.set(x, y, 255);
            }
        }
        let sep = separability(&image, &mask, bg, 7, None).unwrap();
        assert!(sep > 60.0, "rim {rim}: {sep}");
    }
}

#[test]
fn the_edges_of_an_explicit_bbox_are_not_treated_as_a_contour() {
    let bg = [200, 200, 200];
    let image = RgbaImage::from_pixel(40, 40, [bg[0], bg[1], bg[2], 255]);
    let mut mask = Mask::new(40, 40, 0);
    for y in 10..=30 {
        for x in 10..=30 {
            mask.set(x, y, 255);
        }
    }
    assert!(separability(&image, &mask, bg, 7, None).is_some());
    assert_eq!(separability(&image, &mask, bg, 7, Some((10, 10, 30, 30))), None);
}

#[test]
fn mod_mismatched_dimensions_are_refused_rather_than_panicking() {
    let image = RgbaImage::from_pixel(8, 8, [0, 0, 0, 255]);
    let mut mask = Mask::new(10, 10, 0);
    mask.set(5, 5, 255);
    assert_eq!(separability(&image, &mask, [0; 3], 7, None), None);
}

#[test]
fn separability_is_none_without_a_boundary() {
    let image = RgbaImage::from_pixel(10, 10, [0, 0, 0, 255]);
    assert_eq!(separability(&image, &Mask::new(10, 10, 0), [0; 3], 7, None), None);
}

#[test]
fn separability_ignores_the_image_edge() {
    let image = RgbaImage::from_pixel(10, 10, [255, 255, 255, 255]);
    let mask = Mask::new(10, 10, 255);
    assert_eq!(separability(&image, &mask, [255, 255, 255], 7, None), None);
}

fn strength(v: f64) -> u64 {
    (v * v * EDGE_UNIT as f64).round() as u64
}

/// The threshold over a border whose upper tail is `p90` and whose median is half
/// of that.
fn resolve(requested: Option<u64>, p90: f64) -> (u64, Option<Warning>) {
    let halves_up = (p90 * 1.5 * 10.0).fract() >= 0.5;
    resolve_edge_threshold(requested, strength(p90 / 2.0), strength(p90), halves_up)
}

#[test]
fn a_smooth_background_keeps_the_default_dam() {
    for p90 in [0.0, 1.0, 3.9, 5.3] {
        let (value, warning) = resolve(None, p90);
        assert_eq!(value, DEFAULT_EDGE_THRESHOLD, "{p90}");
        assert!(warning.is_none(), "{p90}");
    }
    assert_eq!(DEFAULT_EDGE_THRESHOLD, strength(8.0));
}

#[test]
fn a_woven_background_raises_the_dam_and_says_so() {
    let (value, warning) = resolve(None, 27.9);
    assert_eq!(value, strength(41.8), "p90 の 1.5 倍（小数第1位まで）になっていない");
    let warning = warning.expect("a setting is not changed in silence");
    assert_eq!(warning.code().as_str(), "EDGE_THRESHOLD_RAISED");
    assert_eq!(
        warning,
        Warning::EdgeThresholdRaised { tenths: 418, p50: strength(27.9 / 2.0), p90: strength(27.9) },
        "警告と実際に効く値が食い違っている"
    );
    assert_eq!(DEFAULT_EDGE_THRESHOLD, strength(8.0));
}

#[test]
fn a_raised_dam_is_rounded_to_tenths() {
    let (value, warning) = resolve(None, 20.0);
    assert_eq!(value, strength(30.0));
    assert_eq!(
        warning,
        Some(Warning::EdgeThresholdRaised { tenths: 300, p50: strength(10.0), p90: strength(20.0) })
    );
}

#[test]
fn a_dam_in_the_middle_goes_the_way_it_is_told() {
    assert_eq!(resolve(None, 27.5).0, strength(41.3));
    let (p50, p90) = (strength(13.75), strength(27.5));
    assert_eq!(resolve_edge_threshold(None, p50, p90, false).0, strength(41.2));
    assert_eq!(resolve_edge_threshold(None, p50, p90 - 1, true).0, strength(41.2));
    assert_eq!(resolve_edge_threshold(None, p50, p90 + 1, false).0, strength(41.3));
}

#[test]
fn an_explicit_dam_is_left_alone() {
    for requested in [0.0, 8.0, 100.0] {
        let (value, warning) =
            resolve(Some(strength(requested)), 27.9);
        assert_eq!(value, strength(requested));
        assert!(warning.is_none());
    }
}

fn subject(confidence: Confidence) -> SubjectHint {
    SubjectHint {
        bbox: (0, 1999, 4198, 3827),
        across: Span { lo: 0, hi: 9834, of: 10_000 },
        down: Span { lo: 354, hi: 662, of: 1000 },
        area: 2342,
        pixels: 10_000,
        far: 2391,
        leftover: 531,
        mean: [0, 0, 0],
        touches_edge: true,
        confidence,
    }
}

fn edge_stats() -> MaskStats {
    stats_of(0.53, true)
}

fn codes(warnings: &[Warning]) -> Vec<&'static str> {
    warnings.iter().map(|w| w.code().as_str()).collect()
}

#[test]
fn a_non_uniform_background_without_a_bbox_recommends_one_instead_of_crying_crop() {
    let warnings = collect_warnings(
        &estimate(0.20, 11.9),
        &edge_stats(),
        key(60.0),
        &clean(),
        Some(subject(Confidence::High)),
        false,
    );
    let codes = codes(&warnings);
    assert!(codes.contains(&"BBOX_RECOMMENDED"), "{codes:?}");
    assert!(!codes.contains(&"SUBJECT_TOUCHES_EDGE"), "{codes:?}");

    let w = warnings.iter().find(|w| w.code() == WarningCode::BboxRecommended).unwrap();
    let hint = w.hint().unwrap();
    assert!(hint.contains("--bbox 0,0.354,0.9834,0.662"), "{hint}");
    assert!(hint.contains("--normalized"), "{hint}");
    let Warning::BboxRecommended { down, foreground, total, .. } = *w else {
        panic!("{w:?}");
    };
    assert_eq!(down.lo as f64 / down.of as f64, 0.354);
    assert_eq!(foreground as f64 / total as f64, 0.53);
}

#[test]
fn a_remaining_rim_says_which_knob_to_turn() {
    let warnings = collect_warnings(
        &estimate(0.20, 11.9),
        &stats(),
        key(60.0),
        &Diagnostics {
            halo_ratio: Some(share(0.1627)),
            edge_width: Some(6),
            contour_roughness: Some(rough(0.2)),
            rim_contamination: Some(share(0.0)),
        },
        None,
        true,
    );
    let w = warnings
        .iter()
        .find(|w| w.code().as_str() == "HALO_REMAINS")
        .unwrap_or_else(|| panic!("{warnings:?}"));
    let hint = w.hint().expect("the next step is missing");
    assert!(hint.contains("--tolerance"), "{hint}");
    assert_eq!(*w, Warning::HaloRemains { halo: share(0.1627) });
}

#[test]
fn a_contaminated_rim_has_a_hint_only_beside_a_halo() {
    let at = |halo: f64| {
        collect_warnings(
            &estimate(1.0, 0.5),
            &stats(),
            key(60.0),
            &Diagnostics {
                halo_ratio: Some(share(halo)),
                contour_roughness: Some(rough(0.1)),
                rim_contamination: Some(share(0.05)),
                edge_width: None,
            },
            None,
            false,
        )
    };
    let alone = at(0.0);
    assert_eq!(codes(&alone), ["RIM_CONTAMINATED"]);
    assert_eq!(alone[0].hint(), None);
    let both = at(0.2);
    assert_eq!(codes(&both), ["HALO_REMAINS", "RIM_CONTAMINATED"]);
    assert_eq!(both[0].hint(), both[1].hint());
}

#[test]
fn a_clean_cut_on_a_non_uniform_background_is_left_alone() {
    let warnings = collect_warnings(
        &estimate(0.24, 10.2),
        &stats_of(0.16, false),
        key(76.4),
        &clean(),
        Some(subject(Confidence::High)),
        false,
    );
    let codes = codes(&warnings);
    assert!(!codes.contains(&"BBOX_RECOMMENDED"), "{codes:?}");
    assert!(!codes.contains(&"SUBJECT_TOUCHES_EDGE"), "{codes:?}");
}

#[test]
fn a_product_cropped_by_the_frame_is_still_reported_as_such() {
    let warnings = collect_warnings(
        &estimate(0.20, 11.9),
        &edge_stats(),
        key(60.0),
        &clean(),
        Some(subject(Confidence::High)),
        true,
    );
    let codes = codes(&warnings);
    assert!(codes.contains(&"SUBJECT_TOUCHES_EDGE"), "{codes:?}");
    assert!(!codes.contains(&"BBOX_RECOMMENDED"), "{codes:?}");
}

#[test]
fn a_uniform_background_touching_the_edge_is_a_real_crop() {
    let warnings = collect_warnings(
        &estimate(1.0, 0.5),
        &edge_stats(),
        key(60.0),
        &clean(),
        Some(subject(Confidence::High)),
        false,
    );
    let codes = codes(&warnings);
    assert!(codes.contains(&"SUBJECT_TOUCHES_EDGE"), "{codes:?}");
    assert!(!codes.contains(&"BBOX_RECOMMENDED"), "{codes:?}");
}

#[test]
fn a_low_confidence_subject_never_produces_a_bbox_hint() {
    let warnings = collect_warnings(
        &estimate(0.16, 21.6),
        &edge_stats(),
        key(60.0),
        &clean(),
        Some(subject(Confidence::Low)),
        false,
    );
    let codes = codes(&warnings);
    assert!(!codes.contains(&"BBOX_RECOMMENDED"), "{codes:?}");
    assert!(codes.contains(&"SUBJECT_TOUCHES_EDGE"), "{codes:?}");
}

#[test]
fn a_hopeless_image_is_called_out() {
    let warnings =
        collect_warnings(&estimate(0.16, 20.0), &stats(), key(12.1), &clean(), None, false);
    assert!(hopeless(&warnings), "{warnings:?}");
}

#[test]
fn nothing_is_called_out_before_the_cut_has_happened() {
    let warnings = collect_warnings(
        &estimate(0.21, 11.9),
        &stats_of(0.998, true),
        key(11.5),
        &clean(),
        None,
        false,
    );
    assert!(!hopeless(&warnings), "{warnings:?}");
    assert!(codes(&warnings).contains(&"FOREGROUND_TOO_LARGE"));
}

#[test]
fn a_white_product_on_a_uniform_white_background_is_not_called_out() {
    let warnings = collect_warnings(&estimate(1.0, 0.8), &stats(), key(3.0), &clean(), None, false);
    assert!(!hopeless(&warnings), "{warnings:?}");
}

#[test]
fn a_patchy_background_with_a_distinct_product_is_not_called_out() {
    let warnings =
        collect_warnings(&estimate(0.5, 15.0), &stats(), key(60.0), &clean(), None, false);
    assert!(!hopeless(&warnings), "{warnings:?}");
}

#[test]
fn an_empty_result_is_too_small() {
    let warnings =
        collect_warnings(&estimate(1.0, 0.8), &stats_of(0.0, false), None, &clean(), None, false);
    assert_eq!(codes(&warnings), ["FOREGROUND_TOO_SMALL", "CONTOUR_ROUGH"]);
    assert_eq!(
        warnings[0].hint().as_deref(),
        Some("--tolerance を下げるか --bbox で対象を指定してください")
    );
}

#[test]
fn a_raised_threshold_is_reported_first() {
    let raised = Warning::EdgeThresholdRaised { tenths: 300, p50: 1, p90: 2 };
    let all = all_warnings(Some(raised), vec![Warning::SubjectTouchesEdge]);
    assert_eq!(codes(&all), ["EDGE_THRESHOLD_RAISED", "SUBJECT_TOUCHES_EDGE"]);
    assert_eq!(all_warnings(None, vec![Warning::SubjectTouchesEdge]).len(), 1);
}

#[test]
fn a_box_is_written_with_four_places_at_most() {
    let s = |lo, hi, of| Span { lo, hi, of };
    assert_eq!(bbox_argument(s(0, 1, 1), s(1, 2, 3)), "0,0.3333,1,0.6667");
    assert_eq!(bbox_argument(s(1, 1, 2), s(7, 9, 10_000)), "0.5,0.0007,0.5,0.0009");
    assert_eq!(bbox_argument(s(1, 99_999, 100_000), s(1, 2, 8)), "0,0.125,1,0.25");
}
