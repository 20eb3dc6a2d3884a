use kiri::cutout::background::{
    collect_border_pixels, estimate_background, median_rgb, BackgroundEstimate, DEFAULT_BORDER,
};
use kiri::cutout::subject::{
    detect_subject, expand, largest_component, to_pixels, Confidence, LowReason, Span, SubjectHint, MEASURE_LONG_EDGE,
};
use kiri::raster::RgbaImage;

fn to_linear(v: u8) -> f64 {
    let c = f64::from(v) / 255.0;
    if c <= 0.040_45 {
        c / 12.92
    } else {
        ((c + 0.055) / 1.055).powf(2.4)
    }
}

fn to_lab(rgb: [u8; 3]) -> [f64; 3] {
    let [r, g, b] = rgb.map(to_linear);
    let x = (0.412_456_4 * r + 0.357_576_1 * g + 0.180_437_5 * b) / 0.950_47;
    let y = 0.212_672_9 * r + 0.715_152_2 * g + 0.072_175 * b;
    let z = (0.019_333_9 * r + 0.119_192 * g + 0.950_304_1 * b) / 1.088_83;
    let f = |t: f64| {
        if t > 216.0 / 24389.0 {
            t.cbrt()
        } else {
            (24389.0 / 27.0 * t + 16.0) / 116.0
        }
    };
    [116.0 * f(y) - 16.0, 500.0 * (f(x) - f(y)), 200.0 * (f(y) - f(z))]
}

fn delta_e(a: [u8; 3], b: [u8; 3]) -> f64 {
    let (p, q) = (to_lab(a), to_lab(b));
    ((p[0] - q[0]).powi(2) + (p[1] - q[1]).powi(2) + (p[2] - q[2]).powi(2)).sqrt()
}

fn estimate(image: &RgbaImage) -> BackgroundEstimate {
    let samples = collect_border_pixels(image, DEFAULT_BORDER);
    let rgb = median_rgb(&samples);
    let deltas = samples.iter().map(|&s| delta_e(s, rgb).to_bits()).collect();
    estimate_background(&samples, deltas)
}

fn small_copy(image: &RgbaImage) -> RgbaImage {
    let (w, h) = (image.width(), image.height());
    if w.max(h) <= MEASURE_LONG_EDGE {
        return RgbaImage::from_pixels(w, h, image.pixels().to_vec()).unwrap();
    }
    let raw: Vec<u8> = image.pixels().iter().flatten().copied().collect();
    let full = image::RgbaImage::from_raw(w, h, raw).unwrap();
    let long = f64::from(w.max(h));
    let side = |n: u32| (f64::from(n) * f64::from(MEASURE_LONG_EDGE) / long).round().max(1.0) as u32;
    let small = image::imageops::resize(&full, side(w), side(h), image::imageops::FilterType::Lanczos3);
    let pixels = small.pixels().map(|p| p.0).collect();
    RgbaImage::from_pixels(small.width(), small.height(), pixels).unwrap()
}

fn detect(image: &RgbaImage) -> Option<SubjectHint> {
    let bg = estimate(image);
    let small = small_copy(image);
    let delta: Vec<u64> =
        small.pixels().iter().map(|p| delta_e([p[0], p[1], p[2]], bg.rgb).to_bits()).collect();
    let full = (image.width(), image.height());
    detect_subject(&small, full, &delta, bg.delta_e.p50, bg.delta_e.p90)
}

fn left(s: &SubjectHint) -> f64 {
    s.across.lo as f64 / s.across.of as f64
}

fn right(s: &SubjectHint) -> f64 {
    s.across.hi as f64 / s.across.of as f64
}

fn top(s: &SubjectHint) -> f64 {
    s.down.lo as f64 / s.down.of as f64
}

fn bottom(s: &SubjectHint) -> f64 {
    s.down.hi as f64 / s.down.of as f64
}

fn area(s: &SubjectHint) -> f64 {
    s.area as f64 / s.pixels as f64
}

fn capture(s: &SubjectHint) -> f64 {
    s.area as f64 / s.far as f64
}

fn leftover(s: &SubjectHint) -> f64 {
    s.leftover as f64 / s.pixels as f64
}

fn scene(
    size: (u32, u32),
    bg: [u8; 3],
    product: [u8; 3],
    rect: (u32, u32, u32, u32),
) -> RgbaImage {
    let mut img = RgbaImage::from_pixel(size.0, size.1, [bg[0], bg[1], bg[2], 255]);
    let (x1, y1, x2, y2) = rect;
    for y in y1..=y2 {
        for x in x1..=x2 {
            img.put_pixel(x, y, [product[0], product[1], product[2], 255]);
        }
    }
    img
}

fn poisoned_scene() -> RgbaImage {
    let mut img = RgbaImage::from_pixel(600, 600, [250, 250, 248, 255]);
    for y in 0..600 {
        for x in 0..210 {
            img.put_pixel(x, y, [150, 150, 150, 255]);
        }
    }
    for y in 370..560 {
        for x in 370..560 {
            img.put_pixel(x, y, [40, 40, 44, 255]);
        }
    }
    img
}

fn band_scene(band: u8) -> RgbaImage {
    let mut img = RgbaImage::from_pixel(800, 800, [250, 250, 248, 255]);
    for y in 770..800 {
        for x in 0..800 {
            img.put_pixel(x, y, [band, band, band - 2, 255]);
        }
    }
    for y in 250..550 {
        for x in 250..550 {
            img.put_pixel(x, y, [40, 40, 44, 255]);
        }
    }
    img
}

#[test]
fn a_rectangular_product_on_white_is_boxed_with_high_confidence() {
    let img = scene(
        (200, 200),
        [252, 252, 250],
        [40, 40, 44],
        (60, 60, 139, 139),
    );
    let s = detect(&img).expect("中央の商品を見つけられていない");

    assert_eq!(s.confidence, Confidence::High, "{s:?}");
    assert!(
        left(&s) <= 0.30 && top(&s) <= 0.30,
        "{s:?}"
    );
    assert!(
        right(&s) >= 0.70 && bottom(&s) >= 0.70,
        "{s:?}"
    );
    assert!(
        left(&s) > 0.25 && right(&s) < 0.75,
        "広すぎる: {s:?}"
    );
    assert!(
        (area(&s) - 0.16).abs() < 0.02,
        "面積比がずれている: {s:?}"
    );
    assert!(capture(&s) > 0.95, "一つの塊のはず: {s:?}");
    assert!(!s.touches_edge, "端に接していない: {s:?}");
    assert!(delta_e(s.mean, [252, 252, 250]) > 50.0, "白と黒の色差が出ていない: {s:?}");
}

#[test]
fn a_background_only_image_has_no_subject() {
    let img = RgbaImage::from_pixel(200, 200, [250, 250, 248, 255]);
    assert!(detect(&img).is_none());
}

#[test]
fn scattered_noise_is_reported_with_low_confidence() {
    let mut img = RgbaImage::from_pixel(200, 200, [250, 250, 248, 255]);
    for gy in 0..24 {
        for gx in 0..24 {
            let (bx, by) = (10 + gx * 8, 10 + gy * 8);
            for y in by..by + 4 {
                for x in bx..bx + 4 {
                    img.put_pixel(x, y, [30, 30, 30, 255]);
                }
            }
        }
    }
    let s = detect(&img).expect("far 画素はあるので数値は返る");
    assert_eq!(s.confidence, Confidence::Low, "{s:?}");
    assert!(capture(&s) < 0.70, "{s:?}");
}

#[test]
fn a_product_running_off_the_frame_touches_the_edge() {
    let img = scene(
        (200, 200),
        [252, 252, 250],
        [40, 40, 44],
        (80, 120, 119, 199),
    );
    let s = detect(&img).expect("商品を見つけられていない");
    assert!(s.touches_edge, "{s:?}");
    assert!(bottom(&s) >= 0.99, "下端まで伸びるはず: {s:?}");
}

#[test]
fn a_frame_filling_object_is_caught_by_what_it_leaves_outside() {
    let img = poisoned_scene();
    let s = detect(&img).expect("数値そのものは返してよい");

    assert!(
        capture(&s) > 0.70,
        "前提が崩れている: {s:?}"
    );
    assert!(area(&s) > 0.05, "前提が崩れている: {s:?}");
    assert!(left(&s) > 0.35, "前提が崩れている: {s:?}");

    assert!(
        leftover(&s) >= 0.15,
        "矩形の外に残った塊を見落としている: {s:?}"
    );
    assert_eq!(
        s.confidence,
        Confidence::Low,
        "主体を取りこぼした矩形を信用している: {s:?}"
    );
}

#[test]
fn a_band_touching_the_edge_still_earns_high_confidence() {
    for band in [205u8, 220] {
        let img = band_scene(band);
        let s = detect(&img).expect("中央の商品を見つけられていない");
        assert_eq!(s.confidence, Confidence::High, "band={band}: {s:?}");
        assert!(
            leftover(&s) < 0.05,
            "band={band}: 帯が大きすぎる: {s:?}"
        );
        assert!(
            left(&s) < 0.32 && right(&s) > 0.68,
            "{s:?}"
        );
    }
}

#[test]
fn a_clean_studio_background_leaves_nothing_outside() {
    let img = scene(
        (600, 600),
        [250, 250, 248],
        [40, 40, 44],
        (180, 180, 419, 419),
    );
    let s = detect(&img).expect("中央の商品を見つけられていない");
    assert_eq!(s.confidence, Confidence::High, "{s:?}");
    assert!(leftover(&s) < 0.01, "{s:?}");
}

#[test]
fn a_large_image_is_measured_on_a_downscaled_copy() {
    let img = scene(
        (1200, 900),
        [250, 250, 248],
        [30, 30, 30],
        (300, 225, 899, 674),
    );
    let s = detect(&img).expect("商品を見つけられていない");
    assert_eq!(s.confidence, Confidence::High, "{s:?}");
    assert!(
        s.bbox.2 > 890 && s.bbox.2 < 930,
        "原寸へ戻せていない: {s:?}"
    );
    assert!(s.bbox.0 < 300, "余白を足した左端: {s:?}");
}

#[test]
fn the_box_is_widened_rather_than_tightened() {
    let across = expand(Span { lo: 30, hi: 60, of: 100 });
    assert!((across.lo as f64 / across.of as f64) < 0.30);
    assert!((across.hi as f64 / across.of as f64) > 0.60);
    let down = expand(Span { lo: 40, hi: 70, of: 100 });
    assert!((down.lo as f64 / down.of as f64) < 0.40);
    assert!((down.hi as f64 / down.of as f64) > 0.70);
}

#[test]
fn the_expanded_box_never_leaves_the_image() {
    let out = expand(Span { lo: 0, hi: 1, of: 1 });
    assert_eq!((out.lo, out.hi), (0, out.of));
    assert_eq!(to_pixels(out, 4284), (0, 4283));
    assert_eq!(to_pixels(out, 5712), (0, 5711));
}

#[test]
fn a_degenerate_box_does_not_panic() {
    let end = Span { lo: 1, hi: 1, of: 1 };
    assert_eq!(to_pixels(end, 100), (99, 99));
    assert_eq!(to_pixels(end, 50), (49, 49));
    assert_eq!(to_pixels(end, 1), (0, 0));
}

#[test]
fn the_verification_threshold_is_lower_than_the_detection_one() {
    let img = poisoned_scene();
    let bg = estimate(&img);
    let p50 = f64::from_bits(bg.delta_e.p50).max(5.0);
    let p90 = f64::from_bits(bg.delta_e.p90).max(5.0);
    assert!(p50 < p90, "{p50} {p90}");
    let gray = delta_e([150, 150, 150], bg.rgb);
    assert!(gray > p50 && gray <= p90, "{gray}");
}

#[test]
fn the_reason_for_low_confidence_is_reported() {
    let high = detect(&band_scene(205)).expect("the product is there");
    assert_eq!(high.low_reason(), None, "{high:?}");

    let poisoned = detect(&poisoned_scene()).expect("there are numbers");
    assert_eq!(poisoned.low_reason(), Some(LowReason::LeftoverOutside));

    let mut small = high;
    small.area = 4;
    small.pixels = 1000;
    small.confidence = Confidence::Low;
    assert_eq!(small.low_reason(), Some(LowReason::AreaTooSmall));

    let mut scattered = high;
    scattered.far = 2 * scattered.area;
    scattered.confidence = Confidence::Low;
    assert_eq!(scattered.low_reason(), Some(LowReason::NotOneBlob));
    assert!(high.confidence.is_high() && !small.confidence.is_high());
}

#[test]
fn of_equal_pieces_the_first_is_taken() {
    let img = RgbaImage::from_pixel(6, 2, [9, 8, 7, 255]);
    let far = vec![
        false, true, true, false, true, true, //
        false, false, false, false, false, false,
    ];
    let c = largest_component(&img, &far).unwrap();
    assert_eq!((c.area, c.bbox), (2, (1, 0, 2, 0)));
    assert_eq!(c.sum, [18, 16, 14]);
    assert!(largest_component(&img, &vec![false; 12]).is_none());
}
