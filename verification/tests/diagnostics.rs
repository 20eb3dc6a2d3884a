use kiri::cutout::cells::RIM_LINEAR_ONE;
use kiri::cutout::contour::{chamfer_distance, contour_pixels, contour_pixels_in, rim_pixels, CHAMFER_STEP};
use kiri::cutout::diagnostics::{
    contour_roughness, diagnose, edge_width, halo_probes, halo_ratio, rim_band, rim_contamination, scale_at_1000, smoothed,
    smoothing_radius, transition_span, Level, Roughness,
};
use kiri::cutout::mask::Mask;
use kiri::raster::RgbaImage;

const CONTOUR_ROUGH_WARN: f64 = 0.16;

fn to_linear(v: u8) -> f64 {
    let c = f64::from(v) / 255.0;
    if c <= 0.040_45 {
        c / 12.92
    } else {
        ((c + 0.055) / 1.055).powf(2.4)
    }
}

fn to_lab(rgb: [u8; 3]) -> [f64; 3] {
    let [r, g, b] = rgb.map(to_linear);
    let x = (0.412_456_4 * r + 0.357_576_1 * g + 0.180_437_5 * b) / 0.950_47;
    let y = 0.212_672_9 * r + 0.715_152_2 * g + 0.072_175 * b;
    let z = (0.019_333_9 * r + 0.119_192 * g + 0.950_304_1 * b) / 1.088_83;
    let f = |t: f64| {
        if t > 216.0 / 24389.0 {
            t.cbrt()
        } else {
            (24389.0 / 27.0 * t + 16.0) / 116.0
        }
    };
    [116.0 * f(y) - 16.0, 500.0 * (f(x) - f(y)), 200.0 * (f(y) - f(z))]
}

fn delta_e(a: [u8; 3], b: [u8; 3]) -> f64 {
    let (p, q) = (to_lab(a), to_lab(b));
    ((p[0] - q[0]).powi(2) + (p[1] - q[1]).powi(2) + (p[2] - q[2]).powi(2)).sqrt()
}

fn rim_table() -> Vec<u32> {
    (0..=255u8).map(|v| (to_linear(v) * f64::from(RIM_LINEAR_ONE)).round() as u32).collect()
}

fn px(r: &Roughness) -> f64 {
    r.thirds as f64 / r.pixels as f64 / 3.0 / (f64::from(r.scale) / 1000.0)
}

fn roughness(mask: &Mask, bbox: Option<(u32, u32, u32, u32)>) -> Option<f64> {
    contour_roughness(mask, bbox).map(|r| px(&r))
}

fn halo_deltas(image: &RgbaImage, mask: &Mask, background: [u8; 3]) -> Vec<u64> {
    halo_probes(image, mask)
        .iter()
        .map(|p| {
            let c = image.get_pixel(p.x, p.y);
            delta_e([c[0], c[1], c[2]], p.local.unwrap_or(background)).to_bits()
        })
        .collect()
}

fn halo(image: &RgbaImage, mask: &Mask, background: [u8; 3]) -> Option<f64> {
    halo_ratio(&halo_deltas(image, mask, background)).map(|s| s.part as f64 / s.whole as f64)
}

fn rim_share(image: &RgbaImage, mask: &Mask, bbox: Option<(u32, u32, u32, u32)>) -> Option<f64> {
    rim_contamination(image, mask, bbox, &rim_table()).map(|s| s.part as f64 / s.whole as f64)
}

fn scene(rim: u32, ramp: u32) -> (RgbaImage, Mask) {
    let (w, h) = (60u32, 20u32);
    let bg = [250u8, 250, 249];
    let product = [40u8, 40, 45];
    let mut image = RgbaImage::from_pixel(w, h, [bg[0], bg[1], bg[2], 255]);
    let mut mask = Mask::new(w, h, 0);
    for y in 0..h {
        for x in 0..w {
            if x < 30 {
                image.put_pixel(x, y, [product[0], product[1], product[2], 255]);
            }
            let edge = 30 + rim;
            let value = if x + ramp < edge {
                255
            } else if x < edge {
                ((edge - x) as f32 / (ramp + 1) as f32 * 255.0) as u8
            } else {
                0
            };
            mask.set(x, y, value);
        }
    }
    (image, mask)
}

#[test]
fn a_clean_edge_has_no_halo() {
    let (image, mask) = scene(0, 2);
    let r = halo(&image, &mask, [250, 250, 249]).expect("境界があるので測れる");
    assert!(r < 0.05, "縁が無いのに halo_ratio が高い: {r:.3}");
}

#[test]
fn a_background_coloured_rim_is_detected() {
    let (image, mask) = scene(3, 2);
    let r = halo(&image, &mask, [250, 250, 249]).expect("境界があるので測れる");
    assert!(r > 0.5, "背景色の縁を検出できていない: {r:.3}");
}

#[test]
fn a_wider_rim_scores_higher() {
    let narrow = {
        let (i, m) = scene(1, 2);
        halo(&i, &m, [250, 250, 249]).unwrap()
    };
    let wide = {
        let (i, m) = scene(3, 2);
        halo(&i, &m, [250, 250, 249]).unwrap()
    };
    assert!(
        wide > narrow,
        "縁の厚みに反応していない: {wide} <= {narrow}"
    );
}

#[test]
fn an_empty_mask_is_not_a_panic() {
    let image = RgbaImage::from_pixel(8, 8, [250, 250, 249, 255]);
    let mask = Mask::new(8, 8, 0);
    let d = diagnose(&image, &mask, None, &halo_deltas(&image, &mask, [250, 250, 249]), spans(&mask), &rim_table());
    assert_eq!(d.halo_ratio, None);
    assert_eq!(d.edge_width, None);
    assert_eq!(d.contour_roughness, None);
    assert_eq!(d.rim_contamination, None);
}

#[test]
fn diagnostics_mismatched_dimensions_are_refused_rather_than_panicking() {
    let image = RgbaImage::from_pixel(8, 8, [0, 0, 0, 255]);
    let mut mask = Mask::new(10, 10, 0);
    mask.set(5, 5, 255);
    assert_eq!(halo(&image, &mask, [0; 3]), None);
    assert_eq!(rim_share(&image, &mask, None), None);
}

#[test]
fn the_scale_follows_the_long_edge() {
    assert_eq!(f64::from(scale_at_1000(400, 300)) / 1000.0, 1.0);
    assert_eq!(f64::from(scale_at_1000(1000, 1000)) / 1000.0, 1.0);
    assert_eq!(f64::from(scale_at_1000(3000, 4000)) / 1000.0, 4.0);
    assert_eq!(rim_band(4000), 12);
}

fn jagged_disc(size: u32, amplitude: f32, period: f32) -> Mask {
    let mut mask = Mask::new(size, size, 0);
    let c = size as f32 / 2.0;
    for y in 0..size {
        for x in 0..size {
            let (fx, fy) = (x as f32 + 0.5 - c, y as f32 + 0.5 - c);
            let theta = fy.atan2(fx);
            let teeth = (theta * (size as f32 * 0.3) / period).floor() as i32;
            let wobble = if teeth % 2 == 0 {
                amplitude
            } else {
                -amplitude
            };
            if fx.hypot(fy) <= size as f32 * 0.3 + wobble {
                mask.set(x, y, 255);
            }
        }
    }
    mask
}

#[test]
fn a_smooth_contour_is_not_called_rough() {
    let r = roughness(&jagged_disc(400, 0.0, 4.0), None).expect("輪郭があるので測れる");
    assert!(
        r < CONTOUR_ROUGH_WARN / 2.0,
        "滑らかな円盤が粗いと出た: {r}"
    );
}

#[test]
fn roughness_grows_with_the_amplitude_of_the_wobble() {
    let mut last = -1.0;
    for amplitude in [0.0f32, 1.0, 2.0, 3.0] {
        let r = roughness(&jagged_disc(400, amplitude, 4.0), None).unwrap();
        assert!(
            r > last,
            "蛇行 {amplitude}px で値が増えていない: {r} <= {last}"
        );
        last = r;
    }
    assert!(
        last > CONTOUR_ROUGH_WARN,
        "3px の蛇行が警告に届かない: {last}"
    );
}

#[test]
fn roughness_is_reported_at_a_thousand_pixels() {
    let small = roughness(&jagged_disc(1000, 2.0, 8.0), None).unwrap();
    let large = roughness(&jagged_disc(2000, 4.0, 16.0), None).unwrap();
    assert!(
        (small - large).abs() < 0.35,
        "換算が効いていない: {small:.2} と {large:.2}"
    );
}

#[test]
fn a_background_coloured_rim_is_contamination() {
    let (image, mask) = scene(0, 2);
    let clean = rim_share(&image, &mask, None).expect("帯があるので測れる");
    let (image, mask) = scene(5, 2);
    let dirty = rim_share(&image, &mask, None).expect("帯があるので測れる");
    assert!(clean < 0.05, "縁が無いのに汚染と出た: {clean:.3}");
    assert!(
        dirty > 0.9,
        "背景色の縁を汚染として数えていない: {dirty:.3}"
    );
}

#[test]
fn a_wider_rim_is_more_contaminated() {
    let value = |rim: u32| {
        let (image, mask) = scene(rim, 2);
        rim_share(&image, &mask, None).unwrap()
    };
    let (narrow, wide) = (value(1), value(3));
    assert!(
        narrow < wide,
        "縁の厚みに反応していない: {narrow} >= {wide}"
    );
}

#[test]
fn diagnostics_a_pale_product_on_white_is_not_judged() {
    let (w, h) = (60u32, 20u32);
    let bg = [250u8, 250, 249];
    let mut image = RgbaImage::from_pixel(w, h, [bg[0], bg[1], bg[2], 255]);
    let mut mask = Mask::new(w, h, 0);
    for y in 0..h {
        for x in 0..w {
            if x < 30 {
                image.put_pixel(x, y, [248, 248, 247, 255]);
                mask.set(x, y, 255);
            }
        }
    }
    assert_eq!(rim_share(&image, &mask, None), None);
}

fn roughness_over_the_whole_image(mask: &Mask, bbox: Option<(u32, u32, u32, u32)>) -> Option<f64> {
    let contour = contour_pixels(mask, bbox);
    if contour.is_empty() {
        return None;
    }
    let (w, h) = (mask.width(), mask.height());
    let scale = scale_at_1000(w, h);
    let radius = smoothing_radius(scale);
    let whole = (0, 0, w - 1, h - 1);
    let reference = smoothed(mask, radius, whole);
    let smooth_contour = contour_pixels_in(&reference, bbox, whole);
    if smooth_contour.is_empty() {
        return None;
    }
    let distance = chamfer_distance(&smooth_contour, whole);
    let cap = (3 * radius * u32::from(CHAMFER_STEP)).min(u32::from(u8::MAX));
    let total: u128 = contour
        .iter()
        .map(|&(x, y)| u128::from(u32::from(distance.at(x, y)).min(cap)))
        .sum();
    Some(px(&Roughness { thirds: total, pixels: contour.len() as u64, scale }))
}

#[test]
fn the_roi_and_the_whole_image_agree_on_roughness() {
    let block = |mask: &mut Mask, x0: u32, y0: u32, x1: u32, y1: u32| {
        for y in y0..=y1 {
            for x in x0..=x1 {
                mask.set(x, y, 255);
            }
        }
    };

    let mut touching = Mask::new(80, 80, 0);
    block(&mut touching, 0, 0, 40, 40);
    let mut boxed = Mask::new(80, 80, 0);
    block(&mut boxed, 20, 20, 60, 60);
    let mut two = Mask::new(80, 80, 0);
    block(&mut two, 5, 5, 25, 25);
    block(&mut two, 50, 50, 74, 74);
    let jagged = jagged_disc(200, 2.0, 4.0);

    for (name, mask, bbox) in [
        ("画像の端に接する", &touching, None),
        ("bbox の辺に接する", &boxed, Some((20, 20, 60, 60))),
        ("bbox の内側", &boxed, Some((10, 10, 70, 70))),
        ("2 つの塊", &two, None),
        ("ギザギザした円盤", &jagged, None),
    ] {
        let roi = roughness(mask, bbox);
        let whole = roughness_over_the_whole_image(mask, bbox);
        assert_eq!(roi, whole, "{name}: 枠の中と全面で値が違う");
    }
    assert!(
        roughness(&jagged, None).unwrap() > 0.0,
        "そもそも 0 どうしを比べていた"
    );
}

#[test]
fn the_rim_is_measured_inside_an_explicit_bbox() {
    let (w, h) = (80u32, 60u32);
    let bg = [250u8, 250, 249];
    let mut image = RgbaImage::from_pixel(w, h, [bg[0], bg[1], bg[2], 255]);
    let mut mask = Mask::new(w, h, 0);
    for y in 0..h {
        for x in 0..w {
            if x < 30 {
                image.put_pixel(x, y, [40, 40, 45, 255]);
            }
            if x < 34 {
                mask.set(x, y, 255);
            }
        }
    }
    let bbox = Some((0, 0, 60, h - 1));
    let dirty = rim_share(&image, &mask, bbox).expect("帯があるので測れる");
    assert!(dirty > 0.9, "bbox 経路で縁の汚染を数えていない: {dirty:.3}");
    let mut clean_mask = Mask::new(w, h, 0);
    for y in 0..h {
        for x in 0..30 {
            clean_mask.set(x, y, 255);
        }
    }
    let clean = rim_share(&image, &clean_mask, bbox).expect("帯があるので測れる");
    assert!(clean < 0.05, "縁が無いのに汚染と出た: {clean:.3}");
}

#[test]
fn a_thin_tongue_of_background_is_judged_by_borrowing_a_foreground() {
    let (w, h) = (120u32, 60u32);
    let bg = [250u8, 250, 249];
    let mut image = RgbaImage::from_pixel(w, h, [bg[0], bg[1], bg[2], 255]);
    let mut mask = Mask::new(w, h, 0);
    for y in 0..h {
        for x in 0..30 {
            image.put_pixel(x, y, [40, 40, 45, 255]);
            mask.set(x, y, 255);
        }
    }
    for y in 28..32 {
        for x in 30..110 {
            mask.set(x, y, 255);
        }
    }
    let value = rim_share(&image, &mask, None).expect("帯があるので測れる");
    assert!(
        value > 0.5,
        "借りた前景で舌を汚染として数えていない: {value:.3}"
    );
}

#[test]
fn a_ratio_is_reported_only_when_most_of_the_band_could_be_judged() {
    let judged = |pale_rows: u32| -> Option<f64> {
        let (w, h) = (60u32, 100u32);
        let bg = [250u8, 250, 249];
        let mut image = RgbaImage::from_pixel(w, h, [bg[0], bg[1], bg[2], 255]);
        let mut mask = Mask::new(w, h, 0);
        for y in 0..h {
            let product = if y < pale_rows {
                [248u8, 248, 247]
            } else {
                [40, 40, 45]
            };
            for x in 0..30 {
                image.put_pixel(x, y, [product[0], product[1], product[2], 255]);
                mask.set(x, y, 255);
            }
        }
        rim_share(&image, &mask, None)
    };
    assert_eq!(judged(70), None, "帯の 3 割しか判定できないのに値を返した");
    assert!(
        judged(30).is_some(),
        "帯の 7 割を判定できているのに値を返さない"
    );
}

#[test]
fn the_edges_of_an_explicit_bbox_are_not_a_contour() {
    let mut mask = Mask::new(40, 40, 0);
    for y in 10..=30 {
        for x in 10..=30 {
            mask.set(x, y, 255);
        }
    }
    assert!(!contour_pixels(&mask, None).is_empty());
    assert!(contour_pixels(&mask, Some((10, 10, 30, 30))).is_empty());
    assert_eq!(roughness(&mask, Some((10, 10, 30, 30))), None);
}

#[test]
fn a_transition_runs_from_the_last_high_to_the_first_low() {
    let (h, b, l) = (Level::High, Level::Between, Level::Low);
    assert_eq!(transition_span(&[h, h, b, b, l, h]), Some(3));
    assert_eq!(transition_span(&[h, l]), Some(1));
    assert_eq!(transition_span(&[l, h, l]), None);
    assert_eq!(transition_span(&[h, b]), None);
    assert_eq!(edge_width(vec![4, 1, 9]), Some(4));
}

fn outward_normal(mask: &Mask, x: u32, y: u32) -> Option<[f32; 2]> {
    let (mut nx, mut ny) = (0.0f32, 0.0f32);
    for dy in -1i64..=1 {
        for dx in -1i64..=1 {
            let (u, v) = (i64::from(x) + dx, i64::from(y) + dy);
            if u < 0 || v < 0 || u >= i64::from(mask.width()) || v >= i64::from(mask.height()) {
                continue;
            }
            if !mask.is_foreground(u as u32, v as u32) {
                nx += dx as f32;
                ny += dy as f32;
            }
        }
    }
    let length = nx.hypot(ny);
    if length < 1e-6 {
        None
    } else {
        Some([nx / length, ny / length])
    }
}

/// Alpha between pixels.
fn sample(mask: &Mask, x: f32, y: f32) -> f32 {
    let at = |u: f32, v: f32| {
        let u = u.clamp(0.0, (mask.width() - 1) as f32) as u32;
        let v = v.clamp(0.0, (mask.height() - 1) as f32) as u32;
        f32::from(mask.get(u, v)) / 255.0
    };
    let (fx, fy) = (x.floor(), y.floor());
    let (ax, ay) = (x - fx, y - fy);
    let top = at(fx, fy) * (1.0 - ax) + at(fx + 1.0, fy) * ax;
    let low = at(fx, fy + 1.0) * (1.0 - ax) + at(fx + 1.0, fy + 1.0) * ax;
    top * (1.0 - ay) + low * ay
}

/// The widths of the transitions that can be followed, in half pixels.
fn spans(mask: &Mask) -> Vec<u64> {
    let mut spans = Vec::new();
    for (x, y) in rim_pixels(mask) {
        let Some(normal) = outward_normal(mask, x, y) else {
            continue;
        };
        let levels: Vec<Level> = (-32..=32)
            .map(|k| {
                let t = k as f32 * 0.5;
                let a = sample(mask, x as f32 + normal[0] * t, y as f32 + normal[1] * t);
                if a >= 0.9 {
                    Level::High
                } else if a <= 0.1 {
                    Level::Low
                } else {
                    Level::Between
                }
            })
            .collect();
        if let Some(n) = transition_span(&levels) {
            spans.push(n as u64);
        }
    }
    spans
}

/// The median width of the transition in pixels.
fn width(mask: &Mask) -> Option<f64> {
    edge_width(spans(mask)).map(|halves| halves as f64 / 2.0)
}

#[test]
fn edge_width_grows_with_the_ramp() {
    let (_, sharp) = scene(0, 1);
    let (_, soft) = scene(0, 8);
    let a = width(&sharp).unwrap();
    let b = width(&soft).unwrap();
    assert!(a < b, "遷移幅が階調の広さに追従していない: {a} >= {b}");
    assert!(b > 3.0, "8px の階調が幅として出ていない: {b}");
}

#[test]
fn a_binary_edge_is_narrow() {
    let (_, mask) = scene(0, 0);
    let width = width(&mask).unwrap();
    assert!(width <= 1.5, "二値の境界が広く測られている: {width}");
}
