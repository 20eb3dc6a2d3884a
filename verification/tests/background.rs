use kiri::cutout::background::{
    border_gradient_quantiles, collect_border_pixels, estimate_background, estimate_field, field_band, field_gate, for_each_border_pixel, median_rgb, perimeter_residual, widen_subject, BackgroundEstimate, BackgroundModel, DeltaEQuantiles, KnownBackground,
    ResolvedModel, DEFAULT_BORDER,
};
use kiri::cutout::constraints::{Constraint, Constraints};
use kiri::cutout::edges::EDGE_UNIT;
use kiri::cutout::field::{build_field, fill_unknown, BackgroundField};
use kiri::cutout::fill::Filling;
use kiri::cutout::matte::LINEAR_UNIT;
use kiri::raster::RgbaImage;

fn to_linear(v: u8) -> f64 {
    let c = f64::from(v) / 255.0;
    if c <= 0.040_45 {
        c / 12.92
    } else {
        ((c + 0.055) / 1.055).powf(2.4)
    }
}

fn to_lab(rgb: [u8; 3]) -> [f64; 3] {
    let [r, g, b] = rgb.map(to_linear);
    let x = (0.412_456_4 * r + 0.357_576_1 * g + 0.180_437_5 * b) / 0.950_47;
    let y = 0.212_672_9 * r + 0.715_152_2 * g + 0.072_175 * b;
    let z = (0.019_333_9 * r + 0.119_192 * g + 0.950_304_1 * b) / 1.088_83;
    let f = |t: f64| {
        if t > 216.0 / 24389.0 {
            t.cbrt()
        } else {
            (24389.0 / 27.0 * t + 16.0) / 116.0
        }
    };
    [116.0 * f(y) - 16.0, 500.0 * (f(x) - f(y)), 200.0 * (f(y) - f(z))]
}

fn delta_e(a: [u8; 3], b: [u8; 3]) -> f64 {
    let (p, q) = (to_lab(a), to_lab(b));
    ((p[0] - q[0]).powi(2) + (p[1] - q[1]).powi(2) + (p[2] - q[2]).powi(2)).sqrt()
}

fn estimate(image: &RgbaImage, border: u32) -> BackgroundEstimate {
    let samples = collect_border_pixels(image, border);
    let rgb = if samples.is_empty() { [255; 3] } else { median_rgb(&samples) };
    let deltas = samples.iter().map(|&s| delta_e(s, rgb).to_bits()).collect();
    estimate_background(&samples, deltas)
}

fn uniformity(est: &BackgroundEstimate) -> f64 {
    est.within as f64 / est.samples as f64
}

fn known(band: u32) -> KnownBackground<'static> {
    KnownBackground { band, outside_bbox: None, outside_subject: None, constraints: None, filled: None }
}

fn deltas(image: &RgbaImage, rgb: [u8; 3]) -> Vec<u64> {
    image.pixels().iter().map(|p| delta_e([p[0], p[1], p[2]], rgb).to_bits()).collect()
}

fn light_table() -> Vec<u64> {
    (0..=255u8).map(|v| (to_linear(v) * LINEAR_UNIT as f64).round() as u64).collect()
}

fn light_steps() -> Vec<u64> {
    (1..=255u32)
        .map(|k| {
            let c = (f64::from(k) - 0.5) / 255.0;
            let v = if c <= 0.040_45 { c / 12.92 } else { ((c + 0.055) / 1.055).powf(2.4) };
            (v * LINEAR_UNIT as f64).ceil() as u64
        })
        .collect()
}

fn field_of(image: &RgbaImage, rgb: [u8; 3], known: &KnownBackground<'_>, gate: f64) -> BackgroundField {
    match estimate_field(image, known, &deltas(image, rgb), gate.to_bits()).grid {
        None => BackgroundField::flat(rgb),
        Some(grid) => build_field(&grid, (image.width(), image.height()), rgb, &light_table()),
    }
}

fn field_from_border(image: &RgbaImage) -> BackgroundField {
    let est = estimate(image, DEFAULT_BORDER);
    let gate = f64::from_bits(field_gate(&est));
    assert_eq!(gate, (2.0 * f64::from_bits(est.delta_e.p50)).max(15.0));
    let band = field_band(image.width(), image.height(), DEFAULT_BORDER);
    field_of(image, est.rgb, &known(band), gate)
}

fn rgb_at(field: &BackgroundField, x: u32, y: u32) -> [u8; 3] {
    field.rgb_at(x, y, &light_steps())
}

fn range(field: &BackgroundField, w: u32, h: u32) -> [f64; 2] {
    let (mut lo, mut hi) = (f64::INFINITY, 0.0f64);
    for y in (0..h).step_by(3) {
        for x in (0..w).step_by(3) {
            let d = delta_e(rgb_at(field, x, y), field.rgb());
            lo = lo.min(d);
            hi = hi.max(d);
        }
    }
    [lo, hi]
}

fn residual_of(image: &RgbaImage, est: &BackgroundEstimate, field: &BackgroundField) -> DeltaEQuantiles {
    let w = image.width();
    let deltas = for_each_border_pixel(image, DEFAULT_BORDER)
        .into_iter()
        .map(|i| {
            let (x, y) = (i as u32 % w, i as u32 / w);
            let p = image.get_pixel(x, y);
            delta_e([p[0], p[1], p[2]], rgb_at(field, x, y)).to_bits()
        })
        .collect();
    perimeter_residual(est, field.is_flat(), deltas)
}

fn solid(w: u32, h: u32, rgba: [u8; 4]) -> RgbaImage {
    RgbaImage::from_pixel(w, h, rgba)
}

#[test]
fn solid_white_is_perfectly_uniform() {
    let img = solid(20, 20, [255, 255, 255, 255]);
    let est = estimate(&img, DEFAULT_BORDER);
    assert_eq!(est.rgb, [255, 255, 255]);
    assert_eq!(uniformity(&est), 1.0);
    assert!(est.is_uniform());
}

#[test]
fn studio_gray_is_detected() {
    let img = solid(20, 20, [248, 248, 247, 255]);
    let est = estimate(&img, DEFAULT_BORDER);
    assert_eq!(est.rgb, [248, 248, 247]);
    assert!(est.is_uniform());
}

#[test]
fn the_center_does_not_affect_the_estimate() {
    let mut img = solid(20, 20, [255, 255, 255, 255]);
    for y in 5..15 {
        for x in 5..15 {
            img.put_pixel(x, y, [10, 20, 30, 255]);
        }
    }
    let est = estimate(&img, DEFAULT_BORDER);
    assert_eq!(est.rgb, [255, 255, 255]);
    assert_eq!(uniformity(&est), 1.0);
}

#[test]
fn quantiles_describe_the_spread_of_a_patchy_border() {
    let mut img = solid(20, 20, [250, 250, 250, 255]);
    for x in 0..4 {
        img.put_pixel(x, 0, [10, 10, 10, 255]);
    }
    let est = estimate(&img, 1);
    assert!(f64::from_bits(est.delta_e.p50) < 1.0, "大半は背景色どおり");
    assert!(f64::from_bits(est.delta_e.max) > 50.0, "外れ値は max に出る");
    assert!(uniformity(&est) < 1.0);
}

#[test]
fn a_uniform_border_has_no_spread() {
    let est = estimate(&solid(20, 20, [200, 200, 200, 255]), 2);
    assert_eq!(f64::from_bits(est.delta_e.p50), 0.0);
    assert_eq!(f64::from_bits(est.delta_e.p90), 0.0);
    assert_eq!(f64::from_bits(est.delta_e.max), 0.0);
}

#[test]
fn a_split_border_reports_low_uniformity() {
    let mut img = solid(20, 20, [255, 255, 255, 255]);
    for y in 0..20 {
        for x in 0..10 {
            img.put_pixel(x, y, [0, 0, 0, 255]);
        }
    }
    let est = estimate(&img, DEFAULT_BORDER);
    assert!(uniformity(&est) < 0.9, "uniformity={}", uniformity(&est));
    assert!(!est.is_uniform());
}

#[test]
fn slight_sensor_noise_still_counts_as_uniform() {
    let mut img = solid(20, 20, [250, 250, 250, 255]);
    for x in 0..20 {
        img.put_pixel(x, 0, [252, 249, 251, 255]);
    }
    let est = estimate(&img, DEFAULT_BORDER);
    assert!(est.is_uniform(), "uniformity={}", uniformity(&est));
}

fn lit_ramp(w: u32, h: u32, from: u8, to: u8) -> RgbaImage {
    let mut img = RgbaImage::from_pixel(w, h, [0, 0, 0, 0]);
    for y in 0..h {
        for x in 0..w {
            let t = x as f32 / (w - 1) as f32;
            let v = (f32::from(from) + (f32::from(to) - f32::from(from)) * t).round() as u8;
            img.put_pixel(x, y, [v, v, v, 255]);
        }
    }
    img
}

#[test]
fn a_uniform_background_makes_a_field_that_is_the_single_colour_everywhere() {
    let img = solid(200, 200, [248, 248, 247, 255]);
    let field = field_from_border(&img);
    assert!(!field.is_flat(), "場として作られていない");
    assert_eq!(field.rgb(), [248, 248, 247]);
    for (x, y) in [(0u32, 0u32), (7, 3), (100, 100), (199, 199), (0, 199)] {
        assert_eq!(
            rgb_at(&field, x, y),
            [248, 248, 247],
            "({x}, {y}) で 1 色から外れた"
        );
    }
    let range = range(&field, img.width(), img.height());
    assert!(range[1] < 0.1, "場が振れている: {range:?}");
}

#[test]
fn a_flat_field_refuses_to_invent_a_linear_colour() {
    let flat = BackgroundField::flat([200, 190, 180]);
    assert!(flat.is_flat());
    assert_eq!(flat.linear_at(3, 4), None);
    assert_eq!(rgb_at(&flat, 3, 4), [200, 190, 180]);
}

#[test]
fn a_lit_ramp_is_followed_by_the_field() {
    let img = lit_ramp(240, 240, 170, 250);
    let field = field_from_border(&img);
    assert!(
        rgb_at(&field, 0, 120)[0].abs_diff(170) <= 3,
        "左端: {:?}",
        rgb_at(&field, 0, 120)
    );
    assert!(
        rgb_at(&field, 239, 120)[0].abs_diff(250) <= 3,
        "右端: {:?}",
        rgb_at(&field, 239, 120)
    );
    assert!(
        rgb_at(&field, 120, 120)[0].abs_diff(210) <= 4,
        "中央: {:?}",
        rgb_at(&field, 120, 120)
    );
    let range = range(&field, img.width(), img.height());
    assert!(range[1] > 12.0, "振れ幅が出ていない: {range:?}");
}

#[test]
fn the_normalised_convolution_fills_the_unknown_and_keeps_the_known() {
    let mut img = lit_ramp(240, 240, 170, 250);
    for y in 48..192 {
        for x in 48..192 {
            img.put_pixel(x, y, [20, 20, 24, 255]);
        }
    }
    let field = field_from_border(&img);

    let left = rgb_at(&field, 2, 120)[0];
    assert!(left.abs_diff(170) <= 4, "既知のセルが動いた: {left}");
    for x in [60u32, 120, 180] {
        let v = rgb_at(&field, x, 120)[0];
        let expect = 170.0 + (250.0 - 170.0) * (x as f32 / 239.0);
        assert!(f32::from(v) > 150.0, "商品の色へ引きずられた: x={x} v={v}");
        assert!(
            (f32::from(v) - expect).abs() < 20.0,
            "外挿が勾配から外れた: x={x} v={v} 期待 {expect:.0}"
        );
    }
}

#[test]
fn the_field_has_no_step_at_the_edge_of_the_known_cells() {
    let mut img = lit_ramp(240, 240, 170, 250);
    for y in 48..192 {
        for x in 48..192 {
            img.put_pixel(x, y, [20, 20, 24, 255]);
        }
    }
    let field = field_from_border(&img);
    let mut worst = 0.0f64;
    for y in [4u32, 40, 120, 200, 236] {
        for x in 1..240 {
            let d = delta_e(rgb_at(&field, x - 1, y), rgb_at(&field, x, y));
            worst = worst.max(d);
        }
    }
    assert!(worst < 1.0, "場に段差が残っている: 最大 ΔE {worst:.2}");
}

#[test]
fn a_field_without_any_known_pixel_falls_back_to_one_colour() {
    let img = solid(64, 64, [200, 200, 200, 255]);
    let field = field_of(&img, [200, 200, 200], &known(0), 15.0);
    assert!(field.is_flat(), "材料が無いのに場を名乗っている");
    assert_eq!(rgb_at(&field, 10, 10), [200, 200, 200]);
}

#[test]
fn the_field_is_deterministic() {
    let img = lit_ramp(300, 200, 160, 240);
    let a = field_from_border(&img);
    let b = field_from_border(&img);
    assert_eq!((a.is_flat(), a.rgb()), (b.is_flat(), b.rgb()));
    for y in 0..200 {
        for x in 0..300 {
            assert_eq!(a.linear_at(x, y), b.linear_at(x, y));
        }
    }
}

#[test]
fn the_residual_is_smaller_than_the_spread_against_one_colour() {
    let img = lit_ramp(240, 240, 170, 250);
    let est = estimate(&img, DEFAULT_BORDER);

    let flat = BackgroundField::flat(est.rgb);
    assert_eq!(
        residual_of(&img, &est, &flat),
        est.delta_e,
        "1 色モデルで残差が分布と食い違っている"
    );

    let field = field_from_border(&img);
    let residual = residual_of(&img, &est, &field);
    assert!(
        f64::from_bits(residual.p90) < f64::from_bits(est.delta_e.p90) / 2.0,
        "場が勾配を吸えていない: p90 {:.2} → {:.2}",
        f64::from_bits(est.delta_e.p90),
        f64::from_bits(residual.p90)
    );
}

#[test]
fn the_known_background_keeps_the_product_out_of_the_field() {
    let mut img = solid(240, 240, [240, 240, 238, 255]);
    for y in 60..180 {
        for x in 60..180 {
            img.put_pixel(x, y, [30, 30, 34, 255]);
        }
    }
    let field = field_of(&img, [240, 240, 238], &KnownBackground { outside_subject: Some((55, 55, 185, 185)), ..known(0) }, 15.0);
    assert!(
        rgb_at(&field, 120, 120)[0] > 200,
        "商品の色が場に混ざった: {:?}",
        rgb_at(&field, 120, 120)
    );
}

#[test]
fn the_colour_gate_keeps_a_cropped_product_out_of_the_field() {
    let mut img = solid(240, 240, [250, 250, 248, 255]);
    for y in 160..240 {
        for x in 40..200 {
            img.put_pixel(x, y, [40, 40, 44, 255]);
        }
    }
    let field = field_from_border(&img);
    let at = rgb_at(&field, 120, 200);
    assert!(
        delta_e(at, [250, 250, 248]) < 1.0,
        "商品の色を背景として学んでいる: {at:?}"
    );
    assert!(
        range(&field, 240, 240)[1] < 1.0,
        "場が振れている: {:?}",
        range(&field, 240, 240)
    );
}

#[test]
fn a_band_that_is_mostly_not_background_gives_up_on_the_field() {
    let mut img = solid(240, 240, [250, 250, 248, 255]);
    for y in 1..239 {
        for x in 1..239 {
            img.put_pixel(x, y, [40, 40, 44, 255]);
        }
    }
    let est = estimate(&img, 1);
    assert_eq!(est.rgb, [250, 250, 248], "背景色は正しく求まっている");
    let band = known(field_band(240, 240, 1));
    let built = estimate_field(&img, &band, &deltas(&img, est.rgb), field_gate(&est));
    assert!(built.band_kept * 10 < built.band_seen * 3, "材料の割合が下限を超えている");
    assert!(built.grid.is_none(), "材料が痩せているのに場を名乗っている");
    let field = field_of(&img, est.rgb, &band, f64::from_bits(field_gate(&est)));
    assert_eq!(rgb_at(&field, 120, 120), [250, 250, 248]);
}

#[test]
fn a_clean_band_is_almost_entirely_material() {
    let img = solid(240, 240, [248, 248, 247, 255]);
    let est = estimate(&img, DEFAULT_BORDER);
    let band = known(field_band(240, 240, DEFAULT_BORDER));
    let built = estimate_field(&img, &band, &deltas(&img, est.rgb), field_gate(&est));
    assert_eq!(built.band_kept, built.band_seen);
    assert!(built.band_seen > 0);
    assert!(built.grid.is_some());
}

#[test]
fn cells_the_convolution_never_reached_fall_back_to_the_one_colour() {
    let fallback = [LINEAR_UNIT / 2, LINEAR_UNIT / 4, LINEAR_UNIT / 8];
    let (red, green, blue) = fill_unknown(4, 3, &[None; 12], fallback);
    assert_eq!(
        (red, green, blue),
        (vec![LINEAR_UNIT / 2; 12], vec![LINEAR_UNIT / 4; 12], vec![LINEAR_UNIT / 8; 12])
    );
}

#[test]
fn transparent_borders_are_ignored_when_opaque_pixels_exist() {
    let mut img = solid(20, 20, [255, 255, 255, 255]);
    for x in 0..20 {
        img.put_pixel(x, 0, [0, 0, 0, 0]);
        img.put_pixel(x, 19, [0, 0, 0, 0]);
    }
    for y in 0..20 {
        img.put_pixel(0, y, [0, 0, 0, 0]);
        img.put_pixel(19, y, [0, 0, 0, 0]);
    }
    let est = estimate(&img, 2);
    assert_eq!(est.rgb, [255, 255, 255]);
}

#[test]
fn a_border_wider_than_the_image_takes_all_of_it() {
    let img = solid(5, 3, [9, 9, 9, 255]);
    assert_eq!(collect_border_pixels(&img, 100).len(), 15);
    assert_eq!(collect_border_pixels(&img, 0).len(), 12);
    assert_eq!(estimate(&solid(0, 0, [0; 4]), 2).rgb, [255, 255, 255]);
}

#[test]
fn the_cells_of_a_field_are_the_medians_of_their_samples() {
    let mut img = solid(512, 256, [240, 240, 240, 255]);
    img.put_pixel(0, 0, [200, 201, 202, 255]);
    img.put_pixel(1, 0, [210, 211, 212, 255]);
    img.put_pixel(0, 1, [220, 221, 222, 255]);
    let all = KnownBackground { outside_bbox: Some((511, 255, 511, 255)), ..known(0) };
    let built = estimate_field(&img, &all, &vec![0; 512 * 256], 0);
    let grid = built.grid.unwrap();
    assert_eq!((grid.cols, grid.rows), (256, 128));
    assert_eq!(grid.colours[0], Some([220, 221, 222]));
    assert_eq!(grid.colours[1], Some([240, 240, 240]));
    let last = grid.colours.len() - 1;
    assert_eq!(grid.colours[last], Some([240, 240, 240]));
    let mut gated = vec![7; 512 * 256];
    for i in [0, 1, 512, 513] {
        gated[i] = 8;
    }
    let built = estimate_field(&img, &all, &gated, 7);
    assert_eq!(built.grid.unwrap().colours[0], None);
}

#[test]
fn what_is_known_of_the_background_comes_from_several_sources() {
    let mut marks = Constraints::new(10, 10);
    marks.mark(5, 5, Constraint::ForcedBg);
    let filled = vec![false, true];
    let k = KnownBackground {
        band: 2,
        outside_bbox: Some((1, 1, 8, 8)),
        outside_subject: Some((2, 2, 7, 7)),
        constraints: Some(&marks),
        filled: Some(&filled),
    };
    assert!(k.holds(5, 5, 55, 10, 10));
    assert!(!k.holds(4, 4, 44, 10, 10));
    assert!(k.on_band(1, 5, 10, 10) && k.on_band(8, 5, 10, 10) && !k.on_band(2, 5, 10, 10));
    let boxes = KnownBackground { constraints: None, filled: None, ..k };
    assert!(!k.certainly_empty((3, 3, 4, 4), 10, 10));
    assert!(boxes.certainly_empty((3, 3, 4, 4), 10, 10));
    assert!(!boxes.certainly_empty((1, 3, 4, 4), 10, 10));
}

#[test]
fn a_model_is_resolved_by_the_uniformity() {
    let even = estimate(&solid(20, 20, [200, 200, 200, 255]), 2);
    let mut img = solid(20, 20, [255, 255, 255, 255]);
    for y in 0..20 {
        for x in 0..10 {
            img.put_pixel(x, y, [0, 0, 0, 255]);
        }
    }
    let split = estimate(&img, 2);
    assert_eq!(BackgroundModel::default().resolve(&even), ResolvedModel::Flat);
    assert_eq!(BackgroundModel::Auto.resolve(&split), ResolvedModel::Field);
    assert_eq!(BackgroundModel::Flat.resolve(&split), ResolvedModel::Flat);
    assert_eq!(BackgroundModel::Field.resolve(&even), ResolvedModel::Field);
    assert_eq!((ResolvedModel::Flat.as_str(), ResolvedModel::Field.as_str()), ("flat", "field"));
}

#[test]
fn the_box_of_the_product_is_widened_by_a_twentieth() {
    assert_eq!(widen_subject((100, 50, 200, 190), 1000, 200), (50, 40, 250, 199));
    assert_eq!(widen_subject((0, 0, 0, 0), 0, 0), (0, 0, 0, 0));
}

#[test]
fn the_residual_of_one_colour_is_its_spread() {
    let est = estimate(&solid(20, 20, [200, 200, 200, 255]), 2);
    assert_eq!(perimeter_residual(&est, true, vec![1, 2, 3]), est.delta_e);
    let q = perimeter_residual(&est, false, vec![5, 1, 4, 2, 3]);
    assert_eq!((q.p50, q.p90, q.max), (3, 5, 5));
}

#[test]
fn a_filling_widens_when_it_is_stuck_and_settles_in_the_end() {
    let mut f = Filling::start(4, 3, vec![true, false, false, false, false, false, false, false, false, false, false, false]);
    assert!(!f.is_over());
    f.step(&[true, false, false, false, false, false, false, false, false, false, false, false]);
    assert_eq!(f.doublings(), 1);
    f.step(&[true, true, false, false, false, false, false, false, false, false, false, false]);
    assert_eq!(f.doublings(), 1);
    assert!(f.has_colour()[1]);
    f.step(&[true; 12]);
    f.step(&[true; 12]);
    assert!(f.is_over());
    assert!(Filling::start(2, 2, vec![true; 4]).is_over());
}

/// The texture of a background: brightness per pixel.
fn texture(image: &RgbaImage) -> (f64, f64) {
    let t = border_gradient_quantiles(image, field_band(image.width(), image.height(), DEFAULT_BORDER));
    ((t.p50 as f64 / EDGE_UNIT as f64).sqrt(), (t.p90 as f64 / EDGE_UNIT as f64).sqrt())
}

#[test]
fn a_studio_background_has_no_texture() {
    let (p50, p90) = texture(&solid(120, 120, [248, 248, 247, 255]));
    assert_eq!(p50, 0.0);
    assert_eq!(p90, 0.0);
}

#[test]
fn sensor_noise_stays_well_below_the_dam() {
    let mut img = solid(120, 120, [248, 248, 247, 255]);
    let mut seed = 0x2545_F491_4F6C_DD1Du64;
    for y in 0..120 {
        for x in 0..120 {
            seed ^= seed << 13;
            seed ^= seed >> 7;
            seed ^= seed << 17;
            let n = ((seed >> 32) % 5) as i16 - 2;
            let v = (248 + n).clamp(0, 255) as u8;
            img.put_pixel(x, y, [v, v, v, 255]);
        }
    }
    let (_, p90) = texture(&img);
    assert!(p90 < 5.0, "texture={p90}");
}

#[test]
fn a_woven_background_shows_up_in_the_texture_but_not_only_in_delta_e() {
    let mut img = solid(200, 200, [177, 174, 168, 255]);
    let k = std::f32::consts::TAU / 8.0;
    for y in 0..200 {
        for x in 0..200 {
            let t = 12.0 * (x as f32 * k).sin() * (y as f32 * k).sin();
            let v = |c: u8| (f32::from(c) + t).clamp(0.0, 255.0) as u8;
            img.put_pixel(x, y, [v(177), v(174), v(168), 255]);
        }
    }
    let (_, p90) = texture(&img);
    assert!(p90 > 8.0, "織り目を検出できていない: {p90}");
}
