use kiri::cutout::cells::RIM_LINEAR_ONE;
use kiri::cutout::contour::rim_pixels;
use kiri::cutout::feather::feather;
use kiri::cutout::mask::Mask;
use kiri::cutout::matte::{alpha_of, project, recoveries, scene_of, visible_answers, Answer, LINEAR_UNIT, WHOLE};
use kiri::cutout::morphology::BitPlane;
use kiri::cutout::refine::{
    band_map, band_radii, farthest_on_side, for_each_tile, paint_disc, tile_at, transition_width, window_for,
    RefineOptions, DEFAULT_MAX_RADIUS, DEFAULT_MIN_RADIUS, DEFAULT_MIN_SEPARATION, RADIUS_CEILING,
};
use kiri::cutout::recover::{recover, recover_foreground, RECOVER_SLACK};
use kiri::cutout::refining::{Ground, Refining};
use kiri::raster::RgbaImage;

fn to_linear(v: u8) -> f64 {
    let c = f64::from(v) / 255.0;
    if c <= 0.040_45 {
        c / 12.92
    } else {
        ((c + 0.055) / 1.055).powf(2.4)
    }
}

fn to_lab(rgb: [u8; 3]) -> [f64; 3] {
    let [r, g, b] = rgb.map(to_linear);
    let x = (0.412_456_4 * r + 0.357_576_1 * g + 0.180_437_5 * b) / 0.950_47;
    let y = 0.212_672_9 * r + 0.715_152_2 * g + 0.072_175 * b;
    let z = (0.019_333_9 * r + 0.119_192 * g + 0.950_304_1 * b) / 1.088_83;
    let f = |t: f64| {
        if t > 216.0 / 24389.0 {
            t.cbrt()
        } else {
            (24389.0 / 27.0 * t + 16.0) / 116.0
        }
    };
    [116.0 * f(y) - 16.0, 500.0 * (f(x) - f(y)), 200.0 * (f(y) - f(z))]
}

fn delta_e(a: [u8; 3], b: [u8; 3]) -> f64 {
    let (p, q) = (to_lab(a), to_lab(b));
    ((p[0] - q[0]).powi(2) + (p[1] - q[1]).powi(2) + (p[2] - q[2]).powi(2)).sqrt()
}

fn from_linear(v: f64) -> u8 {
    let c = v.clamp(0.0, 1.0);
    let s = if c <= 0.003_130_8 { c * 12.92 } else { 1.055 * c.powf(1.0 / 2.4) - 0.055 };
    (s * 255.0).round() as u8
}

fn rim_table() -> Vec<u32> {
    (0..=255u8).map(|v| (to_linear(v) * f64::from(RIM_LINEAR_ONE)).round() as u32).collect()
}

fn light_table() -> Vec<u64> {
    (0..=255u8).map(|v| (to_linear(v) * LINEAR_UNIT as f64).round() as u64).collect()
}

fn outward_normal(mask: &Mask, x: u32, y: u32) -> Option<[f64; 2]> {
    let (mut nx, mut ny) = (0.0f64, 0.0f64);
    for dy in -1i64..=1 {
        for dx in -1i64..=1 {
            let (u, v) = (i64::from(x) + dx, i64::from(y) + dy);
            if u < 0 || v < 0 || u >= i64::from(mask.width()) || v >= i64::from(mask.height()) {
                continue;
            }
            if !mask.is_foreground(u as u32, v as u32) {
                nx += dx as f64;
                ny += dy as f64;
            }
        }
    }
    let length = nx.hypot(ny);
    if length < 1e-9 {
        None
    } else {
        Some([nx / length, ny / length])
    }
}

/// The places that a walk from a pixel passes, as far as they are on the image.
fn walk(mask: &Mask, x: u32, y: u32, normal: [f64; 2], sign: f64, steps: u32) -> Vec<Option<(u32, u32)>> {
    (1..=steps)
        .map(|t| {
            let sx = (f64::from(x) + sign * normal[0] * f64::from(t)).round();
            let sy = (f64::from(y) + sign * normal[1] * f64::from(t)).round();
            if sx < 0.0 || sy < 0.0 || sx >= f64::from(mask.width()) || sy >= f64::from(mask.height()) {
                None
            } else {
                Some((sx as u32, sy as u32))
            }
        })
        .collect()
}

fn rgb(image: &RgbaImage, p: (u32, u32)) -> [u8; 3] {
    let c = image.get_pixel(p.0, p.1);
    [c[0], c[1], c[2]]
}

fn rests(image: &RgbaImage, steps: &[Option<(u32, u32)>], reference: [u8; 3]) -> Vec<Option<u64>> {
    steps.iter().map(|s| s.map(|p| delta_e(rgb(image, p), reference).to_bits())).collect()
}

fn draw_band(image: &RgbaImage, mask: &Mask, bg: [u8; 3], min: u32, max: u32) -> Vec<u8> {
    let lo = min.clamp(1, RADIUS_CEILING);
    let hi = max.clamp(lo, RADIUS_CEILING);
    let contour = rim_pixels(mask);
    let measured: Vec<Option<u32>> = contour
        .iter()
        .map(|&(x, y)| {
            let normal = outward_normal(mask, x, y)?;
            let out = walk(mask, x, y, normal, 1.0, hi);
            let inner = walk(mask, x, y, normal, -1.0, hi);
            let sides = |steps: &[Option<(u32, u32)>]| -> Vec<Option<bool>> {
                steps.iter().map(|s| s.map(|p| mask.is_foreground(p.0, p.1))).collect()
            };
            let outer_ref = farthest_on_side(&sides(&out), false)
                .and_then(|t| out[t])
                .map_or(bg, |p| rgb(image, p));
            let inner_ref = farthest_on_side(&sides(&inner), true)
                .and_then(|t| inner[t])
                .map(|p| rgb(image, p));
            let outward = rests(image, &out, outer_ref);
            let inward = inner_ref.map(|r| rests(image, &inner, r));
            Some(transition_width(&outward, inward.as_deref(), lo, hi))
        })
        .collect();
    band_map(mask.width(), mask.height(), &contour, &measured, min, max)
}

struct Outcome {
    image: RgbaImage,
    mask: Mask,
    band_min_radius: u32,
}

fn light_steps() -> Vec<u64> {
    (1..=255u32)
        .map(|k| {
            let c = (f64::from(k) - 0.5) / 255.0;
            let v = if c <= 0.040_45 { c / 12.92 } else { ((c + 0.055) / 1.055).powf(2.4) };
            (v * LINEAR_UNIT as f64).ceil() as u64
        })
        .collect()
}

/// The whole work on the boundary.
fn refine(image: &RgbaImage, binary: &Mask, bg: [u8; 3], opts: &RefineOptions) -> Outcome {
    let (linear, rim) = (light_table(), rim_table());
    let ground =
        Ground { image, background: bg, linear: &linear, rim: &rim, opts: *opts };
    let mut state = Refining::start(&ground, binary.clone());
    while let Some((mask, (min, max))) = state.band_around() {
        let band = draw_band(image, mask, bg, min, max);
        state = state.with_band(&ground, band);
    }
    match state {
        Refining::Done(r) => {
            let mut out = image.clone();
            recover(&mut out, &r.recover, &light_steps());
            Outcome { image: out, mask: r.mask, band_min_radius: r.band_min_radius }
        }
        _ => unreachable!(),
    }
}

fn mix(product: [u8; 3], background: [u8; 3], coverage: f32) -> [u8; 4] {
    let coverage = f64::from(coverage);
    let mut out = [255u8; 4];
    for k in 0..3 {
        let f = to_linear(product[k]);
        let b = to_linear(background[k]);
        out[k] = from_linear(f * coverage + b * (1.0 - coverage));
    }
    out
}

fn ramp(product: [u8; 3], background: [u8; 3], coverage: f32) -> (RgbaImage, Mask) {
    let (w, h) = (40u32, 12u32);
    let mut img = RgbaImage::from_pixel(
        w,
        h,
        [background[0], background[1], background[2], 255],
    );
    let mut mask = Mask::new(w, h, 0);
    for y in 0..h {
        for x in 0..w {
            if x < 20 {
                img.put_pixel(x, y, [product[0], product[1], product[2], 255]);
                mask.set(x, y, 255);
            } else if x == 20 {
                img.put_pixel(x, y, mix(product, background, coverage));
                mask.set(x, y, 255);
            }
        }
    }
    (img, mask)
}

#[test]
fn a_half_covered_pixel_gets_about_half_alpha() {
    let (img, mask) = ramp([40, 40, 45], [250, 250, 249], 0.5);
    let out = refine(&img, &mask, [250, 250, 249], &RefineOptions::default());
    let a = out.mask.get(20, 6);
    assert!(
        (100..=155).contains(&a),
        "混色画素のアルファが半分になっていない: {a}"
    );
}

#[test]
fn a_pure_background_pixel_inside_the_mask_becomes_transparent() {
    let (img, mask) = ramp([40, 40, 45], [250, 250, 249], 0.0);
    let out = refine(&img, &mask, [250, 250, 249], &RefineOptions::default());
    assert_eq!(
        out.mask.get(20, 6),
        0,
        "背景色のままの画素が透明になっていない"
    );
}

#[test]
fn the_interior_and_the_exterior_are_left_alone() {
    let (img, mask) = ramp([40, 40, 45], [250, 250, 249], 0.5);
    let out = refine(&img, &mask, [250, 250, 249], &RefineOptions::default());
    assert_eq!(out.mask.get(2, 6), 255, "内部が薄くなっている");
    assert_eq!(out.mask.get(38, 6), 0, "外部に色が漏れている");
}

#[test]
fn the_recovered_colour_drops_the_background_tint() {
    let (img, mask) = ramp([40, 40, 45], [250, 250, 249], 0.5);
    let out = refine(&img, &mask, [250, 250, 249], &RefineOptions::default());
    let p = out.image.get_pixel(20, 6);
    assert!(
        p[0] < 120,
        "境界画素に背景色が残っている: {:?}",
        [p[0], p[1], p[2]]
    );
}

#[test]
fn the_recovered_colour_keeps_the_product_channel_order() {
    let product = [40u8, 38, 34];
    let background = [178u8, 174, 167];
    for coverage in [0.2, 0.35, 0.5, 0.75] {
        let (img, mask) = ramp(product, background, coverage);
        let out = refine(&img, &mask, background, &RefineOptions::default());
        let p = out.image.get_pixel(20, 6);
        assert!(
            p[0] >= p[1] && p[1] >= p[2],
            "被覆率 {coverage}: 商品は R≧G≧B なのに復元色が {:?}",
            [p[0], p[1], p[2]]
        );
    }
}

#[test]
fn a_pixel_darker_than_the_background_mix_falls_back_to_the_foreground() {
    let product = [40u8, 38, 34];
    let background = [178u8, 174, 167];
    let (mut img, mask) = ramp(product, background, 0.5);
    let mixed = img.get_pixel(20, 6);
    for y in 0..img.height() {
        img.put_pixel(
            20,
            y,
            [
                (f32::from(mixed[0]) * 0.7) as u8,
                (f32::from(mixed[1]) * 0.7) as u8,
                (f32::from(mixed[2]) * 0.7) as u8,
                255,
            ],
        );
    }
    let out = refine(&img, &mask, background, &RefineOptions::default());
    let p = out.image.get_pixel(20, 6);
    let chroma = p[..3].iter().max().unwrap() - p[..3].iter().min().unwrap();
    assert!(
        chroma <= 12,
        "無彩色に近い商品なのに復元色が色を持っている: {:?}",
        [p[0], p[1], p[2]]
    );
    assert!(
        p[0] < 120,
        "境界画素に背景色が残っている: {:?}",
        [p[0], p[1], p[2]]
    );
}

#[test]
fn despill_can_be_switched_off() {
    let (img, mask) = ramp([40, 40, 45], [250, 250, 249], 0.5);
    let opts = RefineOptions {
        despill: false,
        ..Default::default()
    };
    let out = refine(&img, &mask, [250, 250, 249], &opts);
    assert_eq!(
        out.image.get_pixel(20, 6),
        img.get_pixel(20, 6),
        "--no-despill でも色が書き換わっている"
    );
}

#[test]
fn refine_mismatched_dimensions_are_refused_rather_than_panicking() {
    let img = RgbaImage::from_pixel(8, 8, [0, 0, 0, 255]);
    let mask = Mask::new(10, 10, 255);
    let out = refine(&img, &mask, [0; 3], &RefineOptions::default());
    assert_eq!(out.mask, mask);
}

#[test]
fn the_seal_keeps_a_one_pixel_slit_opaque_through_the_matting() {
    let (w, h) = (32u32, 32u32);
    let bg = [250u8, 250, 249];
    let mut img = RgbaImage::from_pixel(w, h, [bg[0], bg[1], bg[2], 255]);
    let mut mask = Mask::new(w, h, 0);
    for y in 8..24 {
        for x in 8..24 {
            img.put_pixel(x, y, [40, 40, 40, 255]);
            mask.set(x, y, u8::MAX);
        }
    }
    for y in 8..20 {
        img.put_pixel(16, y, [bg[0], bg[1], bg[2], 255]);
    }
    let sealed = refine(&img, &mask, bg, &RefineOptions::default());
    assert!(
        sealed.mask.get(16, 14) >= 128,
        "--seal が塞いだスリットを色の解き直しが透明に戻している: {}",
        sealed.mask.get(16, 14)
    );
    let opened = refine(
        &img,
        &mask,
        bg,
        &RefineOptions {
            seal: 0,
            ..Default::default()
        },
    );
    assert!(
        opened.mask.get(16, 14) < 128,
        "seal 0（塞がない）なのにスリットが不透明で残っている: {}",
        opened.mask.get(16, 14)
    );
}

#[test]
fn a_product_the_same_colour_as_the_background_falls_back_to_the_feather() {
    let (img, mask) = ramp([249, 249, 248], [250, 250, 249], 0.5);
    let out = refine(&img, &mask, [250, 250, 249], &RefineOptions::default());
    let expected = feather(&mask, 1);
    assert_eq!(out.mask.get(20, 6), expected.get(20, 6));
}

#[test]
fn an_empty_mask_is_untouched() {
    let img = RgbaImage::from_pixel(8, 8, [250, 250, 249, 255]);
    let mask = Mask::new(8, 8, 0);
    let out = refine(&img, &mask, [250, 250, 249], &RefineOptions::default());
    assert_eq!(out.mask, mask);
    assert_eq!(out.image, img);
}

#[test]
fn a_full_mask_is_untouched() {
    let img = RgbaImage::from_pixel(8, 8, [40, 40, 45, 255]);
    let mask = Mask::new(8, 8, 255);
    let out = refine(&img, &mask, [250, 250, 249], &RefineOptions::default());
    assert_eq!(out.mask, mask);
}

#[test]
fn a_soft_contour_gets_a_wider_band_than_a_hard_one() {
    let make = |softness: f32| -> Vec<u8> {
        let (w, h) = (60u32, 12u32);
        let mut img = RgbaImage::from_pixel(w, h, [0, 0, 0, 0]);
        let mut mask = Mask::new(w, h, 0);
        for y in 0..h {
            for x in 0..w {
                let t = ((x as f32 - 30.0) / softness + 0.5).clamp(0.0, 1.0);
                let v = (40.0 * (1.0 - t) + 250.0 * t).round() as u8;
                img.put_pixel(x, y, [v, v, v, 255]);
                mask.set(x, y, if (x as f32) < 30.0 + softness { 255 } else { 0 });
            }
        }
        draw_band(&img, &mask, [250, 250, 250], DEFAULT_MIN_RADIUS, DEFAULT_MAX_RADIUS)
    };
    let hard = make(1.0).iter().filter(|&&r| r > 0).count();
    let soft = make(8.0).iter().filter(|&&r| r > 0).count();
    assert!(
        soft > hard,
        "柔らかい輪郭で帯が広がっていない: {soft} <= {hard}"
    );
}

#[test]
fn refine_the_result_does_not_depend_on_where_the_tiles_fall() {
    let (w, h) = (400u32, 40u32);
    let mut img = RgbaImage::from_pixel(w, h, [250, 250, 249, 255]);
    let mut mask = Mask::new(w, h, 0);
    for y in 10..30 {
        for x in 0..w {
            img.put_pixel(x, y, [40, 40, 45, 255]);
            mask.set(x, y, 255);
        }
    }
    let out = refine(&img, &mask, [250, 250, 249], &RefineOptions::default());
    let reference = out.mask.get(5, 10);
    for x in 0..w {
        assert_eq!(
            out.mask.get(x, 10),
            reference,
            "x={x} でタイルの継ぎ目が出ている"
        );
    }
}

#[test]
fn a_structure_thinner_than_the_band_does_not_depend_on_where_the_tiles_fall() {
    const SHIFT: u32 = 16;
    let bg = [250u8, 250, 249];
    let product = [40u8, 40, 45];
    let build = |offset: u32| -> Mask {
        let (w, h) = (760u32, 60u32);
        let mut img = RgbaImage::from_pixel(w, h, [bg[0], bg[1], bg[2], 255]);
        let mut mask = Mask::new(w, h, 0);
        for (row, period) in [(10u32, 17u32), (22, 23), (34, 31), (46, 41)] {
            for x in 0..w {
                let u = x as i64 - i64::from(offset);
                if !(40..700).contains(&u) {
                    continue;
                }
                let u = u as u32;
                let coverage = if (u / period) % 3 == 0 { 1.0 } else { 0.55 };
                img.put_pixel(x, row, mix(product, bg, coverage));
                let edge = mix(product, bg, 0.5 * coverage);
                img.put_pixel(x, row - 1, edge);
                img.put_pixel(x, row + 1, edge);
                for y in (row - 1)..=(row + 1) {
                    mask.set(x, y, 255);
                }
            }
        }
        refine(&img, &mask, bg, &RefineOptions::default()).mask
    };
    let base = build(0);
    let shifted = build(SHIFT);
    let (mut differing, mut worst, mut worst_at) = (0usize, 0i32, (0u32, 0u32));
    for y in 0..base.height() {
        for x in 64..(base.width() - SHIFT - 64) {
            let d = i32::from(base.get(x, y)) - i32::from(shifted.get(x + SHIFT, y));
            if d != 0 {
                differing += 1;
            }
            if d.abs() > worst {
                worst = d.abs();
                worst_at = (x, y);
            }
        }
    }
    assert_eq!(
        differing, 0,
        "内容を {SHIFT}px ずらすとアルファが変わる画素がある（最大差 {worst} @ {worst_at:?}）"
    );
}

#[test]
fn a_one_pixel_wide_structure_still_gets_a_band() {
    let (w, h) = (40u32, 12u32);
    let bg = [250u8, 250, 249];
    let product = [40u8, 40, 45];
    let mut img = RgbaImage::from_pixel(w, h, [bg[0], bg[1], bg[2], 255]);
    let mut mask = Mask::new(w, h, 0);
    for y in 0..h {
        img.put_pixel(20, y, [product[0], product[1], product[2], 255]);
        mask.set(20, y, 255);
    }
    assert_eq!(outward_normal(&mask, 20, 6), None, "前提: 法線は決まらない");
    let band = draw_band(&img, &mask, bg, DEFAULT_MIN_RADIUS, DEFAULT_MAX_RADIUS);
    assert!(
        band[6 * (w as usize) + 20] > 0,
        "幅 1px の構造に帯が張られていない"
    );
}

#[test]
fn the_three_switches_put_the_band_back_where_phase_two_had_it() {
    let (w, h) = (80u32, 80u32);
    let bg = [250u8, 250, 249];
    let mut img = RgbaImage::from_pixel(w, h, [bg[0], bg[1], bg[2], 255]);
    let mut mask = Mask::new(w, h, 0);
    for y in 20..60 {
        let wobble = if (y / 2) % 2 == 0 { 0 } else { 6 };
        for x in (20 + wobble)..60 {
            img.put_pixel(x, y, [40, 40, 45, 255]);
            mask.set(x, y, u8::MAX);
        }
    }
    let staged = refine(&img, &mask, bg, &RefineOptions::default());
    let plain = refine(&img, &mask, bg, &RefineOptions::default().projection_only());
    assert_eq!(
        plain.band_min_radius, DEFAULT_MIN_RADIUS,
        "3 つ切った経路で帯幅の下限が動いている"
    );
    assert!(
        staged.band_min_radius > DEFAULT_MIN_RADIUS,
        "ギザギザな輪郭で帯幅の下限が持ち上がっていない: {}",
        staged.band_min_radius
    );
}

#[test]
fn a_structure_thinner_than_the_band_still_finds_a_foreground_colour() {
    let (w, h) = (60u32, 40u32);
    let bg = [250u8, 250, 249];
    let product = [40u8, 40, 45];
    let mut img = RgbaImage::from_pixel(w, h, [bg[0], bg[1], bg[2], 255]);
    let mut mask = Mask::new(w, h, 0);
    for y in 0..h {
        for x in 28..31 {
            img.put_pixel(x, y, [product[0], product[1], product[2], 255]);
            mask.set(x, y, 255);
        }
    }
    let out = refine(&img, &mask, bg, &RefineOptions::default());
    assert_eq!(
        out.mask.get(29, 20),
        255,
        "細い構造の芯が半透明になっている"
    );
}

#[test]
fn the_answers_name_the_colours_they_rest_on() {
    let (img, mask) = ramp([40, 40, 45], [250, 250, 249], 0.5);
    let band = draw_band(&img, &mask, [250, 250, 249], 2, 10);
    let table = light_table();
    let sealed = BitPlane::default();
    let scene = scene_of(&img, &table, &mask, &band, &sealed, [250, 250, 249], DEFAULT_MIN_SEPARATION).unwrap();
    let out = project(&scene, 1, true);
    let answer = out.answers.iter().find(|a| (a.x, a.y) == (20, 6)).unwrap();
    assert_eq!(answer.alpha, out.mask.get(20, 6));
    assert_eq!(answer.front, [table[40], table[40], table[45]]);
    assert_eq!(answer.behind, [table[250], table[250], table[249]]);
    assert!(out.solved.get(6 * 40 + 20));
    let kept = recoveries(&out.answers, &out.mask);
    assert!(kept.iter().all(|a| a.alpha != 0));
    assert!(kept.len() < out.answers.len());
    assert_eq!(answer.share.abs_diff(u64::from(answer.alpha) * WHOLE / 255) * 255 / WHOLE, 0);
    let seen = visible_answers(&out.answers);
    assert_eq!(seen.len(), kept.len());
    assert!(seen.contains(answer), "the share is not rounded");
    assert_eq!(alpha_of(1, 2), 128);
    assert_eq!((alpha_of(-5, 2), alpha_of(9, 2), alpha_of(0, 0)), (0, 255, 0));
}

#[test]
fn the_radii_follow_the_size_of_the_image() {
    let mut mask = Mask::new(3000, 10, 0);
    for y in 0..10 {
        for x in 0..1500 {
            mask.set(x, y, 255);
        }
    }
    assert_eq!(band_radii(&mask, &RefineOptions::default()), (6, 10));
    let wide = RefineOptions { max_radius: 1000, min_radius: 100, ..RefineOptions::default() };
    assert_eq!(band_radii(&mask, &wide), (48, 48));
    assert_eq!(band_radii(&mask, &wide.projection_only()), (100, 1000));
    assert_eq!(RefineOptions::default().smooth_radius(3000, 10), 6);
    assert_eq!(RefineOptions::default().smooth_radius(400, 10), 2);
    assert_eq!(RefineOptions::default().guided_radius(2, 9), Some(3));
    assert_eq!(RefineOptions::default().guided_radius(2, 2), Some(2));
    assert_eq!(RefineOptions::default().projection_only().guided_radius(2, 9), None);
    assert_eq!(window_for(10), 23);
}

#[test]
fn the_tiles_cover_the_image() {
    assert_eq!(for_each_tile(129, 1), vec![(0, 0), (128, 0)]);
    assert_eq!(for_each_tile(128, 256), vec![(0, 0), (0, 128)]);
    assert!(for_each_tile(0, 9).is_empty());
    assert_eq!(tile_at(130, 5, 128, 0), (128, 0, 129, 4));
}

#[test]
fn a_disc_is_painted_where_the_plane_holds_less() {
    let mut band = vec![0u8; 49];
    band[24] = 9;
    paint_disc(&mut band, 7, 7, 3, 3, 2);
    assert_eq!(band[24], 9);
    assert_eq!((band[22], band[26], band[10], band[38]), (2, 2, 2, 2));
    assert_eq!((band[21], band[16 + 8 - 8], band[8]), (0, 2, 0));
}

#[test]
fn the_wider_side_of_a_transition_counts() {
    let (far, near) = (Some(2.5f64.to_bits()), Some(2.0f64.to_bits()));
    assert_eq!(transition_width(&[far, None, near], Some(&[near, near, near]), 1, 10), 3);
    assert_eq!(transition_width(&[near], None, 2, 10), 2);
    assert_eq!(transition_width(&[far, far], Some(&[near]), 2, 10), 10);
    assert_eq!(farthest_on_side(&[Some(true), None, Some(true), Some(false)], true), Some(2));
    assert_eq!(farthest_on_side(&[None, Some(true)], false), None);
}

#[test]
fn an_opaque_answer_keeps_its_colour() {
    let light = [LINEAR_UNIT / 2, LINEAR_UNIT / 3, LINEAR_UNIT / 4];
    let a = Answer { x: 0, y: 0, alpha: 255, share: WHOLE, observed: light, behind: [7, 8, 9], front: [LINEAR_UNIT; 3] };
    assert_eq!(recover_foreground(&a), light);
}

#[test]
fn an_answer_that_cannot_be_shows_the_front() {
    let a = Answer {
        x: 0,
        y: 0,
        alpha: 40,
        share: 40 * WHOLE / 255,
        observed: [LINEAR_UNIT / 100; 3],
        behind: [LINEAR_UNIT / 2; 3],
        front: [LINEAR_UNIT / 8; 3],
    };
    assert_eq!(recover_foreground(&a), [LINEAR_UNIT / 8; 3]);
}

#[test]
fn a_recovered_colour_stays_near_what_was_seen() {
    let unit = LINEAR_UNIT;
    for alpha in [1u8, 13, 60, 128, 200, 254, 255] {
        let a = Answer {
            x: 0,
            y: 0,
            alpha,
            share: u64::from(alpha) * WHOLE / 255,
            observed: [unit / 2, unit / 5, unit],
            behind: [unit / 3, unit / 2, unit / 9],
            front: [unit / 4, unit / 3, unit / 2],
        };
        let c = recover_foreground(&a);
        for k in 0..3 {
            let (o, f) = (a.observed[k], a.front[k]);
            assert!(c[k] + RECOVER_SLACK >= o.min(f), "{alpha} {k}");
            assert!(c[k] <= o.max(f) + RECOVER_SLACK, "{alpha} {k}");
        }
    }
}

#[test]
fn half_of_a_mixture_is_taken_out() {
    let unit = LINEAR_UNIT;
    let a = Answer { x: 0, y: 0, alpha: 128, share: 128 * WHOLE / 255, observed: [unit / 2; 3], behind: [0; 3], front: [unit; 3] };
    let solved = 0.5 + (255.0 / 128.0 - 1.0) * 0.5;
    let share = 128.0f64 / 255.0;
    let trust = share * share * (3.0 - 2.0 * share);
    let want = 1.0 + trust * (solved - 1.0);
    let got = recover_foreground(&a)[0] as f64 / unit as f64;
    assert!((got - want).abs() < 1e-7, "{got} {want}");
}
