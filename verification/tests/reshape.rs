use kiri::cutout::cells::RIM_LINEAR_ONE;
use kiri::cutout::contour::{contour_pixels, farther_than, grow, rim_pixels};
use kiri::cutout::local_colour::{build, Lean, Role};
use kiri::cutout::mask::Mask;
use kiri::cutout::morphology::BitPlane;
use kiri::cutout::refine::{
    band_map, farthest_on_side, transition_width, DEFAULT_MAX_RADIUS, DEFAULT_MIN_RADIUS, RADIUS_CEILING,
};
use kiri::cutout::repaint::{Repaint, Reshape, RESHAPE_PASSES};
use kiri::cutout::reshape::{band_bounds, close_new_gaps};
use kiri::raster::RgbaImage;

fn to_linear(v: u8) -> f64 {
    let c = f64::from(v) / 255.0;
    if c <= 0.040_45 {
        c / 12.92
    } else {
        ((c + 0.055) / 1.055).powf(2.4)
    }
}

fn to_lab(rgb: [u8; 3]) -> [f64; 3] {
    let [r, g, b] = rgb.map(to_linear);
    let x = (0.412_456_4 * r + 0.357_576_1 * g + 0.180_437_5 * b) / 0.950_47;
    let y = 0.212_672_9 * r + 0.715_152_2 * g + 0.072_175 * b;
    let z = (0.019_333_9 * r + 0.119_192 * g + 0.950_304_1 * b) / 1.088_83;
    let f = |t: f64| {
        if t > 216.0 / 24389.0 {
            t.cbrt()
        } else {
            (24389.0 / 27.0 * t + 16.0) / 116.0
        }
    };
    [116.0 * f(y) - 16.0, 500.0 * (f(x) - f(y)), 200.0 * (f(y) - f(z))]
}

fn delta_e(a: [u8; 3], b: [u8; 3]) -> f64 {
    let (p, q) = (to_lab(a), to_lab(b));
    ((p[0] - q[0]).powi(2) + (p[1] - q[1]).powi(2) + (p[2] - q[2]).powi(2)).sqrt()
}

fn rim_table() -> Vec<u32> {
    (0..=255u8).map(|v| (to_linear(v) * f64::from(RIM_LINEAR_ONE)).round() as u32).collect()
}

fn outward_normal(mask: &Mask, x: u32, y: u32) -> Option<[f64; 2]> {
    let (mut nx, mut ny) = (0.0f64, 0.0f64);
    for dy in -1i64..=1 {
        for dx in -1i64..=1 {
            let (u, v) = (i64::from(x) + dx, i64::from(y) + dy);
            if u < 0 || v < 0 || u >= i64::from(mask.width()) || v >= i64::from(mask.height()) {
                continue;
            }
            if !mask.is_foreground(u as u32, v as u32) {
                nx += dx as f64;
                ny += dy as f64;
            }
        }
    }
    let length = nx.hypot(ny);
    if length < 1e-9 {
        None
    } else {
        Some([nx / length, ny / length])
    }
}

/// The places that a walk from a pixel passes, as far as they are on the image.
fn walk(mask: &Mask, x: u32, y: u32, normal: [f64; 2], sign: f64, steps: u32) -> Vec<Option<(u32, u32)>> {
    (1..=steps)
        .map(|t| {
            let sx = (f64::from(x) + sign * normal[0] * f64::from(t)).round();
            let sy = (f64::from(y) + sign * normal[1] * f64::from(t)).round();
            if sx < 0.0 || sy < 0.0 || sx >= f64::from(mask.width()) || sy >= f64::from(mask.height()) {
                None
            } else {
                Some((sx as u32, sy as u32))
            }
        })
        .collect()
}

fn rgb(image: &RgbaImage, p: (u32, u32)) -> [u8; 3] {
    let c = image.get_pixel(p.0, p.1);
    [c[0], c[1], c[2]]
}

fn rests(image: &RgbaImage, steps: &[Option<(u32, u32)>], reference: [u8; 3]) -> Vec<Option<u64>> {
    steps.iter().map(|s| s.map(|p| delta_e(rgb(image, p), reference).to_bits())).collect()
}

fn draw_band(image: &RgbaImage, mask: &Mask, bg: [u8; 3], min: u32, max: u32) -> Vec<u8> {
    let lo = min.clamp(1, RADIUS_CEILING);
    let hi = max.clamp(lo, RADIUS_CEILING);
    let contour = rim_pixels(mask);
    let measured: Vec<Option<u32>> = contour
        .iter()
        .map(|&(x, y)| {
            let normal = outward_normal(mask, x, y)?;
            let out = walk(mask, x, y, normal, 1.0, hi);
            let inner = walk(mask, x, y, normal, -1.0, hi);
            let sides = |steps: &[Option<(u32, u32)>]| -> Vec<Option<bool>> {
                steps.iter().map(|s| s.map(|p| mask.is_foreground(p.0, p.1))).collect()
            };
            let outer_ref = farthest_on_side(&sides(&out), false)
                .and_then(|t| out[t])
                .map_or(bg, |p| rgb(image, p));
            let inner_ref = farthest_on_side(&sides(&inner), true)
                .and_then(|t| inner[t])
                .map(|p| rgb(image, p));
            let outward = rests(image, &out, outer_ref);
            let inward = inner_ref.map(|r| rests(image, &inner, r));
            Some(transition_width(&outward, inward.as_deref(), lo, hi))
        })
        .collect();
    band_map(mask.width(), mask.height(), &contour, &measured, min, max)
}

fn leans(image: &RgbaImage, shape: &Mask, band: &[u8], bounds: (u32, u32, u32, u32)) -> Vec<Option<Lean>> {
    let (w, h) = (shape.width(), shape.height());
    let roles: Vec<Role> = (0..w * h)
        .map(|i| {
            if band[i as usize] != 0 {
                Role::Skip
            } else if shape.is_foreground(i % w, i / w) {
                Role::Foreground
            } else {
                Role::Background
            }
        })
        .collect();
    build(image, grow(bounds, 8, w, h), 1000, &roles, &rim_table()).leans(image, &rim_table())
}

#[test]
fn reshape_a_background_coloured_pixel_in_the_band_is_repainted_as_background() {
    let (w, h) = (60u32, 40u32);
    let bg = [250u8, 250, 249];
    let product = [40u8, 40, 45];
    let mut img = RgbaImage::from_pixel(w, h, [bg[0], bg[1], bg[2], 255]);
    let mut shape = Mask::new(w, h, 0);
    for y in 0..h {
        for x in 0..w {
            if x < 30 {
                img.put_pixel(x, y, [product[0], product[1], product[2], 255]);
            }
            if x < 33 {
                shape.set(x, y, u8::MAX);
            }
        }
    }
    let original = shape.clone();
    let band = draw_band(&img, &shape, bg, DEFAULT_MIN_RADIUS, DEFAULT_MAX_RADIUS);
    let bounds = band_bounds(&band, w, h).expect("帯がある");
    let leans = leans(&img, &shape, &band, bounds);
    let changed = Repaint { original: &original, band: &band, out_of_reach: &BitPlane::default(), leans: &leans, bounds }
        .reclassify_rim(&mut shape);
    assert!(changed > 0, "縁が 1 画素も塗り直されていない");
    assert!(
        !shape.is_foreground(32, 20),
        "背景色のままの縁が前景で残っている"
    );
    assert!(shape.is_foreground(10, 20), "商品の内部まで背景にしている");
    for y in 0..h {
        for x in 0..w {
            if band[(y as usize) * (w as usize) + (x as usize)] == 0 {
                assert_eq!(
                    shape.is_foreground(x, y),
                    original.is_foreground(x, y),
                    "帯の外を書き換えている: {x},{y}"
                );
            }
        }
    }
}

#[test]
fn reshape_a_pale_product_is_left_alone_by_the_reclassification() {
    let (w, h) = (60u32, 40u32);
    let bg = [250u8, 250, 249];
    let mut img = RgbaImage::from_pixel(w, h, [bg[0], bg[1], bg[2], 255]);
    let mut shape = Mask::new(w, h, 0);
    for y in 0..h {
        for x in 0..33 {
            if x < 30 {
                img.put_pixel(x, y, [248, 248, 247, 255]);
            }
            shape.set(x, y, u8::MAX);
        }
    }
    let band = draw_band(&img, &shape, bg, DEFAULT_MIN_RADIUS, DEFAULT_MAX_RADIUS);
    let bounds = band_bounds(&band, w, h).expect("帯がある");
    let leans = leans(&img, &shape, &band, bounds);
    let original = shape.clone();
    assert_eq!(
        Repaint { original: &original, band: &band, out_of_reach: &BitPlane::default(), leans: &leans, bounds }
            .reclassify_rim(&mut shape),
        0,
        "色で決められないのにマスクを書き換えている"
    );
}

#[test]
fn reshape_the_colour_gate_keeps_a_three_pixel_strap_through_the_median() {
    let (w, h) = (60u32, 40u32);
    let bg = [250u8, 250, 249];
    let product = [40u8, 40, 45];
    let mut img = RgbaImage::from_pixel(w, h, [bg[0], bg[1], bg[2], 255]);
    let mut shape = Mask::new(w, h, 0);
    for y in 0..h {
        for x in 28..31 {
            img.put_pixel(x, y, [product[0], product[1], product[2], 255]);
            shape.set(x, y, u8::MAX);
        }
    }
    let original = shape.clone();
    let band = draw_band(&img, &shape, bg, DEFAULT_MIN_RADIUS, DEFAULT_MAX_RADIUS);
    let bounds = band_bounds(&band, w, h).expect("帯がある");
    let leans = leans(&img, &shape, &band, bounds);
    Repaint { original: &original, band: &band, out_of_reach: &BitPlane::default(), leans: &leans, bounds }
        .smooth_in_band(&mut shape, 2);
    assert!(
        shape.is_foreground(29, 20),
        "色の門を通さないメディアンが 3px のストラップを消している"
    );
}

#[test]
fn reshape_the_seal_survives_the_repaint() {
    let opened = |gap: u32| -> bool {
        let (w, h) = (60u32, 40u32);
        let mut shape = Mask::new(w, h, 0);
        let original = {
            let mut m = Mask::new(w, h, 0);
            for y in 0..h {
                for x in 10..50 {
                    m.set(x, y, u8::MAX);
                }
            }
            m
        };
        for y in 0..h {
            for x in 10..50 {
                shape.set(x, y, u8::MAX);
            }
        }
        for y in 0..25 {
            for x in 28..(28 + gap) {
                shape.set(x, y, 0);
            }
        }
        let band = vec![1u8; (w as usize) * (h as usize)];
        let mut sealed = BitPlane::new(band.len());
        close_new_gaps(
            &mut shape,
            &original,
            &band,
            &mut sealed,
            (0, 0, w - 1, h - 1),
            1,
        );
        !shape.is_foreground(28, 20)
    };
    assert!(!opened(1), "幅 1px の切れ込みが塞がっていない");
    assert!(opened(5), "幅 5px の隙間まで塞いでいる");
}

#[test]
fn reshape_the_repaint_is_capped_by_the_distance_from_the_original_contour() {
    let (w, h) = (60u32, 40u32);
    let bg = [250u8, 250, 249];
    let mut img = RgbaImage::from_pixel(w, h, [bg[0], bg[1], bg[2], 255]);
    let mut shape = Mask::new(w, h, 0);
    for y in 0..h {
        for x in 0..w {
            if x < 30 {
                img.put_pixel(x, y, [40, 40, 45, 255]);
            }
            if x < 33 {
                shape.set(x, y, u8::MAX);
            }
        }
    }
    let band = draw_band(&img, &shape, bg, DEFAULT_MIN_RADIUS, DEFAULT_MAX_RADIUS);
    let bounds = band_bounds(&band, w, h).expect("帯がある");
    let leans = leans(&img, &shape, &band, bounds);
    let contour = contour_pixels(&shape, None);
    assert!(!contour.is_empty(), "前提: 元の輪郭がある");
    let out_of_reach = farther_than(w, h, &contour, 0);
    let mut capped = shape.clone();
    let moved =
        Repaint { original: &shape, band: &band, out_of_reach: &out_of_reach, leans: &leans, bounds }.reclassify_rim(&mut capped);
    assert!(
        moved <= contour.len(),
        "上限の外まで塗り直している: {moved} 画素（輪郭は {} 画素）",
        contour.len()
    );
    let mut free = shape.clone();
    let all = Repaint { original: &shape, band: &band, out_of_reach: &BitPlane::default(), leans: &leans, bounds }
        .reclassify_rim(&mut free);
    assert!(
        all > moved,
        "上限を外しても塗り直しが増えない＝対照になっていない: {all} vs {moved}"
    );
}

#[test]
fn refine_the_seal_survives_the_repaint() {
    let shut = |gap: u32| -> bool {
        let (w, h) = (60u32, 40u32);
        let mut original = Mask::new(w, h, 0);
        for y in 0..h {
            for x in 10..50 {
                original.set(x, y, u8::MAX);
            }
        }
        let mut shape = original.clone();
        for y in 0..25 {
            for x in 28..(28 + gap) {
                shape.set(x, y, 0);
            }
        }
        let band = vec![1u8; (w as usize) * (h as usize)];
        let mut sealed = BitPlane::new(band.len());
        close_new_gaps(&mut shape, &original, &band, &mut sealed, (0, 0, w - 1, h - 1), 1);
        shape.is_foreground(28, 20)
    };
    assert!(shut(1), "幅 1px の切れ込みが塞がっていない");
    assert!(!shut(5), "幅 5px の隙間まで塞いでいる");
}

#[test]
fn the_passes_stop_by_themselves_and_stay_in_reach() {
    let (w, h) = (60u32, 40u32);
    let bg = [250u8, 250, 249];
    let mut img = RgbaImage::from_pixel(w, h, [bg[0], bg[1], bg[2], 255]);
    let mut binary = Mask::new(w, h, 0);
    for y in 0..h {
        for x in 0..33 {
            if x < 30 {
                img.put_pixel(x, y, [40, 40, 45, 255]);
            }
            binary.set(x, y, u8::MAX);
        }
    }
    let band = draw_band(&img, &binary, bg, DEFAULT_MIN_RADIUS, DEFAULT_MAX_RADIUS);
    let mut state = Reshape::start(&binary, band, true, 2, 1, DEFAULT_MAX_RADIUS);
    let mut passes = 0;
    while let Some(bounds) = state.pending() {
        if !state.recolour(&img, &rim_table(), bounds) {
            break;
        }
        let band = draw_band(&img, state.shape(), bg, DEFAULT_MIN_RADIUS, DEFAULT_MAX_RADIUS);
        state.redraw(band);
        passes += 1;
    }
    assert!(passes >= 1 && passes <= RESHAPE_PASSES);
    let (shape, band, sealed) = state.finish();
    assert!(!shape.is_foreground(32, 20));
    assert!(shape.is_foreground(20, 20));
    assert_eq!(band.len(), (w * h) as usize);
    assert_eq!(sealed.len(), (w * h) as usize);
}

#[test]
fn nothing_is_repainted_when_nothing_is_asked_for() {
    let binary = Mask::new(8, 8, 255);
    let state = Reshape::start(&binary, vec![3u8; 64], false, 0, 1, 10);
    assert!(state.pending().is_none());
    let (shape, band, sealed) = state.finish();
    assert_eq!(shape, binary);
    assert_eq!(band, vec![3u8; 64]);
    assert!(sealed.is_empty());
}

fn overhanging(product: [u8; 3]) -> (RgbaImage, Mask) {
    let (w, h) = (60u32, 40u32);
    let mut img = RgbaImage::from_pixel(w, h, [250, 250, 249, 255]);
    let mut shape = Mask::new(w, h, 0);
    for y in 0..h {
        for x in 0..33 {
            if x < 30 {
                img.put_pixel(x, y, [product[0], product[1], product[2], 255]);
            }
            shape.set(x, y, u8::MAX);
        }
    }
    (img, shape)
}

fn one_pass(img: &RgbaImage, binary: &Mask, by_colour: bool, radius: u32, reach: u32) -> (bool, Mask, Vec<u8>) {
    let band = draw_band(img, binary, [250, 250, 249], DEFAULT_MIN_RADIUS, DEFAULT_MAX_RADIUS);
    let mut state = Reshape::start(binary, band.clone(), by_colour, radius, 1, reach);
    let bounds = state.pending().expect("there is a band");
    let again = state.recolour(img, &rim_table(), bounds);
    (again, state.shape().clone(), band)
}

fn changed(a: &Mask, b: &Mask) -> usize {
    a.as_slice().iter().zip(b.as_slice()).filter(|(p, q)| p != q).count()
}

#[test]
fn refine_a_background_coloured_pixel_in_the_band_is_repainted_as_background() {
    let (img, original) = overhanging([40, 40, 45]);
    let (again, shape, band) = one_pass(&img, &original, true, 0, DEFAULT_MAX_RADIUS);
    assert!(again);
    assert!(!shape.is_foreground(32, 20));
    assert!(shape.is_foreground(10, 20));
    for y in 0..40 {
        for x in 0..60 {
            if band[(y * 60 + x) as usize] == 0 {
                assert_eq!(shape.is_foreground(x, y), original.is_foreground(x, y), "{x},{y}");
            }
        }
    }
}

#[test]
fn refine_a_pale_product_is_left_alone_by_the_reclassification() {
    let (img, original) = overhanging([248, 248, 247]);
    let (again, shape, _) = one_pass(&img, &original, true, 0, DEFAULT_MAX_RADIUS);
    assert!(!again);
    assert_eq!(shape, original);
}

#[test]
fn refine_the_colour_gate_keeps_a_three_pixel_strap_through_the_median() {
    let mut img = RgbaImage::from_pixel(60, 40, [250, 250, 249, 255]);
    let mut original = Mask::new(60, 40, 0);
    for y in 0..40 {
        for x in 28..31 {
            img.put_pixel(x, y, [40, 40, 45, 255]);
            original.set(x, y, u8::MAX);
        }
    }
    let (_, shape, _) = one_pass(&img, &original, false, 2, DEFAULT_MAX_RADIUS);
    assert!(shape.is_foreground(29, 20));
}

#[test]
fn refine_the_repaint_is_capped_by_the_distance_from_the_original_contour() {
    let (img, original) = overhanging([40, 40, 45]);
    let contour = contour_pixels(&original, None);
    assert!(!contour.is_empty());
    let (_, capped, _) = one_pass(&img, &original, true, 0, 0);
    let moved = changed(&capped, &original);
    assert!(moved <= contour.len(), "{moved} > {}", contour.len());
    let (_, free, _) = one_pass(&img, &original, true, 0, DEFAULT_MAX_RADIUS);
    assert!(changed(&free, &original) > moved);
}
