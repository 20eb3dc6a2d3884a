use kiri::cutout::edges::{edge_ridges, gradient_magnitude, octant, Direction, EDGE_UNIT};
use kiri::raster::RgbaImage;

fn size(strength: u64) -> f64 {
    (strength as f64 / EDGE_UNIT as f64).sqrt()
}

fn peak_of(g: &[u64]) -> f64 {
    g.iter().map(|&v| size(v)).fold(0.0, f64::max)
}

fn gray_step(width: u32, left: u8, right: u8) -> RgbaImage {
    let mut img = RgbaImage::from_pixel(width, 9, [0, 0, 0, 0]);
    for y in 0..9 {
        for x in 0..width {
            let v = if x < width / 2 { left } else { right };
            img.put_pixel(x, y, [v, v, v, 255]);
        }
    }
    img
}

#[test]
fn a_flat_image_has_no_gradient() {
    let img = RgbaImage::from_pixel(9, 9, [200, 200, 200, 255]);
    let g = gradient_magnitude(&img);
    assert!(g.iter().all(|&v| size(v) < 0.001), "平坦なのに勾配が出ている");
}

#[test]
fn a_sharp_step_reports_the_step_size() {
    let img = gray_step(9, 250, 216);
    let g = gradient_magnitude(&img);
    let peak = peak_of(&g);
    assert!(
        (peak - 34.0).abs() < 2.0,
        "段差 34 に対して {peak} が返った"
    );
}

#[test]
fn a_gentle_ramp_reports_a_small_gradient() {
    let mut img = RgbaImage::from_pixel(40, 9, [0, 0, 0, 0]);
    for y in 0..9 {
        for x in 0..40 {
            let v = (250 - x.min(34)) as u8;
            img.put_pixel(x, y, [v, v, v, 255]);
        }
    }
    let g = gradient_magnitude(&img);
    let peak = peak_of(&g);
    assert!(peak < 3.0, "なだらかな傾斜で {peak} と大きく出ている");
}

#[test]
fn a_sharp_edge_and_a_soft_shadow_are_separable() {
    let sharp = gradient_magnitude(&gray_step(9, 250, 216));
    let mut ramp = RgbaImage::from_pixel(40, 9, [0, 0, 0, 0]);
    for y in 0..9 {
        for x in 0..40 {
            let v = (250 - x.min(34)) as u8;
            ramp.put_pixel(x, y, [v, v, v, 255]);
        }
    }
    let soft = gradient_magnitude(&ramp);
    let threshold = 8.0;
    assert!(peak_of(&sharp) > threshold);
    assert!(peak_of(&soft) < threshold);
}

#[test]
fn tiny_images_do_not_panic() {
    for (w, h) in [(1u32, 1u32), (2, 2), (1, 9), (9, 1)] {
        let img = RgbaImage::from_pixel(w, h, [10, 10, 10, 255]);
        assert_eq!(gradient_magnitude(&img).len(), (w * h) as usize);
        assert_eq!(edge_ridges(&img).len(), (w * h) as usize);
    }
}

#[test]
fn suppression_thins_the_response_to_a_single_column() {
    let img = gray_step(9, 250, 216);
    let raw = gradient_magnitude(&img);
    let thin = edge_ridges(&img);
    let count = |g: &[u64]| (0..9).filter(|&x| size(g[4 * 9 + x]) > 8.0).count();
    assert_eq!(count(&raw), 2, "前提が崩れている: 素の Sobel は 2px に立つ");
    assert_eq!(count(&thin), 1, "細線化できていない");
}

#[test]
fn suppression_keeps_the_peak_value() {
    let thin = edge_ridges(&gray_step(9, 250, 216));
    let peak = peak_of(&thin);
    assert!(
        (peak - 34.0).abs() < 2.0,
        "段差 34 に対して {peak} が返った"
    );
}

#[test]
fn a_constant_ramp_is_mostly_suppressed() {
    let mut img = RgbaImage::from_pixel(40, 9, [0, 0, 0, 0]);
    for y in 0..9 {
        for x in 0..40 {
            let v = (250 - x.min(34)) as u8;
            img.put_pixel(x, y, [v, v, v, 255]);
        }
    }
    let raw = gradient_magnitude(&img);
    let thin = edge_ridges(&img);
    let count = |g: &[u64]| {
        (1..8u32)
            .flat_map(|y| (5..30u32).map(move |x| (y * 40 + x) as usize))
            .filter(|&i| size(g[i]) > 0.5)
            .count()
    };
    let (before, after) = (count(&raw), count(&thin));
    assert!(before > 100, "前提が崩れている: 傾斜全体に勾配が出るはず");
    assert!(
        after * 3 < before,
        "傾斜の勾配がほとんど落ちていない: {before} -> {after}"
    );
}

#[test]
fn the_ridge_of_a_diagonal_edge_stays_connected() {
    let mut img = RgbaImage::from_pixel(20, 20, [0, 0, 0, 0]);
    for y in 0..20 {
        for x in 0..20 {
            let v = if x + y < 20 { 250 } else { 216 };
            img.put_pixel(x, y, [v, v, v, 255]);
        }
    }
    let thin = edge_ridges(&img);
    for y in 2..18u32 {
        let on_row = (1..19u32).any(|x| size(thin[(y * 20 + x) as usize]) > 8.0);
        assert!(on_row, "y={y} の行に稜線が無い");
    }
}

#[test]
fn the_four_directions_part_at_their_angles() {
    assert_eq!(octant(1000, 0), Direction::Across);
    assert_eq!(octant(0, -1000), Direction::Down);
    assert_eq!(octant(1000, 1000), Direction::Falling);
    assert_eq!(octant(-1000, 1000), Direction::Rising);
    assert_eq!(octant(1000, 414), Direction::Across);
    assert_eq!(octant(1000, 415), Direction::Falling);
    assert_eq!(octant(1000, 2415), Direction::Down);
}

#[test]
fn a_step_has_its_exact_strength() {
    let g = gradient_magnitude(&gray_step(9, 250, 216));
    assert_eq!(g.iter().copied().max(), Some(34 * 34 * EDGE_UNIT));
}
