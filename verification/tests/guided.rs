use kiri::cutout::cells::RIM_LINEAR_ONE;
use kiri::cutout::evening::{feather, Guide};
use kiri::cutout::guided::Solved;
use kiri::cutout::mask::Mask;
use kiri::cutout::slopes::{line_of, SLOPE_UNIT};
use kiri::raster::RgbaImage;

fn rim_table() -> Vec<u32> {
    (0..=255u8)
        .map(|v| {
            let c = f64::from(v) / 255.0;
            let l = if c <= 0.040_45 { c / 12.92 } else { ((c + 0.055) / 1.055).powf(2.4) };
            (l * f64::from(RIM_LINEAR_ONE)).round() as u32
        })
        .collect()
}

fn all_solved(band: &[u8]) -> Solved {
    let mut solved = Solved::new(band.len());
    for (i, &r) in band.iter().enumerate() {
        if r != 0 {
            solved.set(i);
        }
    }
    solved
}

fn even_out(image: &RgbaImage, binary: &Mask, band: &[u8], alpha: &Mask, radius: u32) -> Mask {
    let linear = rim_table();
    feather(&Guide { image, linear: &linear, binary, band, alpha, radius }, &all_solved(band))
}

fn scene(noise: i32) -> (RgbaImage, Mask, Vec<u8>, Mask) {
    let (w, h) = (60u32, 40u32);
    let bg = [250u8, 250, 249];
    let product = [40u8, 40, 45];
    let mut image = RgbaImage::from_pixel(w, h, [bg[0], bg[1], bg[2], 255]);
    let mut binary = Mask::new(w, h, 0);
    let mut alpha = Mask::new(w, h, 0);
    let mut band = vec![0u8; (w as usize) * (h as usize)];
    for y in 0..h {
        for x in 0..w {
            let n = if x > 30 && (x + y) % 2 == 0 { noise } else { 0 };
            if x < 30 {
                image.put_pixel(x, y, [product[0], product[1], product[2], 255]);
                binary.set(x, y, 255);
                alpha.set(x, y, 255);
            } else {
                let v = |c: u8| (i32::from(c) - n).clamp(0, 255) as u8;
                image.put_pixel(x, y, [v(bg[0]), v(bg[1]), v(bg[2]), 255]);
            }
            if (28..=32).contains(&x) {
                band[(y as usize) * (w as usize) + (x as usize)] = 2;
                alpha.set(x, y, if (x + y) % 2 == 0 { 200 } else { 40 });
            }
        }
    }
    (image, binary, band, alpha)
}

#[test]
fn the_outside_of_the_band_is_untouched() {
    let (image, binary, band, alpha) = scene(0);
    let out = even_out(&image, &binary, &band, &alpha, 3);
    for y in 0..image.height() {
        for x in 0..image.width() {
            if (28..=32).contains(&x) {
                continue;
            }
            assert_eq!(out.get(x, y), alpha.get(x, y), "帯の外が動いた: {x},{y}");
        }
    }
}

#[test]
fn a_jittering_alpha_is_smoothed() {
    let (image, binary, band, alpha) = scene(0);
    let out = even_out(&image, &binary, &band, &alpha, 3);
    let swing = |m: &Mask| -> i32 {
        let mut worst = 0;
        for y in 5..35 {
            for x in 28..=32 {
                let d = i32::from(m.get(x, y)) - i32::from(m.get(x, y + 1));
                worst = worst.max(d.abs());
            }
        }
        worst
    };
    assert!(
        swing(&out) * 2 < swing(&alpha),
        "アルファの上下が半分にもなっていない: {} → {}",
        swing(&alpha),
        swing(&out)
    );
}

#[test]
fn guided_the_result_does_not_depend_on_where_the_tiles_fall() {
    let (w, h) = (400u32, 40u32);
    let bg = [250u8, 250, 249];
    let mut image = RgbaImage::from_pixel(w, h, [bg[0], bg[1], bg[2], 255]);
    let mut binary = Mask::new(w, h, 0);
    let mut alpha = Mask::new(w, h, 0);
    let mut band = vec![0u8; (w as usize) * (h as usize)];
    for y in 0..h {
        for x in 0..w {
            if y < 20 {
                image.put_pixel(x, y, [40, 40, 45, 255]);
                binary.set(x, y, 255);
                alpha.set(x, y, 255);
            }
            if (18..=22).contains(&y) {
                band[(y as usize) * (w as usize) + (x as usize)] = 2;
                alpha.set(x, y, if x % 3 == 0 { 210 } else { 60 });
            }
        }
    }
    let out = even_out(&image, &binary, &band, &alpha, 3);
    for y in 18..=22 {
        for x in 150..250 {
            assert_eq!(
                out.get(x, y),
                out.get(x + 3, y),
                "x={x},y={y} でタイルの継ぎ目が出ている"
            );
        }
    }
}

#[test]
fn a_zero_radius_is_the_identity() {
    let (image, binary, band, alpha) = scene(0);
    let out = even_out(&image, &binary, &band, &alpha, 0);
    assert_eq!(out, alpha);
}

/// The filter in floating point, window by window.
fn reference(image: &RgbaImage, binary: &Mask, band: &[u8], alpha: &Mask, radius: u32) -> Vec<f64> {
    let (w, h) = (image.width(), image.height());
    let table = rim_table();
    let light = |x: u32, y: u32| {
        let p = image.get_pixel(x, y);
        [0, 1, 2].map(|k| f64::from(table[p[k] as usize]) / f64::from(RIM_LINEAR_ONE))
    };
    let window = |x: u32, y: u32| {
        let mut places = Vec::new();
        for v in y.saturating_sub(radius)..=(y + radius).min(h - 1) {
            for u in x.saturating_sub(radius)..=(x + radius).min(w - 1) {
                places.push((u, v));
            }
        }
        places
    };
    let mut lines = vec![[0.0f64; 4]; (w * h) as usize];
    for y in 0..h {
        for x in 0..w {
            let places = window(x, y);
            let n = places.len() as f64;
            let (mut mu, mut p, mut m, mut c) = ([0.0; 3], 0.0, [[0.0; 3]; 3], [0.0; 3]);
            let (mut shade, mut square, mut count) = ([0.0; 3], 0.0, 0.0);
            for &(u, v) in &places {
                let l = light(u, v);
                let a = f64::from(alpha.get(u, v)) / 255.0;
                p += a;
                for i in 0..3 {
                    mu[i] += l[i];
                    c[i] += l[i] * a;
                    for j in 0..3 {
                        m[i][j] += l[i] * l[j];
                    }
                }
                if band[(v * w + u) as usize] == 0 && !binary.is_foreground(u, v) {
                    count += 1.0;
                    for i in 0..3 {
                        shade[i] += l[i];
                        square += l[i] * l[i];
                    }
                }
            }
            let mut eps = 0.015 * 0.015;
            if count > 0.0 {
                let mean: f64 = shade.iter().map(|s| (s / count) * (s / count)).sum();
                eps = f64::max(eps, 2.0 * (square / count - mean).max(0.0) / 3.0);
            }
            for i in 0..3 {
                c[i] = c[i] / n - mu[i] / n * p / n;
            }
            for i in 0..3 {
                for j in 0..3 {
                    m[i][j] = m[i][j] / n - mu[i] / n * mu[j] / n + if i == j { eps } else { 0.0 };
                }
            }
            let minor = |i: usize, j: usize| {
                let (a, b) = ((i + 1) % 3, (i + 2) % 3);
                let (e, f) = ((j + 1) % 3, (j + 2) % 3);
                m[a][e] * m[b][f] - m[a][f] * m[b][e]
            };
            let det = m[0][0] * minor(0, 0) + m[0][1] * minor(0, 1) + m[0][2] * minor(0, 2);
            let mut line = [0.0; 4];
            line[3] = p / n;
            for i in 0..3 {
                line[i] = (minor(i, 0) * c[0] + minor(i, 1) * c[1] + minor(i, 2) * c[2]) / det;
                line[3] -= line[i] * mu[i] / n;
            }
            lines[(y * w + x) as usize] = line;
        }
    }
    let mut out = Vec::new();
    for y in 0..h {
        for x in 0..w {
            let places = window(x, y);
            let l = light(x, y);
            let mut q = 0.0;
            for &(u, v) in &places {
                let line = lines[(v * w + u) as usize];
                q += line[0] * l[0] + line[1] * l[1] + line[2] * l[2] + line[3];
            }
            out.push((q / places.len() as f64).clamp(0.0, 1.0) * 255.0);
        }
    }
    out
}

#[test]
fn whole_numbers_follow_the_filter() {
    for noise in [0, 9, 40] {
        let (image, binary, band, alpha) = scene(noise);
        let out = even_out(&image, &binary, &band, &alpha, 3);
        let want = reference(&image, &binary, &band, &alpha, 3);
        for y in 0..image.height() {
            for x in 28..=32 {
                let v = want[(y * image.width() + x) as usize];
                assert!((f64::from(out.get(x, y)) - v).abs() < 0.51, "{noise} {x},{y}: {} {v}", out.get(x, y));
            }
        }
    }
}

#[test]
fn undecided_pixels_are_not_evened_out() {
    let (image, binary, band, alpha) = scene(0);
    let linear = rim_table();
    let guide = Guide { image: &image, linear: &linear, binary: &binary, band: &band, alpha: &alpha, radius: 3 };
    let mut solved = Solved::new(band.len());
    solved.set(10 * 60 + 30);
    let out = feather(&guide, &solved);
    assert_ne!(out.get(30, 10), alpha.get(30, 10));
    assert_eq!(out.get(31, 10), alpha.get(31, 10));
    assert_eq!(feather(&guide, &Solved::default()), alpha);
}

#[test]
fn a_flat_window_has_no_slope() {
    let v = 4 * 100;
    let s = [v, v, v, 360, 40_000, 40_000, 40_000, 40_000, 40_000, 40_000, 36_000, 36_000, 36_000];
    assert_eq!(line_of(&s, &[0; 5], 4), [0, 0, 0, 90 * SLOPE_UNIT as i64]);
}

#[test]
fn one_channel_tells_alpha_apart() {
    // Two pixels: dark and opaque, and light and transparent, in red alone.
    let s = [16_000, 0, 0, 255, 256_000_000, 0, 0, 0, 0, 0, 0, 0, 0];
    let line = line_of(&s, &[0; 5], 2);
    assert_eq!((line[1], line[2]), (0, 0));
    let scatter = 64_000_000i128 * 1024;
    let want = -(8_000 * 255 / 2) as i128 * 1024 * SLOPE_UNIT / (scatter + 61_839_980);
    assert!((i128::from(line[0]) - want).abs() <= 1, "{} {want}", line[0]);
    assert_eq!(line[3], ((255 * SLOPE_UNIT - i128::from(line[0]) * 16_000) / 2) as i64);
}
