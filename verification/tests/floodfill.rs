use kiri::cutout::constraints::{Constraint, Constraints};
use kiri::cutout::edges::{edge_ridges, EDGE_UNIT};
use kiri::cutout::floodfill::{foreground_mask, protected_pixels, FloodOptions, FG_SEED_RADIUS};
use kiri::cutout::mask::Mask;
use kiri::raster::RgbaImage;

fn to_linear(v: u8) -> f64 {
    let c = f64::from(v) / 255.0;
    if c <= 0.040_45 {
        c / 12.92
    } else {
        ((c + 0.055) / 1.055).powf(2.4)
    }
}

fn to_lab(rgb: [u8; 3]) -> [f64; 3] {
    let [r, g, b] = rgb.map(to_linear);
    let x = (0.412_456_4 * r + 0.357_576_1 * g + 0.180_437_5 * b) / 0.950_47;
    let y = 0.212_672_9 * r + 0.715_152_2 * g + 0.072_175 * b;
    let z = (0.019_333_9 * r + 0.119_192 * g + 0.950_304_1 * b) / 1.088_83;
    let f = |t: f64| {
        if t > 216.0 / 24389.0 {
            t.cbrt()
        } else {
            (24389.0 / 27.0 * t + 16.0) / 116.0
        }
    };
    [116.0 * f(y) - 16.0, 500.0 * (f(x) - f(y)), 200.0 * (f(y) - f(z))]
}

fn delta_e(a: [u8; 3], b: [u8; 3]) -> f64 {
    let (p, q) = (to_lab(a), to_lab(b));
    ((p[0] - q[0]).powi(2) + (p[1] - q[1]).powi(2) + (p[2] - q[2]).powi(2)).sqrt()
}

fn deltas(image: &RgbaImage, bg: [u8; 3]) -> Vec<u64> {
    image.pixels().iter().map(|p| delta_e([p[0], p[1], p[2]], bg).to_bits()).collect()
}

const BG: [u8; 3] = [250, 250, 250];

fn ascii(rows: &[&str]) -> RgbaImage {
    let h = rows.len() as u32;
    let w = rows[0].len() as u32;
    let mut img = RgbaImage::from_pixel(w, h, [0, 0, 0, 0]);
    for (y, row) in rows.iter().enumerate() {
        assert_eq!(row.len() as u32, w, "行の長さが揃っていない");
        for (x, ch) in row.chars().enumerate() {
            let px = match ch {
                '.' => [250, 250, 250, 255],
                'o' => [250, 250, 250, 255],
                '#' => [40, 40, 40, 255],
                '-' => [215, 215, 215, 255],
                ' ' => [0, 0, 0, 0],
                other => panic!("未知の文字 '{other}'"),
            };
            img.put_pixel(x as u32, y as u32, px);
        }
    }
    img
}

fn fill(img: &RgbaImage, bg: [u8; 3], opts: &FloodOptions) -> Mask {
    foreground_mask(img, &deltas(img, bg), &[], opts)
}

fn opts(tolerance: f64) -> FloodOptions<'static> {
    FloodOptions {
        tolerance: tolerance.to_bits(),
        bbox: None,
        fg_seeds: Vec::new(),
        edge_threshold: 0,
        constraints: None,
        seal: 0,
    }
}

fn render(mask: &Mask) -> String {
    (0..mask.height())
        .map(|y| {
            (0..mask.width())
                .map(|x| if mask.is_foreground(x, y) { '#' } else { '.' })
                .collect::<String>()
        })
        .collect::<Vec<_>>()
        .join("\n")
}

#[test]
fn a_dark_product_on_white_is_isolated() {
    let img = ascii(&[
        "........", "........", "..####..", "..####..", "........", "........",
    ]);
    let mask = fill(&img, BG, &opts(5.0));
    assert!(
        mask.is_foreground(3, 2),
        "商品が背景にされている\n{}",
        render(&mask)
    );
    assert!(
        !mask.is_foreground(0, 0),
        "背景が残っている\n{}",
        render(&mask)
    );
    assert_eq!(mask.stats().bbox, Some((2, 2, 5, 3)));
}

#[test]
fn an_enclosed_background_colored_region_survives() {
    let img = ascii(&[
        "........", "..####..", "..#oo#..", "..#oo#..", "..####..", "........",
    ]);
    let mask = fill(&img, BG, &opts(5.0));

    assert!(
        mask.is_foreground(3, 2) && mask.is_foreground(4, 3),
        "商品内部の白に穴が空いている\n{}",
        render(&mask)
    );
    assert!(
        !mask.is_foreground(0, 0),
        "外側の白が残っている\n{}",
        render(&mask)
    );
}

#[test]
fn a_background_colored_region_connected_to_the_border_is_removed() {
    let img = ascii(&[
        "........", "..####..", "..#oo#..", "..#oo#..", "..#..#..", "........",
    ]);
    let mask = fill(&img, BG, &opts(5.0));
    assert!(
        !mask.is_foreground(3, 2),
        "外周につながった白が残っている\n{}",
        render(&mask)
    );
}

#[test]
fn a_white_product_on_a_white_background_keeps_its_interior() {
    let img = ascii(&[
        "..........",
        "..------..",
        "..-oooo-..",
        "..-oooo-..",
        "..------..",
        "..........",
    ]);
    let mask = fill(&img, BG, &opts(5.0));

    for (x, y) in [(3u32, 2u32), (4, 2), (5, 3), (6, 3)] {
        assert!(
            mask.is_foreground(x, y),
            "白い商品の内部({x},{y})に穴が空いている\n{}",
            render(&mask)
        );
    }
    assert!(!mask.is_foreground(0, 0));
    assert_eq!(mask.stats().bbox, Some((2, 1, 7, 4)));
}

#[test]
fn a_product_touching_the_border_is_kept_and_flagged() {
    let img = ascii(&["..####..", "..####..", "..####.."]);
    let mask = fill(&img, BG, &opts(5.0));
    let stats = mask.stats();
    assert!(mask.is_foreground(3, 0));
    assert!(stats.touches_edge, "見切れが検出されていない");
}

#[test]
fn tolerance_controls_how_much_is_removed() {
    let img = ascii(&["........", "..----..", "..-##-..", "..----..", "........"]);
    let tight = fill(&img, BG, &opts(5.0));
    assert!(
        tight.is_foreground(2, 1),
        "tolerance 5 で輪郭まで消えている"
    );

    let loose = fill(&img, BG, &opts(20.0));
    assert!(
        !loose.is_foreground(2, 1),
        "tolerance 20 でも輪郭が残っている"
    );
    assert!(loose.is_foreground(3, 2), "濃い商品まで消えている");
}

#[test]
fn already_transparent_pixels_count_as_background() {
    let img = ascii(&["        ", "  ####  ", "  ####  ", "        "]);
    let mask = fill(&img, BG, &opts(5.0));
    assert!(mask.is_foreground(3, 1));
    assert!(!mask.is_foreground(0, 0));
}

#[test]
fn bbox_forces_everything_outside_to_background() {
    let img = ascii(&["........", "..####..", "..####..", "..####..", "........"]);
    let mut o = opts(5.0);
    o.bbox = Some((2, 1, 3, 3));
    let mask = fill(&img, BG, &o);

    assert!(
        mask.is_foreground(2, 1),
        "bbox 内が消えている\n{}",
        render(&mask)
    );
    assert!(
        !mask.is_foreground(5, 2),
        "bbox 外が残っている\n{}",
        render(&mask)
    );
    assert_eq!(mask.stats().bbox, Some((2, 1, 3, 3)));
}

#[test]
fn the_bbox_edge_seeds_the_fill_when_the_image_border_is_blocked() {
    let bg = [250, 250, 250];
    let mut img = RgbaImage::from_pixel(40, 40, [bg[0], bg[1], bg[2], 255]);

    for i in 8..32 {
        for (x, y) in [(i, 8), (i, 31), (8, i), (31, i)] {
            img.put_pixel(x, y, [20, 90, 160, 255]);
        }
    }
    for y in 16..24 {
        for x in 16..24 {
            img.put_pixel(x, y, [200, 40, 30, 255]);
        }
    }

    let opts = FloodOptions { bbox: Some((9, 9, 30, 30)), ..opts(12.0) };
    let mask = fill(&img, bg, &opts);

    assert!(mask.is_foreground(20, 20), "商品は残る");
    assert!(
        !mask.is_foreground(12, 12),
        "bbox の内側の背景色は消える（外周からは到達できない位置）"
    );
    assert!(!mask.is_foreground(2, 2), "bbox の外は背景");
}

#[test]
fn fg_seed_protects_its_neighbourhood() {
    let img = ascii(&[
        "..............................",
        "..............................",
        "..............................",
        "..............................",
        "..............................",
        "..............................",
        "..............................",
        "..............................",
        "..............................",
        "..............................",
        "..............................",
        "..............................",
    ]);
    let bare = fill(&img, BG, &opts(5.0));
    assert_eq!(bare.stats().foreground, 0);

    let mut o = opts(5.0);
    o.fg_seeds = vec![(15, 6)];
    let seeded = fill(&img, BG, &o);

    assert!(seeded.is_foreground(15, 6), "種そのものが保護されていない");
    assert!(
        seeded.is_foreground(15 + FG_SEED_RADIUS, 6),
        "保護円の縁が守られていない"
    );
    assert!(
        !seeded.is_foreground(15 + FG_SEED_RADIUS + 2, 6),
        "保護円が広すぎる"
    );
}

#[test]
fn fg_seed_wins_over_bbox() {
    let img = ascii(&[
        "..............................",
        "..............................",
        "..............................",
        "..............................",
        "..............................",
        "..............................",
        "..............................",
        "..............................",
        "..............................",
        "..............................",
        "..............................",
        "..............................",
    ]);
    let mut o = opts(5.0);
    o.bbox = Some((0, 0, 2, 2));
    o.fg_seeds = vec![(20, 6)];
    let mask = fill(&img, BG, &o);
    assert!(mask.is_foreground(20, 6), "bbox 外でも種は前景であるべき");
}

#[test]
fn out_of_range_seeds_are_ignored() {
    let img = ascii(&["....", "....", "...."]);
    let mut o = opts(5.0);
    o.fg_seeds = vec![(100, 100)];
    let mask = fill(&img, BG, &o);
    assert_eq!(mask.stats().foreground, 0);
}

#[test]
fn a_strong_edge_stops_the_fill() {
    let mut img = RgbaImage::from_pixel(20, 12, [250, 250, 250, 255]);
    for y in 0..12 {
        for x in 8..20 {
            img.put_pixel(x, y, [240, 240, 240, 255]);
        }
    }
    let banks = edge_ridges(&img);
    let mut o = opts(60.0);
    o.bbox = Some((0, 0, 19, 11));
    let open = foreground_mask(&img, &deltas(&img, BG), &banks, &o);
    assert_eq!(open.stats().foreground, 0);
    o.edge_threshold = 8 * 8 * EDGE_UNIT;
    let held = foreground_mask(&img, &deltas(&img, BG), &banks, &o);
    assert!(held.is_foreground(7, 6) || held.is_foreground(8, 6));
}

#[test]
fn marks_go_before_colour() {
    let mut img = RgbaImage::from_pixel(20, 20, [250, 250, 250, 255]);
    for y in 5..15 {
        for x in 5..15 {
            img.put_pixel(x, y, [40, 40, 40, 255]);
        }
    }
    for y in 8..12 {
        for x in 8..12 {
            img.put_pixel(x, y, [250, 250, 250, 255]);
        }
    }
    let mut marks = Constraints::new(20, 20);
    marks.mark(9, 9, Constraint::ForcedBg);
    marks.mark(6, 6, Constraint::ForcedBg);
    marks.mark(1, 1, Constraint::ForcedFg);
    marks.mark(2, 1, Constraint::ForcedFg);
    marks.mark(2, 1, Constraint::ForcedBg);
    let mask = fill(&img, [250, 250, 250], &FloodOptions { constraints: Some(&marks), ..opts(12.0) });
    assert!(!mask.is_foreground(6, 6), "a mark goes before colour");
    assert!(!mask.is_foreground(11, 11), "the fill starts from a mark");
    assert!(mask.is_foreground(5, 5) && mask.is_foreground(12, 12));
    assert!(mask.is_foreground(1, 1) && mask.is_foreground(2, 1));
    assert!(!mask.is_foreground(3, 1));
    let other = Constraints::new(19, 20);
    let same = fill(&img, [250, 250, 250], &FloodOptions { constraints: Some(&other), ..opts(12.0) });
    assert!(same.is_foreground(9, 9) && !same.is_foreground(1, 1));
}

#[test]
fn seeds_protect_what_their_discs_mark() {
    let seeds = [(3, 3), (19, 0), (40, 2), (10, 9)];
    let mut marks = Constraints::new(20, 12);
    for (x, y) in seeds {
        marks.mark_disc(x, y, FG_SEED_RADIUS, Constraint::ForcedFg);
    }
    let kept = protected_pixels(20, 12, &seeds);
    assert_eq!(kept.len(), 240);
    for (i, &k) in kept.iter().enumerate() {
        assert_eq!(k, marks.has_fg(i), "{i}");
    }
    assert!(!protected_pixels(20, 12, &[(20, 0)]).contains(&true));
}

fn pierced(slit: u32) -> RgbaImage {
    let mut img = RgbaImage::from_pixel(40, 40, [250, 250, 250, 255]);
    for y in 8..32 {
        for x in 8..32 {
            let pocket = (14..26).contains(&x) && (14..26).contains(&y);
            let way = (18..18 + slit).contains(&x) && y < 20;
            if !pocket && !way {
                img.put_pixel(x, y, [40, 40, 40, 255]);
            }
        }
    }
    img
}

#[test]
fn a_seal_closes_gaps_of_twice_its_width() {
    for (slit, seal, open) in [(1, 0, true), (1, 1, false), (2, 1, false), (3, 1, true), (4, 2, false), (5, 2, true)] {
        let mask = fill(&pierced(slit), BG, &FloodOptions { seal, ..opts(12.0) });
        assert_eq!(!mask.is_foreground(18, 11), open, "the slit {slit} under the seal {seal}");
        assert_eq!(!mask.is_foreground(20, 20), open, "what lies behind the slit {slit} under the seal {seal}");
        assert!(!mask.is_foreground(2, 2) && !mask.is_foreground(0, 39) && mask.is_foreground(10, 25));
    }
}

#[test]
fn a_mark_of_background_stays_open_under_a_seal() {
    let img = pierced(1);
    let mut marks = Constraints::new(40, 40);
    marks.mark(18, 11, Constraint::ForcedBg);
    let mask = fill(&img, BG, &FloodOptions { seal: 1, constraints: Some(&marks), ..opts(12.0) });
    assert!(!mask.is_foreground(18, 11));
    assert!(mask.is_foreground(18, 10) && mask.is_foreground(20, 20));
    marks.mark(20, 20, Constraint::ForcedBg);
    let mask = fill(&img, BG, &FloodOptions { seal: 1, constraints: Some(&marks), ..opts(12.0) });
    assert!(!mask.is_foreground(20, 20) && !mask.is_foreground(15, 15), "a mark opens the pocket it lies in");
    assert!(mask.is_foreground(18, 10));
}
