use kiri::cutout::mask::Mask;
use kiri::cutout::morphology::{
    close, dilate, erode, open, remove_specks, speck_min_area, speck_radius,
};

fn from_ascii(rows: &[&str]) -> Mask {
    let h = rows.len() as u32;
    let w = rows[0].len() as u32;
    let mut mask = Mask::new(w, h, 0);
    for (y, row) in rows.iter().enumerate() {
        for (x, ch) in row.chars().enumerate() {
            mask.set(x as u32, y as u32, if ch == '#' { 255 } else { 0 });
        }
    }
    mask
}

fn render(mask: &Mask) -> String {
    (0..mask.height())
        .map(|y| {
            (0..mask.width())
                .map(|x| if mask.is_foreground(x, y) { '#' } else { '.' })
                .collect::<String>()
        })
        .collect::<Vec<_>>()
        .join("\n")
}

#[test]
fn opening_removes_an_isolated_speck() {
    let mask = from_ascii(&[
        ".........",
        "..#####..",
        "..#####..",
        "..#####..",
        ".........",
        ".......#.",
    ]);
    let out = open(&mask, 1);
    assert!(
        !out.is_foreground(7, 5),
        "孤立点が残っている\n{}",
        render(&out)
    );
    assert!(
        out.is_foreground(4, 2),
        "本体まで消えている\n{}",
        render(&out)
    );
}

#[test]
fn closing_fills_a_pinhole() {
    let mask = from_ascii(&[
        ".........",
        "..#####..",
        "..##.##..",
        "..#####..",
        ".........",
    ]);
    let out = close(&mask, 1);
    assert!(
        out.is_foreground(4, 2),
        "穴が埋まっていない\n{}",
        render(&out)
    );
}

#[test]
fn closing_keeps_a_large_hole() {
    let mask = from_ascii(&[
        "...........",
        "..#######..",
        "..#.....#..",
        "..#.....#..",
        "..#.....#..",
        "..#######..",
        "...........",
    ]);
    let out = close(&mask, 1);
    assert!(
        !out.is_foreground(5, 3),
        "大きな穴まで埋めている\n{}",
        render(&out)
    );
}

#[test]
fn opening_keeps_a_large_blob() {
    let mask = from_ascii(&[
        "........", "..####..", "..####..", "..####..", "..####..", "........",
    ]);
    let out = open(&mask, 1);
    assert_eq!(out.stats().bbox, Some((2, 1, 5, 4)));
}

#[test]
fn morphology_radius_zero_is_the_identity() {
    let mask = from_ascii(&["..#..", ".###.", "..#.."]);
    assert_eq!(open(&mask, 0), mask);
    assert_eq!(close(&mask, 0), mask);
    assert_eq!(erode(&mask, 0), mask);
    assert_eq!(dilate(&mask, 0), mask);
}

#[test]
fn erosion_shrinks_and_dilation_grows() {
    let mask = from_ascii(&[".......", "..###..", "..###..", "..###..", "......."]);
    assert_eq!(erode(&mask, 1).stats().bbox, Some((3, 2, 3, 2)));
    assert_eq!(dilate(&mask, 1).stats().bbox, Some((1, 0, 5, 4)));
}

#[test]
fn an_area_filter_removes_a_speck() {
    let mask = from_ascii(&[
        ".........",
        "..#####..",
        "..#####..",
        "..#####..",
        ".........",
        ".......#.",
    ]);
    let out = remove_specks(&mask, 1);
    assert!(
        !out.is_foreground(7, 5),
        "孤立点が残っている\n{}",
        render(&out)
    );
    assert!(
        out.is_foreground(4, 2),
        "本体まで消えている\n{}",
        render(&out)
    );
}

#[test]
fn an_area_filter_keeps_a_thin_limb_that_opening_would_erase() {
    let mask = from_ascii(&[
        "...#......",
        "...#......",
        "...#......",
        ".######...",
        ".######...",
        ".######...",
        ".######...",
        "..........",
    ]);
    let opened = open(&mask, 1);
    assert!(
        !opened.is_foreground(3, 0),
        "前提が崩れている: オープニングは幅 1px の腕を消すはず\n{}",
        render(&opened)
    );
    let filtered = remove_specks(&mask, 1);
    assert!(
        filtered.is_foreground(3, 0),
        "面積フィルタが細い腕を消している\n{}",
        render(&filtered)
    );
}

#[test]
fn an_area_filter_measures_area_not_thickness() {
    let mask = from_ascii(&[
        "..........",
        ".#########",
        "..........",
        "..#.......",
        "..........",
    ]);
    let out = remove_specks(&mask, 1);
    assert!(out.is_foreground(5, 1), "面積 9 の線が消えている");
    assert!(!out.is_foreground(2, 3), "面積 1 の点が残っている");
}

#[test]
fn an_area_filter_follows_diagonal_connections() {
    let mask = from_ascii(&[
        "#.........",
        ".#........",
        "..#.......",
        "...#......",
        "....#.....",
        ".....#....",
        "......#...",
        ".......#..",
        "........#.",
    ]);
    let out = remove_specks(&mask, 1);
    assert!(
        out.is_foreground(4, 4),
        "斜めの線が消えている\n{}",
        render(&out)
    );
}

#[test]
fn the_area_threshold_is_unchanged_for_small_images() {
    assert_eq!(speck_min_area(2, 120, 120), 25, "面積 (2*2+1)^2");
    assert_eq!(speck_min_area(2, 1000, 800), 25, "長辺ちょうど 1000px");
    assert_eq!(speck_min_area(1, 400, 400), 9);
    assert_eq!(speck_min_area(0, 4000, 4000), 0, "半径 0 は無効");
}

#[test]
fn the_area_threshold_follows_the_resolution() {
    assert_eq!(speck_min_area(2, 3000, 4000), 400, "(2*2+1)^2 * 4^2");
    assert_eq!(speck_min_area(2, 1600, 1600), 64, "(5*1.6)^2");
    assert!(
        speck_min_area(2, 4284, 5712) > 400,
        "20MP で織り目(150px²)を超えていない: {}",
        speck_min_area(2, 4284, 5712)
    );
}

#[test]
fn the_effective_radius_matches_the_area_threshold() {
    for (r, w, h) in [(2u32, 600u32, 600u32), (2, 3000, 4000), (2, 4284, 5712)] {
        let from_radius = f64::from(2 * speck_radius(r, w, h) + 1);
        let from_area = (speck_min_area(r, w, h) as f64).sqrt();
        assert!(
            (from_radius - from_area).abs() <= 1.0,
            "{w}x{h} 半径 {r}: 実効半径からの一辺 {from_radius} と面積からの一辺 {from_area} が食い違う"
        );
    }
    assert_eq!(
        speck_radius(2, 600, 600),
        2,
        "長辺 1000px 以下では換算しない"
    );
    assert_eq!(speck_radius(0, 4000, 4000), 0, "半径 0 は無効");
}

#[test]
fn an_absurd_radius_does_not_overflow() {
    assert!(speck_min_area(u32::MAX, 4000, 4000) > 0);
    assert!(speck_radius(u32::MAX, 4000, 4000) > 0);
}

#[test]
fn a_speck_that_survives_at_low_resolution_is_removed_at_high_resolution() {
    let speck = |w: u32, h: u32| -> bool {
        let mut mask = Mask::new(w, h, 0);
        for y in 10..17 {
            for x in 10..17 {
                mask.set(x, y, 255);
            }
        }
        remove_specks(&mask, 2).is_foreground(13, 13)
    };
    assert!(speck(500, 500), "長辺 500px で 7x7 が消えている");
    assert!(!speck(2000, 2000), "長辺 2000px で 7x7 が残っている");
}

#[test]
fn an_area_filter_with_radius_zero_is_the_identity() {
    let mask = from_ascii(&["..#..", ".###.", "..#.."]);
    assert_eq!(remove_specks(&mask, 0), mask);
}

#[test]
fn a_product_at_the_border_is_not_eroded_by_the_frame() {
    let mask = from_ascii(&["#####", "#####", "#####"]);
    let out = erode(&mask, 1);
    assert!(
        out.is_foreground(0, 0),
        "画像の縁で誤って収縮している\n{}",
        render(&out)
    );
}

fn patchwork() -> Mask {
    let mut mask = Mask::new(23, 17, 0);
    for y in 0..17 {
        for x in 0..23 {
            let v = if (x / 5 + y / 4) % 2 == 0 { 40 + x * 9 } else { (x * 37 + y * 91) % 256 };
            mask.set(x, y, v as u8);
        }
    }
    mask
}

fn negative(mask: &Mask) -> Mask {
    let mut out = Mask::new(mask.width(), mask.height(), 0);
    for y in 0..mask.height() {
        for x in 0..mask.width() {
            out.set(x, y, 255 - mask.get(x, y));
        }
    }
    out
}

fn fits_under(low: &Mask, high: &Mask) -> bool {
    low.as_slice().iter().zip(high.as_slice()).all(|(a, b)| a <= b)
}

#[test]
fn radii_add_up() {
    let mask = patchwork();
    for (a, b) in [(0, 2), (1, 1), (2, 3), (5, 30)] {
        assert_eq!(dilate(&dilate(&mask, a), b), dilate(&mask, a + b));
        assert_eq!(erode(&erode(&mask, a), b), erode(&mask, a + b));
    }
    assert_eq!(dilate(&mask, 40).get(0, 0), *mask.as_slice().iter().max().unwrap());
}

#[test]
fn closing_is_idempotent_and_dual_to_opening() {
    let mask = patchwork();
    for r in [1, 2, 4] {
        let closed = close(&mask, r);
        assert_ne!(closed, mask);
        assert_eq!(close(&closed, r), closed);
        assert_eq!(close(&negative(&mask), r), negative(&open(&mask, r)));
    }
}

#[test]
fn the_filters_keep_the_order_of_masks() {
    let high = patchwork();
    let low = erode(&high, 1);
    assert!(fits_under(&low, &high) && !fits_under(&high, &low));
    for r in [1, 3] {
        assert!(fits_under(&open(&low, r), &open(&high, r)));
        assert!(fits_under(&close(&low, r), &close(&high, r)));
    }
}

#[test]
fn a_dilation_fits_where_the_mask_fits_under_the_erosion() {
    let f = from_ascii(&[".......", "...#...", "......."]);
    let wide = from_ascii(&["..###..", "..###..", "..###.."]);
    let narrow = from_ascii(&["..###..", "..###..", "..##..."]);
    assert!(fits_under(&dilate(&f, 1), &wide) && fits_under(&f, &erode(&wide, 1)));
    assert!(!fits_under(&dilate(&f, 1), &narrow) && !fits_under(&f, &erode(&narrow, 1)));
}

#[test]
fn the_larger_radius_of_specks_decides() {
    let mut mask = Mask::new(60, 20, 0);
    for (left, side) in [(2, 2), (10, 4), (20, 6), (40, 9)] {
        for y in 2..2 + side {
            for x in left..left + side {
                mask.set(x, y, 200);
            }
        }
    }
    let by_two = remove_specks(&mask, 2);
    assert!(!by_two.is_foreground(11, 3) && by_two.is_foreground(21, 3));
    assert_eq!(remove_specks(&remove_specks(&mask, 1), 2), by_two);
    assert_eq!(remove_specks(&by_two, 1), by_two);
}
