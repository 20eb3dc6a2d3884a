use kiri::cutout::constraints::{
    by_mask, by_trimap, nearest, Constraint, ConstraintSource, Constraints, TRIMAP_BACKGROUND, TRIMAP_FOREGROUND,
};
use kiri::cutout::polygon::POLYGON_UNIT;
use kiri::raster::RgbaImage;

fn px(x: f64, y: f64) -> [i64; 2] {
    [(x * POLYGON_UNIT as f64) as i64, (y * POLYGON_UNIT as f64) as i64]
}

fn gray(w: u32, h: u32, v: u8) -> RgbaImage {
    RgbaImage::from_pixel(w, h, [v, v, v, 255])
}

fn marked(c: &Constraints, kind: Constraint) -> Vec<(u32, u32)> {
    let mut out = Vec::new();
    for y in 0..c.height() {
        for x in 0..c.width() {
            if c.at(x, y) == kind {
                out.push((x, y));
            }
        }
    }
    out
}

#[test]
fn a_trimap_splits_into_three_by_luminance() {
    let mut c = Constraints::new(3, 1);
    let mut image = gray(3, 1, 0);
    image.put_pixel(0, 0, [255, 255, 255, 255]);
    image.put_pixel(1, 0, [128, 128, 128, 255]);
    image.put_pixel(2, 0, [0, 0, 0, 255]);
    c.mark_by_luma(&image, |l| {
        if l >= TRIMAP_FOREGROUND {
            Some(Constraint::ForcedFg)
        } else if l <= TRIMAP_BACKGROUND {
            Some(Constraint::ForcedBg)
        } else {
            None
        }
    });
    assert_eq!(c.at(0, 0), Constraint::ForcedFg);
    assert_eq!(c.at(1, 0), Constraint::Free, "不明帯は何も強制しない");
    assert_eq!(c.at(2, 0), Constraint::ForcedBg);
}

#[test]
fn the_alpha_channel_is_ignored() {
    let mut c = Constraints::new(1, 1);
    let image = RgbaImage::from_pixel(1, 1, [255, 255, 255, 0]);
    c.mark_by_luma(&image, |l| (l != 0).then_some(Constraint::ForcedFg));
    assert_eq!(c.at(0, 0), Constraint::ForcedFg);
}

#[test]
fn a_mask_of_the_wrong_size_changes_nothing() {
    let mut c = Constraints::new(4, 4);
    c.mark_by_luma(&gray(3, 4, 255), |l| {
        (l != 0).then_some(Constraint::ForcedFg)
    });
    assert!(c.is_empty(), "寸法違いを黙って当てはめてはいけない");
}

#[test]
fn a_convex_polygon_fills_its_interior() {
    let mut c = Constraints::new(10, 10);
    c.fill_polygon(
        &[px(2.0, 2.0), px(6.0, 2.0), px(6.0, 5.0), px(2.0, 5.0)],
        Constraint::ForcedFg,
    );
    for y in 2..=4 {
        for x in 2..=5 {
            assert_eq!(c.at(x, y), Constraint::ForcedFg, "({x},{y}) が抜けている");
        }
    }
    assert_eq!(c.at(1, 3), Constraint::Free);
    assert_eq!(c.at(6, 3), Constraint::Free);
    assert_eq!(c.at(3, 5), Constraint::Free);
}

#[test]
fn a_concave_polygon_keeps_its_notch_outside() {
    let mut c = Constraints::new(12, 12);
    c.fill_polygon(
        &[
            px(1.0, 1.0),
            px(9.0, 1.0),
            px(9.0, 3.0),
            px(4.0, 3.0),
            px(4.0, 7.0),
            px(9.0, 7.0),
            px(9.0, 9.0),
            px(1.0, 9.0),
        ],
        Constraint::ForcedBg,
    );
    assert_eq!(c.at(6, 5), Constraint::Free, "凹みの中が塗られている");
    assert_eq!(c.at(2, 5), Constraint::ForcedBg, "背の部分が抜けている");
    assert_eq!(c.at(6, 2), Constraint::ForcedBg, "上の腕が抜けている");
    assert_eq!(c.at(6, 8), Constraint::ForcedBg, "下の腕が抜けている");
}

#[test]
fn a_self_intersecting_polygon_follows_the_even_odd_rule() {
    let mut c = Constraints::new(20, 12);
    c.fill_polygon(
        &[px(2.0, 2.0), px(17.0, 9.0), px(2.0, 9.0), px(17.0, 2.0)],
        Constraint::ForcedFg,
    );
    assert_eq!(c.at(9, 3), Constraint::ForcedFg, "上の三角が抜けている");
    assert_eq!(c.at(9, 8), Constraint::ForcedFg, "下の三角が抜けている");
    assert_eq!(c.at(3, 5), Constraint::Free, "左の隙間が塗られている");
    assert_eq!(c.at(16, 5), Constraint::Free, "右の隙間が塗られている");
}

#[test]
fn a_polygon_reaching_outside_the_image_keeps_the_part_inside() {
    let mut c = Constraints::new(8, 8);
    c.fill_polygon(
        &[px(-50.0, -50.0), px(4.0, -50.0), px(4.0, 4.0), px(-50.0, 4.0)],
        Constraint::ForcedFg,
    );
    assert_eq!(c.at(0, 0), Constraint::ForcedFg, "画像内の部分が抜けている");
    assert_eq!(c.at(3, 3), Constraint::ForcedFg);
    assert_eq!(c.at(4, 4), Constraint::Free, "外側まで塗っている");
    c.fill_polygon(
        &[px(100.0, 100.0), px(200.0, 100.0), px(150.0, 200.0)],
        Constraint::ForcedBg,
    );
    assert!(marked(&c, Constraint::ForcedBg).is_empty());
}

#[test]
fn a_degenerate_polygon_marks_nothing() {
    let mut c = Constraints::new(8, 8);
    c.fill_polygon(&[px(1.0, 1.0), px(5.0, 5.0)], Constraint::ForcedFg);
    assert!(c.is_empty(), "2 点では面にならない");
}

#[test]
fn overlapping_foreground_and_background_is_a_conflict() {
    let mut c = Constraints::new(10, 10);
    c.fill_polygon(
        &[px(1.0, 1.0), px(6.0, 1.0), px(6.0, 6.0), px(1.0, 6.0)],
        Constraint::ForcedFg,
    );
    assert!(c.conflict().is_none(), "重なっていない段階で衝突と言っている");
    c.fill_polygon(
        &[px(4.0, 4.0), px(9.0, 4.0), px(9.0, 9.0), px(4.0, 9.0)],
        Constraint::ForcedBg,
    );
    let conflict = c.conflict().expect("重なりを見落としている");
    assert_eq!(conflict.count, 4);
    assert_eq!(conflict.bbox, (4, 4, 5, 5));
}

#[test]
fn the_ratios_add_up_to_one() {
    let mut c = Constraints::new(10, 10);
    c.fill_polygon(
        &[px(0.0, 0.0), px(10.0, 0.0), px(10.0, 2.0), px(0.0, 2.0)],
        Constraint::ForcedFg,
    );
    c.fill_polygon(
        &[px(0.0, 5.0), px(10.0, 5.0), px(10.0, 10.0), px(0.0, 10.0)],
        Constraint::ForcedBg,
    );
    let (fg, bg, unknown, total) = c.ratios();
    let share = |n: u64| n as f64 / total as f64;
    assert_eq!(share(fg), 0.20);
    assert_eq!(share(bg), 0.50);
    assert_eq!(share(unknown), 0.30);
}

#[test]
fn the_sources_are_listed_once_in_the_order_they_were_given() {
    let mut c = Constraints::new(4, 4);
    c.note(ConstraintSource::Trimap);
    c.note(ConstraintSource::FgPolygon);
    c.note(ConstraintSource::Trimap);
    let names: Vec<&str> = c.sources().iter().map(|s| s.as_str()).collect();
    assert_eq!(names, ["trimap", "fg_polygon"]);
}

#[test]
fn a_disc_is_round_and_clipped_to_the_image() {
    let mut c = Constraints::new(10, 10);
    c.mark_disc(1, 1, 3, Constraint::ForcedFg);
    assert_eq!(c.at(1, 1), Constraint::ForcedFg);
    assert_eq!(c.at(4, 1), Constraint::ForcedFg, "真横 3px は円の内側");
    assert_eq!(c.at(4, 4), Constraint::Free, "斜め 3px は円の外側");
    c.mark_disc(9, 9, 5, Constraint::ForcedFg);
    assert_eq!(c.at(9, 9), Constraint::ForcedFg);
}

#[test]
fn marks_follow_the_nearest_pixel_to_another_size() {
    let mut c = Constraints::new(8, 4);
    c.note(ConstraintSource::Trimap);
    c.mark(5, 1, Constraint::ForcedFg);
    c.mark(1, 3, Constraint::ForcedBg);
    let half = c.resampled(4, 2);
    assert_eq!((half.width(), half.height()), (4, 2));
    assert_eq!(half.at(2, 0), Constraint::ForcedFg);
    assert_eq!(half.at(0, 1), Constraint::ForcedBg);
    assert_eq!(half.counts(), (1, 1));
    assert_eq!(half.sources(), c.sources());
    assert_eq!(c.resampled(8, 4), c);
    assert_eq!(nearest(0, 3, 9), 1);
    assert_eq!(nearest(8, 9, 3), 2);
}

#[test]
fn a_single_mark_is_found() {
    let mut c = Constraints::new(70, 3);
    assert!(!c.any_fg() && !c.any_bg() && c.is_empty());
    c.mark(69, 2, Constraint::ForcedFg);
    assert!(c.any_fg() && !c.any_bg());
    c.mark(0, 1, Constraint::ForcedBg);
    assert!(c.any_fg() && c.any_bg() && !c.is_empty());
    assert!(c.has_fg(209) && c.has_bg(70) && !c.has_bg(209));
}

#[test]
fn the_middle_of_a_trimap_says_nothing() {
    assert_eq!(by_trimap(192), Some(Constraint::ForcedFg));
    assert_eq!(by_trimap(191), None);
    assert_eq!(by_trimap(64), None);
    assert_eq!(by_trimap(63), Some(Constraint::ForcedBg));
    assert!(by_mask(128) && !by_mask(127));
}
