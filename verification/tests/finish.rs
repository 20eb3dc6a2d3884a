use kiri::cutout::constraints::{Constraint, Constraints};
use kiri::cutout::finish::{
    apply_alpha, clean, complete, first_mask, plain_boundary, restore_forced_foreground, separability_inset,
    CutoutOptions,
};
use kiri::cutout::floodfill::FloodOptions;
use kiri::cutout::mask::Mask;
use kiri::raster::RgbaImage;

fn options() -> CutoutOptions {
    CutoutOptions::default()
}

#[test]
fn a_small_forced_area_survives_cleaning() {
    let mut marks = Constraints::new(40, 40);
    marks.mark(3, 3, Constraint::ForcedFg);
    let opts = CutoutOptions { constraints: Some(marks), fg_seeds: vec![(30, 30)], ..options() };
    let mut mask = Mask::new(40, 40, 0);
    mask.set(20, 20, 255);
    let out = clean(&mask, &opts);
    assert!(out.is_foreground(3, 3));
    assert!(out.is_foreground(30, 30) && out.is_foreground(35, 30) && !out.is_foreground(36, 30));
    assert!(!out.is_foreground(20, 20));
    let untouched = clean(&mask, &CutoutOptions { cleanup: 0, ..options() });
    assert!(untouched.is_foreground(20, 20));
}

#[test]
fn marks_of_another_size_force_nothing() {
    let mut marks = Constraints::new(5, 5);
    marks.mark(1, 1, Constraint::ForcedFg);
    let opts = CutoutOptions { constraints: Some(marks), ..options() };
    let mut mask = Mask::new(6, 6, 0);
    restore_forced_foreground(&mut mask, &opts);
    assert_eq!(mask, Mask::new(6, 6, 0));
}

#[test]
fn alpha_is_only_lowered() {
    let mut image = RgbaImage::from_pixels(2, 1, vec![[1, 2, 3, 100], [4, 5, 6, 255]]).unwrap();
    apply_alpha(&mut image, &Mask::new(2, 1, 200));
    assert_eq!(image.pixels(), [[1, 2, 3, 100], [4, 5, 6, 200]]);
}

#[test]
fn the_inset_reaches_past_specks_and_feather() {
    assert_eq!(separability_inset(&options(), 600, 600), 2 + 1 + 4);
    assert_eq!(separability_inset(&options(), 4000, 3000), 10 + 1 + 4);
}

#[test]
fn a_cutout_without_refinement_runs_through() {
    let mut image = RgbaImage::from_pixel(60, 60, [250, 250, 250, 255]);
    for y in 15..45 {
        for x in 15..45 {
            image.put_pixel(x, y, [40, 40, 40, 255]);
        }
    }
    image.put_pixel(2, 2, [40, 40, 40, 255]);
    let delta: Vec<u64> = image.pixels().iter().map(|p| u64::from(250 - p[0])).collect();
    let flood = FloodOptions { tolerance: 10, bbox: None, fg_seeds: Vec::new(), edge_threshold: 0, constraints: None, seal: 0 };
    let opts = CutoutOptions { refine: false, ..options() };
    let mask = first_mask(&image, &delta, &[], &flood, &opts);
    assert!(!mask.is_foreground(2, 2));
    assert_eq!(mask.stats().bbox, Some((15, 15, 44, 44)));
    let (colours, soft) = plain_boundary(image, &mask, [250, 250, 250], &opts);
    assert!(soft.get(14, 30) > 0 && soft.get(14, 30) < 128);
    let out = complete(colours, &soft, &delta, &opts);
    assert_eq!(out.stats.bbox, Some((15, 15, 44, 44)));
    assert!(!out.stats.touches_edge);
    assert_eq!(out.separability, Some(210));
    assert_eq!(out.image.get_pixel(30, 30), [40, 40, 40, 255]);
    assert_eq!(out.image.get_pixel(2, 2)[3], 0);
}
