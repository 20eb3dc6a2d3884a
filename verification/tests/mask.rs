use kiri::cutout::mask::{Mask, MaskStats};

fn ratio(s: &MaskStats) -> f64 {
    s.foreground as f64 / s.total as f64
}

#[test]
fn an_empty_mask_has_no_bbox() {
    let mask = Mask::new(10, 10, 0);
    let s = mask.stats();
    assert_eq!(ratio(&s), 0.0);
    assert_eq!(s.bbox, None);
    assert!(!s.touches_edge);
}

#[test]
fn a_full_mask_covers_everything_and_touches_the_edge() {
    let mask = Mask::new(10, 10, 255);
    let s = mask.stats();
    assert_eq!(ratio(&s), 1.0);
    assert_eq!(s.bbox, Some((0, 0, 9, 9)));
    assert!(s.touches_edge);
}

#[test]
fn bbox_covers_only_the_foreground() {
    let mut mask = Mask::new(10, 10, 0);
    for y in 3..=5 {
        for x in 2..=6 {
            mask.set(x, y, 255);
        }
    }
    let s = mask.stats();
    assert_eq!(s.bbox, Some((2, 3, 6, 5)));
    assert_eq!(ratio(&s), 15.0 / 100.0);
    assert!(!s.touches_edge, "外周に接していない");
}

#[test]
fn touching_any_border_is_detected() {
    for (x, y) in [(0u32, 5u32), (9, 5), (5, 0), (5, 9)] {
        let mut mask = Mask::new(10, 10, 0);
        mask.set(x, y, 255);
        assert!(
            mask.stats().touches_edge,
            "({x},{y}) が外周として検出されない"
        );
    }
}

#[test]
fn bbox_above_includes_faint_edges() {
    let mut mask = Mask::new(10, 10, 0);
    mask.set(5, 5, 255);
    mask.set(3, 3, 20);
    assert_eq!(mask.stats().bbox, Some((5, 5, 5, 5)));
    assert_eq!(mask.bbox_above(0), Some((3, 3, 5, 5)));
    assert_eq!(mask.bbox_above(64), Some((5, 5, 5, 5)));
}

#[test]
fn bbox_above_is_none_for_an_empty_mask() {
    assert_eq!(Mask::new(4, 4, 0).bbox_above(0), None);
}

#[test]
fn feathered_values_below_the_threshold_are_not_foreground() {
    let mut mask = Mask::new(4, 1, 0);
    mask.set(0, 0, 0);
    mask.set(1, 0, 127);
    mask.set(2, 0, 128);
    mask.set(3, 0, 255);
    assert!(!mask.is_foreground(0, 0));
    assert!(!mask.is_foreground(1, 0));
    assert!(mask.is_foreground(2, 0));
    assert!(mask.is_foreground(3, 0));
    assert_eq!(ratio(&mask.stats()), 0.5);
}

#[test]
fn the_frame_counts_as_background() {
    let full = Mask::new(3, 3, 255);
    assert!(full.touches_background(0, 1) && full.touches_background(2, 2));
    assert!(!full.touches_background(1, 1));
    let mut holed = Mask::new(5, 5, 255);
    holed.set(2, 2, 0);
    assert!(holed.touches_background(2, 1) && holed.touches_background(3, 2));
    assert!(!holed.touches_background(1, 1));
}
